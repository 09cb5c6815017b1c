//! Command-line configuration: the argument list is folded left to right
//! into a builder; each argument is either `key=value`, a key whose value is
//! the following argument, a bare flag, or the positional input filename.

use vstd::prelude::*;
use vstd::string::{StrSliceExecFns, StringExecFns};
use crate::memory::{is_digit, digit_value, memory_value, parse_memory_value, representable};

verus! {

/// One binary gigabyte, the fragment size used when none is given.
pub const DEFAULT_FRAGMENT_SIZE: usize = 1073741824;

/// No fragment may be planned smaller than this many bytes.
pub const MINIMUM_FRAGMENT_SIZE: usize = 1024;

/// The configuration a successful parse produces.
pub struct ProgramInput {
    pub to_split: bool,
    pub input_filename: String,
    pub fragment_size: usize,
    pub output_directory: Option<String>,
    pub parts: Option<usize>,
    pub part_number: Option<usize>,
}

pub struct ProgramInputBuilder {
    pub to_split: bool,
    pub input_filename: Option<String>,
    pub fragment_size: usize,
    pub output_directory: Option<String>,
    pub parts: Option<usize>,
    pub part_number: Option<usize>,
}

/// Mathematical image of `ProgramInput`.
pub ghost struct ConfigModel {
    pub to_split: bool,
    pub input_filename: Seq<char>,
    pub fragment_size: nat,
    pub output_directory: Option<Seq<char>>,
    pub parts: Option<nat>,
    pub part_number: Option<nat>,
}

/// Mathematical image of the builder while arguments are folded in.
pub ghost struct BuilderModel {
    pub to_split: bool,
    pub input_filename: Option<Seq<char>>,
    pub fragment_size: nat,
    pub output_directory: Option<Seq<char>>,
    pub parts: Option<nat>,
    pub part_number: Option<nat>,
}

pub open spec fn view_opt_string(o: Option<String>) -> Option<Seq<char>> {
    match o {
        Some(s) => Some(s@),
        None => None,
    }
}

pub open spec fn view_opt_usize(o: Option<usize>) -> Option<nat> {
    match o {
        Some(v) => Some(v as nat),
        None => None,
    }
}

impl View for ProgramInput {
    type V = ConfigModel;

    open spec fn view(&self) -> ConfigModel {
        ConfigModel {
            to_split: self.to_split,
            input_filename: self.input_filename@,
            fragment_size: self.fragment_size as nat,
            output_directory: view_opt_string(self.output_directory),
            parts: view_opt_usize(self.parts),
            part_number: view_opt_usize(self.part_number),
        }
    }
}

impl View for ProgramInputBuilder {
    type V = BuilderModel;

    open spec fn view(&self) -> BuilderModel {
        BuilderModel {
            to_split: self.to_split,
            input_filename: view_opt_string(self.input_filename),
            fragment_size: self.fragment_size as nat,
            output_directory: view_opt_string(self.output_directory),
            parts: view_opt_usize(self.parts),
            part_number: view_opt_usize(self.part_number),
        }
    }
}

/// What a parse can report: a configuration, a configuration error carrying
/// the offending token, or the two internal acknowledgements of the
/// argument handler.
pub enum ParseResult {
    Success(ProgramInput),
    ThereIsNoInputFilename,
    MemoryValueCannotBeParsed(String),
    NumberOfPartsCannotBeParsed(String),
    NumberOfPartsShouldBeMoreThanOne(usize),
    PartNumberCannotBeParsed(String),
    PartNumberShouldBePositive(usize),
    FragmentSizeIsToSmall(usize),
    ThereIsNoValue(String),
    SuccessfulHandledArgument,
    SuccessfulHandledFlag,
    Help,
}

/// Mathematical image of `ParseResult`.
pub ghost enum OutcomeModel {
    Success(ConfigModel),
    ThereIsNoInputFilename,
    MemoryValueCannotBeParsed(Seq<char>),
    NumberOfPartsCannotBeParsed(Seq<char>),
    NumberOfPartsShouldBeMoreThanOne(nat),
    PartNumberCannotBeParsed(Seq<char>),
    PartNumberShouldBePositive(nat),
    FragmentSizeIsToSmall(nat),
    ThereIsNoValue(Seq<char>),
    SuccessfulHandledArgument,
    SuccessfulHandledFlag,
    Help,
}

impl View for ParseResult {
    type V = OutcomeModel;

    open spec fn view(&self) -> OutcomeModel {
        match self {
            ParseResult::Success(c) => OutcomeModel::Success(c@),
            ParseResult::ThereIsNoInputFilename => OutcomeModel::ThereIsNoInputFilename,
            ParseResult::MemoryValueCannotBeParsed(s) => OutcomeModel::MemoryValueCannotBeParsed(s@),
            ParseResult::NumberOfPartsCannotBeParsed(s) => OutcomeModel::NumberOfPartsCannotBeParsed(s@),
            ParseResult::NumberOfPartsShouldBeMoreThanOne(n) => OutcomeModel::NumberOfPartsShouldBeMoreThanOne(*n as nat),
            ParseResult::PartNumberCannotBeParsed(s) => OutcomeModel::PartNumberCannotBeParsed(s@),
            ParseResult::PartNumberShouldBePositive(n) => OutcomeModel::PartNumberShouldBePositive(*n as nat),
            ParseResult::FragmentSizeIsToSmall(n) => OutcomeModel::FragmentSizeIsToSmall(*n as nat),
            ParseResult::ThereIsNoValue(s) => OutcomeModel::ThereIsNoValue(s@),
            ParseResult::SuccessfulHandledArgument => OutcomeModel::SuccessfulHandledArgument,
            ParseResult::SuccessfulHandledFlag => OutcomeModel::SuccessfulHandledFlag,
            ParseResult::Help => OutcomeModel::Help,
        }
    }
}

/// A non-empty run of decimal digits.
pub open spec fn is_dec_digits(s: Seq<char>) -> bool {
    s.len() > 0 && forall|k: int| 0 <= k < s.len() ==> is_digit(s[k])
}

/// The number a run of decimal digits denotes.
pub open spec fn dec_value(s: Seq<char>) -> nat
    decreases s.len(),
{
    if s.len() == 0 {
        0
    } else {
        dec_value(s.drop_last()) * 10 + digit_value(s.last())
    }
}

proof fn lemma_dec_value_prefix(s: Seq<char>, i: int)
    requires
        0 <= i <= s.len(),
    ensures
        dec_value(s.take(i)) <= dec_value(s),
    decreases s.len(),
{
    if i == s.len() {
        assert(s.take(i) =~= s);
    } else {
        lemma_dec_value_prefix(s.drop_last(), i);
        assert(s.drop_last().take(i) =~= s.take(i));
        assert(dec_value(s.drop_last()) * 10 >= dec_value(s.drop_last()));
    }
}

/// Reads a non-empty all-digit string as a number. Fails exactly when the
/// string is empty, holds a non-digit, or denotes more than `usize` holds.
fn parse_usize(s: &String) -> (r: Result<usize, ()>)
    ensures
        match r {
            Ok(v) => is_dec_digits(s@) && dec_value(s@) <= usize::MAX && v == dec_value(s@),
            Err(_) => !(is_dec_digits(s@) && dec_value(s@) <= usize::MAX),
        },
{
    let st = s.as_str();
    let n = st.unicode_len();
    if n == 0 {
        return Err(());
    }
    let mut i: usize = 0;
    while i < n
        invariant
            i <= n,
            n == st@.len(),
            st@ == s@,
            forall|k: int| 0 <= k < i ==> is_digit(st@[k]),
        decreases n - i,
    {
        let c = st.get_char(i);
        let u = c as u32;
        if !(48 <= u && u <= 57) {
            return Err(());
        }
        i += 1;
    }
    let mut value: usize = 0;
    let mut j: usize = 0;
    while j < n
        invariant
            j <= n,
            n == st@.len(),
            st@ == s@,
            forall|k: int| 0 <= k < n ==> is_digit(st@[k]),
            value == dec_value(st@.take(j as int)),
        decreases n - j,
    {
        let c = st.get_char(j);
        let d = (c as u32 - 48) as usize;
        proof {
            assert(st@.take(j + 1).drop_last() =~= st@.take(j as int));
            assert(st@.take(j + 1).last() == st@[j as int]);
        }
        if value > (usize::MAX - d) / 10 {
            proof {
                lemma_dec_value_prefix(st@, j + 1);
                assert(dec_value(st@.take(j + 1)) > usize::MAX);
            }
            return Err(());
        }
        value = value * 10 + d;
        j += 1;
    }
    proof {
        assert(st@.take(n as int) =~= st@);
    }
    Ok(value)
}

/// Index of the first `=` in the text, if any.
pub open spec fn eq_sign_index(s: Seq<char>) -> Option<int>
    decreases s.len(),
{
    if s.len() == 0 {
        None
    } else if s[0] == '=' {
        Some(0)
    } else {
        match eq_sign_index(s.drop_first()) {
            Some(j) => Some(j + 1),
            None => None,
        }
    }
}

proof fn lemma_eq_sign_skip(s: Seq<char>, i: int)
    requires
        0 <= i <= s.len(),
        forall|k: int| 0 <= k < i ==> s[k] != '=',
    ensures
        eq_sign_index(s) == match eq_sign_index(s.skip(i)) {
            Some(j) => Some(i + j),
            None => None::<int>,
        },
    decreases i,
{
    if i == 0 {
        assert(s.skip(0) =~= s);
    } else {
        assert(s[0] != '=');
        lemma_eq_sign_skip(s.drop_first(), i - 1);
        assert(s.drop_first().skip(i - 1) =~= s.skip(i));
    }
}

/// Finds the first `=` of the argument, splitting `key=value` forms.
fn find_equal_sign(s: &String) -> (r: Option<usize>)
    ensures
        match r {
            Some(j) => j < s@.len() && eq_sign_index(s@) == Some(j as int),
            None => eq_sign_index(s@) is None,
        },
{
    let st = s.as_str();
    let n = st.unicode_len();
    let mut i: usize = 0;
    while i < n
        invariant
            i <= n,
            n == st@.len(),
            st@ == s@,
            forall|k: int| 0 <= k < i ==> st@[k] != '=',
        decreases n - i,
    {
        let c = st.get_char(i);
        if c == '=' {
            proof {
                lemma_eq_sign_skip(s@, i as int);
                assert(s@.skip(i as int)[0] == '=');
            }
            return Some(i);
        }
        i += 1;
    }
    proof {
        lemma_eq_sign_skip(s@, n as int);
        assert(s@.skip(n as int) =~= Seq::<char>::empty());
    }
    None
}

/// What one argument does to the fold: a consumed value, a bare flag, or an
/// outcome that stops the parse at once.
pub ghost enum HandleModel {
    Argument(BuilderModel),
    Flag(BuilderModel),
    Stop(OutcomeModel),
}

/// The effect of one key/value pair on the builder.
pub open spec fn handle_model(key: Seq<char>, value: Seq<char>, b: BuilderModel) -> HandleModel {
    if key == "-S"@ || key == "--fragment-size"@ {
        if value.len() == 0 {
            HandleModel::Stop(OutcomeModel::ThereIsNoValue(key))
        } else if !representable(value) {
            HandleModel::Stop(OutcomeModel::MemoryValueCannotBeParsed(value))
        } else if memory_value(value) < MINIMUM_FRAGMENT_SIZE {
            HandleModel::Stop(OutcomeModel::FragmentSizeIsToSmall(MINIMUM_FRAGMENT_SIZE as nat))
        } else {
            HandleModel::Argument(BuilderModel { fragment_size: memory_value(value), ..b })
        }
    } else if key == "-n"@ || key == "--parts"@ {
        if value.len() == 0 {
            HandleModel::Stop(OutcomeModel::ThereIsNoValue(key))
        } else if !(is_dec_digits(value) && dec_value(value) <= usize::MAX) {
            HandleModel::Stop(OutcomeModel::NumberOfPartsCannotBeParsed(value))
        } else if dec_value(value) <= 1 {
            HandleModel::Stop(OutcomeModel::NumberOfPartsShouldBeMoreThanOne(dec_value(value)))
        } else {
            HandleModel::Argument(BuilderModel { parts: Some(dec_value(value)), ..b })
        }
    } else if key == "-N"@ || key == "--part-number"@ {
        if value.len() == 0 {
            HandleModel::Stop(OutcomeModel::ThereIsNoValue(key))
        } else if !(is_dec_digits(value) && dec_value(value) <= usize::MAX) {
            HandleModel::Stop(OutcomeModel::PartNumberCannotBeParsed(value))
        } else if dec_value(value) == 0 {
            HandleModel::Stop(OutcomeModel::PartNumberShouldBePositive(0))
        } else {
            HandleModel::Argument(BuilderModel { part_number: Some(dec_value(value)), ..b })
        }
    } else if key == "-o"@ || key == "--output-directory"@ {
        if value.len() == 0 {
            HandleModel::Stop(OutcomeModel::ThereIsNoValue(key))
        } else {
            HandleModel::Argument(BuilderModel { output_directory: Some(value), ..b })
        }
    } else if key == "-m"@ || key == "--merge"@ {
        HandleModel::Flag(BuilderModel { to_split: false, ..b })
    } else if key == "-s"@ || key == "--split"@ {
        HandleModel::Flag(BuilderModel { to_split: true, ..b })
    } else if key == "-h"@ || key == "--help"@ {
        HandleModel::Stop(OutcomeModel::Help)
    } else if b.input_filename is None {
        HandleModel::Flag(BuilderModel { input_filename: Some(key), ..b })
    } else {
        HandleModel::Flag(b)
    }
}

fn key_is(key: &String, lit: &str) -> (b: bool)
    ensures
        b == (key@ == lit@),
{
    let s = String::from_str(lit);
    *key == s
}

impl ProgramInputBuilder {
    fn new() -> (b: ProgramInputBuilder)
        ensures
            b@ == initial_builder(),
    {
        ProgramInputBuilder {
            to_split: true,
            input_filename: None,
            fragment_size: DEFAULT_FRAGMENT_SIZE,
            output_directory: None,
            parts: None,
            part_number: None,
        }
    }
}

/// The builder before any argument is folded in: split mode, the default
/// fragment size, and nothing else chosen.
pub open spec fn initial_builder() -> BuilderModel {
    BuilderModel {
        to_split: true,
        input_filename: None,
        fragment_size: DEFAULT_FRAGMENT_SIZE as nat,
        output_directory: None,
        parts: None,
        part_number: None,
    }
}

/// Key, value, and whether the value was taken from the next argument.
pub open spec fn split_key(args: Seq<Seq<char>>, i: int) -> (Seq<char>, Seq<char>, bool)
    recommends
        0 <= i < args.len(),
{
    let s = args[i];
    match eq_sign_index(s) {
        Some(j) => (s.take(j), s.skip(j + 1), false),
        None => if i + 1 < args.len() {
            (s, args[i + 1], true)
        } else {
            (s, Seq::empty(), false)
        },
    }
}

/// The rest of the parse, from argument `i` on, with builder state `b`.
pub open spec fn parse_from(args: Seq<Seq<char>>, i: int, b: BuilderModel) -> OutcomeModel
    decreases args.len() - i,
{
    if i >= args.len() {
        match b.input_filename {
            None => OutcomeModel::ThereIsNoInputFilename,
            Some(name) => OutcomeModel::Success(ConfigModel {
                to_split: b.to_split,
                input_filename: name,
                fragment_size: b.fragment_size,
                output_directory: b.output_directory,
                parts: b.parts,
                part_number: b.part_number,
            }),
        }
    } else {
        let kvc = split_key(args, i);
        match handle_model(kvc.0, kvc.1, b) {
            HandleModel::Argument(b2) => parse_from(args, if kvc.2 { i + 2 } else { i + 1 }, b2),
            HandleModel::Flag(b2) => parse_from(args, i + 1, b2),
            HandleModel::Stop(o) => o,
        }
    }
}

/// The whole parse: the first argument is the program's own name; a run
/// with no further argument has no input filename.
pub open spec fn parse_model(args: Seq<Seq<char>>) -> OutcomeModel {
    if args.len() <= 1 {
        OutcomeModel::ThereIsNoInputFilename
    } else {
        parse_from(args, 1, initial_builder())
    }
}

/// The configuration invariant: the fragment size reaches the minimum, a
/// part count is at least two, a part number at least one.
pub open spec fn config_valid(c: ConfigModel) -> bool {
    &&& c.fragment_size >= MINIMUM_FRAGMENT_SIZE
    &&& (c.parts matches Some(p) ==> p >= 2)
    &&& (c.part_number matches Some(p) ==> p >= 1)
}

/// The same invariant on the builder while arguments are folded in.
pub open spec fn builder_valid(b: BuilderModel) -> bool {
    &&& b.fragment_size >= MINIMUM_FRAGMENT_SIZE
    &&& (b.parts matches Some(p) ==> p >= 2)
    &&& (b.part_number matches Some(p) ==> p >= 1)
}

proof fn lemma_parse_from_valid(args: Seq<Seq<char>>, i: int, b: BuilderModel, c: ConfigModel)
    requires
        builder_valid(b),
        parse_from(args, i, b) == OutcomeModel::Success(c),
    ensures
        config_valid(c),
    decreases args.len() - i,
{
    if i >= args.len() {
    } else {
        let kvc = split_key(args, i);
        match handle_model(kvc.0, kvc.1, b) {
            HandleModel::Argument(b2) => {
                assert(builder_valid(b2));
                lemma_parse_from_valid(args, if kvc.2 { i + 2 } else { i + 1 }, b2, c);
            },
            HandleModel::Flag(b2) => {
                assert(builder_valid(b2));
                lemma_parse_from_valid(args, i + 1, b2, c);
            },
            HandleModel::Stop(_) => {},
        }
    }
}

/// Law: every configuration the parser reports as a success obeys the
/// configuration invariant.
pub proof fn lemma_parse_success_valid(args: Seq<Seq<char>>, c: ConfigModel)
    requires
        parse_model(args) == OutcomeModel::Success(c),
    ensures
        config_valid(c),
{
    lemma_parse_from_valid(args, 1, initial_builder(), c);
}

impl ProgramInput {
    /// Folds the argument list into a configuration, or reports the first
    /// configuration error.
    pub fn parse(arguments: &Vec<String>) -> (r: ParseResult)
        ensures
            r@ == parse_model(arguments.deep_view()),
    {
        if arguments.len() <= 1 {
            return ParseResult::ThereIsNoInputFilename;
        }
        let mut builder = ProgramInputBuilder::new();
        let ghost args = arguments.deep_view();
        let mut i: usize = 1;
        while i < arguments.len()
            invariant
                1 <= i,
                args == arguments.deep_view(),
                args.len() == arguments.len(),
                args.len() > 1,
                parse_from(args, i as int, builder@) == parse_model(args),
            decreases arguments.len() - i,
        {
            proof {
                assert(args[i as int] == arguments@[i as int]@);
            }
            let string = &arguments[i];
            let key: String;
            let value: String;
            let is_next_argument_a_value: bool;
            match find_equal_sign(string) {
                Some(j) => {
                    let n = string.as_str().unicode_len();
                    key = String::from_str(string.as_str().substring_char(0, j));
                    value = String::from_str(string.as_str().substring_char(j + 1, n));
                    is_next_argument_a_value = false;
                    proof {
                        assert(key@ =~= string@.take(j as int));
                        assert(value@ =~= string@.skip(j + 1));
                    }
                },
                None => {
                    key = string.clone();
                    if i + 1 < arguments.len() {
                        proof {
                            assert(args[i + 1] == arguments@[i + 1]@);
                        }
                        value = arguments[i + 1].clone();
                        is_next_argument_a_value = true;
                    } else {
                        value = String::new();
                        is_next_argument_a_value = false;
                        proof {
                            assert(value@ =~= Seq::<char>::empty());
                        }
                    }
                },
            }
            proof {
                let kvc = split_key(args, i as int);
                assert(kvc.0 == key@ && kvc.1 == value@ && kvc.2 == is_next_argument_a_value);
            }
            let result = Self::handle_argument(&key, &value, &mut builder);
            match result {
                ParseResult::SuccessfulHandledArgument => {
                    if is_next_argument_a_value {
                        i += 1;
                    }
                },
                ParseResult::SuccessfulHandledFlag => {},
                _ => {
                    return result;
                },
            }
            i += 1;
        }
        match builder.input_filename {
            Some(name) => ParseResult::Success(ProgramInput {
                to_split: builder.to_split,
                input_filename: name,
                fragment_size: builder.fragment_size,
                output_directory: builder.output_directory,
                parts: builder.parts,
                part_number: builder.part_number,
            }),
            None => ParseResult::ThereIsNoInputFilename,
        }
    }

    /// Applies one key/value pair to the builder, exactly as `handle_model`
    /// says; on an error outcome the builder is left unchanged.
    fn handle_argument(key: &String, value: &String, builder: &mut ProgramInputBuilder) -> (r: ParseResult)
        ensures
            match handle_model(key@, value@, old(builder)@) {
                HandleModel::Argument(b2) => r@ == OutcomeModel::SuccessfulHandledArgument
                    && final(builder)@ == b2,
                HandleModel::Flag(b2) => r@ == OutcomeModel::SuccessfulHandledFlag
                    && final(builder)@ == b2,
                HandleModel::Stop(o) => r@ == o && final(builder)@ == old(builder)@,
            },
    {
        if key_is(key, "-S") || key_is(key, "--fragment-size") {
            if value.as_str().is_empty() {
                return ParseResult::ThereIsNoValue(key.clone());
            }
            match parse_memory_value(value) {
                Ok(v) => {
                    if v < MINIMUM_FRAGMENT_SIZE {
                        ParseResult::FragmentSizeIsToSmall(MINIMUM_FRAGMENT_SIZE)
                    } else {
                        builder.fragment_size = v;
                        ParseResult::SuccessfulHandledArgument
                    }
                },
                Err(_) => ParseResult::MemoryValueCannotBeParsed(value.clone()),
            }
        } else if key_is(key, "-n") || key_is(key, "--parts") {
            if value.as_str().is_empty() {
                return ParseResult::ThereIsNoValue(key.clone());
            }
            match parse_usize(value) {
                Ok(number) => {
                    if number <= 1 {
                        ParseResult::NumberOfPartsShouldBeMoreThanOne(number)
                    } else {
                        builder.parts = Some(number);
                        ParseResult::SuccessfulHandledArgument
                    }
                },
                Err(_) => ParseResult::NumberOfPartsCannotBeParsed(value.clone()),
            }
        } else if key_is(key, "-N") || key_is(key, "--part-number") {
            if value.as_str().is_empty() {
                return ParseResult::ThereIsNoValue(key.clone());
            }
            match parse_usize(value) {
                Ok(number) => {
                    if number == 0 {
                        ParseResult::PartNumberShouldBePositive(number)
                    } else {
                        builder.part_number = Some(number);
                        ParseResult::SuccessfulHandledArgument
                    }
                },
                Err(_) => ParseResult::PartNumberCannotBeParsed(value.clone()),
            }
        } else if key_is(key, "-o") || key_is(key, "--output-directory") {
            if value.as_str().is_empty() {
                return ParseResult::ThereIsNoValue(key.clone());
            }
            builder.output_directory = Some(value.clone());
            ParseResult::SuccessfulHandledArgument
        } else if key_is(key, "-m") || key_is(key, "--merge") {
            builder.to_split = false;
            ParseResult::SuccessfulHandledFlag
        } else if key_is(key, "-s") || key_is(key, "--split") {
            builder.to_split = true;
            ParseResult::SuccessfulHandledFlag
        } else if key_is(key, "-h") || key_is(key, "--help") {
            ParseResult::Help
        } else if builder.input_filename.is_none() {
            builder.input_filename = Some(key.clone());
            ParseResult::SuccessfulHandledFlag
        } else {
            // An unknown argument after the input filename is ignored.
            ParseResult::SuccessfulHandledFlag
        }
    }
}

} // verus!
