//! Deterministic fragment and merged-output filenames, derived from the
//! input path pattern by pure character arithmetic: a fragment is the
//! pattern's stem plus `_[index].splm`, placed in the chosen output
//! directory or beside the input; the merged output carries `_[merged]`
//! between the stem and the original extension.

use vstd::prelude::*;
use vstd::pervasive::unreached;
use vstd::string::{StrSliceExecFns, StringExecFns};
use crate::cli::view_opt_string;

verus! {

/// Index of the last `/` of the path, if any.
pub open spec fn last_slash(s: Seq<char>) -> Option<int>
    decreases s.len(),
{
    if s.len() == 0 {
        None
    } else if s.last() == '/' {
        Some(s.len() - 1)
    } else {
        last_slash(s.drop_last())
    }
}

/// The directory part of the path: everything before the last `/`, the
/// root `/` itself when the last `/` opens the path, and empty when the
/// path is a bare file name.
pub open spec fn parent_dir(s: Seq<char>) -> Seq<char> {
    match last_slash(s) {
        None => Seq::empty(),
        Some(j) => if j == 0 {
            seq!['/']
        } else {
            s.take(j)
        },
    }
}

/// The last component of the path: everything after the last `/`.
pub open spec fn file_name(s: Seq<char>) -> Seq<char> {
    match last_slash(s) {
        None => s,
        Some(j) => s.skip(j + 1),
    }
}

/// Index of the dot opening the component's extension: the last `.`, save
/// that a leading `.` (a hidden file) opens no extension.
pub open spec fn extension_dot(c: Seq<char>) -> Option<int>
    decreases c.len(),
{
    if c.len() <= 1 {
        None
    } else if c.last() == '.' {
        Some(c.len() - 1)
    } else {
        extension_dot(c.drop_last())
    }
}

/// The component with its extension (and the dot) stripped.
pub open spec fn stem(c: Seq<char>) -> Seq<char> {
    match extension_dot(c) {
        None => c,
        Some(j) => c.take(j),
    }
}

/// The component's extension, without the dot.
pub open spec fn extension(c: Seq<char>) -> Option<Seq<char>> {
    match extension_dot(c) {
        None => None,
        Some(j) => Some(c.skip(j + 1)),
    }
}

/// A directory and a file name joined with `/`, with no separator doubled
/// and an empty directory standing for the current one.
pub open spec fn join(dir: Seq<char>, name: Seq<char>) -> Seq<char> {
    if dir.len() == 0 {
        name
    } else if dir.last() == '/' {
        dir + name
    } else {
        dir + seq!['/'] + name
    }
}

/// The decimal digit characters of a number, most significant first.
pub open spec fn dec_digits(n: nat) -> Seq<char>
    decreases n,
{
    if n < 10 {
        seq![digit_char(n)]
    } else {
        dec_digits(n / 10) + seq![digit_char((n % 10) as nat)]
    }
}

pub open spec fn digit_char(d: nat) -> char
    recommends
        d < 10,
{
    if d == 0 {
        '0'
    } else if d == 1 {
        '1'
    } else if d == 2 {
        '2'
    } else if d == 3 {
        '3'
    } else if d == 4 {
        '4'
    } else if d == 5 {
        '5'
    } else if d == 6 {
        '6'
    } else if d == 7 {
        '7'
    } else if d == 8 {
        '8'
    } else {
        '9'
    }
}

/// The file name of one fragment: the pattern's stem, the bracketed
/// 1-based index, and the `.splm` extension.
pub open spec fn fragment_name(pattern: Seq<char>, index: nat) -> Seq<char> {
    stem(file_name(pattern)) + "_["@ + dec_digits(index) + "].splm"@
}

/// Where fragment `index` of the pattern lives: in the output directory
/// when one is given, else beside the input.
pub open spec fn fragment_path_spec(pattern: Seq<char>, outdir: Option<Seq<char>>, index: nat) -> Seq<char> {
    match outdir {
        Some(d) => join(d, fragment_name(pattern, index)),
        None => join(parent_dir(pattern), fragment_name(pattern, index)),
    }
}

/// The merged output: `_[merged]` between the stem and the extension,
/// beside the input.
pub open spec fn merged_path_spec(pattern: Seq<char>) -> Seq<char>
    recommends
        extension(file_name(pattern)) is Some,
{
    join(
        parent_dir(pattern),
        stem(file_name(pattern)) + "_[merged]"@ + "."@ + extension(file_name(pattern))->Some_0,
    )
}

proof fn lemma_last_slash_found(s: Seq<char>, i: int)
    requires
        0 <= i < s.len(),
        s[i] == '/',
        forall|k: int| i < k < s.len() ==> s[k] != '/',
    ensures
        last_slash(s) == Some(i),
    decreases s.len(),
{
    if i == s.len() - 1 {
    } else {
        lemma_last_slash_found(s.drop_last(), i);
    }
}

proof fn lemma_last_slash_none(s: Seq<char>)
    requires
        forall|k: int| 0 <= k < s.len() ==> s[k] != '/',
    ensures
        last_slash(s) is None,
    decreases s.len(),
{
    if s.len() > 0 {
        lemma_last_slash_none(s.drop_last());
    }
}

proof fn lemma_extension_dot_found(s: Seq<char>, i: int)
    requires
        1 <= i < s.len(),
        s[i] == '.',
        forall|k: int| i < k < s.len() ==> s[k] != '.',
    ensures
        extension_dot(s) == Some(i),
    decreases s.len(),
{
    if i == s.len() - 1 {
    } else {
        lemma_extension_dot_found(s.drop_last(), i);
    }
}

proof fn lemma_extension_dot_none(s: Seq<char>)
    requires
        forall|k: int| 1 <= k < s.len() ==> s[k] != '.',
    ensures
        extension_dot(s) is None,
    decreases s.len(),
{
    if s.len() > 1 {
        lemma_extension_dot_none(s.drop_last());
    }
}

fn find_last_slash(s: &str) -> (r: Option<usize>)
    ensures
        match r {
            Some(j) => j < s@.len() && last_slash(s@) == Some(j as int),
            None => last_slash(s@) is None,
        },
{
    let n = s.unicode_len();
    let mut j: usize = n;
    while j > 0
        invariant
            j <= n,
            n == s@.len(),
            forall|k: int| j <= k < n ==> s@[k] != '/',
        decreases j,
    {
        let c = s.get_char(j - 1);
        if c == '/' {
            proof {
                lemma_last_slash_found(s@, j - 1);
            }
            return Some(j - 1);
        }
        j -= 1;
    }
    proof {
        lemma_last_slash_none(s@);
    }
    None
}

fn find_extension_dot(s: &str) -> (r: Option<usize>)
    ensures
        match r {
            Some(j) => 1 <= j < s@.len() && extension_dot(s@) == Some(j as int),
            None => extension_dot(s@) is None,
        },
{
    let n = s.unicode_len();
    let mut j: usize = n;
    while j > 1
        invariant
            j <= n,
            n == s@.len(),
            forall|k: int| j <= k < n ==> s@[k] != '.',
        decreases j,
    {
        let c = s.get_char(j - 1);
        if c == '.' {
            proof {
                lemma_extension_dot_found(s@, j - 1);
            }
            return Some(j - 1);
        }
        j -= 1;
    }
    proof {
        lemma_extension_dot_none(s@);
    }
    None
}

fn digit_str(d: usize) -> (r: &'static str)
    requires
        d < 10,
    ensures
        r@ == seq![digit_char(d as nat)],
{
    if d == 0 {
        proof {
            reveal_strlit("0");
            assert("0"@ =~= seq![digit_char(0)]);
        }
        "0"
    } else if d == 1 {
        proof {
            reveal_strlit("1");
            assert("1"@ =~= seq![digit_char(1)]);
        }
        "1"
    } else if d == 2 {
        proof {
            reveal_strlit("2");
            assert("2"@ =~= seq![digit_char(2)]);
        }
        "2"
    } else if d == 3 {
        proof {
            reveal_strlit("3");
            assert("3"@ =~= seq![digit_char(3)]);
        }
        "3"
    } else if d == 4 {
        proof {
            reveal_strlit("4");
            assert("4"@ =~= seq![digit_char(4)]);
        }
        "4"
    } else if d == 5 {
        proof {
            reveal_strlit("5");
            assert("5"@ =~= seq![digit_char(5)]);
        }
        "5"
    } else if d == 6 {
        proof {
            reveal_strlit("6");
            assert("6"@ =~= seq![digit_char(6)]);
        }
        "6"
    } else if d == 7 {
        proof {
            reveal_strlit("7");
            assert("7"@ =~= seq![digit_char(7)]);
        }
        "7"
    } else if d == 8 {
        proof {
            reveal_strlit("8");
            assert("8"@ =~= seq![digit_char(8)]);
        }
        "8"
    } else {
        proof {
            reveal_strlit("9");
            assert("9"@ =~= seq![digit_char(9)]);
        }
        "9"
    }
}

/// The decimal digits of a number, as text.
pub fn usize_to_string(n: usize) -> (r: String)
    ensures
        r@ == dec_digits(n as nat),
    decreases n,
{
    if n < 10 {
        String::from_str(digit_str(n))
    } else {
        let high = usize_to_string(n / 10);
        high.concat(digit_str(n % 10))
    }
}

fn file_name_exec(pattern: &String) -> (r: String)
    ensures
        r@ == file_name(pattern@),
{
    let s = pattern.as_str();
    let n = s.unicode_len();
    match find_last_slash(s) {
        Some(j) => String::from_str(s.substring_char(j + 1, n)),
        None => pattern.clone(),
    }
}

fn parent_exec(pattern: &String) -> (r: String)
    ensures
        r@ == parent_dir(pattern@),
{
    let s = pattern.as_str();
    match find_last_slash(s) {
        Some(j) => {
            if j == 0 {
                proof {
                    reveal_strlit("/");
                    assert("/"@ =~= seq!['/']);
                }
                String::from_str("/")
            } else {
                String::from_str(s.substring_char(0, j))
            }
        },
        None => String::new(),
    }
}

fn join_exec(dir: &String, name: &String) -> (r: String)
    ensures
        r@ == join(dir@, name@),
{
    let s = dir.as_str();
    let n = s.unicode_len();
    if n == 0 {
        name.clone()
    } else {
        let c = s.get_char(n - 1);
        if c == '/' {
            dir.clone().concat(name.as_str())
        } else {
            proof {
                reveal_strlit("/");
                assert("/"@ =~= seq!['/']);
            }
            let mut r = dir.clone();
            r.append("/");
            r.append(name.as_str());
            r
        }
    }
}

/// The path of fragment `index` derived from the input pattern: stem plus
/// `_[index].splm`, in the output directory if one is given, else in the
/// input's own directory.
pub fn fragment_path(pattern: &String, output_directory: &Option<String>, index: usize) -> (r: String)
    requires
        file_name(pattern@).len() > 0,
        index >= 1,
    ensures
        r@ == fragment_path_spec(pattern@, view_opt_string(*output_directory), index as nat),
{
    let fname = file_name_exec(pattern);
    let mut name = match find_extension_dot(fname.as_str()) {
        Some(j) => String::from_str(fname.as_str().substring_char(0, j)),
        None => fname.clone(),
    };
    name.append("_[");
    let idx = usize_to_string(index);
    name.append(idx.as_str());
    name.append("].splm");
    proof {
        assert(name@ == fragment_name(pattern@, index as nat));
    }
    match output_directory {
        Some(dir) => join_exec(dir, &name),
        None => {
            let par = parent_exec(pattern);
            join_exec(&par, &name)
        },
    }
}

/// The path of the merged output derived from the input pattern: stem plus
/// `_[merged]` plus the original extension, in the input's own directory.
pub fn merged_path(pattern: &String) -> (r: String)
    requires
        extension(file_name(pattern@)) is Some,
    ensures
        r@ == merged_path_spec(pattern@),
{
    let fname = file_name_exec(pattern);
    let n = fname.as_str().unicode_len();
    let mut name = match find_extension_dot(fname.as_str()) {
        Some(j) => {
            let st = String::from_str(fname.as_str().substring_char(0, j));
            let ext = String::from_str(fname.as_str().substring_char(j + 1, n));
            let mut r = st;
            r.append("_[merged]");
            r.append(".");
            r.append(ext.as_str());
            r
        },
        None => unreached(),
    };
    proof {
        assert(name@ == stem(file_name(pattern@)) + "_[merged]"@ + "."@ + extension(
            file_name(pattern@),
        )->Some_0);
    }
    let par = parent_exec(pattern);
    join_exec(&par, &name)
}

} // verus!
