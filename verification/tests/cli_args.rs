use splimer::cli::{ParseResult, ProgramInput};

fn args(list: &[&str]) -> Vec<String> {
    list.iter().map(|s| s.to_string()).collect()
}

fn parse_ok(list: &[&str]) -> ProgramInput {
    match ProgramInput::parse(&args(list)) {
        ParseResult::Success(input) => input,
        _ => panic!("expected a successful parse"),
    }
}

#[test]
fn no_arguments_means_no_input_filename() {
    assert!(matches!(
        ProgramInput::parse(&args(&["splimer"])),
        ParseResult::ThereIsNoInputFilename
    ));
}

#[test]
fn bare_filename_takes_the_defaults() {
    let input = parse_ok(&["splimer", "file.txt"]);
    assert!(input.to_split);
    assert_eq!(input.input_filename, "file.txt");
    assert_eq!(input.fragment_size, 1073741824);
    assert_eq!(input.output_directory, None);
    assert_eq!(input.parts, None);
    assert_eq!(input.part_number, None);
}

#[test]
fn fragment_size_from_next_argument() {
    let input = parse_ok(&["splimer", "file.txt", "-S", "2k"]);
    assert_eq!(input.fragment_size, 2048);
}

#[test]
fn fragment_size_from_equal_sign_form() {
    let input = parse_ok(&["splimer", "--fragment-size=1m", "file.txt"]);
    assert_eq!(input.fragment_size, 1048576);
    assert_eq!(input.input_filename, "file.txt");
}

#[test]
fn fragment_size_below_minimum_is_refused() {
    assert!(matches!(
        ProgramInput::parse(&args(&["splimer", "file.txt", "-S", "1"])),
        ParseResult::FragmentSizeIsToSmall(1024)
    ));
}

#[test]
fn unparseable_fragment_size_is_reported_with_the_token() {
    match ProgramInput::parse(&args(&["splimer", "file.txt", "-S", "abc"])) {
        ParseResult::MemoryValueCannotBeParsed(token) => assert_eq!(token, "abc"),
        _ => panic!("expected the memory-value error"),
    }
}

#[test]
fn parts_from_next_argument() {
    let input = parse_ok(&["splimer", "file.txt", "-n", "3"]);
    assert_eq!(input.parts, Some(3));
}

#[test]
fn one_part_is_refused() {
    assert!(matches!(
        ProgramInput::parse(&args(&["splimer", "file.txt", "-n", "1"])),
        ParseResult::NumberOfPartsShouldBeMoreThanOne(1)
    ));
}

#[test]
fn unparseable_parts_are_reported_with_the_token() {
    match ProgramInput::parse(&args(&["splimer", "file.txt", "--parts=x"])) {
        ParseResult::NumberOfPartsCannotBeParsed(token) => assert_eq!(token, "x"),
        _ => panic!("expected the part-count error"),
    }
}

#[test]
fn part_number_from_next_argument() {
    let input = parse_ok(&["splimer", "file.txt", "-N", "2"]);
    assert_eq!(input.part_number, Some(2));
}

#[test]
fn unparseable_part_number_is_reported_with_the_token() {
    match ProgramInput::parse(&args(&["splimer", "file.txt", "-N", "two"])) {
        ParseResult::PartNumberCannotBeParsed(token) => assert_eq!(token, "two"),
        _ => panic!("expected the part-number error"),
    }
}

#[test]
fn part_number_zero_is_refused() {
    assert!(matches!(
        ProgramInput::parse(&args(&["splimer", "file.txt", "-N", "0"])),
        ParseResult::PartNumberShouldBePositive(0)
    ));
}

#[test]
fn merge_flag_switches_the_mode() {
    let input = parse_ok(&["splimer", "file.txt", "-m"]);
    assert!(!input.to_split);
    let input = parse_ok(&["splimer", "file.txt", "-m", "--split"]);
    assert!(input.to_split);
}

#[test]
fn output_directory_is_taken() {
    let input = parse_ok(&["splimer", "file.txt", "-o", "out"]);
    assert_eq!(input.output_directory, Some("out".to_string()));
}

#[test]
fn help_flag_wins() {
    assert!(matches!(
        ProgramInput::parse(&args(&["splimer", "-h"])),
        ParseResult::Help
    ));
}

#[test]
fn flag_without_its_value_is_refused() {
    match ProgramInput::parse(&args(&["splimer", "file.txt", "-S"])) {
        ParseResult::ThereIsNoValue(key) => assert_eq!(key, "-S"),
        _ => panic!("expected the missing-value error"),
    }
}

#[test]
fn flags_alone_leave_no_input_filename() {
    assert!(matches!(
        ProgramInput::parse(&args(&["splimer", "-m"])),
        ParseResult::ThereIsNoInputFilename
    ));
}

#[test]
fn second_positional_argument_is_ignored() {
    let input = parse_ok(&["splimer", "a.txt", "b.txt"]);
    assert_eq!(input.input_filename, "a.txt");
}

#[test]
fn flag_value_is_consumed_before_the_filename() {
    let input = parse_ok(&["splimer", "-S", "2k", "file.txt"]);
    assert_eq!(input.fragment_size, 2048);
    assert_eq!(input.input_filename, "file.txt");
}

#[test]
fn a_positional_with_an_equal_sign_keeps_only_the_key() {
    let input = parse_ok(&["splimer", "x=y"]);
    assert_eq!(input.input_filename, "x");
}
