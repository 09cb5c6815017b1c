use splimer::memory::parse_memory_value;

fn parse(s: &str) -> Result<usize, ()> {
    parse_memory_value(&s.to_string())
}

#[test]
fn gigabyte_suffix() {
    assert_eq!(parse("1g"), Ok(1073741824));
    assert_eq!(parse("2G"), Ok(2147483648));
}

#[test]
fn fractional_megabytes() {
    assert_eq!(parse("1.5m"), Ok(1572864));
    assert_eq!(parse("1,5m"), Ok(1572864));
}

#[test]
fn kilobyte_suffix() {
    assert_eq!(parse("1k"), Ok(1024));
    assert_eq!(parse("0.5K"), Ok(512));
}

#[test]
fn plain_byte_count() {
    assert_eq!(parse("2048"), Ok(2048));
    assert_eq!(parse("4096b"), Ok(4096));
}

#[test]
fn two_decimal_points_fail() {
    assert_eq!(parse("1.2.3"), Err(()));
}

#[test]
fn two_suffixes_fail() {
    assert_eq!(parse("1kg"), Err(()));
    assert_eq!(parse("1mb"), Err(()));
}

#[test]
fn letters_fail() {
    assert_eq!(parse("abc"), Err(()));
}

#[test]
fn empty_input_fails() {
    assert_eq!(parse(""), Err(()));
}

#[test]
fn digit_after_suffix_fails() {
    assert_eq!(parse("1k5"), Err(()));
}

#[test]
fn separator_after_suffix_fails() {
    assert_eq!(parse("1k.5"), Err(()));
}

#[test]
fn fraction_scales_the_decimal_mantissa() {
    // 1.25g = 125 * 2^30 / 100, floored
    assert_eq!(parse("1.25g"), Ok(1342177280));
    // digits after the point without a suffix floor the plain number
    assert_eq!(parse("12.75"), Ok(12));
}

#[test]
fn suffix_before_digits_fails() {
    assert_eq!(parse("k1"), Err(()));
}

#[test]
fn value_beyond_the_machine_fails() {
    assert_eq!(parse("99999999999999999999g"), Err(()));
}

#[test]
fn mantissa_beyond_the_accumulator_fails() {
    assert_eq!(parse("99999999999999999999999999999999999999999"), Err(()));
}

#[test]
fn lone_suffix_is_zero() {
    // the scan accepts a suffix with no digits; the mantissa is zero
    assert_eq!(parse("k"), Ok(0));
}
