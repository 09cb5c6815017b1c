//! The memory-value mini-language: a decimal mantissa with an optional
//! fractional part (after `.` or `,`) and an optional binary-magnitude
//! suffix letter (`g`/`m`/`k`/`b`, case-insensitive).
//!
//! The text is scanned left to right by a three-field state machine; the
//! final byte count is the mantissa scaled by two to the suffix exponent
//! and divided (flooring) by ten to the number of fractional digits.

use vstd::prelude::*;
use vstd::arithmetic::div_mod::lemma_div_denominator;

verus! {

/// Largest mantissa the accumulator admits; one less than two to the 98th,
/// so that the mantissa scaled by the largest suffix factor (two to the
/// 30th) still fits in a `u128`.
pub const MANTISSA_LIMIT: u128 = 316912650057057350374175801343;

/// State of the left-to-right scan: the accumulated mantissa digits, the
/// count of digits seen after the decimal separator (`None` until a
/// separator is seen), and the power-of-two exponent picked by a suffix
/// letter (`None` until a suffix is seen).
pub ghost struct ScanState {
    pub mantissa: nat,
    pub frac_digits: Option<nat>,
    pub exponent: Option<nat>,
}

pub open spec fn initial_state() -> ScanState {
    ScanState { mantissa: 0, frac_digits: None, exponent: None }
}

pub open spec fn is_digit(c: char) -> bool {
    48 <= c as u32 && c as u32 <= 57
}

pub open spec fn digit_value(c: char) -> nat {
    (c as u32 - 48) as nat
}

pub open spec fn is_separator(c: char) -> bool {
    c == '.' || c == ','
}

pub open spec fn suffix_exponent(c: char) -> Option<nat> {
    if c == 'g' || c == 'G' {
        Some(30 as nat)
    } else if c == 'm' || c == 'M' {
        Some(20 as nat)
    } else if c == 'k' || c == 'K' {
        Some(10 as nat)
    } else if c == 'b' || c == 'B' {
        Some(0 as nat)
    } else {
        None
    }
}

/// One step of the scan. Digits may not follow a suffix; a second
/// separator or a second suffix, and any other character, are refused.
pub open spec fn scan_char(st: ScanState, c: char) -> Option<ScanState> {
    if is_digit(c) {
        if st.exponent is Some {
            None
        } else {
            Some(ScanState {
                mantissa: st.mantissa * 10 + digit_value(c),
                frac_digits: match st.frac_digits {
                    Some(f) => Some((f + 1) as nat),
                    None => None,
                },
                exponent: st.exponent,
            })
        }
    } else if is_separator(c) {
        if st.frac_digits is Some || st.exponent is Some {
            None
        } else {
            Some(ScanState { mantissa: st.mantissa, frac_digits: Some(0 as nat), exponent: st.exponent })
        }
    } else {
        match suffix_exponent(c) {
            Some(e) => if st.exponent is Some {
                None
            } else {
                Some(ScanState { mantissa: st.mantissa, frac_digits: st.frac_digits, exponent: Some(e) })
            },
            None => None,
        }
    }
}

pub open spec fn scan(s: Seq<char>) -> Option<ScanState>
    decreases s.len(),
{
    if s.len() == 0 {
        Some(initial_state())
    } else {
        match scan(s.drop_last()) {
            Some(st) => scan_char(st, s.last()),
            None => None,
        }
    }
}

pub open spec fn pow2(e: nat) -> nat
    decreases e,
{
    if e == 0 {
        1
    } else {
        2 * pow2((e - 1) as nat)
    }
}

pub open spec fn pow10(e: nat) -> nat
    decreases e,
{
    if e == 0 {
        1
    } else {
        10 * pow10((e - 1) as nat)
    }
}

/// Whether the text is accepted by the mini-language: non-empty, and every
/// character is accepted by the scan.
pub open spec fn accepted(s: Seq<char>) -> bool {
    s.len() > 0 && scan(s) is Some
}

pub open spec fn scanned_mantissa(s: Seq<char>) -> nat {
    scan(s)->Some_0.mantissa
}

/// The byte count an accepted text denotes: the mantissa scaled by two to
/// the suffix exponent (zero when no suffix was seen), floored after
/// division by ten to the number of fractional digits.
pub open spec fn memory_value(s: Seq<char>) -> nat
    recommends
        accepted(s),
{
    let st = scan(s)->Some_0;
    let e = match st.exponent {
        Some(e) => e,
        None => 0 as nat,
    };
    let f = match st.frac_digits {
        Some(f) => f,
        None => 0 as nat,
    };
    (st.mantissa * pow2(e)) / pow10(f)
}

/// An accepted text whose value the machine can return: the mantissa stays
/// within the accumulator limit and the byte count fits in `usize`.
pub open spec fn representable(s: Seq<char>) -> bool {
    accepted(s) && scanned_mantissa(s) <= MANTISSA_LIMIT && memory_value(s) <= usize::MAX
}

/// A scan that succeeds on the whole text succeeds on every prefix, and the
/// mantissa only grows as the scan proceeds.
proof fn lemma_scan_prefix(s: Seq<char>, i: int)
    requires
        0 <= i <= s.len(),
    ensures
        scan(s) is Some ==> scan(s.take(i)) is Some,
        scan(s) is Some ==> scan(s.take(i))->Some_0.mantissa <= scan(s)->Some_0.mantissa,
    decreases s.len(),
{
    if i == s.len() {
        assert(s.take(i) =~= s);
    } else if scan(s) is Some {
        lemma_scan_prefix(s.drop_last(), i);
        assert(s.drop_last().take(i) =~= s.take(i));
        let st = scan(s.drop_last())->Some_0;
        assert(st.mantissa * 10 >= st.mantissa);
    }
}

proof fn lemma_pow10_pos(e: nat)
    ensures
        pow10(e) >= 1,
    decreases e,
{
    if e > 0 {
        lemma_pow10_pos((e - 1) as nat);
    }
}

spec fn opt_nat_from_usize(o: Option<usize>) -> Option<nat> {
    match o {
        Some(v) => Some(v as nat),
        None => None,
    }
}

spec fn opt_nat_from_u32(o: Option<u32>) -> Option<nat> {
    match o {
        Some(v) => Some(v as nat),
        None => None,
    }
}

/// Parses a textual size expression ("1.5g", "1k", "4096") into an exact
/// byte count. Fails exactly on text the mini-language refuses, on a
/// mantissa beyond the accumulator limit, and on a byte count beyond
/// `usize`.
pub fn parse_memory_value(string: &String) -> (result: Result<usize, ()>)
    ensures
        match result {
            Ok(v) => representable(string@) && v == memory_value(string@),
            Err(_) => !representable(string@),
        },
{
    let s = string.as_str();
    let n = s.unicode_len();
    if n == 0 {
        return Err(());
    }
    let mut mantissa: u128 = 0;
    let mut frac_digits: Option<usize> = None;
    let mut exponent: Option<u32> = None;
    let mut i: usize = 0;
    while i < n
        invariant
            i <= n,
            n == s@.len(),
            s@ == string@,
            mantissa <= MANTISSA_LIMIT,
            match frac_digits {
                Some(f) => f <= i,
                None => true,
            },
            match exponent {
                Some(e) => e == 30 || e == 20 || e == 10 || e == 0,
                None => true,
            },
            scan(s@.take(i as int)) == Some(ScanState {
                mantissa: mantissa as nat,
                frac_digits: opt_nat_from_usize(frac_digits),
                exponent: opt_nat_from_u32(exponent),
            }),
        decreases n - i,
    {
        let c = s.get_char(i);
        proof {
            assert(s@.take(i + 1).drop_last() =~= s@.take(i as int));
            assert(s@.take(i + 1).last() == c);
        }
        let u = c as u32;
        if 48 <= u && u <= 57 {
            if exponent.is_some() {
                proof {
                    lemma_scan_prefix(s@, i + 1);
                }
                return Err(());
            }
            mantissa = mantissa * 10 + (u - 48) as u128;
            if mantissa > MANTISSA_LIMIT {
                proof {
                    lemma_scan_prefix(s@, i + 1);
                }
                return Err(());
            }
            if frac_digits.is_some() {
                frac_digits = Some(frac_digits.unwrap() + 1);
            }
        } else if c == '.' || c == ',' {
            if frac_digits.is_some() || exponent.is_some() {
                proof {
                    lemma_scan_prefix(s@, i + 1);
                }
                return Err(());
            }
            frac_digits = Some(0);
        } else if c == 'g' || c == 'G' || c == 'm' || c == 'M' || c == 'k' || c == 'K' || c == 'b'
            || c == 'B' {
            if exponent.is_some() {
                proof {
                    lemma_scan_prefix(s@, i + 1);
                }
                return Err(());
            }
            exponent = Some(
                if c == 'g' || c == 'G' {
                    30
                } else if c == 'm' || c == 'M' {
                    20
                } else if c == 'k' || c == 'K' {
                    10
                } else {
                    0
                },
            );
        } else {
            proof {
                lemma_scan_prefix(s@, i + 1);
            }
            return Err(());
        }
        i += 1;
    }
    proof {
        assert(s@.take(n as int) =~= s@);
    }
    let e: u32 = match exponent {
        Some(e) => e,
        None => 0,
    };
    let scaled: u128 = if e == 30 {
        mantissa * 1073741824
    } else if e == 20 {
        mantissa * 1048576
    } else if e == 10 {
        mantissa * 1024
    } else {
        mantissa
    };
    proof {
        assert(pow2(30) == 1073741824) by {
            reveal_with_fuel(pow2, 31);
        }
        assert(pow2(20) == 1048576) by {
            reveal_with_fuel(pow2, 21);
        }
        assert(pow2(10) == 1024) by {
            reveal_with_fuel(pow2, 11);
        }
        assert(pow2(0) == 1);
        if e == 30 {
            assert(scaled == mantissa * 1073741824);
            assert(scaled as nat == mantissa as nat * pow2(e as nat));
        } else if e == 20 {
            assert(scaled == mantissa * 1048576);
            assert(scaled as nat == mantissa as nat * pow2(e as nat));
        } else if e == 10 {
            assert(scaled == mantissa * 1024);
            assert(scaled as nat == mantissa as nat * pow2(e as nat));
        } else {
            assert(e == 0);
            assert(scaled == mantissa);
            assert(pow2(e as nat) == 1);
            assert(mantissa as nat * 1 == mantissa as nat);
            assert(scaled as nat == mantissa as nat * pow2(e as nat));
        }
    }
    let f: usize = match frac_digits {
        Some(f) => f,
        None => 0,
    };
    proof {
        assert(pow10(0) == 1);
        assert(scaled as nat / 1 == scaled as nat);
    }
    let mut value: u128 = scaled;
    let mut j: usize = 0;
    while j < f
        invariant
            j <= f,
            value == scaled as nat / pow10(j as nat),
        decreases f - j,
    {
        proof {
            lemma_pow10_pos(j as nat);
            lemma_div_denominator(scaled as int, pow10(j as nat) as int, 10);
        }
        value = value / 10;
        j += 1;
    }
    proof {
        assert(memory_value(string@) == value as nat);
    }
    if value > usize::MAX as u128 {
        return Err(());
    }
    Ok(value as usize)
}

} // verus!
