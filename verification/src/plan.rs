//! The fragment planner: resolves the effective fragment size from the
//! configuration and the input file's size, and validates the size,
//! part-count and part-number options against each other before any
//! streaming begins.

use vstd::prelude::*;
use vstd::arithmetic::div_mod::lemma_fundamental_div_mod;
use vstd::arithmetic::mul::lemma_mul_inequality;
use vstd::math::min;
use crate::cli::{ConfigModel, ProgramInput, MINIMUM_FRAGMENT_SIZE};

verus! {

/// Ceiling division: the least count of `b`-sized parts covering `a`.
pub open spec fn ceil_div(a: nat, b: nat) -> nat
    recommends
        b > 0,
{
    if a % b == 0 {
        a / b
    } else {
        a / b + 1
    }
}

/// The parts covering `a` reach at least `a`, and dropping the last part
/// leaves less than `a`.
pub proof fn lemma_ceil_div_bounds(a: nat, b: nat)
    requires
        b > 0,
    ensures
        ceil_div(a, b) * b >= a,
        a > 0 ==> (ceil_div(a, b) - 1) * b < a,
        a > 0 ==> ceil_div(a, b) >= 1,
        a == 0 ==> ceil_div(a, b) == 0,
{
    lemma_fundamental_div_mod(a as int, b as int);
    let q = a as int / b as int;
    let r = a as int % b as int;
    assert(a as int == b as int * q + r);
    if a % b == 0 {
        assert(ceil_div(a, b) * b == q * b) by (nonlinear_arith)
            requires ceil_div(a, b) == q,
        ;
        assert(q * b == b * q) by (nonlinear_arith);
        if a > 0 {
            assert(q >= 1) by (nonlinear_arith)
                requires
                    a as int == b as int * q,
                    a > 0,
                    b > 0,
            ;
            assert((q - 1) * b == q * b - b) by (nonlinear_arith);
        }
    } else {
        assert(ceil_div(a, b) == q + 1);
        assert((q + 1) * b == q * b + b) by (nonlinear_arith);
        assert(q * b == b * q) by (nonlinear_arith);
    }
}

fn ceil_div_exec(a: usize, b: usize) -> (r: usize)
    requires
        b > 0,
    ensures
        r == ceil_div(a as nat, b as nat),
{
    let q = a / b;
    let rem = a % b;
    if rem == 0 {
        q
    } else {
        proof {
            lemma_fundamental_div_mod(a as int, b as int);
            assert(b >= 2);
            assert(q + 1 <= a) by (nonlinear_arith)
                requires
                    a as int == b as int * q + rem,
                    rem >= 1,
                    b >= 2,
                    q >= 0,
            ;
        }
        q + 1
    }
}

/// What the planner resolves to: stream with this fragment size, skip the
/// run because the file is already small enough, or refuse the
/// configuration.
#[derive(Clone, Copy, Debug, PartialEq, Eq, Structural)]
pub enum Plan {
    Split { fragment_size: usize, total_parts: usize },
    Skip,
    FragmentSizeTooSmall { minimum: usize },
    PartNumberOutOfRange { requested: usize, total_parts: usize },
}

/// The fragment size the streaming engine will use: an explicit part count
/// overrides the configured fragment size.
pub open spec fn effective_fragment_size(c: ConfigModel, file_size: nat) -> nat {
    match c.parts {
        Some(p) => ceil_div(file_size, p),
        None => c.fragment_size,
    }
}

/// Exactly which plan the configuration and the file size resolve to.
pub open spec fn plan_spec(c: ConfigModel, file_size: nat, p: Plan) -> bool {
    let eff = effective_fragment_size(c, file_size);
    if eff < MINIMUM_FRAGMENT_SIZE {
        p == (Plan::FragmentSizeTooSmall { minimum: MINIMUM_FRAGMENT_SIZE })
    } else if file_size < eff {
        p == Plan::Skip
    } else {
        let total = ceil_div(file_size, eff);
        match c.part_number {
            Some(pn) => if pn > total {
                p == (Plan::PartNumberOutOfRange {
                    requested: pn as usize,
                    total_parts: total as usize,
                })
            } else {
                p == (Plan::Split { fragment_size: eff as usize, total_parts: total as usize })
            },
            None => p == (Plan::Split { fragment_size: eff as usize, total_parts: total as usize }),
        }
    }
}

/// Resolves the effective fragment size and validates the configuration
/// against the actual file size. A part count overrides the fragment size;
/// the result must reach the minimum; a file smaller than one fragment
/// skips the run; a requested part number beyond the last part is refused.
pub fn plan(input: &ProgramInput, file_size: usize) -> (p: Plan)
    requires
        input@.parts matches Some(n) ==> n >= 1,
    ensures
        plan_spec(input@, file_size as nat, p),
{
    let eff = match input.parts {
        Some(n) => ceil_div_exec(file_size, n),
        None => input.fragment_size,
    };
    if eff < MINIMUM_FRAGMENT_SIZE {
        return Plan::FragmentSizeTooSmall { minimum: MINIMUM_FRAGMENT_SIZE };
    }
    if file_size < eff {
        return Plan::Skip;
    }
    let total = ceil_div_exec(file_size, eff);
    if let Some(pn) = input.part_number {
        if pn > total {
            return Plan::PartNumberOutOfRange { requested: pn, total_parts: total };
        }
    }
    Plan::Split { fragment_size: eff, total_parts: total }
}

/// The byte range `[start, end)` of one part: part `n` begins at offset
/// `(n - 1) * fragment_size`, and the last part ends at the file's end.
pub fn part_byte_range(file_size: usize, fragment_size: usize, part_number: usize) -> (range: (
    usize,
    usize,
))
    requires
        fragment_size >= 1,
        part_number >= 1,
        part_number as nat <= ceil_div(file_size as nat, fragment_size as nat),
    ensures
        range.0 as int == (part_number - 1) * fragment_size,
        range.1 as int == min(part_number * fragment_size, file_size as int),
        range.0 < range.1 <= file_size,
{
    proof {
        lemma_ceil_div_bounds(file_size as nat, fragment_size as nat);
        lemma_mul_inequality(
            (part_number - 1) as int,
            (ceil_div(file_size as nat, fragment_size as nat) - 1) as int,
            fragment_size as int,
        );
    }
    let start = (part_number - 1) * fragment_size;
    proof {
        assert(part_number * fragment_size == start + fragment_size) by (nonlinear_arith)
            requires
                start as int == (part_number - 1) * fragment_size,
                part_number >= 1,
        ;
    }
    let end = if file_size - start > fragment_size {
        start + fragment_size
    } else {
        file_size
    };
    (start, end)
}

} // verus!
