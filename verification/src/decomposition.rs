//! The mathematical model of a signed decomposition modulo `q`.
//!
//! A value `theta` is rounded to the nearest multiple of the smallest step
//! `q / B^level_count`; the count of steps, taken modulo `B^level_count`, is
//! split into `level_count` balanced digits; the term of level `i` holds the
//! digit of weight `q / B^i`.
use vstd::prelude::*;
use vstd::arithmetic::power2::*;
use crate::balanced::{digit_at, to_residue};
use crate::rounding::rounded_quotient;
use crate::term::{summand, TermView};

verus! {

/// Whether a decomposition modulo `modulus` can have `level_count` digits of
/// `base_log` bits: there is a digit, it has a bit, and the smallest step
/// `modulus / B^level_count` is at least one.
pub open spec fn config_valid(modulus: nat, base_log: nat, level_count: nat) -> bool {
    &&& 1 <= base_log
    &&& 1 <= level_count
    &&& pow2(base_log * level_count) <= modulus
}

/// The number whose balanced digits decompose `theta`: the count of smallest
/// steps in `theta`, that is `theta * B^level_count / modulus` rounded to
/// nearest, modulo `B^level_count`.
pub open spec fn decomposition_index(
    theta: nat,
    modulus: nat,
    base_log: nat,
    level_count: nat,
) -> nat {
    rounded_quotient((theta % modulus) * pow2(base_log * level_count), modulus) % pow2(
        base_log * level_count,
    )
}

/// The terms that hold the `level_count` lowest balanced digits of `index`,
/// from the level `level_count`, which holds the least significant digit, down
/// to the level one.
pub open spec fn decomposition_terms(
    index: nat,
    modulus: nat,
    base_log: nat,
    level_count: nat,
) -> Seq<TermView> {
    Seq::new(
        level_count,
        |i: int|
            TermView {
                level: (level_count - i) as nat,
                base_log,
                value: to_residue(digit_at(index, base_log, i as nat), modulus),
                modulus,
            },
    )
}

/// The terms that decompose `theta` modulo `modulus`.
pub open spec fn decomposition(
    theta: nat,
    modulus: nat,
    base_log: nat,
    level_count: nat,
) -> Seq<TermView> {
    decomposition_terms(
        decomposition_index(theta, modulus, base_log, level_count),
        modulus,
        base_log,
        level_count,
    )
}

/// The sum of the summands of `terms`, not reduced.
pub open spec fn summand_total(terms: Seq<TermView>) -> nat
    decreases terms.len(),
{
    if terms.len() == 0 {
        0
    } else {
        summand(terms.first()) + summand_total(terms.drop_first())
    }
}

/// The value that `terms` recompose to: the sum of their summands modulo
/// `modulus`.
pub open spec fn recomposition(terms: Seq<TermView>, modulus: nat) -> nat {
    summand_total(terms) % modulus
}

} // verus!
