//! Division rounded to nearest.
use vstd::prelude::*;
use vstd::arithmetic::div_mod::*;

verus! {

/// The quotient of `numerator` by `denominator`, rounded to nearest, ties
/// upwards.
pub open spec fn rounded_quotient(numerator: nat, denominator: nat) -> nat {
    (2 * numerator + denominator) / (2 * denominator)
}

/// A quotient rounded to nearest misses the exact quotient by at most one
/// half: `denominator * rounded_quotient(..)` lies within half a denominator of
/// the numerator.
pub proof fn lemma_rounded_quotient_error(numerator: nat, denominator: nat)
    requires
        denominator > 0,
    ensures
        -(denominator as int) < 2 * (denominator * rounded_quotient(numerator, denominator)
            - numerator) <= denominator,
{
    let x = (2 * numerator + denominator) as int;
    let d2 = (2 * denominator) as int;
    lemma_fundamental_div_mod(x, d2);
    lemma_mod_bound(x, d2);
    let c = x / d2;
    assert(d2 * c == 2 * (denominator * c)) by (nonlinear_arith)
        requires
            d2 == 2 * denominator,
    ;
}

/// The rounded quotient of a multiple of the denominator is exact.
pub proof fn lemma_rounded_quotient_exact(quotient: nat, denominator: nat)
    requires
        denominator > 0,
    ensures
        rounded_quotient(quotient * denominator, denominator) == quotient,
{
    assert(2 * (quotient * denominator) + denominator == quotient * (2 * denominator)
        + denominator) by (nonlinear_arith);
    lemma_fundamental_div_mod_converse(
        (2 * (quotient * denominator) + denominator) as int,
        (2 * denominator) as int,
        quotient as int,
        denominator as int,
    );
}

/// Rounding to nearest adds one to the quotient exactly when twice the
/// remainder reaches the denominator.
proof fn lemma_rounded_quotient_split(numerator: nat, denominator: nat)
    requires
        denominator > 0,
    ensures
        rounded_quotient(numerator, denominator) == numerator / denominator + (if 2 * (numerator
            % denominator) >= denominator {
            1nat
        } else {
            0nat
        }),
{
    let c = numerator / denominator;
    let r = numerator % denominator;
    lemma_fundamental_div_mod(numerator as int, denominator as int);
    lemma_mod_bound(numerator as int, denominator as int);
    if 2 * r >= denominator {
        assert(2 * numerator + denominator == (c + 1) * (2 * denominator) + (2 * r - denominator))
            by (nonlinear_arith)
            requires
                numerator == denominator * c + r,
        ;
        lemma_fundamental_div_mod_converse(
            (2 * numerator + denominator) as int,
            (2 * denominator) as int,
            (c + 1) as int,
            (2 * r - denominator) as int,
        );
    } else {
        assert(2 * numerator + denominator == c * (2 * denominator) + (2 * r + denominator))
            by (nonlinear_arith)
            requires
                numerator == denominator * c + r,
        ;
        lemma_fundamental_div_mod_converse(
            (2 * numerator + denominator) as int,
            (2 * denominator) as int,
            c as int,
            (2 * r + denominator) as int,
        );
    }
}

/// Divides `numerator` by `denominator` and rounds the quotient to nearest,
/// ties upwards.
pub fn divide_round(numerator: u128, denominator: u128) -> (quotient: u128)
    requires
        denominator > 0,
    ensures
        quotient == rounded_quotient(numerator as nat, denominator as nat),
{
    let div = numerator / denominator;
    let rem = numerator % denominator;
    proof {
        lemma_rounded_quotient_split(numerator as nat, denominator as nat);
        lemma_fundamental_div_mod(numerator as int, denominator as int);
        if denominator >= 2 {
            assert(2 * div <= numerator) by (nonlinear_arith)
                requires
                    numerator == denominator * div + rem,
                    denominator >= 2,
                    rem >= 0,
                    div >= 0,
            ;
        }
    }
    if rem >= denominator - rem {
        div + 1
    } else {
        div
    }
}

} // verus!
