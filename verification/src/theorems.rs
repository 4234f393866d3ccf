//! What holds of every decomposition: the digits are balanced, and the terms
//! recompose to the decomposed value up to a bounded rounding error.
use vstd::prelude::*;
use vstd::arithmetic::power2::*;
use vstd::arithmetic::div_mod::*;
use crate::balanced::{
    balanced_digit, circular_distance, digit_at, digits_value, lemma_balanced_digit_range,
    lemma_digits_value, lemma_signed_value_of_residue, lemma_state_after_step, next_state,
    signed_value, state_after, to_residue,
};
use crate::decomposition::{
    config_valid, decomposition, decomposition_index, decomposition_terms, recomposition,
    summand_total,
};
use crate::native::{
    native_closest_representable, native_config_error, native_decomposition, native_index,
    native_step, round_half_up, SignedDecomposer, SignedDecompositionIter,
};
use crate::non_native::{SignedDecomposerNonNative, SignedDecompositionNonNativeIter};
use crate::numeric::{ScratchInteger, UnsignedInteger};
use crate::rounding::{
    lemma_rounded_quotient_error, lemma_rounded_quotient_exact, rounded_quotient,
};
use crate::term::{summand, term_weight, DecompositionTerm, DecompositionTermNonNative};

verus! {

/// The size of a signed number.
pub open spec fn magnitude(x: int) -> nat {
    if x >= 0 {
        x as nat
    } else {
        (-x) as nat
    }
}

/// By how much the weight of a level, scaled back by `B^level`, misses the
/// modulus. It is zero where `B^level` divides the modulus.
pub open spec fn weight_error(modulus: nat, base_log: nat, level: nat) -> int {
    pow2(base_log * level) * term_weight(modulus, base_log, level) - modulus
}

/// The sum of `digit * weight` over the digits of `index` at the positions
/// `from` and above, below `level_count`.
pub open spec fn weighted_digit_sum(
    index: nat,
    modulus: nat,
    base_log: nat,
    level_count: nat,
    from: nat,
) -> int
    decreases level_count - from,
{
    if from >= level_count {
        0
    } else {
        digit_at(index, base_log, from) * term_weight(
            modulus,
            base_log,
            (level_count - from) as nat,
        ) + weighted_digit_sum(index, modulus, base_log, level_count, from + 1)
    }
}

/// The sum of `digit * B^position * weight_error` over the digits of `index`
/// at the positions `from` and above, below `level_count`.
pub open spec fn weight_error_sum(
    index: nat,
    modulus: nat,
    base_log: nat,
    level_count: nat,
    from: nat,
) -> int
    decreases level_count - from,
{
    if from >= level_count {
        0
    } else {
        digit_at(index, base_log, from) * pow2(base_log * from) * weight_error(
            modulus,
            base_log,
            (level_count - from) as nat,
        ) + weight_error_sum(index, modulus, base_log, level_count, from + 1)
    }
}

/// Modulo the modulus, the summands of the terms from the position `from` on
/// add up to the weighted sum of their digits.
proof fn lemma_summands_congruent(
    index: nat,
    modulus: nat,
    base_log: nat,
    level_count: nat,
    from: nat,
)
    requires
        modulus > 0,
        from <= level_count,
    ensures
        (summand_total(decomposition_terms(index, modulus, base_log, level_count).skip(from as int))
            as int) % (modulus as int) == weighted_digit_sum(
            index,
            modulus,
            base_log,
            level_count,
            from,
        ) % (modulus as int),
    decreases level_count - from,
{
    let q = modulus as int;
    let terms = decomposition_terms(index, modulus, base_log, level_count);
    let suffix = terms.skip(from as int);
    if from == level_count {
        assert(suffix.len() == 0);
    } else {
        lemma_summands_congruent(index, modulus, base_log, level_count, from + 1);
        assert(suffix.first() == terms[from as int]);
        assert(suffix.drop_first() =~= terms.skip((from + 1) as int));
        let d = digit_at(index, base_log, from);
        let w = term_weight(modulus, base_log, (level_count - from) as nat) as int;
        let first = summand(terms[from as int]) as int;
        let rest = summand_total(terms.skip((from + 1) as int)) as int;
        let rest_sum = weighted_digit_sum(index, modulus, base_log, level_count, from + 1);
        assert(first == ((d % q) * w) % q);
        lemma_mul_mod_noop_left(d, w, q);
        lemma_mod_twice(d * w, q);
        lemma_add_mod_noop(first, rest, q);
        lemma_add_mod_noop(d * w, rest_sum, q);
    }
}

/// `B^level_count` times the weighted sum of the digits is the modulus times
/// the number the digits stand for, plus what the rounding of the weights
/// adds.
proof fn lemma_weighted_sum_identity(
    index: nat,
    modulus: nat,
    base_log: nat,
    level_count: nat,
    from: nat,
)
    requires
        from <= level_count,
    ensures
        pow2(base_log * level_count) * weighted_digit_sum(
            index,
            modulus,
            base_log,
            level_count,
            from,
        ) == modulus * (pow2(base_log * from) * digits_value(
            state_after(index, base_log, from),
            base_log,
            (level_count - from) as nat,
        )) + weight_error_sum(index, modulus, base_log, level_count, from),
    decreases level_count - from,
{
    let q = modulus as int;
    let big = pow2(base_log * level_count) as int;
    let low = pow2(base_log * from) as int;
    if from == level_count {
        assert(q * (low * 0) == 0) by (nonlinear_arith);
        assert(big * 0 == 0) by (nonlinear_arith);
    } else {
        lemma_weighted_sum_identity(index, modulus, base_log, level_count, from + 1);
        let level = (level_count - from) as nat;
        let state = state_after(index, base_log, from);
        let d = digit_at(index, base_log, from);
        let w = term_weight(modulus, base_log, level) as int;
        let e = weight_error(modulus, base_log, level);
        let high = pow2(base_log * level) as int;
        let b = pow2(base_log) as int;
        let rest_value = digits_value(next_state(state, base_log), base_log, (level - 1) as nat);
        let rest_sum = weighted_digit_sum(index, modulus, base_log, level_count, from + 1);
        let rest_error = weight_error_sum(index, modulus, base_log, level_count, from + 1);
        lemma_state_after_step(index, base_log, from);
        assert(base_log * from + base_log * level == base_log * level_count) by (nonlinear_arith)
            requires
                level == level_count - from,
        ;
        lemma_pow2_adds(base_log * from, base_log * level);
        assert(base_log * (from + 1) == base_log * from + base_log) by (nonlinear_arith);
        lemma_pow2_adds(base_log * from, base_log);
        assert(digits_value(state, base_log, level) == d + b * rest_value);
        let dl = d * low;
        let hw = high * w;
        let dw = d * w;
        assert(big * (dw + rest_sum) == big * dw + big * rest_sum) by (nonlinear_arith);
        assert(big * dw == dl * hw) by (nonlinear_arith)
            requires
                big == low * high,
                dl == d * low,
                hw == high * w,
                dw == d * w,
        ;
        assert(dl * hw == dl * q + dl * e) by (nonlinear_arith)
            requires
                hw == q + e,
        ;
        let br = b * rest_value;
        assert(low * (d + br) == dl + low * br) by (nonlinear_arith)
            requires
                dl == d * low,
        ;
        assert(low * br == (low * b) * rest_value) by (nonlinear_arith)
            requires
                br == b * rest_value,
        ;
        assert(q * (dl + (low * b) * rest_value) == dl * q + q * ((low * b) * rest_value))
            by (nonlinear_arith);
    }
}

/// The rounding of the weights adds at most a quarter of `B * B^level_count`
/// per digit.
proof fn lemma_weight_error_sum_bound(
    index: nat,
    modulus: nat,
    base_log: nat,
    level_count: nat,
    from: nat,
)
    requires
        base_log >= 1,
        from <= level_count,
    ensures
        4 * magnitude(weight_error_sum(index, modulus, base_log, level_count, from)) <= (level_count
            - from) * (pow2(base_log) * pow2(base_log * level_count)),
    decreases level_count - from,
{
    let b = pow2(base_log) as int;
    let big = pow2(base_log * level_count) as int;
    if from == level_count {
        assert(0 * (b * big) == 0) by (nonlinear_arith);
    } else {
        lemma_weight_error_sum_bound(index, modulus, base_log, level_count, from + 1);
        let level = (level_count - from) as nat;
        let d = digit_at(index, base_log, from);
        let e = weight_error(modulus, base_log, level);
        let low = pow2(base_log * from) as int;
        let high = pow2(base_log * level) as int;
        let rest_error = weight_error_sum(index, modulus, base_log, level_count, from + 1);
        lemma_balanced_digit_range(state_after(index, base_log, from), base_log);
        lemma_pow2_unfold(base_log);
        lemma_pow2_pos(base_log * level);
        lemma_pow2_pos(base_log * from);
        lemma_rounded_quotient_error(modulus, pow2(base_log * level));
        assert(base_log * from + base_log * level == base_log * level_count) by (nonlinear_arith)
            requires
                level == level_count - from,
        ;
        lemma_pow2_adds(base_log * from, base_log * level);
        let t = d * low * e;
        assert(-(b * big) <= 4 * t <= b * big) by (nonlinear_arith)
            requires
                t == d * low * e,
                -b <= 2 * d <= b,
                -high <= 2 * e <= high,
                low > 0,
                high > 0,
                big == low * high,
        ;
        assert((level_count - from) * (b * big) == (level_count - (from + 1)) * (b * big) + b
            * big) by (nonlinear_arith);
    }
}

/// Where `B^level_count` divides the modulus, the weights are exact.
proof fn lemma_weight_error_sum_exact(
    index: nat,
    modulus: nat,
    base_log: nat,
    level_count: nat,
    from: nat,
)
    requires
        from <= level_count,
        modulus % pow2(base_log * level_count) == 0,
    ensures
        weight_error_sum(index, modulus, base_log, level_count, from) == 0,
    decreases level_count - from,
{
    if from < level_count {
        lemma_weight_error_sum_exact(index, modulus, base_log, level_count, from + 1);
        let level = (level_count - from) as nat;
        let big = pow2(base_log * level_count);
        let low = pow2(base_log * from);
        let high = pow2(base_log * level);
        lemma_pow2_pos(base_log * level_count);
        lemma_pow2_pos(base_log * level);
        assert(base_log * from + base_log * level == base_log * level_count) by (nonlinear_arith)
            requires
                level == level_count - from,
        ;
        lemma_pow2_adds(base_log * from, base_log * level);
        lemma_fundamental_div_mod(modulus as int, big as int);
        let c = modulus / big;
        assert(modulus == (low * c) * high) by (nonlinear_arith)
            requires
                modulus == big * c,
                big == low * high,
        ;
        lemma_rounded_quotient_exact(low * c, high);
        assert(weight_error(modulus, base_log, level) == 0) by (nonlinear_arith)
            requires
                weight_error(modulus, base_log, level) == high * term_weight(
                    modulus,
                    base_log,
                    level,
                ) - modulus,
                term_weight(modulus, base_log, level) == low * c,
                modulus == (low * c) * high,
        ;
        let d = digit_at(index, base_log, from);
        assert(d * low * 0 == 0) by (nonlinear_arith);
    }
}

/// Two residues whose difference is congruent to `x` are at most the size of
/// `x` apart on the circle.
proof fn lemma_circular_distance_bound(a: nat, b: nat, x: int, modulus: nat)
    requires
        modulus > 0,
        (a - b) % (modulus as int) == x % (modulus as int),
    ensures
        circular_distance(a, b, modulus) <= magnitude(x),
{
    let q = modulus as int;
    if x >= 0 {
        lemma_mod_decreases(x as nat, modulus);
    } else {
        lemma_mod_equivalence(a - b, x, q);
        let y = (a - b) - x;
        lemma_fundamental_div_mod(y, q);
        let c = y / q;
        assert(-y == q * (-c)) by (nonlinear_arith)
            requires
                y == q * c,
        ;
        lemma_mod_multiples_vanish(-c, 0, q);
        assert(((-x) - (b - a)) % q == 0);
        lemma_mod_equivalence(-x, b - a, q);
        lemma_mod_decreases((-x) as nat, modulus);
    }
}

/// The round trip, with the share of the rounded weights written out.
///
/// For every valid configuration and every value `theta`, the terms of the
/// decomposition of `theta` recompose to a value whose distance to `theta`
/// modulo the modulus, times `B^level_count`, is at most half the modulus plus
/// the size of the sum of the weight errors of the digits. Where that sum is
/// zero, the distance is at most `modulus / (2 * B^level_count)`.
pub proof fn theorem_round_trip_with_weight_errors(
    theta: nat,
    modulus: nat,
    base_log: nat,
    level_count: nat,
)
    requires
        config_valid(modulus, base_log, level_count),
    ensures
        2 * (pow2(base_log * level_count) * circular_distance(
            recomposition(decomposition(theta, modulus, base_log, level_count), modulus),
            theta,
            modulus,
        )) <= modulus + 2 * magnitude(
            weight_error_sum(
                decomposition_index(theta, modulus, base_log, level_count),
                modulus,
                base_log,
                level_count,
                0,
            ),
        ),
{
    let q = modulus as int;
    let big = pow2(base_log * level_count) as int;
    lemma_pow2_pos(base_log * level_count);
    let reduced = (theta % modulus) as int;
    let x = reduced * big;
    assert(x >= 0) by (nonlinear_arith)
        requires
            x == reduced * big,
            reduced >= 0,
            big >= 0,
    ;
    let k0 = rounded_quotient(x as nat, modulus) as int;
    let index = decomposition_index(theta, modulus, base_log, level_count);
    let k = index as int;
    let n0 = k0 / big;
    lemma_fundamental_div_mod(k0, big);
    // The count of steps is within half a step of the scaled value.
    lemma_rounded_quotient_error(x as nat, modulus);
    let delta = q * k0 - x;
    // The digits stand for the index, up to a multiple of `B^level_count`.
    let left = state_after(index, base_log, level_count) as int;
    let value = digits_value(index, base_log, level_count);
    lemma_digits_value(index, base_log, level_count);
    // The weighted sum of the digits, scaled by `B^level_count`.
    let weighted = weighted_digit_sum(index, modulus, base_log, level_count, 0);
    let error = weight_error_sum(index, modulus, base_log, level_count, 0);
    lemma_weighted_sum_identity(index, modulus, base_log, level_count, 0);
    assert(base_log * 0 == 0) by (nonlinear_arith);
    lemma2_to64();
    assert(state_after(index, base_log, 0) == index);
    assert(pow2(0) * value == value) by (nonlinear_arith)
        requires
            pow2(0) == 1,
    ;
    assert(big * weighted == q * value + error);
    let miss = weighted + q * (n0 + left) - reduced;
    assert(big * miss == delta + error) by (nonlinear_arith)
        requires
            miss == weighted + q * (n0 + left) - reduced,
            big * weighted == q * value + error,
            value == k - big * left,
            k0 == big * n0 + k,
            delta == q * k0 - x,
            x == reduced * big,
    ;
    // The recomposed value is congruent to the weighted sum.
    let terms = decomposition(theta, modulus, base_log, level_count);
    let total = summand_total(terms) as int;
    let recomposed = recomposition(terms, modulus) as int;
    lemma_summands_congruent(index, modulus, base_log, level_count, 0);
    assert(terms.skip(0) =~= terms);
    lemma_fundamental_div_mod(weighted, q);
    lemma_fundamental_div_mod(theta as int, q);
    let c1 = weighted / q;
    let c2 = (theta as int) / q;
    let c = -(n0 + left) - c1 - c2;
    assert(recomposed - theta == q * c + miss) by (nonlinear_arith)
        requires
            recomposed == weighted - q * c1,
            theta == q * c2 + reduced,
            miss == weighted + q * (n0 + left) - reduced,
            c == -(n0 + left) - c1 - c2,
    ;
    lemma_mod_multiples_vanish(c, miss, q);
    lemma_circular_distance_bound(recomposed as nat, theta, miss, modulus);
    let distance = circular_distance(recomposed as nat, theta, modulus) as int;
    assert(2 * (big * distance) <= q + 2 * magnitude(error)) by (nonlinear_arith)
        requires
            0 <= distance <= magnitude(miss),
            big * miss == delta + error,
            -q < 2 * delta <= q,
            big > 0,
            magnitude(miss) == (if miss >= 0 {
                miss
            } else {
                -miss
            }),
            magnitude(error) == (if error >= 0 {
                error
            } else {
                -error
            }),
    ;
}

/// The round trip, where the smallest step is a whole number.
///
/// For every valid configuration whose `B^level_count` divides the modulus,
/// and for every value `theta`, the terms of the decomposition of `theta`
/// recompose to a value whose distance to `theta` modulo the modulus is at
/// most `modulus / (2 * B^level_count)`, half the smallest step.
pub proof fn theorem_round_trip_exact(theta: nat, modulus: nat, base_log: nat, level_count: nat)
    requires
        config_valid(modulus, base_log, level_count),
        modulus % pow2(base_log * level_count) == 0,
    ensures
        2 * (pow2(base_log * level_count) * circular_distance(
            recomposition(decomposition(theta, modulus, base_log, level_count), modulus),
            theta,
            modulus,
        )) <= modulus,
{
    theorem_round_trip_with_weight_errors(theta, modulus, base_log, level_count);
    lemma_weight_error_sum_exact(
        decomposition_index(theta, modulus, base_log, level_count),
        modulus,
        base_log,
        level_count,
        0,
    );
}

/// The round trip for any modulus.
///
/// For every valid configuration and every value `theta`, the terms of the
/// decomposition of `theta` recompose to a value whose distance to `theta`
/// modulo the modulus is at most half the smallest step
/// `modulus / B^level_count`, plus a quarter of the base `B` for each level:
/// the share of the weights `modulus / B^level`, which are rounded to whole
/// numbers.
pub proof fn theorem_round_trip(theta: nat, modulus: nat, base_log: nat, level_count: nat)
    requires
        config_valid(modulus, base_log, level_count),
    ensures
        4 * (pow2(base_log * level_count) * circular_distance(
            recomposition(decomposition(theta, modulus, base_log, level_count), modulus),
            theta,
            modulus,
        )) <= 2 * modulus + level_count * (pow2(base_log) * pow2(base_log * level_count)),
{
    theorem_round_trip_with_weight_errors(theta, modulus, base_log, level_count);
    lemma_weight_error_sum_bound(
        decomposition_index(theta, modulus, base_log, level_count),
        modulus,
        base_log,
        level_count,
        0,
    );
}

/// Every digit of a decomposition is balanced.
///
/// For every valid configuration, every index and every position below the
/// level count, the term at that position is of the level counted down from
/// `level_count`, and the signed number that it stores is the balanced digit
/// of that position, which lies in `[-B/2, B/2 - 1]`.
pub proof fn theorem_digits_balanced(
    index: nat,
    modulus: nat,
    base_log: nat,
    level_count: nat,
    position: nat,
)
    requires
        config_valid(modulus, base_log, level_count),
        position < level_count,
    ensures
        ({
            let term = decomposition_terms(index, modulus, base_log, level_count)[position as int];
            &&& term.level == level_count - position
            &&& signed_value(term.value, term.modulus) == digit_at(index, base_log, position)
            &&& -(pow2(base_log) / 2) <= signed_value(term.value, term.modulus) <= pow2(base_log)
                / 2 - 1
        }),
{
    let d = digit_at(index, base_log, position);
    lemma_balanced_digit_range(state_after(index, base_log, position), base_log);
    lemma_pow2_unfold(base_log);
    assert(base_log <= base_log * level_count) by (nonlinear_arith)
        requires
            level_count >= 1,
    ;
    if base_log < base_log * level_count {
        lemma_pow2_strictly_increases(base_log, base_log * level_count);
    }
    lemma_signed_value_of_residue(d, modulus);
}

/// The decomposition of a multiple of the modulus has only zero digits.
pub proof fn theorem_zero_decomposes_to_zeros(
    theta: nat,
    modulus: nat,
    base_log: nat,
    level_count: nat,
    position: nat,
)
    requires
        config_valid(modulus, base_log, level_count),
        theta % modulus == 0,
        position < level_count,
    ensures
        decomposition(theta, modulus, base_log, level_count)[position as int].value == 0,
        decomposition_index(theta, modulus, base_log, level_count) == 0,
{
    let big = pow2(base_log * level_count);
    lemma_pow2_pos(base_log * level_count);
    assert(0 * big == 0) by (nonlinear_arith);
    lemma_rounded_quotient_exact(0, modulus);
    assert(0 * modulus == 0) by (nonlinear_arith);
    lemma_small_mod(0, big);
    lemma_zero_state(base_log, position);
    lemma_pow2_pos(base_log);
    lemma_small_mod(0, pow2(base_log));
    lemma_small_mod(0, modulus);
}

/// Nothing is ever left of the state zero, and all its digits are zero.
proof fn lemma_zero_state(base_log: nat, count: nat)
    ensures
        state_after(0, base_log, count) == 0,
        digit_at(0, base_log, count) == 0,
    decreases count,
{
    lemma_pow2_pos(base_log);
    lemma_small_mod(0, pow2(base_log));
    assert(0nat / pow2(base_log) == 0) by {
        lemma_basic_div(0, pow2(base_log) as int);
    }
    assert(next_state(0, base_log) == 0);
    assert(balanced_digit(0, base_log) == 0) by (nonlinear_arith)
        requires
            balanced_digit(0, base_log) == 0 - 0 * pow2(base_log),
    ;
    if count > 0 {
        lemma_zero_state(base_log, (count - 1) as nat);
    }
}

/// Modulo `2^bits` the count of smallest steps of the model is the count that
/// the addition of half a step and the truncation give.
proof fn lemma_native_index(theta: nat, bits: nat, base_log: nat, level_count: nat)
    requires
        native_config_error(bits, base_log, level_count) is None,
        theta < pow2(bits),
    ensures
        native_index(theta, bits, base_log, level_count) == decomposition_index(
            theta,
            pow2(bits),
            base_log,
            level_count,
        ),
        pow2(bits) == native_step(bits, base_log, level_count) * pow2(base_log * level_count),
        config_valid(pow2(bits), base_log, level_count),
        pow2(bits) % pow2(base_log * level_count) == 0,
{
    let n = base_log * level_count;
    let big = pow2(n);
    let rest = (bits - n) as nat;
    let step = pow2(rest);
    let q = pow2(bits);
    lemma_pow2_pos(n);
    lemma_pow2_pos(rest);
    lemma_pow2_adds(rest, n);
    assert(q == step * big);
    assert(big <= q) by (nonlinear_arith)
        requires
            q == step * big,
            step >= 1,
            big >= 1,
    ;
    lemma_mod_multiples_basic(step as int, big as int);
    lemma_small_mod(theta, q);
    let a = 2 * theta + step;
    assert(2 * (theta * big) + q == big * a) by (nonlinear_arith)
        requires
            q == step * big,
            a == 2 * theta + step,
    ;
    assert(2 * q == big * (2 * step)) by (nonlinear_arith)
        requires
            q == step * big,
    ;
    lemma_div_multiples_vanish_quotient(big as int, a as int, (2 * step) as int);
    assert(rounded_quotient(theta * big, q) == a / (2 * step));
    if rest == 0 {
        lemma2_to64();
        assert(a / 2 == theta);
        assert(round_half_up(theta, step) == theta);
    } else {
        let half = pow2((rest - 1) as nat);
        lemma_pow2_unfold(rest);
        lemma_pow2_pos((rest - 1) as nat);
        assert(a == 2 * (theta + half));
        assert(2 * step == 2 * (2 * half));
        lemma_div_multiples_vanish_quotient(2, (theta + half) as int, (2 * half) as int);
        assert(step / 2 == half);
    }
}

/// The native decomposition is the decomposition of the model at the modulus
/// `2^bits`.
pub proof fn theorem_native_decomposition(theta: nat, bits: nat, base_log: nat, level_count: nat)
    requires
        native_config_error(bits, base_log, level_count) is None,
        theta < pow2(bits),
    ensures
        native_decomposition(theta, bits, base_log, level_count) == decomposition(
            theta,
            pow2(bits),
            base_log,
            level_count,
        ),
{
    lemma_native_index(theta, bits, base_log, level_count);
}

/// The round trip modulo `2^bits`.
///
/// For every valid native configuration and every value `theta` below
/// `2^bits`, the terms of the decomposition of `theta` recompose to the
/// closest representable value, whose distance to `theta` modulo `2^bits` is
/// at most half the smallest step.
pub proof fn theorem_native_round_trip(theta: nat, bits: nat, base_log: nat, level_count: nat)
    requires
        native_config_error(bits, base_log, level_count) is None,
        theta < pow2(bits),
    ensures
        recomposition(native_decomposition(theta, bits, base_log, level_count), pow2(bits))
            == native_closest_representable(theta, bits, base_log, level_count),
        2 * circular_distance(
            recomposition(native_decomposition(theta, bits, base_log, level_count), pow2(bits)),
            theta,
            pow2(bits),
        ) <= native_step(bits, base_log, level_count),
{
    let modulus = pow2(bits);
    let q = modulus as int;
    let big = pow2(base_log * level_count) as int;
    let step = native_step(bits, base_log, level_count) as int;
    lemma_native_index(theta, bits, base_log, level_count);
    lemma_pow2_pos(base_log * level_count);
    let terms = native_decomposition(theta, bits, base_log, level_count);
    let recomposed = recomposition(terms, modulus);
    // The distance.
    theorem_round_trip_exact(theta, modulus, base_log, level_count);
    let distance = circular_distance(recomposed, theta, modulus) as int;
    assert(2 * distance <= step) by (nonlinear_arith)
        requires
            2 * (big * distance) <= q,
            q == step * big,
            big > 0,
    ;
    // The recomposed value.
    let index = native_index(theta, bits, base_log, level_count);
    let k = index as int;
    let rounded = round_half_up(theta, step as nat) as int;
    let left = state_after(index, base_log, level_count) as int;
    let value = digits_value(index, base_log, level_count);
    let weighted = weighted_digit_sum(index, modulus, base_log, level_count, 0);
    lemma_digits_value(index, base_log, level_count);
    lemma_weighted_sum_identity(index, modulus, base_log, level_count, 0);
    lemma_weight_error_sum_exact(index, modulus, base_log, level_count, 0);
    assert(base_log * 0 == 0) by (nonlinear_arith);
    lemma2_to64();
    assert(state_after(index, base_log, 0) == index);
    assert(pow2(0) * value == value) by (nonlinear_arith)
        requires
            pow2(0) == 1,
    ;
    assert(weighted == step * k + q * (-left)) by (nonlinear_arith)
        requires
            big * weighted == q * value,
            value == k - big * left,
            q == step * big,
            big > 0,
    ;
    lemma_summands_congruent(index, modulus, base_log, level_count, 0);
    assert(terms.skip(0) =~= terms);
    lemma_mod_multiples_vanish(-left, step * k, q);
    lemma_truncate_middle(rounded, step, big);
    assert(rounded * step == step * rounded) by (nonlinear_arith);
    lemma_mod_twice(step * rounded, q);
}

/// The native decomposition of zero has only zero digits.
pub proof fn theorem_native_zero_decomposes_to_zeros(
    bits: nat,
    base_log: nat,
    level_count: nat,
    position: nat,
)
    requires
        native_config_error(bits, base_log, level_count) is None,
        position < level_count,
    ensures
        native_decomposition(0, bits, base_log, level_count)[position as int].value == 0,
        native_closest_representable(0, bits, base_log, level_count) == 0,
{
    lemma_pow2_pos(bits);
    lemma_native_index(0, bits, base_log, level_count);
    lemma_small_mod(0, pow2(bits));
    theorem_zero_decomposes_to_zeros(0, pow2(bits), base_log, level_count, position);
    let step = native_step(bits, base_log, level_count);
    lemma_pow2_pos((bits - base_log * level_count) as nat);
    lemma_basic_div((step / 2) as int, step as int);
    assert(0 * step == 0) by (nonlinear_arith);
}

/// Native decomposition is deterministic.
///
/// Two decompositions of the same value by decomposers of the same
/// configuration are the same sequence of terms, and the terms handed out at
/// the same position are the same, bit for bit.
pub proof fn theorem_native_decompose_deterministic<T: UnsignedInteger>(
    first_decomposer: SignedDecomposer<T>,
    second_decomposer: SignedDecomposer<T>,
    first_input: T,
    second_input: T,
    first_terms: SignedDecompositionIter<T>,
    second_terms: SignedDecompositionIter<T>,
    first_term: DecompositionTerm<T>,
    second_term: DecompositionTerm<T>,
    position: int,
)
    requires
        first_decomposer@ == second_decomposer@,
        first_input == second_input,
        first_terms@ == native_decomposition(
            first_input.as_nat(),
            T::bit_width(),
            first_decomposer@.base_log,
            first_decomposer@.level_count,
        ),
        second_terms@ == native_decomposition(
            second_input.as_nat(),
            T::bit_width(),
            second_decomposer@.base_log,
            second_decomposer@.level_count,
        ),
        0 <= position < first_terms@.len(),
        first_term@ == first_terms@[position],
        second_term@ == second_terms@[position],
    ensures
        first_terms@ == second_terms@,
        first_term == second_term,
{
    first_term.lemma_equal_views(second_term);
}

/// Decomposition modulo an arbitrary modulus is deterministic.
///
/// Two decompositions of the same value by decomposers of the same
/// configuration and modulus are the same sequence of terms, and the terms
/// handed out at the same position are the same, bit for bit.
pub proof fn theorem_non_native_decompose_deterministic<T: ScratchInteger>(
    first_decomposer: SignedDecomposerNonNative<T>,
    second_decomposer: SignedDecomposerNonNative<T>,
    first_input: T,
    second_input: T,
    first_terms: SignedDecompositionNonNativeIter<T>,
    second_terms: SignedDecompositionNonNativeIter<T>,
    first_term: DecompositionTermNonNative<T>,
    second_term: DecompositionTermNonNative<T>,
    position: int,
)
    requires
        first_decomposer@ == second_decomposer@,
        first_input == second_input,
        first_terms@ == decomposition(
            first_input.as_nat(),
            first_decomposer@.modulus,
            first_decomposer@.base_log,
            first_decomposer@.level_count,
        ),
        second_terms@ == decomposition(
            second_input.as_nat(),
            second_decomposer@.modulus,
            second_decomposer@.base_log,
            second_decomposer@.level_count,
        ),
        0 <= position < first_terms@.len(),
        first_term@ == first_terms@[position],
        second_term@ == second_terms@[position],
    ensures
        first_terms@ == second_terms@,
        first_term == second_term,
{
    first_term.lemma_equal_views(second_term);
}

} // verus!
