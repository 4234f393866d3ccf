//! Balanced signed digits in base `B = 2^base_log`.
//!
//! A running state is split, least significant digit first, into digits of
//! the range `[-B/2, B/2 - 1]`: the low `base_log` bits of the state form a
//! chunk; a chunk of `B/2` or more stands for the negative digit `chunk - B`
//! and sends a carry of one into what is left of the state.
use vstd::prelude::*;
use vstd::arithmetic::power2::*;
use vstd::arithmetic::div_mod::*;
use vstd::arithmetic::mul::*;

verus! {

/// The low `base_log` bits of `state`.
pub open spec fn chunk(state: nat, base_log: nat) -> nat {
    state % pow2(base_log)
}

/// One if the chunk of `state` is at least `B/2`, else zero.
pub open spec fn carry(state: nat, base_log: nat) -> nat {
    if 2 * chunk(state, base_log) >= pow2(base_log) {
        1
    } else {
        0
    }
}

/// The balanced digit that the chunk of `state` stands for.
pub open spec fn balanced_digit(state: nat, base_log: nat) -> int {
    chunk(state, base_log) - carry(state, base_log) * pow2(base_log)
}

/// What is left of `state` once its lowest digit has been taken: the bits
/// above the chunk, plus the carry.
pub open spec fn next_state(state: nat, base_log: nat) -> nat {
    state / pow2(base_log) + carry(state, base_log)
}

/// What is left of `state` once its `count` lowest digits have been taken.
pub open spec fn state_after(state: nat, base_log: nat, count: nat) -> nat
    decreases count,
{
    if count == 0 {
        state
    } else {
        state_after(next_state(state, base_log), base_log, (count - 1) as nat)
    }
}

/// The balanced digit of `state` at position `index`, where position zero is
/// the least significant.
pub open spec fn digit_at(state: nat, base_log: nat, index: nat) -> int {
    balanced_digit(state_after(state, base_log, index), base_log)
}

/// The number that the `count` lowest digits of `state` stand for: the sum of
/// `digit_at(state, base_log, j) * B^j` over `j < count`.
pub open spec fn digits_value(state: nat, base_log: nat, count: nat) -> int
    decreases count,
{
    if count == 0 {
        0
    } else {
        balanced_digit(state, base_log) + pow2(base_log) * digits_value(
            next_state(state, base_log),
            base_log,
            (count - 1) as nat,
        )
    }
}

/// The residue in `[0, modulus)` that stores the signed number `digit`.
pub open spec fn to_residue(digit: int, modulus: nat) -> nat {
    (digit % (modulus as int)) as nat
}

/// The signed number that the residue `residue` stores: the representative of
/// its class modulo `modulus` in `[-modulus/2, modulus/2)`.
pub open spec fn signed_value(residue: nat, modulus: nat) -> int {
    if 2 * residue >= modulus {
        residue - modulus
    } else {
        residue as int
    }
}

/// The distance between `a` and `b` on the circle of the residues modulo
/// `modulus`.
pub open spec fn circular_distance(a: nat, b: nat, modulus: nat) -> nat {
    let forward = (a - b) % (modulus as int);
    let backward = (b - a) % (modulus as int);
    if forward <= backward {
        forward as nat
    } else {
        backward as nat
    }
}

/// A state is its lowest digit plus `B` times what is left.
pub proof fn lemma_digit_split(state: nat, base_log: nat)
    ensures
        state == balanced_digit(state, base_log) + pow2(base_log) * next_state(state, base_log),
{
    let b = pow2(base_log);
    lemma_pow2_pos(base_log);
    lemma_fundamental_div_mod(state as int, b as int);
    let c = carry(state, base_log);
    assert(b * (state / b + c) == b * (state / b) + b * c) by (nonlinear_arith);
    assert(c * b == b * c) by (nonlinear_arith);
}

/// Every balanced digit lies in `[-B/2, B/2 - 1]`.
pub proof fn lemma_balanced_digit_range(state: nat, base_log: nat)
    requires
        base_log >= 1,
    ensures
        -(pow2(base_log) / 2) <= balanced_digit(state, base_log) <= pow2(base_log) / 2 - 1,
{
    let b = pow2(base_log);
    lemma_pow2_unfold(base_log);
    lemma_pow2_pos((base_log - 1) as nat);
    lemma_mod_bound(state as int, b as int);
    let c = carry(state, base_log);
    assert(c * b == if c == 1 { b } else { 0 }) by (nonlinear_arith)
        requires
            c == 0 || c == 1,
    ;
}

/// Taking one more digit applies `next_state` to what was left.
pub proof fn lemma_state_after_step(state: nat, base_log: nat, count: nat)
    ensures
        state_after(state, base_log, count + 1) == next_state(
            state_after(state, base_log, count),
            base_log,
        ),
    decreases count,
{
    let next = next_state(state, base_log);
    assert(state_after(state, base_log, count + 1) == state_after(next, base_log, count));
    if count > 0 {
        lemma_state_after_step(next, base_log, (count - 1) as nat);
    } else {
        assert(state_after(next, base_log, 0) == next);
    }
}

/// The `count` lowest digits of `state` stand for `state` less `B^count`
/// times what is left after them.
pub proof fn lemma_digits_value(state: nat, base_log: nat, count: nat)
    ensures
        digits_value(state, base_log, count) == state - pow2(base_log * count) * state_after(
            state,
            base_log,
            count,
        ),
    decreases count,
{
    let b = pow2(base_log);
    if count == 0 {
        assert(base_log * count == 0) by (nonlinear_arith)
            requires
                count == 0,
        ;
        lemma2_to64();
    } else {
        let rest = (count - 1) as nat;
        let next = next_state(state, base_log);
        lemma_digits_value(next, base_log, rest);
        lemma_digit_split(state, base_log);
        assert(base_log * count == base_log + base_log * rest) by (nonlinear_arith)
            requires
                count == rest + 1,
        ;
        lemma_pow2_adds(base_log, base_log * rest);
        let p = pow2(base_log * rest);
        let s = state_after(next, base_log, rest);
        assert(b * (next - p * s) == b * next - (b * p) * s) by (nonlinear_arith);
    }
}

/// A signed number of the centred range is recovered from its residue.
pub proof fn lemma_signed_value_of_residue(digit: int, modulus: nat)
    requires
        modulus > 0,
        -(modulus as int) <= 2 * digit < modulus,
    ensures
        signed_value(to_residue(digit, modulus), modulus) == digit,
{
    if digit >= 0 {
        lemma_small_mod(digit as nat, modulus);
    } else {
        lemma_mod_add_multiples_vanish(digit, modulus as int);
        lemma_small_mod((digit + modulus) as nat, modulus);
    }
}

} // verus!
