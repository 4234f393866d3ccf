//! Signed decomposition modulo `2^W`, the native modulus of a `W`-bit integer.
use core::marker::PhantomData;
use vstd::prelude::*;
use vstd::arithmetic::power2::*;
use vstd::arithmetic::div_mod::*;
use vstd::arithmetic::mul::*;
use crate::balanced::{balanced_digit, carry, chunk, digit_at, next_state, state_after, to_residue};
use crate::error::ConfigurationError;
use crate::numeric::UnsignedInteger;
use crate::parameters::{DecompositionBaseLog, DecompositionLevel, DecompositionLevelCount};
use crate::decomposition::{decomposition_terms, recomposition, summand_total};
use crate::term::{summand, DecompositionTerm, TermView};

verus! {

/// The error that a native configuration is refused with, if any.
pub open spec fn native_config_error(bits: nat, base_log: nat, level_count: nat) -> Option<
    ConfigurationError,
> {
    if base_log == 0 {
        Some(ConfigurationError::ZeroBaseLog)
    } else if level_count == 0 {
        Some(ConfigurationError::ZeroLevelCount)
    } else if base_log * level_count > bits {
        Some(ConfigurationError::TooManyBits)
    } else {
        None
    }
}

/// The smallest step that a decomposition can represent:
/// `2^bits / B^level_count`.
pub open spec fn native_step(bits: nat, base_log: nat, level_count: nat) -> nat {
    pow2((bits - base_log * level_count) as nat)
}

/// The number of whole steps in `value`, rounded to nearest, ties upwards.
pub open spec fn round_half_up(value: nat, step: nat) -> nat {
    (value + step / 2) / step
}

/// The multiple of the smallest step that is closest to `theta`, modulo
/// `2^bits`.
pub open spec fn native_closest_representable(
    theta: nat,
    bits: nat,
    base_log: nat,
    level_count: nat,
) -> nat {
    let step = native_step(bits, base_log, level_count);
    (round_half_up(theta, step) * step) % pow2(bits)
}

/// The number whose balanced digits decompose `theta`: the count of smallest
/// steps in `theta`, rounded to nearest, modulo `B^level_count`.
pub open spec fn native_index(theta: nat, bits: nat, base_log: nat, level_count: nat) -> nat {
    round_half_up(theta, native_step(bits, base_log, level_count)) % pow2(base_log * level_count)
}

/// The terms that decompose `theta` modulo `2^bits`, from the level
/// `level_count` down to the level one: they hold the balanced digits of the
/// count of smallest steps in `theta`.
pub open spec fn native_decomposition(
    theta: nat,
    bits: nat,
    base_log: nat,
    level_count: nat,
) -> Seq<TermView> {
    decomposition_terms(
        native_index(theta, bits, base_log, level_count),
        pow2(bits),
        base_log,
        level_count,
    )
}

/// Takes the lowest balanced digit from `state`, leaving in `state` what the
/// higher digits are taken from. The digit comes as its residue modulo `2^W`.
pub(crate) fn decompose_one_level<T: UnsignedInteger>(base_log: usize, state: &mut T) -> (digit: T)
    requires
        1 <= base_log <= T::bit_width(),
    ensures
        final(state).as_nat() == next_state(old(state).as_nat(), base_log as nat),
        digit.as_nat() == to_residue(
            balanced_digit(old(state).as_nat(), base_log as nat),
            pow2(T::bit_width()),
        ),
{
    let ghost s = state.as_nat();
    let ghost b = pow2(base_log as nat);
    let ghost half = pow2((base_log - 1) as nat);
    let ghost m = pow2(T::bit_width());
    proof {
        state.lemma_as_nat_range();
        lemma_pow2_pos(base_log as nat);
        lemma_pow2_pos((base_log - 1) as nat);
        lemma_pow2_unfold(base_log as nat);
        lemma_fundamental_div_mod(s as int, b as int);
        lemma_mod_bound(s as int, b as int);
        assert((s / b) * b == b * (s / b)) by (nonlinear_arith);
        assert(0 <= s / b) by (nonlinear_arith)
            requires
                0 <= s,
                b > 0,
        ;
        if base_log < T::bit_width() {
            lemma_pow2_strictly_increases(base_log as nat, T::bit_width());
        }
    }
    let high = state.shift_right(base_log);
    let low = state.wrapping_sub(high.shift_left(base_log));
    proof {
        lemma_small_mod((s / b) * b, m);
        lemma_small_mod(s % b, m);
        assert(low.as_nat() == chunk(s, base_log as nat));
    }
    let carried = low.shift_right(base_log - 1);
    proof {
        let c = low.as_nat();
        lemma_fundamental_div_mod(c as int, half as int);
        lemma_mod_bound(c as int, half as int);
        assert(c / half == carry(s, base_log as nat)) by (nonlinear_arith)
            requires
                c == half * (c / half) + c % half,
                0 <= c % half < half,
                c < 2 * half,
                carry(s, base_log as nat) == (if 2 * c >= 2 * half {
                    1nat
                } else {
                    0nat
                }),
        ;
        // The bits above the chunk leave room for the carry.
        assert(2 * (s / b) <= s) by (nonlinear_arith)
            requires
                s == b * (s / b) + s % b,
                0 <= s % b,
                b >= 2,
                0 <= s / b,
        ;
        lemma_small_mod(s / b + carried.as_nat(), m);
        // The carry times the base, modulo the native modulus.
        let cb = carried.as_nat() * b;
        assert(cb == if carried.as_nat() == 1 {
            b
        } else {
            0
        }) by (nonlinear_arith)
            requires
                cb == carried.as_nat() * b,
                carried.as_nat() == 0 || carried.as_nat() == 1,
        ;
        lemma_sub_mod_noop_right(c as int, cb as int, m as int);
    }
    *state = high.wrapping_add(carried);
    low.wrapping_sub(carried.shift_left(base_log))
}

/// The configuration of a decomposer, as plain numbers.
pub struct DecomposerView {
    /// The logarithm in base two of the digit base.
    pub base_log: nat,
    /// The number of digits of a decomposition.
    pub level_count: nat,
}

/// A decomposer of the values modulo `2^W` of the integer type `T`.
///
/// It is configured once with a base logarithm and a level count whose
/// product is at most `W`, and holds nothing else.
#[derive(Debug, PartialEq, Eq)]
pub struct SignedDecomposer<T: UnsignedInteger> {
    base_log: usize,
    level_count: usize,
    integer_type: PhantomData<T>,
}

impl<T: UnsignedInteger> View for SignedDecomposer<T> {
    type V = DecomposerView;

    closed spec fn view(&self) -> DecomposerView {
        DecomposerView { base_log: self.base_log as nat, level_count: self.level_count as nat }
    }
}

impl<T: UnsignedInteger> Clone for SignedDecomposer<T> {
    fn clone(&self) -> (copy: Self)
        ensures
            copy == *self,
    {
        proof {
            use_type_invariant(self);
        }
        SignedDecomposer {
            base_log: self.base_log,
            level_count: self.level_count,
            integer_type: PhantomData,
        }
    }
}

/// The product `base_log * level_count` exceeds `bits` exactly when the level
/// count exceeds the quotient of `bits` by `base_log`.
pub(crate) proof fn lemma_too_many_bits(bits: nat, base_log: nat, level_count: nat)
    requires
        base_log >= 1,
    ensures
        base_log * level_count > bits <==> level_count > bits / base_log,
{
    lemma_fundamental_div_mod(bits as int, base_log as int);
    lemma_mod_bound(bits as int, base_log as int);
    let q = bits / base_log;
    if level_count > q {
        assert(base_log * level_count >= base_log * (q + 1)) by (nonlinear_arith)
            requires
                level_count >= q + 1,
                base_log >= 1,
        ;
        assert(base_log * (q + 1) == base_log * q + base_log) by (nonlinear_arith);
    } else {
        assert(base_log * level_count <= base_log * q) by (nonlinear_arith)
            requires
                level_count <= q,
                base_log >= 1,
        ;
    }
}

/// Rounding to the nearest multiple of an even step `2 * half`, ties upwards,
/// adds to the count of whole steps the bit just below them.
proof fn lemma_round_half_up_split(value: nat, half: nat)
    requires
        half >= 1,
    ensures
        round_half_up(value, 2 * half) == (value / half) / 2 + (value / half) % 2,
{
    let y = value / half;
    let r = value % half;
    lemma_fundamental_div_mod(value as int, half as int);
    lemma_mod_bound(value as int, half as int);
    let a = y / 2;
    let bit = y % 2;
    assert((2 * half) / 2 == half);
    if bit == 0 {
        assert(value + half == (2 * half) * a + (half + r)) by (nonlinear_arith)
            requires
                value == half * y + r,
                y == 2 * a,
        ;
        lemma_fundamental_div_mod_converse(
            (value + half) as int,
            (2 * half) as int,
            a as int,
            (half + r) as int,
        );
    } else {
        assert(value + half == (2 * half) * (a + 1) + r) by (nonlinear_arith)
            requires
                value == half * y + r,
                y == 2 * a + 1,
        ;
        lemma_fundamental_div_mod_converse(
            (value + half) as int,
            (2 * half) as int,
            (a + 1) as int,
            r as int,
        );
    }
}

/// The terms of a decomposition that are still to come, highest level first.
///
/// The sequence is finite and is walked once: each call of `next_term` hands
/// out the next term, until none is left.
#[derive(Debug, PartialEq, Eq)]
pub struct SignedDecompositionIter<T: UnsignedInteger> {
    base_log: usize,
    state: T,
    current_level: usize,
}

impl<T: UnsignedInteger> View for SignedDecompositionIter<T> {
    type V = Seq<TermView>;

    closed spec fn view(&self) -> Seq<TermView> {
        Seq::new(
            self.current_level as nat,
            |i: int|
                TermView {
                    level: (self.current_level - i) as nat,
                    base_log: self.base_log as nat,
                    value: to_residue(
                        digit_at(self.state.as_nat(), self.base_log as nat, i as nat),
                        pow2(T::bit_width()),
                    ),
                    modulus: pow2(T::bit_width()),
                },
        )
    }
}

impl<T: UnsignedInteger> SignedDecompositionIter<T> {
    #[verifier::type_invariant]
    spec fn well_formed(self) -> bool {
        &&& 1 <= self.base_log
        &&& self.base_log * self.current_level <= T::bit_width()
    }

    /// Hands out the next term of the decomposition, or `None` once all the
    /// terms have been handed out.
    pub fn next_term(&mut self) -> (term: Option<DecompositionTerm<T>>)
        ensures
            old(self)@.len() == 0 ==> term is None && final(self)@ == old(self)@,
            old(self)@.len() > 0 ==> (term matches Some(t) && t@ == old(self)@.first()
                && final(self)@ == old(self)@.drop_first()),
    {
        proof {
            use_type_invariant(&*self);
        }
        if self.current_level == 0 {
            return None;
        }
        let level = self.current_level;
        let base_log = self.base_log;
        let ghost before = *self;
        proof {
            assert(base_log <= base_log * level) by (nonlinear_arith)
                requires
                    level >= 1,
                    base_log >= 0,
            ;
            assert(base_log * (level - 1) <= base_log * level) by (nonlinear_arith)
                requires
                    level >= 1,
                    base_log >= 0,
            ;
        }
        let mut state = self.state;
        let output = decompose_one_level(base_log, &mut state);
        self.state = state;
        self.current_level = level - 1;
        proof {
            let s = before.state.as_nat();
            assert(state_after(s, base_log as nat, 0) == s);
            assert forall|i: int| 0 <= i < level - 1 implies #[trigger] self@[i]
                == before@.drop_first()[i] by {
                assert(state_after(s, base_log as nat, (i + 1) as nat) == state_after(
                    next_state(s, base_log as nat),
                    base_log as nat,
                    i as nat,
                ));
            }
            assert(self@ =~= before@.drop_first());
        }
        Some(DecompositionTerm::new(DecompositionLevel(level), DecompositionBaseLog(base_log), output))
    }
}

impl<T: UnsignedInteger> SignedDecomposer<T> {
    #[verifier::type_invariant]
    spec fn well_formed(self) -> bool {
        native_config_error(T::bit_width(), self.base_log as nat, self.level_count as nat) is None
    }

    /// Creates the decomposer of the given base logarithm and level count.
    ///
    /// A configuration is refused when the base logarithm is zero, when the
    /// level count is zero, or when the digits would take more than `W` bits.
    pub fn new(base_log: DecompositionBaseLog, level_count: DecompositionLevelCount) -> (result:
        Result<Self, ConfigurationError>)
        ensures
            match native_config_error(T::bit_width(), base_log.0 as nat, level_count.0 as nat) {
                Some(error) => result == Err::<Self, ConfigurationError>(error),
                None => result matches Ok(decomposer) && decomposer@ == (DecomposerView {
                    base_log: base_log.0 as nat,
                    level_count: level_count.0 as nat,
                }),
            },
    {
        if base_log.0 == 0 {
            return Err(ConfigurationError::ZeroBaseLog);
        }
        if level_count.0 == 0 {
            return Err(ConfigurationError::ZeroLevelCount);
        }
        proof {
            lemma_too_many_bits(T::bit_width(), base_log.0 as nat, level_count.0 as nat);
        }
        if level_count.0 > T::bits() / base_log.0 {
            return Err(ConfigurationError::TooManyBits);
        }
        Ok(
            SignedDecomposer {
                base_log: base_log.0,
                level_count: level_count.0,
                integer_type: PhantomData,
            },
        )
    }

    /// Returns the logarithm in base two of the digit base.
    pub fn base_log(&self) -> (base_log: DecompositionBaseLog)
        ensures
            base_log.0 == self@.base_log,
    {
        DecompositionBaseLog(self.base_log)
    }

    /// Returns the number of digits of a decomposition.
    pub fn level_count(&self) -> (level_count: DecompositionLevelCount)
        ensures
            level_count.0 == self@.level_count,
    {
        DecompositionLevelCount(self.level_count)
    }

    /// Rounds `input` to the closest value that the decomposition can
    /// represent: the nearest multiple of the smallest step, ties upwards,
    /// modulo `2^W`.
    pub fn closest_representable(&self, input: T) -> (closest: T)
        ensures
            closest.as_nat() == native_closest_representable(
                input.as_nat(),
                T::bit_width(),
                self@.base_log,
                self@.level_count,
            ),
    {
        proof {
            use_type_invariant(self);
            T::lemma_bit_width();
            input.lemma_as_nat_range();
        }
        let non_rep_bit_count: usize = T::bits() - self.base_log * self.level_count;
        let ghost theta = input.as_nat();
        let ghost m = pow2(T::bit_width());
        if non_rep_bit_count == 0 {
            proof {
                lemma2_to64();
                let step = native_step(
                    T::bit_width(),
                    self.base_log as nat,
                    self.level_count as nat,
                );
                assert(step == 1);
                assert(round_half_up(theta, step) == theta);
                assert(round_half_up(theta, step) * step == theta) by (nonlinear_arith)
                    requires
                        step == 1,
                        round_half_up(theta, step) == theta,
                ;
                lemma_small_mod(theta, m);
            }
            return input;
        }
        let ghost half = pow2((non_rep_bit_count - 1) as nat);
        proof {
            lemma_pow2_pos((non_rep_bit_count - 1) as nat);
            lemma_pow2_unfold(non_rep_bit_count as nat);
            lemma2_to64();
            lemma_round_half_up_split(theta, half);
        }
        // The retained bits, with the bit just below them still attached.
        let with_round_bit = input.shift_right(non_rep_bit_count - 1);
        let ghost y = with_round_bit.as_nat();
        proof {
            lemma_div_nonincreasing(theta as int, half as int);
        }
        let retained = with_round_bit.shift_right(1);
        proof {
            lemma_fundamental_div_mod(y as int, 2);
            lemma_small_mod((y / 2) * 2, m);
            lemma_small_mod(y % 2, m);
            lemma_small_mod(y / 2 + y % 2, m);
        }
        let round_bit = with_round_bit.wrapping_sub(retained.shift_left(1));
        let rounded = retained.wrapping_add(round_bit);
        rounded.shift_left(non_rep_bit_count)
    }

    /// Decomposes `input` into `level_count` terms, highest level first.
    ///
    /// The input is first rounded to the closest representable value; the
    /// terms hold the balanced digits of the rounded value.
    pub fn decompose(&self, input: T) -> (decomposition: SignedDecompositionIter<T>)
        ensures
            decomposition@ == native_decomposition(
                input.as_nat(),
                T::bit_width(),
                self@.base_log,
                self@.level_count,
            ),
            decomposition@.len() == self@.level_count,
    {
        proof {
            use_type_invariant(self);
            T::lemma_bit_width();
        }
        let non_rep_bit_count: usize = T::bits() - self.base_log * self.level_count;
        let closest = self.closest_representable(input);
        let state = closest.shift_right(non_rep_bit_count);
        let decomposition = SignedDecompositionIter {
            base_log: self.base_log,
            state,
            current_level: self.level_count,
        };
        proof {
            let bits = T::bit_width();
            let digits_bits = (self.base_log * self.level_count) as nat;
            let step = pow2(non_rep_bit_count as nat);
            let rounded = round_half_up(input.as_nat(), step);
            lemma_pow2_pos(non_rep_bit_count as nat);
            lemma_pow2_pos(digits_bits);
            lemma_pow2_adds(non_rep_bit_count as nat, digits_bits);
            lemma_truncate_middle(rounded as int, step as int, pow2(digits_bits) as int);
            assert(rounded * step == step * rounded) by (nonlinear_arith);
            lemma_div_multiples_vanish((rounded % pow2(digits_bits)) as int, step as int);
            assert(state.as_nat() == native_index(
                input.as_nat(),
                bits,
                self.base_log as nat,
                self.level_count as nat,
            ));
            assert(decomposition@ =~= native_decomposition(
                input.as_nat(),
                bits,
                self.base_log as nat,
                self.level_count as nat,
            ));
        }
        decomposition
    }

    /// Recomposes a value from the terms of a decomposition: the sum of their
    /// summands, modulo `2^W`.
    pub fn recompose(&self, decomposition: SignedDecompositionIter<T>) -> (value: T)
        ensures
            value.as_nat() == recomposition(decomposition@, pow2(T::bit_width())),
    {
        let ghost bits = T::bit_width();
        let ghost m = pow2(bits);
        let mut rest = decomposition;
        let mut sum = T::zero();
        loop
            invariant
                bits == T::bit_width(),
                m == pow2(bits),
                (sum.as_nat() + summand_total(rest@)) % m == summand_total(decomposition@) % m,
            decreases rest@.len(),
        {
            let ghost before = rest@;
            let ghost acc = sum.as_nat();
            match rest.next_term() {
                None => {
                    proof {
                        sum.lemma_as_nat_range();
                        lemma_small_mod(acc, m);
                    }
                    return sum;
                },
                Some(term) => {
                    sum = sum.wrapping_add(term.to_recomposition_summand());
                    proof {
                        let summand = summand(before.first());
                        let later = summand_total(rest@);
                        lemma_pow2_pos(bits);
                        lemma_add_mod_noop(
                            ((acc + summand) % m) as int,
                            later as int,
                            m as int,
                        );
                        lemma_add_mod_noop((acc + summand) as int, later as int, m as int);
                        lemma_mod_twice((acc + summand) as int, m as int);
                    }
                },
            }
        }
    }
}

} // verus!
