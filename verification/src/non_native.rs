//! Signed decomposition modulo an arbitrary modulus `q`.
//!
//! Where the native decomposition shifts bits, this one divides and rounds in
//! the scratch type, which holds every intermediate product.
use vstd::prelude::*;
use vstd::arithmetic::power2::*;
use vstd::arithmetic::div_mod::*;
use crate::balanced::{
    digit_at, lemma_balanced_digit_range, lemma_signed_value_of_residue, next_state, signed_value,
    state_after, to_residue,
};
use crate::ciphertext_modulus::CiphertextModulus;
use crate::decomposition::{config_valid, decomposition, recomposition, summand_total};
use crate::error::ConfigurationError;
use crate::native::decompose_one_level;
use crate::numeric::{ScratchInteger, UnsignedInteger};
use crate::parameters::{DecompositionBaseLog, DecompositionLevel, DecompositionLevelCount};
use crate::rounding::{divide_round, lemma_rounded_quotient_error};
use crate::term::{lemma_exponent_below, summand, DecompositionTermNonNative, TermView};

verus! {

/// The error that a configuration for the modulus `modulus` is refused with,
/// if any.
pub open spec fn non_native_config_error(modulus: nat, base_log: nat, level_count: nat) -> Option<
    ConfigurationError,
> {
    if base_log == 0 {
        Some(ConfigurationError::ZeroBaseLog)
    } else if level_count == 0 {
        Some(ConfigurationError::ZeroLevelCount)
    } else if pow2(base_log * level_count) > modulus {
        Some(ConfigurationError::IncompatibleModulus)
    } else {
        None
    }
}

/// The configuration of a decomposer for an arbitrary modulus, as plain
/// numbers.
pub struct NonNativeDecomposerView {
    /// The logarithm in base two of the digit base.
    pub base_log: nat,
    /// The number of digits of a decomposition.
    pub level_count: nat,
    /// The modulus of the decomposed values.
    pub modulus: nat,
}

/// Turns a digit stored as a residue modulo `2^W` into its residue modulo
/// `modulus`.
fn to_modular_residue<T: ScratchInteger>(native: T, modulus: u128) -> (value: T)
    requires
        2 <= modulus < pow2(T::bit_width()),
        -(modulus as int) <= signed_value(native.as_nat(), pow2(T::bit_width())) < modulus,
    ensures
        value.as_nat() == to_residue(
            signed_value(native.as_nat(), pow2(T::bit_width())),
            modulus as nat,
        ),
{
    let ghost bits = T::bit_width();
    let ghost m = pow2(bits);
    let ghost r = native.as_nat();
    let ghost half = pow2((bits - 1) as nat);
    proof {
        T::lemma_bit_width();
        native.lemma_as_nat_range();
        lemma_pow2_unfold(bits);
        lemma_pow2_pos((bits - 1) as nat);
        lemma_fundamental_div_mod(r as int, half as int);
        lemma_mod_bound(r as int, half as int);
        assert(r / half == (if r >= half {
            1nat
        } else {
            0nat
        })) by (nonlinear_arith)
            requires
                r == half * (r / half) + r % half,
                0 <= r % half < half,
                r < 2 * half,
        ;
    }
    let sign = native.shift_right(T::bits() - 1).to_scratch();
    if sign == 0 {
        proof {
            lemma_small_mod(r, modulus as nat);
        }
        native
    } else {
        let size = T::zero().wrapping_sub(native).to_scratch();
        proof {
            let s = signed_value(r, m);
            assert(s == r - m);
            lemma_mod_add_multiples_vanish(0 - r, m as int);
            lemma_small_mod((m - r) as nat, m);
            assert(size == m - r);
            lemma_mod_add_multiples_vanish(s, modulus as int);
            lemma_small_mod((modulus - size) as nat, modulus as nat);
            lemma_small_mod((modulus - size) as nat, m);
        }
        T::from_scratch(modulus - size)
    }
}

/// The terms of a decomposition modulo an arbitrary modulus that are still to
/// come, highest level first.
///
/// The sequence is finite and is walked once: each call of `next_term` hands
/// out the next term, until none is left.
#[derive(Debug, PartialEq, Eq)]
pub struct SignedDecompositionNonNativeIter<T: ScratchInteger> {
    base_log: usize,
    state: T,
    current_level: usize,
    ciphertext_modulus: CiphertextModulus<T>,
}

impl<T: ScratchInteger> View for SignedDecompositionNonNativeIter<T> {
    type V = Seq<TermView>;

    closed spec fn view(&self) -> Seq<TermView> {
        Seq::new(
            self.current_level as nat,
            |i: int|
                TermView {
                    level: (self.current_level - i) as nat,
                    base_log: self.base_log as nat,
                    value: to_residue(
                        digit_at(self.state.as_nat(), self.base_log as nat, i as nat),
                        self.ciphertext_modulus@,
                    ),
                    modulus: self.ciphertext_modulus@,
                },
        )
    }
}

/// A product of exponents grows with its second factor.
proof fn lemma_exponent_product(base_log: nat, lower: nat, upper: nat)
    requires
        lower <= upper,
    ensures
        base_log * lower <= base_log * upper,
        pow2(base_log * lower) <= pow2(base_log * upper),
{
    assert(base_log * lower <= base_log * upper) by (nonlinear_arith)
        requires
            lower <= upper,
    ;
    if base_log * lower < base_log * upper {
        lemma_pow2_strictly_increases(base_log * lower, base_log * upper);
    }
}

impl<T: ScratchInteger> SignedDecompositionNonNativeIter<T> {
    #[verifier::type_invariant]
    spec fn well_formed(self) -> bool {
        &&& 1 <= self.base_log
        &&& pow2((self.base_log * self.current_level) as nat) <= self.ciphertext_modulus@
    }

    /// Hands out the next term of the decomposition, or `None` once all the
    /// terms have been handed out.
    pub fn next_term(&mut self) -> (term: Option<DecompositionTermNonNative<T>>)
        ensures
            old(self)@.len() == 0 ==> term is None && final(self)@ == old(self)@,
            old(self)@.len() > 0 ==> (term matches Some(t) && t@ == old(self)@.first()
                && final(self)@ == old(self)@.drop_first()),
    {
        proof {
            use_type_invariant(&*self);
        }
        if self.current_level == 0 {
            return None;
        }
        let level = self.current_level;
        let base_log = self.base_log;
        let ciphertext_modulus = self.ciphertext_modulus;
        let modulus = ciphertext_modulus.get_custom_modulus();
        let ghost before = *self;
        let ghost s = before.state.as_nat();
        let ghost bits = T::bit_width();
        proof {
            lemma_exponent_product(base_log as nat, 1, level as nat);
            lemma_exponent_product(base_log as nat, (level - 1) as nat, level as nat);
            assert(base_log * 1 == base_log) by (nonlinear_arith);
            lemma_exponent_below((base_log * level) as nat, bits);
            lemma_exponent_below(base_log as nat, bits);
        }
        let mut state = self.state;
        let native_digit = decompose_one_level(base_log, &mut state);
        proof {
            let d = digit_at(s, base_log as nat, 0);
            assert(state_after(s, base_log as nat, 0) == s);
            lemma_balanced_digit_range(s, base_log as nat);
            lemma_pow2_unfold(base_log as nat);
            lemma_pow2_strictly_increases(base_log as nat, bits);
            lemma_signed_value_of_residue(d, pow2(bits));
        }
        let value = to_modular_residue(native_digit, modulus);
        proof {
            lemma_pow2_pos(base_log as nat);
            lemma_mod_bound(digit_at(s, base_log as nat, 0), modulus as int);
        }
        self.state = state;
        self.current_level = level - 1;
        proof {
            assert forall|i: int| 0 <= i < level - 1 implies #[trigger] self@[i]
                == before@.drop_first()[i] by {
                assert(state_after(s, base_log as nat, (i + 1) as nat) == state_after(
                    next_state(s, base_log as nat),
                    base_log as nat,
                    i as nat,
                ));
            }
            assert(self@ =~= before@.drop_first());
        }
        Some(
            DecompositionTermNonNative::new(
                DecompositionLevel(level),
                DecompositionBaseLog(base_log),
                value,
                ciphertext_modulus,
            ),
        )
    }
}

/// A decomposer of the values modulo an arbitrary modulus `q`, held in the
/// integer type `T`.
///
/// It is configured once with a base logarithm, a level count and a modulus
/// that is at least `B^level_count`, and holds nothing else.
#[derive(Debug, PartialEq, Eq)]
pub struct SignedDecomposerNonNative<T: ScratchInteger> {
    base_log: usize,
    level_count: usize,
    ciphertext_modulus: CiphertextModulus<T>,
}

impl<T: ScratchInteger> View for SignedDecomposerNonNative<T> {
    type V = NonNativeDecomposerView;

    closed spec fn view(&self) -> NonNativeDecomposerView {
        NonNativeDecomposerView {
            base_log: self.base_log as nat,
            level_count: self.level_count as nat,
            modulus: self.ciphertext_modulus@,
        }
    }
}

impl<T: ScratchInteger> Clone for SignedDecomposerNonNative<T> {
    fn clone(&self) -> (copy: Self)
        ensures
            copy == *self,
    {
        proof {
            use_type_invariant(self);
        }
        SignedDecomposerNonNative {
            base_log: self.base_log,
            level_count: self.level_count,
            ciphertext_modulus: self.ciphertext_modulus,
        }
    }
}

impl<T: ScratchInteger> SignedDecomposerNonNative<T> {
    #[verifier::type_invariant]
    spec fn well_formed(self) -> bool {
        config_valid(self.ciphertext_modulus@, self.base_log as nat, self.level_count as nat)
    }

    /// Creates the decomposer of the given base logarithm, level count and
    /// modulus.
    ///
    /// A configuration is refused when the base logarithm is zero, when the
    /// level count is zero, or when the modulus is smaller than
    /// `B^level_count`.
    pub fn new(
        base_log: DecompositionBaseLog,
        level_count: DecompositionLevelCount,
        ciphertext_modulus: CiphertextModulus<T>,
    ) -> (result: Result<Self, ConfigurationError>)
        ensures
            match non_native_config_error(
                ciphertext_modulus@,
                base_log.0 as nat,
                level_count.0 as nat,
            ) {
                Some(error) => result == Err::<Self, ConfigurationError>(error),
                None => result matches Ok(decomposer) && decomposer@ == (NonNativeDecomposerView {
                    base_log: base_log.0 as nat,
                    level_count: level_count.0 as nat,
                    modulus: ciphertext_modulus@,
                }),
            },
    {
        if base_log.0 == 0 {
            return Err(ConfigurationError::ZeroBaseLog);
        }
        if level_count.0 == 0 {
            return Err(ConfigurationError::ZeroLevelCount);
        }
        let modulus = ciphertext_modulus.get_custom_modulus();
        let ghost bits = T::bit_width();
        let ghost n = (base_log.0 * level_count.0) as nat;
        proof {
            T::lemma_bit_width();
            T::lemma_scratch_is_double_width();
            crate::native::lemma_too_many_bits(
                (bits - 1) as nat,
                base_log.0 as nat,
                level_count.0 as nat,
            );
        }
        if level_count.0 > (T::bits() - 1) / base_log.0 {
            proof {
                if n > bits {
                    lemma_pow2_strictly_increases(bits, n);
                }
            }
            return Err(ConfigurationError::IncompatibleModulus);
        }
        proof {
            lemma_pow2_pos(n);
            lemma_pow2_strictly_increases(n, 128);
            lemma_small_mod(pow2(n), pow2(128));
            assert(1 * pow2(n) == pow2(n));
        }
        let base_to_the_level_count = 1u128.shift_left(base_log.0 * level_count.0);
        if base_to_the_level_count > modulus {
            return Err(ConfigurationError::IncompatibleModulus);
        }
        Ok(
            SignedDecomposerNonNative {
                base_log: base_log.0,
                level_count: level_count.0,
                ciphertext_modulus,
            },
        )
    }

    /// Returns the logarithm in base two of the digit base.
    pub fn base_log(&self) -> (base_log: DecompositionBaseLog)
        ensures
            base_log.0 == self@.base_log,
    {
        DecompositionBaseLog(self.base_log)
    }

    /// Returns the number of digits of a decomposition.
    pub fn level_count(&self) -> (level_count: DecompositionLevelCount)
        ensures
            level_count.0 == self@.level_count,
    {
        DecompositionLevelCount(self.level_count)
    }

    /// Returns the modulus of the decomposed values.
    pub fn ciphertext_modulus(&self) -> (ciphertext_modulus: CiphertextModulus<T>)
        ensures
            ciphertext_modulus@ == self@.modulus,
    {
        self.ciphertext_modulus
    }

    /// Decomposes `input` into `level_count` terms, highest level first.
    ///
    /// The input is reduced modulo `q` and rounded to the nearest multiple of
    /// the smallest step `q / B^level_count`; the terms hold the balanced
    /// digits of the count of steps.
    pub fn decompose(&self, input: T) -> (terms: SignedDecompositionNonNativeIter<T>)
        ensures
            terms@ == decomposition(
                input.as_nat(),
                self@.modulus,
                self@.base_log,
                self@.level_count,
            ),
            terms@.len() == self@.level_count,
    {
        let modulus = self.ciphertext_modulus.get_custom_modulus();
        let ghost q = modulus as nat;
        let ghost bits = T::bit_width();
        let ghost n = (self.base_log * self.level_count) as nat;
        let ghost big = pow2(n);
        proof {
            use_type_invariant(self);
            T::lemma_bit_width();
            T::lemma_scratch_is_double_width();
            input.lemma_as_nat_range();
            lemma2_to64();
            if bits < 64 {
                lemma_pow2_strictly_increases(bits, 64);
            }
            lemma_exponent_below(n, 64);
            lemma_pow2_pos(n);
            lemma_pow2_strictly_increases(n, 128);
            lemma_small_mod(big, pow2(128));
            assert(1 * big == big);
        }
        let base_to_the_level_count = 1u128.shift_left(self.base_log * self.level_count);
        let reduced = input.to_scratch() % modulus;
        proof {
            lemma_mod_bound(input.as_nat() as int, q as int);
            assert(reduced * big < 0x1_0000_0000_0000_0000 * 0x1_0000_0000_0000_0000)
                by (nonlinear_arith)
                requires
                    reduced < q,
                    big <= q,
                    q < 0x1_0000_0000_0000_0000,
            ;
        }
        let scaled = reduced * base_to_the_level_count;
        let count = divide_round(scaled, modulus);
        let index = count % base_to_the_level_count;
        proof {
            lemma_mod_bound(count as int, big as int);
            lemma_small_mod(index as nat, pow2(bits));
        }
        let state = T::from_scratch(index);
        let terms = SignedDecompositionNonNativeIter {
            base_log: self.base_log,
            state,
            current_level: self.level_count,
            ciphertext_modulus: self.ciphertext_modulus,
        };
        proof {
            assert(terms@ =~= decomposition(
                input.as_nat(),
                q,
                self.base_log as nat,
                self.level_count as nat,
            ));
        }
        terms
    }

    /// Recomposes a value from the terms of a decomposition: the sum of their
    /// summands, modulo `q`.
    pub fn recompose(&self, decomposition: SignedDecompositionNonNativeIter<T>) -> (value: T)
        ensures
            value.as_nat() == recomposition(decomposition@, self@.modulus),
    {
        let modulus = self.ciphertext_modulus.get_custom_modulus();
        let ghost q = modulus as nat;
        let ghost bits = T::bit_width();
        proof {
            T::lemma_bit_width();
            T::lemma_scratch_is_double_width();
            lemma2_to64();
            if bits < 64 {
                lemma_pow2_strictly_increases(bits, 64);
            }
        }
        let mut rest = decomposition;
        let mut sum: u128 = 0;
        loop
            invariant
                q == modulus,
                q == self@.modulus,
                bits == T::bit_width(),
                2 <= q < pow2(bits),
                pow2(bits) <= 0x1_0000_0000_0000_0000,
                sum < q,
                (sum as nat + summand_total(rest@)) % q == summand_total(decomposition@) % q,
            decreases rest@.len(),
        {
            let ghost before = rest@;
            let ghost acc = sum as nat;
            match rest.next_term() {
                None => {
                    proof {
                        lemma_small_mod(acc, q);
                        lemma_small_mod(acc, pow2(bits));
                    }
                    return T::from_scratch(sum);
                },
                Some(term) => {
                    let share = term.to_recomposition_summand();
                    proof {
                        share.lemma_as_nat_range();
                    }
                    sum = (sum + share.to_scratch()) % modulus;
                    proof {
                        let first = summand(before.first());
                        let later = summand_total(rest@);
                        lemma_mod_bound((acc + first) as int, q as int);
                        lemma_add_mod_noop(
                            ((acc + first) % q) as int,
                            later as int,
                            q as int,
                        );
                        lemma_add_mod_noop((acc + first) as int, later as int, q as int);
                        lemma_mod_twice((acc + first) as int, q as int);
                    }
                },
            }
        }
    }
}

} // verus!
