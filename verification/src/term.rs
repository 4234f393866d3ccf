//! The terms that a decomposition yields, one per level.
use vstd::prelude::*;
use vstd::arithmetic::power2::*;
use vstd::arithmetic::div_mod::*;
use crate::ciphertext_modulus::CiphertextModulus;
use crate::numeric::{ScratchInteger, UnsignedInteger};
use crate::rounding::{divide_round, lemma_rounded_quotient_error, rounded_quotient};
use crate::parameters::{DecompositionBaseLog, DecompositionLevel};

verus! {

/// What a term of a decomposition holds, as plain numbers.
pub struct TermView {
    /// The level of the digit, between one and the level count.
    pub level: nat,
    /// The logarithm in base two of the digit base.
    pub base_log: nat,
    /// The stored digit: its residue modulo `modulus`.
    pub value: nat,
    /// The modulus `q` of the decomposed values.
    pub modulus: nat,
}

/// The weight of a digit of the given level: `modulus / B^level`, rounded to
/// nearest.
pub open spec fn term_weight(modulus: nat, base_log: nat, level: nat) -> nat {
    rounded_quotient(modulus, pow2(base_log * level))
}

/// The additive share of a term in the decomposed value: the stored digit
/// times the weight of its level, modulo the modulus.
pub open spec fn summand(term: TermView) -> nat {
    (term.value * term_weight(term.modulus, term.base_log, term.level)) % term.modulus
}

/// Whether a level and a base logarithm can stand together in a term over an
/// integer of `bits` bits.
pub open spec fn native_term_valid(level: nat, base_log: nat, bits: nat) -> bool {
    &&& 1 <= level
    &&& 1 <= base_log
    &&& base_log * level <= bits
}

/// The stored digit of a term shifted left by `bits - base_log * level` bits,
/// modulo `2^bits`.
pub open spec fn native_summand(term: TermView, bits: nat) -> nat {
    (term.value * pow2((bits - term.base_log * term.level) as nat)) % pow2(bits)
}

/// Modulo `2^bits` the weight of a level is a power of two: the division of
/// `2^bits` by `B^level` is exact.
pub proof fn lemma_native_weight(bits: nat, base_log: nat, level: nat)
    requires
        base_log * level <= bits,
    ensures
        term_weight(pow2(bits), base_log, level) == pow2((bits - base_log * level) as nat),
{
    let n = base_log * level;
    let d = pow2(n);
    let w = pow2((bits - n) as nat);
    lemma_pow2_pos(n);
    lemma_pow2_adds((bits - n) as nat, n);
    assert((bits - n) as nat + n == bits);
    assert(pow2(bits) == w * d);
    assert(2 * pow2(bits) + d == w * (2 * d) + d) by (nonlinear_arith)
        requires
            pow2(bits) == w * d,
    ;
    lemma_fundamental_div_mod_converse(
        (2 * pow2(bits) + d) as int,
        (2 * d) as int,
        w as int,
        d as int,
    );
}

/// A member of the decomposition of a value modulo `2^W`.
///
/// If a value `theta` is decomposed as the sum of `digit_i * 2^W / B^i` over the
/// levels `i`, a term holds one `digit_i`, stored as its residue modulo `2^W`.
#[derive(Debug, PartialEq, Eq)]
pub struct DecompositionTerm<T: UnsignedInteger> {
    level: usize,
    base_log: usize,
    value: T,
}

impl<T: UnsignedInteger> View for DecompositionTerm<T> {
    type V = TermView;

    closed spec fn view(&self) -> TermView {
        TermView {
            level: self.level as nat,
            base_log: self.base_log as nat,
            value: self.value.as_nat(),
            modulus: pow2(T::bit_width()),
        }
    }
}

impl<T: UnsignedInteger> Clone for DecompositionTerm<T> {
    fn clone(&self) -> (copy: Self)
        ensures
            copy == *self,
    {
        proof {
            use_type_invariant(self);
        }
        DecompositionTerm { level: self.level, base_log: self.base_log, value: self.value }
    }
}

impl<T: UnsignedInteger> DecompositionTerm<T> {
    #[verifier::type_invariant]
    spec fn well_formed(self) -> bool {
        native_term_valid(self.level as nat, self.base_log as nat, T::bit_width())
    }

    /// Creates the term of the given level that holds `value`.
    pub(crate) fn new(level: DecompositionLevel, base_log: DecompositionBaseLog, value: T) -> (term:
        Self)
        requires
            native_term_valid(level.0 as nat, base_log.0 as nat, T::bit_width()),
        ensures
            term@ == (TermView {
                level: level.0 as nat,
                base_log: base_log.0 as nat,
                value: value.as_nat(),
                modulus: pow2(T::bit_width()),
            }),
    {
        DecompositionTerm { level: level.0, base_log: base_log.0, value }
    }

    /// Turns this term into a summand.
    ///
    /// If the term holds the digit `digit_i` of level `i`, this is
    /// `digit_i * 2^W / B^i` modulo `2^W`: the stored digit shifted left by
    /// `W - base_log * i` bits.
    pub fn to_recomposition_summand(&self) -> (result: T)
        ensures
            result.as_nat() == native_summand(self@, T::bit_width()),
            result.as_nat() == summand(self@),
    {
        proof {
            use_type_invariant(self);
            T::lemma_bit_width();
            lemma_native_weight(T::bit_width(), self.base_log as nat, self.level as nat);
        }
        let shift: usize = T::bits() - self.base_log * self.level;
        self.value.shift_left(shift)
    }

    /// Returns the stored digit of the term.
    pub fn value(&self) -> (value: T)
        ensures
            value.as_nat() == self@.value,
    {
        self.value
    }

    /// Returns the level of the term.
    pub fn level(&self) -> (level: DecompositionLevel)
        ensures
            level.0 == self@.level,
    {
        DecompositionLevel(self.level)
    }

    /// Returns the logarithm in base two of the digit base of the term.
    pub fn base_log(&self) -> (base_log: DecompositionBaseLog)
        ensures
            base_log.0 == self@.base_log,
    {
        DecompositionBaseLog(self.base_log)
    }

    /// Two terms that hold the same numbers are the same term, bit for bit.
    pub proof fn lemma_equal_views(self, other: Self)
        requires
            self@ == other@,
        ensures
            self == other,
    {
        T::lemma_as_nat_injective(self.value, other.value);
    }
}

/// Whether a level, a base logarithm and a stored digit can stand together in
/// a term of a decomposition modulo `modulus`.
pub open spec fn non_native_term_valid(level: nat, base_log: nat, value: nat, modulus: nat) -> bool {
    &&& 1 <= level
    &&& 1 <= base_log
    &&& pow2(base_log * level) <= modulus
    &&& value < modulus
}

/// A power of two below `2^64` has an exponent below 64.
pub(crate) proof fn lemma_exponent_below(exponent: nat, limit: nat)
    requires
        pow2(exponent) < pow2(limit),
    ensures
        exponent < limit,
{
    if exponent > limit {
        lemma_pow2_strictly_increases(limit, exponent);
    }
}

/// A member of the decomposition of a value modulo an arbitrary modulus `q`.
///
/// If a value `theta` is decomposed as the sum of `digit_i * q / B^i` over the
/// levels `i`, a term holds one `digit_i`, stored as its residue modulo `q`.
#[derive(Debug, PartialEq, Eq)]
pub struct DecompositionTermNonNative<T: ScratchInteger> {
    level: usize,
    base_log: usize,
    value: T,
    ciphertext_modulus: CiphertextModulus<T>,
}

impl<T: ScratchInteger> View for DecompositionTermNonNative<T> {
    type V = TermView;

    closed spec fn view(&self) -> TermView {
        TermView {
            level: self.level as nat,
            base_log: self.base_log as nat,
            value: self.value.as_nat(),
            modulus: self.ciphertext_modulus@,
        }
    }
}

impl<T: ScratchInteger> Clone for DecompositionTermNonNative<T> {
    fn clone(&self) -> (copy: Self)
        ensures
            copy == *self,
    {
        proof {
            use_type_invariant(self);
        }
        DecompositionTermNonNative {
            level: self.level,
            base_log: self.base_log,
            value: self.value,
            ciphertext_modulus: self.ciphertext_modulus,
        }
    }
}

impl<T: ScratchInteger> DecompositionTermNonNative<T> {
    #[verifier::type_invariant]
    spec fn well_formed(self) -> bool {
        non_native_term_valid(
            self.level as nat,
            self.base_log as nat,
            self.value.as_nat(),
            self.ciphertext_modulus@,
        )
    }

    /// Creates the term of the given level that holds `value`.
    pub(crate) fn new(
        level: DecompositionLevel,
        base_log: DecompositionBaseLog,
        value: T,
        ciphertext_modulus: CiphertextModulus<T>,
    ) -> (term: Self)
        requires
            non_native_term_valid(
                level.0 as nat,
                base_log.0 as nat,
                value.as_nat(),
                ciphertext_modulus@,
            ),
        ensures
            term@ == (TermView {
                level: level.0 as nat,
                base_log: base_log.0 as nat,
                value: value.as_nat(),
                modulus: ciphertext_modulus@,
            }),
    {
        DecompositionTermNonNative {
            level: level.0,
            base_log: base_log.0,
            value,
            ciphertext_modulus,
        }
    }

    /// Turns this term into a summand.
    ///
    /// If the term holds the digit `digit_i` of level `i`, this is
    /// `digit_i * round(q / B^i)` modulo `q`. The quotient is rounded to
    /// nearest, and the product is taken in the scratch type, which it fits.
    pub fn to_recomposition_summand(&self) -> (result: T)
        ensures
            result.as_nat() == summand(self@),
    {
        let modulus = self.ciphertext_modulus.get_custom_modulus();
        let ghost q = modulus as nat;
        let ghost n = (self.base_log * self.level) as nat;
        proof {
            use_type_invariant(self);
            T::lemma_bit_width();
            T::lemma_scratch_is_double_width();
            lemma2_to64();
            if T::bit_width() < 64 {
                lemma_pow2_strictly_increases(T::bit_width(), 64);
            }
            lemma_exponent_below(n, 64);
            lemma_pow2_pos(n);
            lemma_pow2_strictly_increases(n, 128);
            lemma_small_mod(pow2(n), pow2(128));
            assert(1 * pow2(n) == pow2(n));
        }
        let base_to_the_level = 1u128.shift_left(self.base_log * self.level);
        let modulus_over_base_to_level = divide_round(modulus, base_to_the_level);
        let ghost w = modulus_over_base_to_level as nat;
        let ghost v = self.value.as_nat();
        proof {
            let d = pow2(n);
            lemma_rounded_quotient_error(q, d);
            assert(n >= 1) by (nonlinear_arith)
                requires
                    n == self.base_log * self.level,
                    self.base_log >= 1,
                    self.level >= 1,
            ;
            lemma2_to64();
            lemma_pow2_strictly_increases(0, n);
            assert(w <= q) by (nonlinear_arith)
                requires
                    2 * (d * w - q) <= d,
                    d >= 2,
                    q >= 2,
                    w >= 0,
            ;
            assert(v * w < 0x1_0000_0000_0000_0000 * 0x1_0000_0000_0000_0000) by (nonlinear_arith)
                requires
                    v < q,
                    w <= q,
                    q < 0x1_0000_0000_0000_0000,
            ;
            lemma_mod_bound((v * w) as int, q as int);
            lemma_small_mod((v * w) % q, pow2(T::bit_width()));
        }
        let product = self.value.to_scratch() * modulus_over_base_to_level;
        T::from_scratch(product % modulus)
    }

    /// Returns the stored digit of the term.
    pub fn value(&self) -> (value: T)
        ensures
            value.as_nat() == self@.value,
    {
        self.value
    }

    /// Returns the level of the term.
    pub fn level(&self) -> (level: DecompositionLevel)
        ensures
            level.0 == self@.level,
    {
        DecompositionLevel(self.level)
    }

    /// Returns the logarithm in base two of the digit base of the term.
    pub fn base_log(&self) -> (base_log: DecompositionBaseLog)
        ensures
            base_log.0 == self@.base_log,
    {
        DecompositionBaseLog(self.base_log)
    }

    /// Returns the modulus of the decomposed value.
    pub fn ciphertext_modulus(&self) -> (ciphertext_modulus: CiphertextModulus<T>)
        ensures
            ciphertext_modulus@ == self@.modulus,
    {
        self.ciphertext_modulus
    }

    /// Two terms that hold the same numbers are the same term, bit for bit.
    pub proof fn lemma_equal_views(self, other: Self)
        requires
            self@ == other@,
        ensures
            self == other,
    {
        T::lemma_as_nat_injective(self.value, other.value);
        self.ciphertext_modulus.lemma_equal_views(other.ciphertext_modulus);
    }
}

} // verus!
