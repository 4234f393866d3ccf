//! The unsigned integer types that a decomposition can work on.
use vstd::prelude::*;
use vstd::arithmetic::power2::*;

verus! {

/// An unsigned integer of fixed bit width with wraparound arithmetic and
/// shifts. Every operation is specified over the number the value stands for.
pub trait UnsignedInteger: Copy + Sized {
    /// The bit width `W` of the type.
    spec fn bit_width() -> nat;

    /// The number this value stands for.
    spec fn as_nat(self) -> nat;

    /// The width is positive and at most 128.
    proof fn lemma_bit_width()
        ensures
            1 <= Self::bit_width() <= 128,
    ;

    /// Every value is below `2^W`.
    proof fn lemma_as_nat_range(self)
        ensures
            self.as_nat() < pow2(Self::bit_width()),
    ;

    /// Two values that stand for the same number are the same value.
    proof fn lemma_as_nat_injective(self, other: Self)
        ensures
            self.as_nat() == other.as_nat() ==> self == other,
    ;

    /// The bit width `W`.
    fn bits() -> (r: usize)
        ensures
            r == Self::bit_width(),
    ;

    /// The value zero.
    fn zero() -> (r: Self)
        ensures
            r.as_nat() == 0,
    ;

    /// Addition modulo `2^W`.
    fn wrapping_add(self, rhs: Self) -> (r: Self)
        ensures
            r.as_nat() == (self.as_nat() + rhs.as_nat()) % pow2(Self::bit_width()),
    ;

    /// Subtraction modulo `2^W`.
    fn wrapping_sub(self, rhs: Self) -> (r: Self)
        ensures
            r.as_nat() == (self.as_nat() - rhs.as_nat()) % (pow2(Self::bit_width()) as int),
    ;

    /// Left shift by `n <= W` bits: multiplication by `2^n` modulo `2^W`.
    fn shift_left(self, n: usize) -> (r: Self)
        requires
            n <= Self::bit_width(),
        ensures
            r.as_nat() == (self.as_nat() * pow2(n as nat)) % pow2(Self::bit_width()),
    ;

    /// Right shift by `n <= W` bits: division by `2^n`, rounding down.
    fn shift_right(self, n: usize) -> (r: Self)
        requires
            n <= Self::bit_width(),
        ensures
            r.as_nat() == self.as_nat() / pow2(n as nat),
    ;
}

/// An unsigned integer of at most 64 bits, for which the 128-bit integer is a
/// scratch type of at least double its width: a product of two values fits
/// the scratch type.
pub trait ScratchInteger: UnsignedInteger {
    /// Twice the width is at most the width of the scratch type.
    proof fn lemma_scratch_is_double_width()
        ensures
            2 * Self::bit_width() <= 128,
    ;

    /// The value, widened to the scratch type.
    fn to_scratch(self) -> (wide: u128)
        ensures
            wide == self.as_nat(),
    ;

    /// The low `W` bits of a value of the scratch type.
    fn from_scratch(wide: u128) -> (narrow: Self)
        ensures
            narrow.as_nat() == (wide as nat) % pow2(Self::bit_width()),
    ;
}

} // verus!
