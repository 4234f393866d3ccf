//! The primitive unsigned integers as integers of a decomposition.
use vstd::prelude::*;
use vstd::arithmetic::power2::*;
use vstd::arithmetic::div_mod::*;
use vstd::bits::*;
use crate::numeric::{ScratchInteger, UnsignedInteger};

verus! {

/// The modulus of the 128-bit integers.
spec fn two_to_the_128() -> nat {
    0x1_0000_0000_0000_0000_0000_0000_0000_0000nat
}

/// The powers of two that are the moduli of the primitive integers.
proof fn lemma_pow2_widths()
    ensures
        pow2(8) == 0x100,
        pow2(16) == 0x1_0000,
        pow2(32) == 0x1_0000_0000,
        pow2(64) == 0x1_0000_0000_0000_0000,
        pow2(128) == two_to_the_128(),
{
    lemma2_to64();
    lemma_pow2_adds(64, 64);
}

/// On `u8` a left shift multiplies by a power of two modulo `2^8`.
proof fn lemma_u8_shift_left(x: u8, n: u8)
    requires
        n < 8,
    ensures
        (x << n) as nat == (x as nat * pow2(n as nat)) % 0x100,
    decreases n,
{
    if n == 0 {
        assert(x << 0u8 == x) by (bit_vector);
        lemma2_to64();
        assert(x as nat * 1 == x as nat);
        lemma_small_mod(x as nat, 0x100);
    } else {
        let m = (n - 1) as u8;
        let y = x << m;
        lemma_u8_shift_left(x, m);
        assert(x << n == (x << m) << 1u8) by (bit_vector)
            requires
                0 < n < 8,
                m == n - 1,
        ;
        assert((y << 1u8) == (y * 2) % 0x100) by (bit_vector);
        lemma_pow2_unfold(n as nat);
        let a = x as nat * pow2(m as nat);
        assert(x as nat * pow2(n as nat) == 2 * a) by (nonlinear_arith)
            requires
                pow2(n as nat) == 2 * pow2(m as nat),
                a == x as nat * pow2(m as nat),
        ;
        lemma_mul_mod_noop_right(2, a as int, 0x100);
    }
}

impl UnsignedInteger for u8 {
    open spec fn bit_width() -> nat {
        8
    }

    open spec fn as_nat(self) -> nat {
        self as nat
    }

    proof fn lemma_bit_width() {
    }

    proof fn lemma_as_nat_range(self) {
        lemma_pow2_widths();
    }

    proof fn lemma_as_nat_injective(self, other: Self) {
    }

    fn bits() -> (r: usize) {
        8
    }

    fn zero() -> (r: Self) {
        0
    }

    fn wrapping_add(self, rhs: Self) -> (r: Self) {
        proof {
            lemma_pow2_widths();
            if self + rhs > u8::MAX {
                lemma_mod_sub_multiples_vanish((self + rhs) as int, 0x100);
                lemma_small_mod((self + rhs - 0x100) as nat, 0x100);
            } else {
                lemma_small_mod((self + rhs) as nat, 0x100);
            }
        }
        self.wrapping_add(rhs)
    }

    fn wrapping_sub(self, rhs: Self) -> (r: Self) {
        proof {
            lemma_pow2_widths();
            if self - rhs < 0 {
                lemma_mod_add_multiples_vanish((self - rhs) as int, 0x100);
                lemma_small_mod((self - rhs + 0x100) as nat, 0x100);
            } else {
                lemma_small_mod((self - rhs) as nat, 0x100);
            }
        }
        self.wrapping_sub(rhs)
    }

    fn shift_left(self, n: usize) -> (r: Self) {
        if n >= 8 {
            proof {
                lemma_pow2_widths();
                lemma_mod_multiples_basic(self as int, 0x100);
            }
            0
        } else {
            proof {
                lemma_pow2_widths();
                lemma_u8_shift_left(self, n as u8);
            }
            self << (n as u8)
        }
    }

    fn shift_right(self, n: usize) -> (r: Self) {
        if n >= 8 {
            proof {
                lemma_pow2_widths();
                lemma_basic_div(self as int, 0x100);
            }
            0
        } else {
            proof {
                lemma_u8_shr_is_div(self, n as u8);
            }
            self >> (n as u8)
        }
    }
}

impl ScratchInteger for u8 {
    proof fn lemma_scratch_is_double_width() {
    }

    fn to_scratch(self) -> (wide: u128) {
        self as u128
    }

    fn from_scratch(wide: u128) -> (narrow: Self) {
        proof {
            lemma_pow2_widths();
            assert(wide as u8 == wide % 0x100) by (bit_vector);
        }
        #[verifier::truncate]
        (wide as u8)
    }
}

/// On `u16` a left shift multiplies by a power of two modulo `2^16`.
proof fn lemma_u16_shift_left(x: u16, n: u16)
    requires
        n < 16,
    ensures
        (x << n) as nat == (x as nat * pow2(n as nat)) % 0x1_0000,
    decreases n,
{
    if n == 0 {
        assert(x << 0u16 == x) by (bit_vector);
        lemma2_to64();
        assert(x as nat * 1 == x as nat);
        lemma_small_mod(x as nat, 0x1_0000);
    } else {
        let m = (n - 1) as u16;
        let y = x << m;
        lemma_u16_shift_left(x, m);
        assert(x << n == (x << m) << 1u16) by (bit_vector)
            requires
                0 < n < 16,
                m == n - 1,
        ;
        assert((y << 1u16) == (y * 2) % 0x1_0000) by (bit_vector);
        lemma_pow2_unfold(n as nat);
        let a = x as nat * pow2(m as nat);
        assert(x as nat * pow2(n as nat) == 2 * a) by (nonlinear_arith)
            requires
                pow2(n as nat) == 2 * pow2(m as nat),
                a == x as nat * pow2(m as nat),
        ;
        lemma_mul_mod_noop_right(2, a as int, 0x1_0000);
    }
}

impl UnsignedInteger for u16 {
    open spec fn bit_width() -> nat {
        16
    }

    open spec fn as_nat(self) -> nat {
        self as nat
    }

    proof fn lemma_bit_width() {
    }

    proof fn lemma_as_nat_range(self) {
        lemma_pow2_widths();
    }

    proof fn lemma_as_nat_injective(self, other: Self) {
    }

    fn bits() -> (r: usize) {
        16
    }

    fn zero() -> (r: Self) {
        0
    }

    fn wrapping_add(self, rhs: Self) -> (r: Self) {
        proof {
            lemma_pow2_widths();
            if self + rhs > u16::MAX {
                lemma_mod_sub_multiples_vanish((self + rhs) as int, 0x1_0000);
                lemma_small_mod((self + rhs - 0x1_0000) as nat, 0x1_0000);
            } else {
                lemma_small_mod((self + rhs) as nat, 0x1_0000);
            }
        }
        self.wrapping_add(rhs)
    }

    fn wrapping_sub(self, rhs: Self) -> (r: Self) {
        proof {
            lemma_pow2_widths();
            if self - rhs < 0 {
                lemma_mod_add_multiples_vanish((self - rhs) as int, 0x1_0000);
                lemma_small_mod((self - rhs + 0x1_0000) as nat, 0x1_0000);
            } else {
                lemma_small_mod((self - rhs) as nat, 0x1_0000);
            }
        }
        self.wrapping_sub(rhs)
    }

    fn shift_left(self, n: usize) -> (r: Self) {
        if n >= 16 {
            proof {
                lemma_pow2_widths();
                lemma_mod_multiples_basic(self as int, 0x1_0000);
            }
            0
        } else {
            proof {
                lemma_pow2_widths();
                lemma_u16_shift_left(self, n as u16);
            }
            self << (n as u16)
        }
    }

    fn shift_right(self, n: usize) -> (r: Self) {
        if n >= 16 {
            proof {
                lemma_pow2_widths();
                lemma_basic_div(self as int, 0x1_0000);
            }
            0
        } else {
            proof {
                lemma_u16_shr_is_div(self, n as u16);
            }
            self >> (n as u16)
        }
    }
}

impl ScratchInteger for u16 {
    proof fn lemma_scratch_is_double_width() {
    }

    fn to_scratch(self) -> (wide: u128) {
        self as u128
    }

    fn from_scratch(wide: u128) -> (narrow: Self) {
        proof {
            lemma_pow2_widths();
            assert(wide as u16 == wide % 0x1_0000) by (bit_vector);
        }
        #[verifier::truncate]
        (wide as u16)
    }
}

/// On `u32` a left shift multiplies by a power of two modulo `2^32`.
proof fn lemma_u32_shift_left(x: u32, n: u32)
    requires
        n < 32,
    ensures
        (x << n) as nat == (x as nat * pow2(n as nat)) % 0x1_0000_0000,
    decreases n,
{
    if n == 0 {
        assert(x << 0u32 == x) by (bit_vector);
        lemma2_to64();
        assert(x as nat * 1 == x as nat);
        lemma_small_mod(x as nat, 0x1_0000_0000);
    } else {
        let m = (n - 1) as u32;
        let y = x << m;
        lemma_u32_shift_left(x, m);
        assert(x << n == (x << m) << 1u32) by (bit_vector)
            requires
                0 < n < 32,
                m == n - 1,
        ;
        assert((y << 1u32) == (y * 2) % 0x1_0000_0000) by (bit_vector);
        lemma_pow2_unfold(n as nat);
        let a = x as nat * pow2(m as nat);
        assert(x as nat * pow2(n as nat) == 2 * a) by (nonlinear_arith)
            requires
                pow2(n as nat) == 2 * pow2(m as nat),
                a == x as nat * pow2(m as nat),
        ;
        lemma_mul_mod_noop_right(2, a as int, 0x1_0000_0000);
    }
}

impl UnsignedInteger for u32 {
    open spec fn bit_width() -> nat {
        32
    }

    open spec fn as_nat(self) -> nat {
        self as nat
    }

    proof fn lemma_bit_width() {
    }

    proof fn lemma_as_nat_range(self) {
        lemma_pow2_widths();
    }

    proof fn lemma_as_nat_injective(self, other: Self) {
    }

    fn bits() -> (r: usize) {
        32
    }

    fn zero() -> (r: Self) {
        0
    }

    fn wrapping_add(self, rhs: Self) -> (r: Self) {
        proof {
            lemma_pow2_widths();
            if self + rhs > u32::MAX {
                lemma_mod_sub_multiples_vanish((self + rhs) as int, 0x1_0000_0000);
                lemma_small_mod((self + rhs - 0x1_0000_0000) as nat, 0x1_0000_0000);
            } else {
                lemma_small_mod((self + rhs) as nat, 0x1_0000_0000);
            }
        }
        self.wrapping_add(rhs)
    }

    fn wrapping_sub(self, rhs: Self) -> (r: Self) {
        proof {
            lemma_pow2_widths();
            if self - rhs < 0 {
                lemma_mod_add_multiples_vanish((self - rhs) as int, 0x1_0000_0000);
                lemma_small_mod((self - rhs + 0x1_0000_0000) as nat, 0x1_0000_0000);
            } else {
                lemma_small_mod((self - rhs) as nat, 0x1_0000_0000);
            }
        }
        self.wrapping_sub(rhs)
    }

    fn shift_left(self, n: usize) -> (r: Self) {
        if n >= 32 {
            proof {
                lemma_pow2_widths();
                lemma_mod_multiples_basic(self as int, 0x1_0000_0000);
            }
            0
        } else {
            proof {
                lemma_pow2_widths();
                lemma_u32_shift_left(self, n as u32);
            }
            self << (n as u32)
        }
    }

    fn shift_right(self, n: usize) -> (r: Self) {
        if n >= 32 {
            proof {
                lemma_pow2_widths();
                lemma_basic_div(self as int, 0x1_0000_0000);
            }
            0
        } else {
            proof {
                lemma_u32_shr_is_div(self, n as u32);
            }
            self >> (n as u32)
        }
    }
}

impl ScratchInteger for u32 {
    proof fn lemma_scratch_is_double_width() {
    }

    fn to_scratch(self) -> (wide: u128) {
        self as u128
    }

    fn from_scratch(wide: u128) -> (narrow: Self) {
        proof {
            lemma_pow2_widths();
            assert(wide as u32 == wide % 0x1_0000_0000) by (bit_vector);
        }
        #[verifier::truncate]
        (wide as u32)
    }
}

/// On `u64` a left shift multiplies by a power of two modulo `2^64`.
proof fn lemma_u64_shift_left(x: u64, n: u64)
    requires
        n < 64,
    ensures
        (x << n) as nat == (x as nat * pow2(n as nat)) % 0x1_0000_0000_0000_0000,
    decreases n,
{
    if n == 0 {
        assert(x << 0u64 == x) by (bit_vector);
        lemma2_to64();
        assert(x as nat * 1 == x as nat);
        lemma_small_mod(x as nat, 0x1_0000_0000_0000_0000);
    } else {
        let m = (n - 1) as u64;
        let y = x << m;
        lemma_u64_shift_left(x, m);
        assert(x << n == (x << m) << 1u64) by (bit_vector)
            requires
                0 < n < 64,
                m == n - 1,
        ;
        assert((y << 1u64) == (y * 2) % 0x1_0000_0000_0000_0000) by (bit_vector);
        lemma_pow2_unfold(n as nat);
        let a = x as nat * pow2(m as nat);
        assert(x as nat * pow2(n as nat) == 2 * a) by (nonlinear_arith)
            requires
                pow2(n as nat) == 2 * pow2(m as nat),
                a == x as nat * pow2(m as nat),
        ;
        lemma_mul_mod_noop_right(2, a as int, 0x1_0000_0000_0000_0000);
    }
}

impl UnsignedInteger for u64 {
    open spec fn bit_width() -> nat {
        64
    }

    open spec fn as_nat(self) -> nat {
        self as nat
    }

    proof fn lemma_bit_width() {
    }

    proof fn lemma_as_nat_range(self) {
        lemma_pow2_widths();
    }

    proof fn lemma_as_nat_injective(self, other: Self) {
    }

    fn bits() -> (r: usize) {
        64
    }

    fn zero() -> (r: Self) {
        0
    }

    fn wrapping_add(self, rhs: Self) -> (r: Self) {
        proof {
            lemma_pow2_widths();
            if self + rhs > u64::MAX {
                lemma_mod_sub_multiples_vanish((self + rhs) as int, 0x1_0000_0000_0000_0000);
                lemma_small_mod((self + rhs - 0x1_0000_0000_0000_0000) as nat, 0x1_0000_0000_0000_0000);
            } else {
                lemma_small_mod((self + rhs) as nat, 0x1_0000_0000_0000_0000);
            }
        }
        self.wrapping_add(rhs)
    }

    fn wrapping_sub(self, rhs: Self) -> (r: Self) {
        proof {
            lemma_pow2_widths();
            if self - rhs < 0 {
                lemma_mod_add_multiples_vanish((self - rhs) as int, 0x1_0000_0000_0000_0000);
                lemma_small_mod((self - rhs + 0x1_0000_0000_0000_0000) as nat, 0x1_0000_0000_0000_0000);
            } else {
                lemma_small_mod((self - rhs) as nat, 0x1_0000_0000_0000_0000);
            }
        }
        self.wrapping_sub(rhs)
    }

    fn shift_left(self, n: usize) -> (r: Self) {
        if n >= 64 {
            proof {
                lemma_pow2_widths();
                lemma_mod_multiples_basic(self as int, 0x1_0000_0000_0000_0000);
            }
            0
        } else {
            proof {
                lemma_pow2_widths();
                lemma_u64_shift_left(self, n as u64);
            }
            self << (n as u64)
        }
    }

    fn shift_right(self, n: usize) -> (r: Self) {
        if n >= 64 {
            proof {
                lemma_pow2_widths();
                lemma_basic_div(self as int, 0x1_0000_0000_0000_0000);
            }
            0
        } else {
            proof {
                lemma_u64_shr_is_div(self, n as u64);
            }
            self >> (n as u64)
        }
    }
}

impl ScratchInteger for u64 {
    proof fn lemma_scratch_is_double_width() {
    }

    fn to_scratch(self) -> (wide: u128) {
        self as u128
    }

    fn from_scratch(wide: u128) -> (narrow: Self) {
        proof {
            lemma_pow2_widths();
            assert(wide as u64 == wide % 0x1_0000_0000_0000_0000) by (bit_vector);
        }
        #[verifier::truncate]
        (wide as u64)
    }
}

/// On `u128` a left shift multiplies by a power of two modulo `2^128`.
proof fn lemma_u128_shift_left(x: u128, n: u128)
    requires
        n < 128,
    ensures
        (x << n) as nat == (x as nat * pow2(n as nat)) % two_to_the_128(),
    decreases n,
{
    if n == 0 {
        assert(x << 0u128 == x) by (bit_vector);
        lemma2_to64();
        assert(x as nat * 1 == x as nat);
        lemma_small_mod(x as nat, two_to_the_128());
    } else {
        let m = (n - 1) as u128;
        let y = x << m;
        lemma_u128_shift_left(x, m);
        assert(x << n == (x << m) << 1u128) by (bit_vector)
            requires
                0 < n < 128,
                m == n - 1,
        ;
        assert((y << 1u128) == (y * 2) % 0x1_0000_0000_0000_0000_0000_0000_0000_0000int)
            by (bit_vector);
        lemma_pow2_unfold(n as nat);
        let a = x as nat * pow2(m as nat);
        assert(x as nat * pow2(n as nat) == 2 * a) by (nonlinear_arith)
            requires
                pow2(n as nat) == 2 * pow2(m as nat),
                a == x as nat * pow2(m as nat),
        ;
        lemma_mul_mod_noop_right(2, a as int, two_to_the_128() as int);
    }
}

impl UnsignedInteger for u128 {
    open spec fn bit_width() -> nat {
        128
    }

    open spec fn as_nat(self) -> nat {
        self as nat
    }

    proof fn lemma_bit_width() {
    }

    proof fn lemma_as_nat_range(self) {
        lemma_pow2_widths();
    }

    proof fn lemma_as_nat_injective(self, other: Self) {
    }

    fn bits() -> (r: usize) {
        128
    }

    fn zero() -> (r: Self) {
        0
    }

    fn wrapping_add(self, rhs: Self) -> (r: Self) {
        proof {
            lemma_pow2_widths();
            if self + rhs > u128::MAX {
                lemma_mod_sub_multiples_vanish((self + rhs) as int, two_to_the_128() as int);
                lemma_small_mod((self + rhs - two_to_the_128() as int) as nat, two_to_the_128());
            } else {
                lemma_small_mod((self + rhs) as nat, two_to_the_128());
            }
        }
        self.wrapping_add(rhs)
    }

    fn wrapping_sub(self, rhs: Self) -> (r: Self) {
        proof {
            lemma_pow2_widths();
            if self - rhs < 0 {
                lemma_mod_add_multiples_vanish((self - rhs) as int, two_to_the_128() as int);
                lemma_small_mod((self - rhs + two_to_the_128() as int) as nat, two_to_the_128());
            } else {
                lemma_small_mod((self - rhs) as nat, two_to_the_128());
            }
        }
        self.wrapping_sub(rhs)
    }

    fn shift_left(self, n: usize) -> (r: Self) {
        if n >= 128 {
            proof {
                lemma_pow2_widths();
                lemma_mod_multiples_basic(self as int, two_to_the_128() as int);
            }
            0
        } else {
            proof {
                lemma_pow2_widths();
                lemma_u128_shift_left(self, n as u128);
            }
            self << (n as u128)
        }
    }

    fn shift_right(self, n: usize) -> (r: Self) {
        if n >= 128 {
            proof {
                lemma_pow2_widths();
                lemma_basic_div(self as int, two_to_the_128() as int);
            }
            0
        } else {
            proof {
                lemma_u128_shr_is_div(self, n as u128);
            }
            self >> (n as u128)
        }
    }
}

} // verus!
