//! The modulus of the values that a decomposer for arbitrary moduli works on.
use core::marker::PhantomData;
use vstd::prelude::*;
use vstd::arithmetic::power2::*;
use vstd::arithmetic::div_mod::*;
use vstd::bits::lemma_u128_shr_is_div;
use crate::error::ConfigurationError;
use crate::numeric::UnsignedInteger;

verus! {

/// The error that a modulus for an integer of `bits` bits is refused with, if
/// any.
pub open spec fn modulus_error(modulus: nat, bits: nat) -> Option<ConfigurationError> {
    if modulus < 2 {
        Some(ConfigurationError::ModulusTooSmall)
    } else if modulus >= pow2(bits) {
        Some(ConfigurationError::ModulusTooLarge)
    } else {
        None
    }
}

/// A modulus `q` for values of the integer type `T`, with `2 <= q < 2^W`. It
/// need not be a power of two.
#[derive(Debug, PartialEq, Eq)]
pub struct CiphertextModulus<T: UnsignedInteger> {
    modulus: u128,
    integer_type: PhantomData<T>,
}

impl<T: UnsignedInteger> View for CiphertextModulus<T> {
    type V = nat;

    closed spec fn view(&self) -> nat {
        self.modulus as nat
    }
}

impl<T: UnsignedInteger> Clone for CiphertextModulus<T> {
    fn clone(&self) -> (copy: Self)
        ensures
            copy == *self,
    {
        proof {
            use_type_invariant(self);
        }
        CiphertextModulus { modulus: self.modulus, integer_type: PhantomData }
    }
}

impl<T: UnsignedInteger> Copy for CiphertextModulus<T> {

}

impl<T: UnsignedInteger> CiphertextModulus<T> {
    #[verifier::type_invariant]
    spec fn well_formed(self) -> bool {
        modulus_error(self.modulus as nat, T::bit_width()) is None
    }

    /// Creates the modulus `modulus`, which must be at least two and fit the
    /// integer type.
    pub fn try_new(modulus: u128) -> (result: Result<Self, ConfigurationError>)
        ensures
            match modulus_error(modulus as nat, T::bit_width()) {
                Some(error) => result == Err::<Self, ConfigurationError>(error),
                None => result matches Ok(created) && created@ == modulus,
            },
    {
        if modulus < 2 {
            return Err(ConfigurationError::ModulusTooSmall);
        }
        proof {
            T::lemma_bit_width();
        }
        let bits = T::bits();
        if bits < 128 {
            proof {
                let bound = pow2(bits as nat);
                lemma_pow2_pos(bits as nat);
                lemma_u128_shr_is_div(modulus, bits as u128);
                lemma_fundamental_div_mod(modulus as int, bound as int);
                lemma_mod_bound(modulus as int, bound as int);
                let c = modulus as nat / bound;
                assert(c >= 1 <==> modulus >= bound) by (nonlinear_arith)
                    requires
                        modulus == bound * c + modulus as nat % bound,
                        0 <= modulus as nat % bound < bound,
                        c >= 0,
                ;
            }
            if (modulus >> (bits as u128)) != 0 {
                return Err(ConfigurationError::ModulusTooLarge);
            }
        } else {
            proof {
                lemma_pow2_adds(64, 64);
                lemma2_to64();
            }
        }
        Ok(CiphertextModulus { modulus, integer_type: PhantomData })
    }

    /// Returns the modulus, which is at least two and below `2^W`.
    pub fn get_custom_modulus(&self) -> (modulus: u128)
        ensures
            modulus == self@,
            2 <= modulus < pow2(T::bit_width()),
    {
        proof {
            use_type_invariant(self);
        }
        self.modulus
    }

    /// Two moduli that stand for the same number are the same value.
    pub proof fn lemma_equal_views(self, other: Self)
        requires
            self@ == other@,
        ensures
            self == other,
    {
    }
}

} // verus!
