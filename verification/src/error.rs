//! The ways in which a configuration can be unfit for a decomposer.
use vstd::prelude::*;

verus! {

/// Why a configuration is refused.
#[derive(Clone, Copy, Debug, PartialEq, Eq, Structural)]
pub enum ConfigurationError {
    /// The base logarithm is zero.
    ZeroBaseLog,
    /// The level count is zero.
    ZeroLevelCount,
    /// The digits take more bits than the integer type has.
    TooManyBits,
    /// The modulus is smaller than two.
    ModulusTooSmall,
    /// The modulus does not fit the integer type.
    ModulusTooLarge,
    /// The modulus is smaller than `B^level_count`: the smallest step of the
    /// decomposition would be less than one.
    IncompatibleModulus,
}

} // verus!
