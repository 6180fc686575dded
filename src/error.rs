//! The errors of the library.

use vstd::prelude::*;

verus! {

#[derive(Debug, Clone, Copy, PartialEq, Eq, Structural)]
pub enum AMMError {
    /// An upstream read failed.
    ProviderError,
    /// A division whose divisor is zero.
    DivisionByZero,
    /// The correction step of the 64.64 division found its limbs inconsistent.
    RoundingError,
    /// A log or batch-read payload does not match the expected layout.
    DecodeError,
    /// A log lacks the block number it needs.
    BlockNumberNotFound,
    /// A discovery topic that no known factory kind emits.
    UnsupportedFactoryKind,
    /// A token that is not one of the pool's pair.
    UnknownToken,
}

} // verus!
