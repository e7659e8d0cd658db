//! Why a record could not be converted.

use vstd::prelude::*;

verus! {

/// Why a record could not be converted. Each of these ends a conversion.
#[derive(Debug, Clone, Copy, PartialEq, Eq)]
pub enum ConvertError {
    /// The chromosome, the reference allele, an identifier or an alternate
    /// allele is not UTF-8.
    InvalidUtf8,
    /// The severity table gives a consequence term a rank that is not a
    /// number up to 255.
    BadRank,
    /// The end of the interval does not fit the coordinate type.
    PositionOutOfRange,
}

} // verus!
