//! The encoding formats and the errors that decoding can report.

use vstd::prelude::*;

verus! {

/// How scalars and curve points are laid out in bytes, and how strictly
/// they are checked when read back.
#[derive(Clone, Copy, Debug, PartialEq, Eq, Structural)]
pub enum SerdeFormat {
    /// Scalars in canonical form, curve points compressed. Reading checks
    /// that the bytes denote a value of the field or a point of the curve.
    Processed,
    /// Scalars and coordinates in their internal form, curve points
    /// uncompressed. Reading checks range and curve membership.
    RawBytes,
    /// The same bytes as `RawBytes`, read back without any check.
    RawBytesUnchecked,
}

/// Why a read or a commitment failed.
#[derive(Clone, Copy, Debug, PartialEq, Eq, Structural)]
pub enum SerdeError {
    /// The input ended before the bytes that were needed.
    Truncated,
    /// The bytes were there but denote no valid value.
    InvalidEncoding,
    /// A commitment was asked for over no scalars at all.
    EmptyInput,
}

/// What was found, or `InvalidEncoding` where nothing was.
pub fn or_invalid<T>(found: Option<T>) -> (r: Result<T, SerdeError>)
    ensures
        r == match found {
            Some(value) => Ok::<T, SerdeError>(value),
            None => Err::<T, SerdeError>(SerdeError::InvalidEncoding),
        },
{
    match found {
        Some(value) => Ok(value),
        None => Err(SerdeError::InvalidEncoding),
    }
}

/// The value, or `InvalidEncoding` where it did not pass its check.
pub fn checked<T>(value: T, passed: bool) -> (r: Result<T, SerdeError>)
    ensures
        r == if passed {
            Ok::<T, SerdeError>(value)
        } else {
            Err::<T, SerdeError>(SerdeError::InvalidEncoding)
        },
{
    if passed {
        Ok(value)
    } else {
        Err(SerdeError::InvalidEncoding)
    }
}

} // verus!
