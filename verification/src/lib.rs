//! Binary codec for BN254 field scalars and curve points, a length-framed
//! container for lists of coefficient sequences, and a Merkle commitment
//! over scalars.

pub mod bits;
pub mod format;
pub mod reader;
pub mod field;
pub mod poly;
pub mod framing_laws;
pub mod framing_proofs;
pub mod parallel;
pub mod curve;
pub mod curve_read;
pub mod merkle;
