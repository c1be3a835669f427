//! Reading a curve point in compressed form, whatever format the rest of
//! an input is in.

use vstd::prelude::*;
use crate::curve::parse_point;
use crate::curve::point_compressed;
use crate::curve::COMPRESSED_BYTES;
use crate::curve::CurvePoint;
use crate::format::SerdeError;
use crate::format::SerdeFormat;
use crate::reader::has_bytes;
use crate::reader::Reader;

verus! {

/// Reading a compressed curve point.
pub trait CurveRead: Sized {
    /// Reads a compressed element and moves the reader past it.
    fn read(reader: &mut Reader) -> Result<Self, SerdeError>;
}

impl CurveRead for CurvePoint {
    /// Reads 32 bytes and decompresses them: `Truncated` where they are not
    /// there, `InvalidEncoding` where they denote no point. The reader moves
    /// past the 32 bytes whether or not they denote a point; a truncated
    /// read leaves it where it was.
    fn read(reader: &mut Reader) -> (r: Result<CurvePoint, SerdeError>)
        ensures
            final(reader).bytes() == old(reader).bytes(),
            match r {
                Ok(p) => parse_point(
                    old(reader).bytes(),
                    old(reader).offset(),
                    SerdeFormat::Processed,
                ) == Ok::<Seq<u8>, SerdeError>(p@) && p.is_valid(),
                Err(e) => parse_point(
                    old(reader).bytes(),
                    old(reader).offset(),
                    SerdeFormat::Processed,
                ) == Err::<Seq<u8>, SerdeError>(e),
            },
            final(reader).offset() == if has_bytes(old(reader).bytes(), old(reader).offset(), 32) {
                old(reader).offset() + 32
            } else {
                old(reader).offset()
            },
            r.is_ok() ==> point_compressed(r.unwrap()@) == old(reader).bytes().subrange(
                old(reader).offset(),
                old(reader).offset() + 32,
            ),
    {
        let at = reader.position();
        let input = reader.input();
        let r = CurvePoint::decode_at(input, at, SerdeFormat::Processed);
        if input.len() - at >= COMPRESSED_BYTES {
            reader.seek(at + COMPRESSED_BYTES);
        }
        r
    }
}

} // verus!
