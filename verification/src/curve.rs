//! Affine points of the BN254 curve G1 and their three encodings.

use vstd::prelude::*;
use halo2curves::bn256::G1Affine;
use halo2curves::group::GroupEncoding;
use halo2curves::serde::SerdeObject;
use halo2curves::CurveAffine;
use crate::field::le_value;
use crate::format::checked;
use crate::format::or_invalid;
use crate::format::SerdeError;
use crate::format::SerdeFormat;
use crate::reader::fetch;
use crate::reader::has_bytes;
use crate::reader::put;
use crate::reader::Reader;

verus! {

/// The number of bytes of a compressed point.
pub const COMPRESSED_BYTES: usize = 32;

/// The number of bytes of an uncompressed point: two coordinates.
pub const UNCOMPRESSED_BYTES: usize = 64;

/// The order of the base field of BN254, in which the coordinates lie.
pub open spec fn base_modulus() -> nat {
    0x30644e72e131a029b85045b68181585d97816a916871ca8d3c208c16d87cfd47nat
}

/// Whether both coordinates of the point with internal bytes `raw` are
/// reduced: below the modulus of the base field.
pub open spec fn coordinates_in_range(raw: Seq<u8>) -> bool {
    le_value(raw.subrange(0, 32)) < base_modulus() && le_value(raw.subrange(32, 64))
        < base_modulus()
}

/// Whether the point with internal bytes `raw` satisfies the curve
/// equation or is the point at infinity.
pub uninterp spec fn point_on_curve(raw: Seq<u8>) -> bool;

/// The compressed bytes of the point with internal bytes `raw`.
pub uninterp spec fn point_compressed(raw: Seq<u8>) -> Seq<u8>;

/// The internal bytes of the point with compressed bytes `bytes`, if
/// `bytes` denotes one.
pub uninterp spec fn point_decompressed(bytes: Seq<u8>) -> Option<Seq<u8>>;

/// An affine point of G1, held as the 64 bytes of its internal form: the
/// `x` coordinate, then the `y` coordinate, each as four little-endian
/// 64-bit limbs. The point at infinity has both coordinates zero.
#[derive(Clone, Copy, Debug, PartialEq, Eq)]
pub struct CurvePoint {
    pub raw: [u8; 64],
}

impl View for CurvePoint {
    type V = Seq<u8>;

    open spec fn view(&self) -> Seq<u8> {
        self.raw@
    }
}

/// The number of bytes of a point under `format`.
pub open spec fn point_width(format: SerdeFormat) -> int {
    match format {
        SerdeFormat::Processed => 32,
        _ => 64,
    }
}

/// The bytes that stand for the point with internal form `raw` under `format`.
pub open spec fn point_encoding(raw: Seq<u8>, format: SerdeFormat) -> Seq<u8> {
    match format {
        SerdeFormat::Processed => point_compressed(raw),
        _ => raw,
    }
}

/// The internal form of the point that bytes stand for under `format`, or
/// `InvalidEncoding` where the format checks and the bytes fail the check.
pub open spec fn point_decoding(bytes: Seq<u8>, format: SerdeFormat) -> Result<
    Seq<u8>,
    SerdeError,
> {
    match format {
        SerdeFormat::Processed => match point_decompressed(bytes) {
            Some(raw) => Ok(raw),
            None => Err(SerdeError::InvalidEncoding),
        },
        SerdeFormat::RawBytes => if coordinates_in_range(bytes) && point_on_curve(bytes) {
            Ok(bytes)
        } else {
            Err(SerdeError::InvalidEncoding)
        },
        SerdeFormat::RawBytesUnchecked => Ok(bytes),
    }
}

/// What reading a point at offset `at` of `input` gives: `Truncated` where
/// the bytes of a point are not there, else what those bytes decode to.
pub open spec fn parse_point(input: Seq<u8>, at: int, format: SerdeFormat) -> Result<
    Seq<u8>,
    SerdeError,
> {
    if has_bytes(input, at, point_width(format)) {
        point_decoding(input.subrange(at, at + point_width(format)), format)
    } else {
        Err(SerdeError::Truncated)
    }
}

/// Whether the bytes of the point with internal form `raw` are as many as
/// the format asks for and decode, under the same format, to `raw` again.
pub open spec fn point_round_trips(raw: Seq<u8>, format: SerdeFormat) -> bool {
    point_encoding(raw, format).len() == point_width(format) && point_decoding(
        point_encoding(raw, format),
        format,
    ) == Ok::<Seq<u8>, SerdeError>(raw)
}

/// In the two formats that write the internal form, a point of 64 bytes
/// decodes from its own bytes, provided it is valid or the format does not
/// check.
pub proof fn lemma_raw_point_round_trips(raw: Seq<u8>, format: SerdeFormat)
    requires
        raw.len() == 64,
        format != SerdeFormat::Processed,
        (coordinates_in_range(raw) && point_on_curve(raw)) || format
            == SerdeFormat::RawBytesUnchecked,
    ensures
        point_round_trips(raw, format),
{
}

/// `CurveAffine::is_on_curve` of `halo2curves::bn256::G1Affine`, on the
/// point with the given internal bytes. The result is named `point_on_curve`.
#[verifier::external_body]
fn g1_is_on_curve(raw: &[u8; 64]) -> (ok: bool)
    ensures
        ok == point_on_curve(raw@),
{
    G1Affine::from_raw_bytes_unchecked(raw).is_on_curve().into()
}

/// `SerdeObject::from_raw_bytes` of `halo2curves::bn256::G1Affine`, which
/// accepts 64 bytes exactly when both coordinates are below the modulus
/// and the point is on the curve.
#[verifier::external_body]
fn g1_raw_is_valid(raw: &[u8; 64]) -> (ok: bool)
    ensures
        ok == (coordinates_in_range(raw@) && point_on_curve(raw@)),
{
    G1Affine::from_raw_bytes(raw).is_some()
}

/// `GroupEncoding::to_bytes` of `halo2curves::bn256::G1Affine`, which
/// panics on a point that is not on the curve. The result is named
/// `point_compressed`; for a point with reduced coordinates, `from_bytes`
/// takes the result back to the same point.
#[verifier::external_body]
fn g1_to_bytes(raw: &[u8; 64]) -> (out: [u8; 32])
    requires
        point_on_curve(raw@),
    ensures
        out@ == point_compressed(raw@),
        coordinates_in_range(raw@) ==> point_decompressed(out@) == Some(raw@),
{
    G1Affine::from_raw_bytes_unchecked(raw).to_bytes().into()
}

/// `GroupEncoding::from_bytes` of `halo2curves::bn256::G1Affine`. The
/// point it builds is named `point_decompressed`; it is on the curve, its
/// coordinates are reduced, and its compressed bytes are the accepted bytes.
#[verifier::external_body]
fn g1_from_bytes(bytes: &[u8; 32]) -> (r: Option<[u8; 64]>)
    ensures
        match r {
            Some(raw) => point_decompressed(bytes@) == Some(raw@) && coordinates_in_range(raw@)
                && point_on_curve(raw@) && point_compressed(raw@) == bytes@,
            None => point_decompressed(bytes@).is_none(),
        },
{
    match Option::<G1Affine>::from(G1Affine::from_bytes(&(*bytes).into())) {
        Some(point) => Some(point.to_raw_bytes().try_into().unwrap()),
        None => None,
    }
}

impl CurvePoint {
    /// Whether the point satisfies the curve equation or is the point at infinity.
    pub open spec fn on_curve(&self) -> bool {
        point_on_curve(self@)
    }

    /// Whether the point is on the curve and its coordinates are reduced.
    pub open spec fn is_valid(&self) -> bool {
        coordinates_in_range(self@) && point_on_curve(self@)
    }

    /// The point with the given internal bytes, which are not checked.
    pub fn from_raw(raw: [u8; 64]) -> (p: CurvePoint)
        ensures
            p@ == raw@,
    {
        CurvePoint { raw }
    }

    /// Tells whether the point is on the curve.
    pub fn is_on_curve(&self) -> (ok: bool)
        ensures
            ok == self.on_curve(),
    {
        g1_is_on_curve(&self.raw)
    }

    /// Tells whether the point is on the curve with reduced coordinates.
    pub fn check(&self) -> (ok: bool)
        ensures
            ok == self.is_valid(),
    {
        g1_raw_is_valid(&self.raw)
    }

    /// The point that the bytes at offset `at` of `input` stand for under
    /// `format`, whose bytes under that format are those bytes again.
    pub fn decode_at(input: &[u8], at: usize, format: SerdeFormat) -> (r: Result<
        CurvePoint,
        SerdeError,
    >)
        ensures
            match r {
                Ok(p) => parse_point(input@, at as int, format) == Ok::<Seq<u8>, SerdeError>(p@),
                Err(e) => parse_point(input@, at as int, format) == Err::<Seq<u8>, SerdeError>(e),
            },
            r == Err::<CurvePoint, SerdeError>(SerdeError::Truncated) <==> !has_bytes(
                input@,
                at as int,
                point_width(format),
            ),
            r.is_ok() ==> point_encoding(r.unwrap()@, format) == input@.subrange(
                at as int,
                at + point_width(format),
            ),
            format != SerdeFormat::RawBytesUnchecked && r.is_ok() ==> r.unwrap().is_valid(),
    {
        let raw = match format {
            SerdeFormat::Processed => match fetch::<32>(input, at) {
                Err(e) => Err(e),
                Ok(bytes) => or_invalid(g1_from_bytes(&bytes)),
            },
            SerdeFormat::RawBytes => match fetch::<64>(input, at) {
                Err(e) => Err(e),
                Ok(raw) => checked(raw, g1_raw_is_valid(&raw)),
            },
            SerdeFormat::RawBytesUnchecked => fetch::<64>(input, at),
        };
        match raw {
            Ok(raw) => Ok(CurvePoint { raw }),
            Err(e) => Err(e),
        }
    }

    /// Appends the bytes of this point under `format`, after testing what
    /// `write` asks of its caller: a point that is not on the curve has no
    /// compressed form, is refused as `InvalidEncoding`, and nothing is written.
    pub fn write_checked(&self, writer: &mut Vec<u8>, format: SerdeFormat) -> (r: Result<
        (),
        SerdeError,
    >)
        ensures
            r.is_ok() <==> (format != SerdeFormat::Processed || self.on_curve()),
            r.is_err() ==> r == Err::<(), SerdeError>(SerdeError::InvalidEncoding) && final(writer)@
                == old(writer)@,
            r.is_ok() ==> final(writer)@ == old(writer)@ + point_encoding(self@, format)
                && point_encoding(self@, format).len() == point_width(format),
            r.is_ok() && (self.is_valid() || format == SerdeFormat::RawBytesUnchecked)
                ==> point_round_trips(self@, format),
    {
        match format {
            SerdeFormat::Processed => {
                if !self.is_on_curve() {
                    return Err(SerdeError::InvalidEncoding);
                }
            },
            _ => {},
        }
        self.write(writer, format);
        Ok(())
    }
}

/// Reading and writing a curve point in a chosen format.
pub trait SerdeCurveAffine: Sized {
    /// Whether the element has bytes under `format`.
    spec fn writable(&self, format: SerdeFormat) -> bool;

    /// Reads one element and moves the reader past it.
    fn read(reader: &mut Reader, format: SerdeFormat) -> Result<Self, SerdeError>;

    /// Appends the bytes of this element to `writer`.
    fn write(&self, writer: &mut Vec<u8>, format: SerdeFormat)
        requires
            self.writable(format),
    ;

    /// The number of bytes of an element under `format`.
    fn byte_length(format: SerdeFormat) -> usize;
}

impl SerdeCurveAffine for CurvePoint {
    /// Every point has uncompressed bytes; only a point on the curve has a
    /// compressed form.
    open spec fn writable(&self, format: SerdeFormat) -> bool {
        format == SerdeFormat::Processed ==> self.on_curve()
    }

    /// Reads a point at the reader's offset: 32 compressed bytes under
    /// `Processed`, 64 bytes otherwise. `Truncated` where they are not
    /// there, `InvalidEncoding` where a checking format rejects them. The
    /// reader moves past the bytes whether or not they are accepted; a
    /// truncated read leaves it where it was.
    fn read(reader: &mut Reader, format: SerdeFormat) -> (r: Result<CurvePoint, SerdeError>)
        ensures
            final(reader).bytes() == old(reader).bytes(),
            match r {
                Ok(p) => parse_point(old(reader).bytes(), old(reader).offset(), format) == Ok::<
                    Seq<u8>,
                    SerdeError,
                >(p@),
                Err(e) => parse_point(old(reader).bytes(), old(reader).offset(), format) == Err::<
                    Seq<u8>,
                    SerdeError,
                >(e),
            },
            final(reader).offset() == if has_bytes(
                old(reader).bytes(),
                old(reader).offset(),
                point_width(format),
            ) {
                old(reader).offset() + point_width(format)
            } else {
                old(reader).offset()
            },
            r.is_ok() ==> point_encoding(r.unwrap()@, format) == old(reader).bytes().subrange(
                old(reader).offset(),
                old(reader).offset() + point_width(format),
            ),
            format != SerdeFormat::RawBytesUnchecked && r.is_ok() ==> r.unwrap().is_valid(),
    {
        let at = reader.position();
        let input = reader.input();
        let r = CurvePoint::decode_at(input, at, format);
        let width = <CurvePoint as SerdeCurveAffine>::byte_length(format);
        if input.len() - at >= width {
            reader.seek(at + width);
        }
        r
    }

    /// Appends the bytes of this point: the compressed form under
    /// `Processed`, both coordinates in internal form otherwise. Reading
    /// them back under the same format gives the point again, provided it
    /// is valid or the format does not check.
    fn write(&self, writer: &mut Vec<u8>, format: SerdeFormat)
        ensures
            final(writer)@ == old(writer)@ + point_encoding(self@, format),
            point_encoding(self@, format).len() == point_width(format),
            self.is_valid() || format == SerdeFormat::RawBytesUnchecked ==> point_round_trips(
                self@,
                format,
            ) && parse_point(final(writer)@, old(writer)@.len() as int, format) == Ok::<
                Seq<u8>,
                SerdeError,
            >(self@),
            parse_point(final(writer)@.drop_last(), old(writer)@.len() as int, format) == Err::<
                Seq<u8>,
                SerdeError,
            >(SerdeError::Truncated),
    {
        let ghost start = old(writer)@.len() as int;
        match format {
            SerdeFormat::Processed => {
                let bytes = g1_to_bytes(&self.raw);
                put(writer, bytes.as_slice());
                assert(writer@.subrange(start, start + 32) =~= bytes@);
            },
            _ => {
                put(writer, self.raw.as_slice());
                assert(writer@.subrange(start, start + 64) =~= self.raw@);
            },
        }
    }

    /// The number of bytes of a point under `format`: 32 compressed, 64 otherwise.
    fn byte_length(format: SerdeFormat) -> (n: usize)
        ensures
            n == point_width(format),
    {
        match format {
            SerdeFormat::Processed => COMPRESSED_BYTES,
            _ => UNCOMPRESSED_BYTES,
        }
    }
}

} // verus!
