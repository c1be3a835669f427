//! Scalars of the BN254 scalar field and their three encodings.

use vstd::prelude::*;
use ff::PrimeField;
use halo2curves::bn256::Fr;
use halo2curves::serde::SerdeObject;
use crate::format::checked;
use crate::format::or_invalid;
use crate::format::SerdeError;
use crate::format::SerdeFormat;
use crate::reader::fetch;
use crate::reader::has_bytes;
use crate::reader::put;
use crate::reader::Reader;

verus! {

/// The number of bytes of a scalar, in every format.
pub const SCALAR_BYTES: usize = 32;

/// The number that a sequence of bytes denotes, least significant byte first.
pub open spec fn le_value(b: Seq<u8>) -> nat
    decreases b.len(),
{
    if b.len() == 0 {
        0
    } else {
        b[0] as nat + 256 * le_value(b.skip(1))
    }
}

/// The order of the BN254 scalar field.
pub open spec fn scalar_modulus() -> nat {
    0x30644e72e131a029b85045b68181585d2833e84879b9709143e1f593f0000001nat
}

/// The canonical bytes of the field element whose internal form is `raw`.
pub uninterp spec fn scalar_repr(raw: Seq<u8>) -> Seq<u8>;

/// The internal form of the field element with canonical bytes `repr`, if
/// `repr` denotes one.
pub uninterp spec fn scalar_from_repr(repr: Seq<u8>) -> Option<Seq<u8>>;

/// An element of the BN254 scalar field, held as the 32 bytes of its internal
/// form: four little-endian 64-bit limbs, least significant limb first.
#[derive(Clone, Copy, Debug, PartialEq, Eq)]
pub struct Scalar {
    pub raw: [u8; 32],
}

impl View for Scalar {
    type V = Seq<u8>;

    open spec fn view(&self) -> Seq<u8> {
        self.raw@
    }
}

impl DeepView for Scalar {
    type V = Seq<u8>;

    open spec fn deep_view(&self) -> Seq<u8> {
        self.raw@
    }
}

/// The bytes that stand for a scalar with internal form `raw` under `format`.
pub open spec fn scalar_encoding(raw: Seq<u8>, format: SerdeFormat) -> Seq<u8> {
    match format {
        SerdeFormat::Processed => scalar_repr(raw),
        _ => raw,
    }
}

/// The internal form of the scalar that 32 bytes stand for under `format`,
/// or `InvalidEncoding` where the format checks and the bytes fail the check.
pub open spec fn scalar_decoding(bytes: Seq<u8>, format: SerdeFormat) -> Result<
    Seq<u8>,
    SerdeError,
> {
    match format {
        SerdeFormat::Processed => match scalar_from_repr(bytes) {
            Some(raw) => Ok(raw),
            None => Err(SerdeError::InvalidEncoding),
        },
        SerdeFormat::RawBytes => if le_value(bytes) < scalar_modulus() {
            Ok(bytes)
        } else {
            Err(SerdeError::InvalidEncoding)
        },
        SerdeFormat::RawBytesUnchecked => Ok(bytes),
    }
}

/// What reading a scalar at offset `at` of `input` gives: `Truncated` where
/// 32 bytes are not there, else what those bytes decode to.
pub open spec fn parse_scalar(input: Seq<u8>, at: int, format: SerdeFormat) -> Result<
    Seq<u8>,
    SerdeError,
> {
    if has_bytes(input, at, 32) {
        scalar_decoding(input.subrange(at, at + 32), format)
    } else {
        Err(SerdeError::Truncated)
    }
}

/// Whether the bytes of the scalar with internal form `raw` are 32 and
/// decode, under the same format, to `raw` again.
pub open spec fn scalar_round_trips(raw: Seq<u8>, format: SerdeFormat) -> bool {
    scalar_encoding(raw, format).len() == 32 && scalar_decoding(
        scalar_encoding(raw, format),
        format,
    ) == Ok::<Seq<u8>, SerdeError>(raw)
}

/// In the two formats that write the internal form, a scalar of 32 bytes
/// decodes from its own bytes, provided it is in range or the format does
/// not check.
pub proof fn lemma_raw_scalar_round_trips(raw: Seq<u8>, format: SerdeFormat)
    requires
        raw.len() == 32,
        format != SerdeFormat::Processed,
        le_value(raw) < scalar_modulus() || format == SerdeFormat::RawBytesUnchecked,
    ensures
        scalar_round_trips(raw, format),
{
}

/// `PrimeField::to_repr` of `halo2curves::bn256::Fr`, on the element with
/// the given internal bytes. The result is named `scalar_repr`; for an
/// element in range, `from_repr` takes the result back to the same element.
#[verifier::external_body]
fn fr_to_repr(raw: &[u8; 32]) -> (out: [u8; 32])
    ensures
        out@ == scalar_repr(raw@),
        le_value(raw@) < scalar_modulus() ==> scalar_from_repr(out@) == Some(raw@),
{
    Fr::from_raw_bytes_unchecked(raw).to_repr().into()
}

/// `PrimeField::from_repr` of `halo2curves::bn256::Fr`. It accepts exactly
/// the byte strings whose little-endian value is below the modulus; the
/// element it builds is named `scalar_from_repr`, is in range, and has the
/// accepted bytes as its canonical bytes.
#[verifier::external_body]
fn fr_from_repr(repr: &[u8; 32]) -> (r: Option<[u8; 32]>)
    ensures
        r.is_some() == (le_value(repr@) < scalar_modulus()),
        match r {
            Some(raw) => scalar_from_repr(repr@) == Some(raw@) && le_value(raw@)
                < scalar_modulus() && scalar_repr(raw@) == repr@,
            None => scalar_from_repr(repr@).is_none(),
        },
{
    match Option::<Fr>::from(Fr::from_repr((*repr).into())) {
        Some(elt) => Some(elt.to_raw_bytes().try_into().unwrap()),
        None => None,
    }
}

/// `SerdeObject::from_raw_bytes` of `halo2curves::bn256::Fr`, which accepts
/// 32 bytes exactly when their little-endian value is below the modulus.
#[verifier::external_body]
fn fr_raw_in_range(raw: &[u8; 32]) -> (ok: bool)
    ensures
        ok == (le_value(raw@) < scalar_modulus()),
{
    Fr::from_raw_bytes(raw).is_some()
}

impl Scalar {
    /// Whether the internal form is reduced: below the modulus.
    pub open spec fn is_canonical(&self) -> bool {
        le_value(self@) < scalar_modulus()
    }

    /// The scalar with the given internal bytes, which are not checked.
    pub fn from_raw(raw: [u8; 32]) -> (s: Scalar)
        ensures
            s@ == raw@,
    {
        Scalar { raw }
    }

    /// The number of bytes of a scalar under `format`: 32 in each.
    pub fn byte_length(format: SerdeFormat) -> (n: usize)
        ensures
            n == 32,
    {
        SCALAR_BYTES
    }

    /// Tells whether the internal form is reduced.
    pub fn in_range(&self) -> (ok: bool)
        ensures
            ok == self.is_canonical(),
    {
        fr_raw_in_range(&self.raw)
    }

    /// The bytes of this scalar under `format`. Decoding them under the same
    /// format gives the scalar back, provided it is in range.
    pub fn encode(&self, format: SerdeFormat) -> (out: [u8; 32])
        ensures
            out@ == scalar_encoding(self@, format),
            self.is_canonical() || format == SerdeFormat::RawBytesUnchecked ==> scalar_round_trips(
                self@,
                format,
            ),
    {
        match format {
            SerdeFormat::Processed => fr_to_repr(&self.raw),
            _ => self.raw,
        }
    }

    /// The scalar that 32 bytes stand for under `format`, whose bytes under
    /// that format are the 32 bytes again. The two checking
    /// formats reject exactly the bytes whose value is not below the
    /// modulus, and what they accept is in range.
    pub fn decode(bytes: &[u8; 32], format: SerdeFormat) -> (r: Result<Scalar, SerdeError>)
        ensures
            match r {
                Ok(s) => scalar_decoding(bytes@, format) == Ok::<Seq<u8>, SerdeError>(s@),
                Err(e) => scalar_decoding(bytes@, format) == Err::<Seq<u8>, SerdeError>(e) && e
                    == SerdeError::InvalidEncoding,
            },
            format != SerdeFormat::RawBytesUnchecked ==> (r.is_ok() <==> le_value(bytes@)
                < scalar_modulus()),
            format != SerdeFormat::RawBytesUnchecked && r.is_ok() ==> r.unwrap().is_canonical(),
            format == SerdeFormat::RawBytesUnchecked ==> r.is_ok() && r.unwrap()@ == bytes@,
            r.is_ok() ==> scalar_encoding(r.unwrap()@, format) == bytes@,
    {
        let raw = match format {
            SerdeFormat::Processed => or_invalid(fr_from_repr(bytes)),
            SerdeFormat::RawBytes => checked(*bytes, fr_raw_in_range(bytes)),
            SerdeFormat::RawBytesUnchecked => Ok(*bytes),
        };
        match raw {
            Ok(raw) => Ok(Scalar { raw }),
            Err(e) => Err(e),
        }
    }

    /// Reads a scalar at offset `at` of `input`.
    pub fn decode_at(input: &[u8], at: usize, format: SerdeFormat) -> (r: Result<
        Scalar,
        SerdeError,
    >)
        ensures
            match r {
                Ok(s) => parse_scalar(input@, at as int, format) == Ok::<Seq<u8>, SerdeError>(s@),
                Err(e) => parse_scalar(input@, at as int, format) == Err::<Seq<u8>, SerdeError>(e),
            },
            r == Err::<Scalar, SerdeError>(SerdeError::Truncated) <==> !has_bytes(
                input@,
                at as int,
                32,
            ),
            r == Err::<Scalar, SerdeError>(SerdeError::InvalidEncoding) <==> has_bytes(
                input@,
                at as int,
                32,
            ) && format != SerdeFormat::RawBytesUnchecked && le_value(
                input@.subrange(at as int, at + 32),
            ) >= scalar_modulus(),
            r.is_ok() ==> scalar_encoding(r.unwrap()@, format) == input@.subrange(
                at as int,
                at + 32,
            ),
            format != SerdeFormat::RawBytesUnchecked && r.is_ok() ==> r.unwrap().is_canonical(),
    {
        match fetch::<32>(input, at) {
            Ok(bytes) => Scalar::decode(&bytes, format),
            Err(e) => Err(e),
        }
    }
}

/// Reading and writing a field element in a chosen format.
pub trait SerdePrimeField: Sized {
    /// Reads one element and moves the reader past it.
    fn read(reader: &mut Reader, format: SerdeFormat) -> Result<Self, SerdeError>;

    /// Appends the bytes of this element to `writer`.
    fn write(&self, writer: &mut Vec<u8>, format: SerdeFormat);
}

impl SerdePrimeField for Scalar {
    /// Reads a scalar at the reader's offset: `Truncated` where fewer than
    /// 32 bytes are left, `InvalidEncoding` where a checking format rejects
    /// them. The reader moves past the 32 bytes whether or not they are
    /// accepted; a truncated read leaves it where it was.
    fn read(reader: &mut Reader, format: SerdeFormat) -> (r: Result<Scalar, SerdeError>)
        ensures
            final(reader).bytes() == old(reader).bytes(),
            match r {
                Ok(s) => parse_scalar(old(reader).bytes(), old(reader).offset(), format) == Ok::<
                    Seq<u8>,
                    SerdeError,
                >(s@),
                Err(e) => parse_scalar(old(reader).bytes(), old(reader).offset(), format) == Err::<
                    Seq<u8>,
                    SerdeError,
                >(e),
            },
            final(reader).offset() == if has_bytes(
                old(reader).bytes(),
                old(reader).offset(),
                32,
            ) {
                old(reader).offset() + 32
            } else {
                old(reader).offset()
            },
            r.is_ok() ==> scalar_encoding(r.unwrap()@, format) == old(reader).bytes().subrange(
                old(reader).offset(),
                old(reader).offset() + 32,
            ),
            r == Err::<Scalar, SerdeError>(SerdeError::Truncated) <==> !has_bytes(
                old(reader).bytes(),
                old(reader).offset(),
                32,
            ),
            r == Err::<Scalar, SerdeError>(SerdeError::InvalidEncoding) <==> has_bytes(
                old(reader).bytes(),
                old(reader).offset(),
                32,
            ) && format != SerdeFormat::RawBytesUnchecked && le_value(
                old(reader).bytes().subrange(old(reader).offset(), old(reader).offset() + 32),
            ) >= scalar_modulus(),
            format != SerdeFormat::RawBytesUnchecked && r.is_ok() ==> r.unwrap().is_canonical(),
    {
        let at = reader.position();
        let input = reader.input();
        let r = Scalar::decode_at(input, at, format);
        if input.len() - at >= SCALAR_BYTES {
            reader.seek(at + SCALAR_BYTES);
        }
        r
    }

    /// Appends the 32 bytes of this scalar under `format`. Reading them back
    /// under the same format gives the scalar again, provided it is in range
    /// or the format does not check.
    fn write(&self, writer: &mut Vec<u8>, format: SerdeFormat)
        ensures
            final(writer)@ == old(writer)@ + scalar_encoding(self@, format),
            scalar_encoding(self@, format).len() == 32,
            self.is_canonical() || format == SerdeFormat::RawBytesUnchecked ==> scalar_round_trips(
                self@,
                format,
            ) && parse_scalar(final(writer)@, old(writer)@.len() as int, format) == Ok::<
                Seq<u8>,
                SerdeError,
            >(self@),
            parse_scalar(final(writer)@.drop_last(), old(writer)@.len() as int, format) == Err::<
                Seq<u8>,
                SerdeError,
            >(SerdeError::Truncated),
    {
        let bytes = self.encode(format);
        put(writer, bytes.as_slice());
        proof {
            let start = old(writer)@.len() as int;
            assert(writer@.subrange(start, start + 32) =~= bytes@);
        }
    }
}

} // verus!
