//! Reading a list of coefficient sequences buffer by buffer: the announced
//! lengths say where each sequence ends, so the input is cut into one
//! buffer per sequence first, and the buffers are decoded independently.

use vstd::prelude::*;
use vstd::slice::slice_subrange;
use vstd::slice::slice_to_vec;
use maybe_rayon::iter::IntoParallelIterator;
use maybe_rayon::iter::ParallelIterator;
use crate::field::Scalar;
use crate::format::SerdeError;
use crate::format::SerdeFormat;
use crate::framing_proofs::lemma_decode_buffer_errors;
use crate::framing_proofs::lemma_decode_buffers_all_ok;
use crate::framing_proofs::lemma_decode_buffers_some_err;
use crate::framing_proofs::lemma_parse_lens_in_bounds;
use crate::framing_proofs::lemma_slice_buffers_error_stays;
use crate::framing_proofs::lemma_slice_buffers_shape;
use crate::poly::all_canonical;
use crate::poly::coeffs_canonical;
use crate::poly::decode_lens;
use crate::poly::decode_scalars;
use crate::poly::parse_lens;
use crate::poly::parse_scalars;
use crate::poly::read_polynomial_vec;
use crate::reader::Reader;
use crate::reader::fetch_u32;
use crate::reader::has_bytes;
use crate::reader::parse_u32;

verus! {

/// What cutting the input into one buffer per sequence gives, from offset
/// `at` on: for each announced length a buffer of four bytes and 32 more
/// for every scalar, and the offset behind the last buffer; `Truncated`
/// where the input ends inside a buffer.
pub open spec fn slice_buffers(input: Seq<u8>, at: int, lens: Seq<u32>) -> Result<
    (Seq<Seq<u8>>, int),
    SerdeError,
>
    decreases lens.len(),
{
    if lens.len() == 0 {
        Ok((Seq::empty(), at))
    } else {
        match slice_buffers(input, at, lens.drop_last()) {
            Err(e) => Err(e),
            Ok((front, mid)) => if has_bytes(input, mid, 4 + 32 * lens.last()) {
                Ok((front.push(input.subrange(mid, mid + 4 + 32 * lens.last())), mid + 4 + 32 * lens.last()))
            } else {
                Err(SerdeError::Truncated)
            },
        }
    }
}

/// What decoding one buffer gives: the sequence that it holds, provided the
/// sequence fills the buffer exactly. A length that does not match the
/// buffer's size is `InvalidEncoding`.
pub open spec fn decode_buffer(buffer: Seq<u8>, format: SerdeFormat) -> Result<
    Seq<Seq<u8>>,
    SerdeError,
> {
    match parse_u32(buffer, 0) {
        Err(e) => Err(e),
        Ok(n) => if 4 + 32 * n != buffer.len() {
            Err(SerdeError::InvalidEncoding)
        } else {
            parse_scalars(buffer, 4, n as nat, format)
        },
    }
}

/// What decoding every buffer gives: the sequences in the order of the
/// buffers, or the error of the first buffer that fails.
pub open spec fn decode_buffers(buffers: Seq<Seq<u8>>, format: SerdeFormat) -> Result<
    Seq<Seq<Seq<u8>>>,
    SerdeError,
>
    decreases buffers.len(),
{
    if buffers.len() == 0 {
        Ok(Seq::empty())
    } else {
        match decode_buffers(buffers.drop_last(), format) {
            Err(e) => Err(e),
            Ok(front) => match decode_buffer(buffers.last(), format) {
                Err(e) => Err(e),
                Ok(coeffs) => Ok(front.push(coeffs)),
            },
        }
    }
}

/// What reading a list of sequences buffer by buffer gives, from offset
/// `at` on: the sequences and the offset behind the list.
pub open spec fn parse_polynomial_vec_parallel(
    input: Seq<u8>,
    at: int,
    format: SerdeFormat,
) -> Result<(Seq<Seq<Seq<u8>>>, int), SerdeError> {
    match parse_u32(input, at) {
        Err(e) => Err(e),
        Ok(count) => match parse_lens(input, at + 4, count as nat) {
            Err(e) => Err(e),
            Ok(lens) => match slice_buffers(input, at + 4 + 4 * count, lens) {
                Err(e) => Err(e),
                Ok((buffers, next)) => match decode_buffers(buffers, format) {
                    Err(e) => Err(e),
                    Ok(polys) => Ok((polys, next)),
                },
            },
        },
    }
}

/// The bytes of each buffer of a list.
pub open spec fn buffers_view(buffers: Seq<Vec<u8>>) -> Seq<Seq<u8>> {
    Seq::new(buffers.len(), |i: int| buffers[i]@)
}

/// The number of bytes of the buffer for a sequence announced with
/// `advertised` scalars: four for its length and 32 for every scalar.
pub fn buffer_size(advertised: u32) -> (size: u64)
    ensures
        size == 4 + 32 * advertised,
{
    4 + 32 * (advertised as u64)
}

/// Cuts `input`, from offset `at` on, into one buffer per announced length
/// and gives the buffers with the offset behind the last.
pub fn split_buffers(input: &[u8], at: usize, lens: &Vec<u32>) -> (r: Result<
    (Vec<Vec<u8>>, usize),
    SerdeError,
>)
    ensures
        match r {
            Ok((buffers, next)) => slice_buffers(input@, at as int, lens@) == Ok::<
                (Seq<Seq<u8>>, int),
                SerdeError,
            >((buffers_view(buffers@), next as int)),
            Err(e) => slice_buffers(input@, at as int, lens@) == Err::<
                (Seq<Seq<u8>>, int),
                SerdeError,
            >(e),
        },
{
    let mut buffers: Vec<Vec<u8>> = Vec::new();
    let mut pos: usize = at;
    let mut i: usize = 0;
    assert(buffers_view(buffers@) =~= Seq::<Seq<u8>>::empty());
    while i < lens.len()
        invariant
            i <= lens@.len(),
            slice_buffers(input@, at as int, lens@.take(i as int)) == Ok::<
                (Seq<Seq<u8>>, int),
                SerdeError,
            >((buffers_view(buffers@), pos as int)),
        decreases lens@.len() - i,
    {
        proof {
            let next = lens@.take(i + 1);
            assert(next.drop_last() =~= lens@.take(i as int));
            assert(next.last() == lens@[i as int]);
        }
        let size = buffer_size(lens[i]);
        if input.len() < pos || size > (input.len() - pos) as u64 {
            proof {
                lemma_slice_buffers_error_stays(input@, at as int, lens@, i + 1);
            }
            return Err(SerdeError::Truncated);
        }
        let end: usize = pos + size as usize;
        let buffer = slice_to_vec(slice_subrange(input, pos, end));
        let ghost before = buffers_view(buffers@);
        buffers.push(buffer);
        assert(buffers_view(buffers@) =~= before.push(buffer@));
        pos = end;
        i = i + 1;
    }
    proof {
        assert(lens@.take(i as int) =~= lens@);
    }
    Ok((buffers, pos))
}

/// Whether `r` is what decoding `buffer` gives, scalars read under a
/// checking format being in range.
pub open spec fn buffer_decodes_to(
    buffer: Seq<u8>,
    format: SerdeFormat,
    r: Result<Vec<Scalar>, SerdeError>,
) -> bool {
    match r {
        Ok(coeffs) => decode_buffer(buffer, format) == Ok::<Seq<Seq<u8>>, SerdeError>(
            coeffs.deep_view(),
        ) && (format != SerdeFormat::RawBytesUnchecked ==> coeffs_canonical(coeffs@)),
        Err(e) => decode_buffer(buffer, format) == Err::<Seq<Seq<u8>>, SerdeError>(e),
    }
}

/// Decodes one buffer: the sequence that it holds, which must fill it exactly.
pub fn decode_polynomial_buffer(buffer: &[u8], format: SerdeFormat) -> (r: Result<
    Vec<Scalar>,
    SerdeError,
>)
    ensures
        buffer_decodes_to(buffer@, format, r),
{
    match fetch_u32(buffer, 0) {
        Err(e) => Err(e),
        Ok(n) => {
            if buffer_size(n) != buffer.len() as u64 {
                return Err(SerdeError::InvalidEncoding);
            }
            match decode_scalars(buffer, 4, n, format) {
                Ok((coeffs, _)) => Ok(coeffs),
                Err(e) => Err(e),
            }
        },
    }
}

/// `into_par_iter`, `map` and `collect` of `maybe_rayon`, which decode each
/// buffer with `decode_polynomial_buffer`, possibly on several threads.
/// Where every buffer decodes, the sequences come back in the order of the
/// buffers; otherwise the error is that of one of the buffers that failed,
/// not necessarily the first.
#[verifier::external_body]
fn decode_each(buffers: Vec<Vec<u8>>, format: SerdeFormat) -> (r: Result<
    Vec<Vec<Scalar>>,
    SerdeError,
>)
    ensures
        match r {
            Ok(polys) => polys@.len() == buffers@.len() && forall|i: int|
                0 <= i < buffers@.len() ==> buffer_decodes_to(
                    #[trigger] buffers@[i]@,
                    format,
                    Ok::<Vec<Scalar>, SerdeError>(polys@[i]),
                ),
            Err(e) => exists|i: int|
                0 <= i < buffers@.len() && buffer_decodes_to(
                    #[trigger] buffers@[i]@,
                    format,
                    Err::<Vec<Scalar>, SerdeError>(e),
                ),
        },
{
    buffers.into_par_iter().map(|buffer| decode_polynomial_buffer(buffer.as_slice(), format)).collect()
}

/// Reads a list of sequences from offset `at` of `input` by cutting the
/// input into one buffer per sequence, as the announced lengths direct,
/// and decoding the buffers independently of each other. It gives the
/// sequences in their order in the input, with the offset behind the list.
#[verifier::rlimit(50)]
pub fn decode_polynomial_vec_parallel(input: &[u8], at: usize, format: SerdeFormat) -> (r: Result<
    (Vec<Vec<Scalar>>, usize),
    SerdeError,
>)
    ensures
        match r {
            Ok((polys, next)) => parse_polynomial_vec_parallel(input@, at as int, format) == Ok::<
                (Seq<Seq<Seq<u8>>>, int),
                SerdeError,
            >((polys.deep_view(), next as int)),
            Err(e) => parse_polynomial_vec_parallel(input@, at as int, format) == Err::<
                (Seq<Seq<Seq<u8>>>, int),
                SerdeError,
            >(e),
        },
        format != SerdeFormat::RawBytesUnchecked && r.is_ok() ==> all_canonical(r.unwrap().0@),
{
    let count = match fetch_u32(input, at) {
        Err(e) => { return Err(e); },
        Ok(count) => count,
    };
    assert(at + 4 <= input.len());
    let (lens, start) = match decode_lens(input, at + 4, count) {
        Err(e) => { return Err(e); },
        Ok(found) => found,
    };
    proof {
        lemma_parse_lens_in_bounds(input@, at + 4, count as nat);
    }
    let (buffers, next) = match split_buffers(input, start, &lens) {
        Err(e) => { return Err(e); },
        Ok(found) => found,
    };
    let ghost cut = buffers_view(buffers@);
    proof {
        lemma_slice_buffers_shape(input@, start as int, lens@);
        assert forall|i: int|
            0 <= i < cut.len() && decode_buffer(#[trigger] cut[i], format) is Err implies decode_buffer(
            cut[i],
            format,
        ) == Err::<Seq<Seq<u8>>, SerdeError>(SerdeError::InvalidEncoding) by {
            lemma_decode_buffer_errors(cut[i], lens@[i], format);
        }
    }
    match decode_each(buffers, format) {
        Ok(polys) => {
            proof {
                let view = polys.deep_view();
                assert forall|i: int| 0 <= i < cut.len() implies decode_buffer(
                    #[trigger] cut[i],
                    format,
                ) == Ok::<Seq<Seq<u8>>, SerdeError>(view[i]) by {
                    assert(buffer_decodes_to(
                        buffers@[i]@,
                        format,
                        Ok::<Vec<Scalar>, SerdeError>(polys@[i]),
                    ));
                }
                lemma_decode_buffers_all_ok(cut, view, format);
                if format != SerdeFormat::RawBytesUnchecked {
                    assert forall|i: int, j: int|
                        0 <= i < polys@.len() && 0 <= j < polys@[i]@.len() implies (
                    #[trigger] polys@[i]@[j]).is_canonical() by {
                        assert(buffer_decodes_to(
                            buffers@[i]@,
                            format,
                            Ok::<Vec<Scalar>, SerdeError>(polys@[i]),
                        ));
                    }
                }
            }
            Ok((polys, next))
        },
        Err(e) => {
            proof {
                let k = choose|i: int|
                    0 <= i < buffers@.len() && buffer_decodes_to(
                        #[trigger] buffers@[i]@,
                        format,
                        Err::<Vec<Scalar>, SerdeError>(e),
                    );
                assert(cut[k] == buffers@[k]@);
                lemma_decode_buffers_some_err(cut, k, format);
            }
            Err(e)
        },
    }
}

/// Reads a list of sequences as `read_polynomial_vec` does, but cuts the
/// input into one buffer per sequence first and decodes the buffers
/// independently, possibly on several threads. The sequences come back in
/// their order in the input. A failed read leaves the reader where it was.
pub fn read_polynomial_vec_parallel(reader: &mut Reader, format: SerdeFormat) -> (r: Result<
    Vec<Vec<Scalar>>,
    SerdeError,
>)
    ensures
        final(reader).bytes() == old(reader).bytes(),
        match r {
            Ok(polys) => parse_polynomial_vec_parallel(
                old(reader).bytes(),
                old(reader).offset(),
                format,
            ) == Ok::<(Seq<Seq<Seq<u8>>>, int), SerdeError>(
                (polys.deep_view(), final(reader).offset()),
            ),
            Err(e) => parse_polynomial_vec_parallel(
                old(reader).bytes(),
                old(reader).offset(),
                format,
            ) == Err::<(Seq<Seq<Seq<u8>>>, int), SerdeError>(e) && final(reader).offset() == old(
                reader,
            ).offset(),
        },
        format != SerdeFormat::RawBytesUnchecked && r.is_ok() ==> all_canonical(r.unwrap()@),
{
    let at = reader.position();
    match decode_polynomial_vec_parallel(reader.input(), at, format) {
        Ok((polys, next)) => {
            proof {
                let input = reader.bytes();
                let count = parse_u32(input, at as int).unwrap();
                let lens = parse_lens(input, at + 4, count as nat).unwrap();
                lemma_parse_lens_in_bounds(input, at + 4, count as nat);
                lemma_slice_buffers_shape(input, at + 4 + 4 * count, lens);
            }
            reader.seek(next);
            Ok(polys)
        },
        Err(e) => Err(e),
    }
}

} // verus!
