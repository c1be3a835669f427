//! Coefficient sequences and lists of them as length-framed bytes.
//!
//! A sequence is written as its length, a big-endian `u32`, followed by its
//! scalars. A list of sequences is written as the number of sequences, then
//! the length of each sequence, then the sequences themselves, each with its
//! own length in front again. The lengths in the second block let a reader
//! cut the input into one buffer per sequence before it decodes any of them.

use vstd::prelude::*;
use crate::field::Scalar;
use crate::field::SerdePrimeField;
use crate::field::parse_scalar;
use crate::field::scalar_encoding;
use crate::field::scalar_round_trips;
use crate::format::SerdeError;
use crate::format::SerdeFormat;
use crate::framing_laws::lemma_cut_polynomial_is_truncated;
use crate::framing_laws::lemma_written_list_reads_back;
use crate::framing_proofs::lemma_vec_encoding_len;
use crate::framing_laws::lemma_parse_polynomial_of_encoding;
use crate::framing_proofs::lemma_bodies_len_grows;
use crate::framing_proofs::lemma_parse_bodies_error_stays;
use crate::framing_proofs::lemma_parse_lens_error_stays;
use crate::framing_proofs::lemma_parse_scalars_error_stays;
use crate::framing_proofs::lemma_parse_scalars_in_bounds;
use crate::framing_proofs::lemma_parse_vec_in_bounds;
use crate::framing_proofs::lemma_scalars_encoding_len;
use crate::parallel::parse_polynomial_vec_parallel;
use crate::reader::Reader;
use crate::reader::fetch_u32;
use crate::reader::parse_u32;
use crate::reader::put;
use crate::reader::u32_be_bytes;
use crate::reader::u32_to_be;

verus! {

/// What reading `n` scalars from offset `at` gives: the scalars in order,
/// or the error of the first one that cannot be read.
pub open spec fn parse_scalars(input: Seq<u8>, at: int, n: nat, format: SerdeFormat) -> Result<
    Seq<Seq<u8>>,
    SerdeError,
>
    decreases n,
{
    if n == 0 {
        Ok(Seq::empty())
    } else {
        match parse_scalars(input, at, (n - 1) as nat, format) {
            Err(e) => Err(e),
            Ok(front) => match parse_scalar(input, at + 32 * (n - 1), format) {
                Err(e) => Err(e),
                Ok(s) => Ok(front.push(s)),
            },
        }
    }
}

/// What reading one sequence from offset `at` gives: its scalars and the
/// offset behind it.
pub open spec fn parse_polynomial(input: Seq<u8>, at: int, format: SerdeFormat) -> Result<
    (Seq<Seq<u8>>, int),
    SerdeError,
> {
    match parse_u32(input, at) {
        Err(e) => Err(e),
        Ok(n) => match parse_scalars(input, at + 4, n as nat, format) {
            Err(e) => Err(e),
            Ok(coeffs) => Ok((coeffs, at + 4 + 32 * n)),
        },
    }
}

/// What reading one sequence from offset `at` gives when its length was
/// announced as `advertised`: a length that differs is `InvalidEncoding`,
/// found before any scalar is read.
pub open spec fn parse_framed(
    input: Seq<u8>,
    at: int,
    advertised: u32,
    format: SerdeFormat,
) -> Result<(Seq<Seq<u8>>, int), SerdeError> {
    match parse_u32(input, at) {
        Err(e) => Err(e),
        Ok(n) => if n != advertised {
            Err(SerdeError::InvalidEncoding)
        } else {
            match parse_scalars(input, at + 4, n as nat, format) {
                Err(e) => Err(e),
                Ok(coeffs) => Ok((coeffs, at + 4 + 32 * n)),
            }
        },
    }
}

/// What reading `count` lengths from offset `at` gives.
pub open spec fn parse_lens(input: Seq<u8>, at: int, count: nat) -> Result<Seq<u32>, SerdeError>
    decreases count,
{
    if count == 0 {
        Ok(Seq::empty())
    } else {
        match parse_lens(input, at, (count - 1) as nat) {
            Err(e) => Err(e),
            Ok(front) => match parse_u32(input, at + 4 * (count - 1)) {
                Err(e) => Err(e),
                Ok(n) => Ok(front.push(n)),
            },
        }
    }
}

/// What reading one sequence after the other from offset `at` gives, where
/// `lens` holds the announced length of each: the sequences in order and
/// the offset behind the last, or the first error met.
pub open spec fn parse_bodies(
    input: Seq<u8>,
    at: int,
    lens: Seq<u32>,
    format: SerdeFormat,
) -> Result<(Seq<Seq<Seq<u8>>>, int), SerdeError>
    decreases lens.len(),
{
    if lens.len() == 0 {
        Ok((Seq::empty(), at))
    } else {
        match parse_bodies(input, at, lens.drop_last(), format) {
            Err(e) => Err(e),
            Ok((front, mid)) => match parse_framed(input, mid, lens.last(), format) {
                Err(e) => Err(e),
                Ok((coeffs, next)) => Ok((front.push(coeffs), next)),
            },
        }
    }
}

/// What reading a list of sequences from offset `at` gives: the sequences
/// and the offset behind the list.
pub open spec fn parse_polynomial_vec(input: Seq<u8>, at: int, format: SerdeFormat) -> Result<
    (Seq<Seq<Seq<u8>>>, int),
    SerdeError,
> {
    match parse_u32(input, at) {
        Err(e) => Err(e),
        Ok(count) => match parse_lens(input, at + 4, count as nat) {
            Err(e) => Err(e),
            Ok(lens) => parse_bodies(input, at + 4 + 4 * count, lens, format),
        },
    }
}

/// The bytes of a run of scalars, one after the other.
pub open spec fn scalars_encoding(coeffs: Seq<Seq<u8>>, format: SerdeFormat) -> Seq<u8>
    decreases coeffs.len(),
{
    if coeffs.len() == 0 {
        Seq::empty()
    } else {
        scalars_encoding(coeffs.drop_last(), format) + scalar_encoding(coeffs.last(), format)
    }
}

/// The bytes of one sequence: its length, then its scalars.
pub open spec fn polynomial_encoding(coeffs: Seq<Seq<u8>>, format: SerdeFormat) -> Seq<u8> {
    u32_be_bytes(coeffs.len() as u32) + scalars_encoding(coeffs, format)
}

/// The announced lengths of a list of sequences.
pub open spec fn lens_of(polys: Seq<Seq<Seq<u8>>>) -> Seq<u32> {
    Seq::new(polys.len(), |i: int| polys[i].len() as u32)
}

/// The bytes of the block of announced lengths.
pub open spec fn lens_encoding(polys: Seq<Seq<Seq<u8>>>) -> Seq<u8>
    decreases polys.len(),
{
    if polys.len() == 0 {
        Seq::empty()
    } else {
        lens_encoding(polys.drop_last()) + u32_be_bytes(polys.last().len() as u32)
    }
}

/// The bytes of the sequences themselves, one after the other.
pub open spec fn bodies_encoding(polys: Seq<Seq<Seq<u8>>>, format: SerdeFormat) -> Seq<u8>
    decreases polys.len(),
{
    if polys.len() == 0 {
        Seq::empty()
    } else {
        bodies_encoding(polys.drop_last(), format) + polynomial_encoding(polys.last(), format)
    }
}

/// The bytes of a list of sequences: how many there are, the length of
/// each, then each sequence with its length in front.
pub open spec fn polynomial_vec_encoding(polys: Seq<Seq<Seq<u8>>>, format: SerdeFormat) -> Seq<u8> {
    u32_be_bytes(polys.len() as u32) + lens_encoding(polys) + bodies_encoding(polys, format)
}

/// The number of bytes that the sequences themselves take: for each, four
/// bytes and 32 for every scalar.
pub open spec fn bodies_len(polys: Seq<Seq<Seq<u8>>>) -> nat
    decreases polys.len(),
{
    if polys.len() == 0 {
        0
    } else {
        bodies_len(polys.drop_last()) + 4 + 32 * polys.last().len()
    }
}

/// The number of bytes that a list of sequences takes.
pub open spec fn polynomial_slice_len(polys: Seq<Seq<Seq<u8>>>) -> nat {
    4 + 4 * polys.len() + bodies_len(polys)
}

/// Whether each scalar of a run is written as 32 bytes.
pub open spec fn widths_hold(coeffs: Seq<Seq<u8>>, format: SerdeFormat) -> bool {
    forall|i: int|
        0 <= i < coeffs.len() ==> (#[trigger] scalar_encoding(coeffs[i], format)).len() == 32
}

/// Whether each scalar of a run decodes from its own bytes.
pub open spec fn coeffs_round_trip(coeffs: Seq<Seq<u8>>, format: SerdeFormat) -> bool {
    forall|i: int| 0 <= i < coeffs.len() ==> scalar_round_trips(#[trigger] coeffs[i], format)
}

/// Whether `input` holds `piece` at offset `at`.
pub open spec fn holds_at(input: Seq<u8>, at: int, piece: Seq<u8>) -> bool {
    0 <= at && at + piece.len() <= input.len() && input.subrange(at, at + piece.len()) == piece
}

/// Whether every scalar of every sequence decodes from its own bytes.
pub open spec fn polys_round_trip(polys: Seq<Seq<Seq<u8>>>, format: SerdeFormat) -> bool {
    forall|i: int| 0 <= i < polys.len() ==> coeffs_round_trip(#[trigger] polys[i], format)
}

/// Whether the list and each of its sequences is short enough for its
/// length to be written as a `u32`.
pub open spec fn lengths_fit(polys: Seq<Seq<Seq<u8>>>) -> bool {
    polys.len() <= u32::MAX && forall|i: int|
        0 <= i < polys.len() ==> (#[trigger] polys[i]).len() <= u32::MAX
}

/// Reads `n` scalars from offset `at` of `input`, and gives them with the
/// offset behind them.
pub fn decode_scalars(input: &[u8], at: usize, n: u32, format: SerdeFormat) -> (r: Result<
    (Vec<Scalar>, usize),
    SerdeError,
>)
    ensures
        match r {
            Ok((coeffs, next)) => parse_scalars(input@, at as int, n as nat, format) == Ok::<
                Seq<Seq<u8>>,
                SerdeError,
            >(coeffs.deep_view()) && next == at + 32 * n,
            Err(e) => parse_scalars(input@, at as int, n as nat, format) == Err::<
                Seq<Seq<u8>>,
                SerdeError,
            >(e),
        },
        format != SerdeFormat::RawBytesUnchecked && r.is_ok() ==> forall|i: int|
            0 <= i < r.unwrap().0@.len() ==> (#[trigger] r.unwrap().0@[i]).is_canonical(),
{
    let mut coeffs: Vec<Scalar> = Vec::new();
    let mut pos: usize = at;
    let mut i: u32 = 0;
    assert(coeffs.deep_view() =~= Seq::<Seq<u8>>::empty());
    while i < n
        invariant
            i <= n,
            pos == at + 32 * i,
            parse_scalars(input@, at as int, i as nat, format) == Ok::<Seq<Seq<u8>>, SerdeError>(
                coeffs.deep_view(),
            ),
            format != SerdeFormat::RawBytesUnchecked ==> forall|j: int|
                0 <= j < coeffs@.len() ==> (#[trigger] coeffs@[j]).is_canonical(),
        decreases n - i,
    {
        match Scalar::decode_at(input, pos, format) {
            Ok(s) => {
                let ghost before = coeffs.deep_view();
                coeffs.push(s);
                assert(coeffs.deep_view() =~= before.push(s@));
                assert(pos + 32 <= input.len());
                pos = pos + 32;
                i = i + 1;
            },
            Err(e) => {
                proof {
                    lemma_parse_scalars_error_stays(
                        input@,
                        at as int,
                        (i + 1) as nat,
                        n as nat,
                        format,
                    );
                }
                return Err(e);
            },
        }
    }
    Ok((coeffs, pos))
}

/// Reads one sequence, its length first, from offset `at` of `input`, and
/// gives it with the offset behind it.
pub fn decode_polynomial(input: &[u8], at: usize, format: SerdeFormat) -> (r: Result<
    (Vec<Scalar>, usize),
    SerdeError,
>)
    ensures
        match r {
            Ok((coeffs, next)) => parse_polynomial(input@, at as int, format) == Ok::<
                (Seq<Seq<u8>>, int),
                SerdeError,
            >((coeffs.deep_view(), next as int)),
            Err(e) => parse_polynomial(input@, at as int, format) == Err::<
                (Seq<Seq<u8>>, int),
                SerdeError,
            >(e),
        },
        format != SerdeFormat::RawBytesUnchecked && r.is_ok() ==> forall|i: int|
            0 <= i < r.unwrap().0@.len() ==> (#[trigger] r.unwrap().0@[i]).is_canonical(),
{
    match fetch_u32(input, at) {
        Err(e) => Err(e),
        Ok(n) => {
            assert(at + 4 <= input.len());
            decode_scalars(input, at + 4, n, format)
        },
    }
}

/// Reads one sequence whose length was announced as `advertised`.
pub fn decode_framed(input: &[u8], at: usize, advertised: u32, format: SerdeFormat) -> (r: Result<
    (Vec<Scalar>, usize),
    SerdeError,
>)
    ensures
        match r {
            Ok((coeffs, next)) => parse_framed(input@, at as int, advertised, format) == Ok::<
                (Seq<Seq<u8>>, int),
                SerdeError,
            >((coeffs.deep_view(), next as int)),
            Err(e) => parse_framed(input@, at as int, advertised, format) == Err::<
                (Seq<Seq<u8>>, int),
                SerdeError,
            >(e),
        },
        format != SerdeFormat::RawBytesUnchecked && r.is_ok() ==> forall|i: int|
            0 <= i < r.unwrap().0@.len() ==> (#[trigger] r.unwrap().0@[i]).is_canonical(),
{
    match fetch_u32(input, at) {
        Err(e) => Err(e),
        Ok(n) => {
            if n != advertised {
                return Err(SerdeError::InvalidEncoding);
            }
            assert(at + 4 <= input.len());
            decode_scalars(input, at + 4, n, format)
        },
    }
}

/// Reads `count` lengths from offset `at` of `input`, and gives them with
/// the offset behind them.
pub fn decode_lens(input: &[u8], at: usize, count: u32) -> (r: Result<(Vec<u32>, usize), SerdeError>)
    ensures
        match r {
            Ok((lens, next)) => parse_lens(input@, at as int, count as nat) == Ok::<
                Seq<u32>,
                SerdeError,
            >(lens@) && next == at + 4 * count,
            Err(e) => parse_lens(input@, at as int, count as nat) == Err::<Seq<u32>, SerdeError>(e),
        },
{
    let mut lens: Vec<u32> = Vec::new();
    let mut pos: usize = at;
    let mut i: u32 = 0;
    while i < count
        invariant
            i <= count,
            pos == at + 4 * i,
            parse_lens(input@, at as int, i as nat) == Ok::<Seq<u32>, SerdeError>(lens@),
        decreases count - i,
    {
        match fetch_u32(input, pos) {
            Ok(n) => {
                lens.push(n);
                assert(pos + 4 <= input.len());
                pos = pos + 4;
                i = i + 1;
            },
            Err(e) => {
                proof {
                    lemma_parse_lens_error_stays(input@, at as int, (i + 1) as nat, count as nat);
                }
                return Err(e);
            },
        }
    }
    Ok((lens, pos))
}

/// Whether every scalar of every sequence is in range.
pub open spec fn all_canonical(polys: Seq<Vec<Scalar>>) -> bool {
    forall|i: int, j: int|
        0 <= i < polys.len() && 0 <= j < polys[i]@.len() ==> (#[trigger] polys[i]@[j]).is_canonical()
}

/// Reads a list of sequences from offset `at` of `input`, one sequence after
/// the other, and gives them with the offset behind the list. A sequence
/// whose own length differs from the one announced for it is rejected.
pub fn decode_polynomial_vec(input: &[u8], at: usize, format: SerdeFormat) -> (r: Result<
    (Vec<Vec<Scalar>>, usize),
    SerdeError,
>)
    ensures
        match r {
            Ok((polys, next)) => parse_polynomial_vec(input@, at as int, format) == Ok::<
                (Seq<Seq<Seq<u8>>>, int),
                SerdeError,
            >((polys.deep_view(), next as int)),
            Err(e) => parse_polynomial_vec(input@, at as int, format) == Err::<
                (Seq<Seq<Seq<u8>>>, int),
                SerdeError,
            >(e),
        },
        format != SerdeFormat::RawBytesUnchecked && r.is_ok() ==> all_canonical(r.unwrap().0@),
{
    let count = match fetch_u32(input, at) {
        Err(e) => { return Err(e); },
        Ok(count) => count,
    };
    assert(at + 4 <= input.len());
    let (lens, start) = match decode_lens(input, at + 4, count) {
        Err(e) => { return Err(e); },
        Ok(found) => found,
    };
    let mut polys: Vec<Vec<Scalar>> = Vec::new();
    let mut pos: usize = start;
    let mut i: usize = 0;
    assert(polys.deep_view() =~= Seq::<Seq<Seq<u8>>>::empty());
    while i < lens.len()
        invariant
            i <= lens@.len(),
            parse_u32(input@, at as int) == Ok::<u32, SerdeError>(count),
            parse_lens(input@, at + 4, count as nat) == Ok::<Seq<u32>, SerdeError>(lens@),
            start == at + 4 + 4 * count,
            parse_bodies(input@, start as int, lens@.take(i as int), format) == Ok::<
                (Seq<Seq<Seq<u8>>>, int),
                SerdeError,
            >((polys.deep_view(), pos as int)),
            format != SerdeFormat::RawBytesUnchecked ==> all_canonical(polys@),
        decreases lens@.len() - i,
    {
        proof {
            let next = lens@.take(i + 1);
            assert(next.drop_last() =~= lens@.take(i as int));
            assert(next.last() == lens@[i as int]);
        }
        match decode_framed(input, pos, lens[i], format) {
            Ok((coeffs, next)) => {
                let ghost before = polys.deep_view();
                polys.push(coeffs);
                assert(polys.deep_view() =~= before.push(coeffs.deep_view()));
                pos = next;
                i = i + 1;
            },
            Err(e) => {
                proof {
                    lemma_parse_bodies_error_stays(input@, start as int, lens@, i + 1, format);
                }
                return Err(e);
            },
        }
    }
    proof {
        assert(lens@.take(i as int) =~= lens@);
    }
    Ok((polys, pos))
}

/// Whether every scalar of a sequence is in range.
pub open spec fn coeffs_canonical(coeffs: Seq<Scalar>) -> bool {
    forall|j: int| 0 <= j < coeffs.len() ==> (#[trigger] coeffs[j]).is_canonical()
}

/// Appends one sequence to `writer`: its length as a big-endian `u32`, then
/// its scalars under `format`. Where the scalars are in range, or the format
/// does not check, reading at the place where the writing began gives the
/// sequence back and ends where the writing ended.
pub fn write_polynomial(coeffs: &[Scalar], writer: &mut Vec<u8>, format: SerdeFormat)
    requires
        coeffs@.len() <= u32::MAX,
    ensures
        final(writer)@ == old(writer)@ + polynomial_encoding(coeffs.deep_view(), format),
        final(writer)@.len() == old(writer)@.len() + 4 + 32 * coeffs@.len(),
        widths_hold(coeffs.deep_view(), format),
        coeffs_canonical(coeffs@) || format == SerdeFormat::RawBytesUnchecked ==> coeffs_round_trip(
            coeffs.deep_view(),
            format,
        ) && parse_polynomial(final(writer)@, old(writer)@.len() as int, format) == Ok::<
            (Seq<Seq<u8>>, int),
            SerdeError,
        >((coeffs.deep_view(), final(writer)@.len() as int)) && parse_polynomial(
            final(writer)@.drop_last(),
            old(writer)@.len() as int,
            format,
        ) == Err::<(Seq<Seq<u8>>, int), SerdeError>(SerdeError::Truncated),
{
    let ghost start = writer@;
    let ghost view = coeffs.deep_view();
    let ghost head = u32_be_bytes(coeffs@.len() as u32);
    let n = coeffs.len();
    let len_bytes = u32_to_be(n as u32);
    put(writer, len_bytes.as_slice());
    let mut i: usize = 0;
    proof {
        assert(view.take(0) =~= Seq::<Seq<u8>>::empty());
        assert(writer@ =~= start + head + scalars_encoding(view.take(0), format));
    }
    while i < n
        invariant
            i <= n,
            n == coeffs@.len(),
            view == coeffs.deep_view(),
            head.len() == 4,
            writer@ == start + head + scalars_encoding(view.take(i as int), format),
            widths_hold(view.take(i as int), format),
            coeffs_canonical(coeffs@) || format == SerdeFormat::RawBytesUnchecked
                ==> coeffs_round_trip(view.take(i as int), format),
        decreases n - i,
    {
        let ghost done = view.take(i as int);
        let ghost next = view.take(i + 1);
        coeffs[i].write(writer, format);
        proof {
            assert(next.drop_last() =~= done);
            assert(next.last() == coeffs@[i as int]@);
            assert(writer@ =~= start + head + scalars_encoding(next, format));
            assert forall|j: int| 0 <= j < next.len() implies (#[trigger] scalar_encoding(
                next[j],
                format,
            )).len() == 32 by {
                if j < i {
                    assert(next[j] == done[j]);
                }
            }
            if coeffs_canonical(coeffs@) || format == SerdeFormat::RawBytesUnchecked {
                assert forall|j: int| 0 <= j < next.len() implies scalar_round_trips(
                    #[trigger] next[j],
                    format,
                ) by {
                    if j < i {
                        assert(next[j] == done[j]);
                    }
                }
            }
        }
        i = i + 1;
    }
    proof {
        assert(view.take(i as int) =~= view);
        assert(writer@ =~= start + polynomial_encoding(view, format));
        lemma_scalars_encoding_len(view, format);
        if coeffs_canonical(coeffs@) || format == SerdeFormat::RawBytesUnchecked {
            assert(writer@.subrange(start.len() as int, writer@.len() as int)
                =~= polynomial_encoding(view, format));
            lemma_parse_polynomial_of_encoding(writer@, start.len() as int, view, format);
            lemma_cut_polynomial_is_truncated(
                writer@,
                start.len() as int,
                format,
                writer@.len() - 1,
            );
        }
    }
}

/// Whether `input` holds the list `polys` from offset `at` to its end:
/// reading there gives the list and ends at the end of the input, whichever
/// way the list is read, and reading the input without its last byte gives
/// `Truncated`.
pub open spec fn reads_back(
    input: Seq<u8>,
    at: int,
    polys: Seq<Seq<Seq<u8>>>,
    format: SerdeFormat,
) -> bool {
    &&& parse_polynomial_vec(input, at, format) == Ok::<(Seq<Seq<Seq<u8>>>, int), SerdeError>(
        (polys, input.len() as int),
    )
    &&& parse_polynomial_vec_parallel(input, at, format) == Ok::<
        (Seq<Seq<Seq<u8>>>, int),
        SerdeError,
    >((polys, input.len() as int))
    &&& parse_polynomial_vec(input.drop_last(), at, format) == Err::<
        (Seq<Seq<Seq<u8>>>, int),
        SerdeError,
    >(SerdeError::Truncated)
    &&& parse_polynomial_vec_parallel(input.drop_last(), at, format) == Err::<
        (Seq<Seq<Seq<u8>>>, int),
        SerdeError,
    >(SerdeError::Truncated)
}

/// Whether every sequence of a list is written as the bytes that its length
/// announces.
pub open spec fn polys_widths_hold(polys: Seq<Seq<Seq<u8>>>, format: SerdeFormat) -> bool {
    forall|i: int| 0 <= i < polys.len() ==> widths_hold(#[trigger] polys[i], format)
}

/// Appends the length of each sequence of `slice`, a big-endian `u32` each.
pub fn write_lens(slice: &[Vec<Scalar>], writer: &mut Vec<u8>)
    requires
        lengths_fit(slice.deep_view()),
    ensures
        final(writer)@ == old(writer)@ + lens_encoding(slice.deep_view()),
{
    let ghost start = writer@;
    let ghost view = slice.deep_view();
    let count = slice.len();
    let mut i: usize = 0;
    proof {
        assert(view.take(0) =~= Seq::<Seq<Seq<u8>>>::empty());
        assert(writer@ =~= start + lens_encoding(view.take(0)));
    }
    while i < count
        invariant
            i <= count,
            count == slice@.len(),
            view == slice.deep_view(),
            lengths_fit(view),
            writer@ == start + lens_encoding(view.take(i as int)),
        decreases count - i,
    {
        let ghost next = view.take(i + 1);
        assert(view[i as int].len() == slice@[i as int]@.len());
        let len_bytes = u32_to_be(slice[i].len() as u32);
        put(writer, len_bytes.as_slice());
        proof {
            assert(next.drop_last() =~= view.take(i as int));
            assert(next.last() == view[i as int]);
            assert(writer@ =~= start + lens_encoding(next));
        }
        i = i + 1;
    }
    proof {
        assert(view.take(count as int) =~= view);
    }
}

/// Appends each sequence of `slice` with its length in front.
#[verifier::rlimit(50)]
pub fn write_bodies(slice: &[Vec<Scalar>], writer: &mut Vec<u8>, format: SerdeFormat)
    requires
        lengths_fit(slice.deep_view()),
    ensures
        final(writer)@ == old(writer)@ + bodies_encoding(slice.deep_view(), format),
        polys_widths_hold(slice.deep_view(), format),
        all_canonical(slice@) || format == SerdeFormat::RawBytesUnchecked ==> polys_round_trip(
            slice.deep_view(),
            format,
        ),
{
    let ghost start = writer@;
    let ghost view = slice.deep_view();
    let count = slice.len();
    let mut i: usize = 0;
    proof {
        assert(view.take(0) =~= Seq::<Seq<Seq<u8>>>::empty());
        assert(writer@ =~= start + bodies_encoding(view.take(0), format));
    }
    while i < count
        invariant
            i <= count,
            count == slice@.len(),
            view == slice.deep_view(),
            lengths_fit(view),
            writer@ == start + bodies_encoding(view.take(i as int), format),
            polys_widths_hold(view.take(i as int), format),
            all_canonical(slice@) || format == SerdeFormat::RawBytesUnchecked ==> polys_round_trip(
                view.take(i as int),
                format,
            ),
        decreases count - i,
    {
        let ghost done = view.take(i as int);
        let ghost next = view.take(i + 1);
        let body = slice[i].as_slice();
        proof {
            assert(view[i as int].len() == slice@[i as int]@.len());
            assert(body.deep_view() =~= view[i as int]);
            if all_canonical(slice@) {
                assert forall|j: int| 0 <= j < body@.len() implies (
                #[trigger] body@[j]).is_canonical() by {
                    assert(body@[j] == slice@[i as int]@[j]);
                }
            }
        }
        write_polynomial(body, writer, format);
        proof {
            assert(next.drop_last() =~= done);
            assert(next.last() == view[i as int]);
            assert(writer@ =~= start + bodies_encoding(next, format));
            assert forall|k: int| 0 <= k < next.len() implies widths_hold(
                #[trigger] next[k],
                format,
            ) by {
                if k < i {
                    assert(next[k] == done[k]);
                }
            }
            if all_canonical(slice@) || format == SerdeFormat::RawBytesUnchecked {
                assert forall|k: int| 0 <= k < next.len() implies coeffs_round_trip(
                    #[trigger] next[k],
                    format,
                ) by {
                    if k < i {
                        assert(next[k] == done[k]);
                    }
                }
            }
        }
        i = i + 1;
    }
    proof {
        assert(view.take(count as int) =~= view);
    }
}

/// Appends a list of sequences to `writer`: the number of sequences, the
/// length of each, then each sequence with its length in front, all
/// lengths as big-endian `u32`. It writes `polynomial_slice_len` bytes.
/// Where the scalars are in range, or the format does not check, reading
/// the list at the place where the writing began gives it back, whichever
/// way it is read, and ends where the writing ended; and reading what was
/// written without its last byte gives `Truncated`.
#[verifier::rlimit(50)]
pub fn write_polynomial_slice(slice: &[Vec<Scalar>], writer: &mut Vec<u8>, format: SerdeFormat)
    requires
        lengths_fit(slice.deep_view()),
    ensures
        final(writer)@ == old(writer)@ + polynomial_vec_encoding(slice.deep_view(), format),
        final(writer)@.len() == old(writer)@.len() + polynomial_slice_len(slice.deep_view()),
        all_canonical(slice@) || format == SerdeFormat::RawBytesUnchecked ==> reads_back(
            final(writer)@,
            old(writer)@.len() as int,
            slice.deep_view(),
            format,
        ),
{
    let ghost start = writer@;
    let ghost view = slice.deep_view();
    let count_bytes = u32_to_be(slice.len() as u32);
    put(writer, count_bytes.as_slice());
    write_lens(slice, writer);
    write_bodies(slice, writer, format);
    proof {
        assert(writer@ =~= start + polynomial_vec_encoding(view, format));
        lemma_vec_encoding_len(view, format);
        if all_canonical(slice@) || format == SerdeFormat::RawBytesUnchecked {
            lemma_written_list_reads_back(start, view, format);
        }
    }
}

/// The number of bytes that `write_polynomial_slice` writes for `slice`:
/// four for the count, four for each announced length, and for each
/// sequence four more and 32 for every scalar.
pub fn polynomial_slice_byte_length(slice: &[Vec<Scalar>], format: SerdeFormat) -> (n: usize)
    requires
        polynomial_slice_len(slice.deep_view()) <= usize::MAX,
    ensures
        n == polynomial_slice_len(slice.deep_view()),
{
    let ghost view = slice.deep_view();
    let field_len = Scalar::byte_length(format);
    let count = slice.len();
    let mut total: usize = 4 + 4 * count;
    let mut i: usize = 0;
    proof {
        assert(view.take(0) =~= Seq::<Seq<Seq<u8>>>::empty());
    }
    while i < count
        invariant
            i <= count,
            count == slice@.len(),
            view == slice.deep_view(),
            field_len == 32,
            polynomial_slice_len(view) <= usize::MAX,
            total == 4 + 4 * count + bodies_len(view.take(i as int)),
        decreases count - i,
    {
        proof {
            let next = view.take(i + 1);
            assert(next.drop_last() =~= view.take(i as int));
            assert(next.last() == view[i as int]);
            assert(view[i as int].len() == slice@[i as int]@.len());
            lemma_bodies_len_grows(view, i + 1);
        }
        total = total + (4 + field_len * slice[i].len());
        i = i + 1;
    }
    proof {
        assert(view.take(i as int) =~= view);
    }
    total
}

/// Reads one sequence, its length first, and moves the reader past it. A
/// failed read leaves the reader where it was.
pub fn read_polynomial(reader: &mut Reader, format: SerdeFormat) -> (r: Result<
    Vec<Scalar>,
    SerdeError,
>)
    ensures
        final(reader).bytes() == old(reader).bytes(),
        match r {
            Ok(coeffs) => parse_polynomial(old(reader).bytes(), old(reader).offset(), format)
                == Ok::<(Seq<Seq<u8>>, int), SerdeError>(
                (coeffs.deep_view(), final(reader).offset()),
            ),
            Err(e) => parse_polynomial(old(reader).bytes(), old(reader).offset(), format) == Err::<
                (Seq<Seq<u8>>, int),
                SerdeError,
            >(e) && final(reader).offset() == old(reader).offset(),
        },
        format != SerdeFormat::RawBytesUnchecked && r.is_ok() ==> coeffs_canonical(r.unwrap()@),
{
    let at = reader.position();
    match decode_polynomial(reader.input(), at, format) {
        Ok((coeffs, next)) => {
            proof {
                let n = parse_u32(reader.bytes(), at as int).unwrap();
                lemma_parse_scalars_in_bounds(reader.bytes(), at + 4, n as nat, format);
            }
            reader.seek(next);
            Ok(coeffs)
        },
        Err(e) => Err(e),
    }
}

/// Reads a list of sequences, one sequence after the other, and moves the
/// reader past the list. A sequence whose own length differs from the one
/// announced for it is rejected as `InvalidEncoding`. The first failure
/// ends the read, and a failed read leaves the reader where it was.
pub fn read_polynomial_vec(reader: &mut Reader, format: SerdeFormat) -> (r: Result<
    Vec<Vec<Scalar>>,
    SerdeError,
>)
    ensures
        final(reader).bytes() == old(reader).bytes(),
        match r {
            Ok(polys) => parse_polynomial_vec(old(reader).bytes(), old(reader).offset(), format)
                == Ok::<(Seq<Seq<Seq<u8>>>, int), SerdeError>(
                (polys.deep_view(), final(reader).offset()),
            ),
            Err(e) => parse_polynomial_vec(old(reader).bytes(), old(reader).offset(), format)
                == Err::<(Seq<Seq<Seq<u8>>>, int), SerdeError>(e) && final(reader).offset() == old(
                reader,
            ).offset(),
        },
        format != SerdeFormat::RawBytesUnchecked && r.is_ok() ==> all_canonical(r.unwrap()@),
{
    let at = reader.position();
    match decode_polynomial_vec(reader.input(), at, format) {
        Ok((polys, next)) => {
            proof {
                lemma_parse_vec_in_bounds(reader.bytes(), at as int, format);
            }
            reader.seek(next);
            Ok(polys)
        },
        Err(e) => Err(e),
    }
}

} // verus!
