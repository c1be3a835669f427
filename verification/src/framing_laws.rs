//! What holds of the framed format whatever the input: what was written
//! reads back, the two ways of reading a list agree, and an input that was
//! cut short is never read as something else.

use vstd::prelude::*;
use crate::field::parse_scalar;
use crate::field::scalar_encoding;
use crate::field::scalar_round_trips;
use crate::format::SerdeError;
use crate::format::SerdeFormat;
use crate::framing_proofs::lemma_bodies_vs_buffers;
use crate::framing_proofs::lemma_holds_at_split;
use crate::framing_proofs::lemma_parse_bodies_cut;
use crate::framing_proofs::lemma_parse_bodies_in_bounds;
use crate::framing_proofs::lemma_parse_bodies_of_encoding;
use crate::framing_proofs::lemma_parse_lens_cut;
use crate::framing_proofs::lemma_parse_lens_in_bounds;
use crate::framing_proofs::lemma_parse_lens_of_encoding;
use crate::framing_proofs::lemma_parse_scalars_cut;
use crate::framing_proofs::lemma_parse_u32_cut;
use crate::framing_proofs::lemma_scalars_encoding_len;
use crate::framing_proofs::lemma_slice_buffers_cut;
use crate::parallel::parse_polynomial_vec_parallel;
use crate::poly::bodies_encoding;
use crate::poly::coeffs_round_trip;
use crate::poly::holds_at;
use crate::poly::lengths_fit;
use crate::poly::lens_encoding;
use crate::poly::parse_framed;
use crate::poly::parse_lens;
use crate::poly::parse_polynomial;
use crate::poly::parse_polynomial_vec;
use crate::poly::parse_scalars;
use crate::poly::polynomial_encoding;
use crate::poly::polynomial_slice_len;
use crate::poly::polynomial_vec_encoding;
use crate::poly::polys_round_trip;
use crate::poly::reads_back;
use crate::poly::scalars_encoding;
use crate::reader::has_bytes;
use crate::reader::lemma_be_u32_round_trip;
use crate::reader::parse_u32;
use crate::reader::u32_be_bytes;

verus! {

/// Reading a run of scalars back from its own bytes gives the run.
pub proof fn lemma_parse_scalars_of_encoding(
    input: Seq<u8>,
    at: int,
    coeffs: Seq<Seq<u8>>,
    format: SerdeFormat,
)
    requires
        coeffs_round_trip(coeffs, format),
        holds_at(input, at, scalars_encoding(coeffs, format)),
    ensures
        parse_scalars(input, at, coeffs.len(), format) == Ok::<Seq<Seq<u8>>, SerdeError>(coeffs),
    decreases coeffs.len(),
{
    if coeffs.len() == 0 {
        assert(coeffs =~= Seq::<Seq<u8>>::empty());
    } else {
        let front = coeffs.drop_last();
        let last = coeffs.last();
        assert forall|i: int| 0 <= i < front.len() implies scalar_round_trips(
            #[trigger] front[i],
            format,
        ) by {
            assert(front[i] == coeffs[i]);
        }
        assert(scalar_round_trips(coeffs[coeffs.len() - 1], format));
        lemma_scalars_encoding_len(front, format);
        lemma_holds_at_split(
            input,
            at,
            scalars_encoding(front, format),
            scalar_encoding(last, format),
        );
        lemma_parse_scalars_of_encoding(input, at, front, format);
        assert(front.push(last) =~= coeffs);
    }
}

/// Reading a sequence back from its own bytes gives the sequence, whether
/// or not its length was announced.
pub proof fn lemma_parse_polynomial_of_encoding(
    input: Seq<u8>,
    at: int,
    coeffs: Seq<Seq<u8>>,
    format: SerdeFormat,
)
    requires
        coeffs.len() <= u32::MAX,
        coeffs_round_trip(coeffs, format),
        holds_at(input, at, polynomial_encoding(coeffs, format)),
    ensures
        parse_polynomial(input, at, format) == Ok::<(Seq<Seq<u8>>, int), SerdeError>(
            (coeffs, at + 4 + 32 * coeffs.len()),
        ),
        parse_framed(input, at, coeffs.len() as u32, format) == parse_polynomial(
            input,
            at,
            format,
        ),
        polynomial_encoding(coeffs, format).len() == 4 + 32 * coeffs.len(),
{
    let n = coeffs.len() as u32;
    lemma_be_u32_round_trip(n);
    lemma_holds_at_split(input, at, u32_be_bytes(n), scalars_encoding(coeffs, format));
    lemma_scalars_encoding_len(coeffs, format);
    lemma_parse_scalars_of_encoding(input, at + 4, coeffs, format);
}

/// Reading a list of sequences back from its own bytes gives the list, and
/// ends where those bytes end.
pub proof fn lemma_parse_vec_of_encoding(
    input: Seq<u8>,
    at: int,
    polys: Seq<Seq<Seq<u8>>>,
    format: SerdeFormat,
)
    requires
        lengths_fit(polys),
        polys_round_trip(polys, format),
        holds_at(input, at, polynomial_vec_encoding(polys, format)),
    ensures
        parse_polynomial_vec(input, at, format) == Ok::<(Seq<Seq<Seq<u8>>>, int), SerdeError>(
            (polys, at + polynomial_slice_len(polys)),
        ),
        polynomial_vec_encoding(polys, format).len() == polynomial_slice_len(polys),
{
    let count = polys.len() as u32;
    let head = u32_be_bytes(count);
    lemma_be_u32_round_trip(count);
    lemma_holds_at_split(input, at, head + lens_encoding(polys), bodies_encoding(polys, format));
    lemma_holds_at_split(input, at, head, lens_encoding(polys));
    lemma_parse_lens_of_encoding(input, at + 4, polys);
    lemma_parse_bodies_of_encoding(input, at + 4 + 4 * polys.len(), polys, format);
}

/// Reading scalars depends on nothing but the bytes they are read from:
/// two inputs that hold the same bytes at two places give the same scalars.
pub proof fn lemma_parse_scalars_local(
    a: Seq<u8>,
    at_a: int,
    b: Seq<u8>,
    at_b: int,
    n: nat,
    format: SerdeFormat,
)
    requires
        has_bytes(a, at_a, 32 * (n as int)),
        has_bytes(b, at_b, 32 * (n as int)),
        a.subrange(at_a, at_a + 32 * n) == b.subrange(at_b, at_b + 32 * n),
    ensures
        parse_scalars(a, at_a, n, format) == parse_scalars(b, at_b, n, format),
    decreases n,
{
    if n > 0 {
        let wa = a.subrange(at_a, at_a + 32 * n);
        let wb = b.subrange(at_b, at_b + 32 * n);
        let m = 32 * (n - 1);
        assert(a.subrange(at_a, at_a + m) =~= wa.subrange(0, m));
        assert(b.subrange(at_b, at_b + m) =~= wb.subrange(0, m));
        lemma_parse_scalars_local(a, at_a, b, at_b, (n - 1) as nat, format);
        assert(a.subrange(at_a + m, at_a + m + 32) =~= wa.subrange(m, m + 32));
        assert(b.subrange(at_b + m, at_b + m + 32) =~= wb.subrange(m, m + 32));
    }
}

/// Reading a list buffer by buffer and reading it one sequence after the
/// other succeed on the same inputs, and then give the same sequences in
/// the same order and end at the same offset.
pub proof fn lemma_parallel_agrees_with_sequential(input: Seq<u8>, at: int, format: SerdeFormat)
    ensures
        parse_polynomial_vec(input, at, format) is Ok <==> parse_polynomial_vec_parallel(
            input,
            at,
            format,
        ) is Ok,
        parse_polynomial_vec(input, at, format) is Ok ==> parse_polynomial_vec_parallel(
            input,
            at,
            format,
        ) == parse_polynomial_vec(input, at, format),
{
    if parse_u32(input, at) is Ok {
        let count = parse_u32(input, at).unwrap();
        if parse_lens(input, at + 4, count as nat) is Ok {
            let lens = parse_lens(input, at + 4, count as nat).unwrap();
            lemma_parse_lens_in_bounds(input, at + 4, count as nat);
            lemma_bodies_vs_buffers(input, at + 4 + 4 * count, lens, format);
        }
    }
}

/// A scalar is never read from fewer bytes than it takes: an input that
/// ends inside it gives `Truncated`.
pub proof fn lemma_cut_scalar_is_truncated(input: Seq<u8>, at: int, format: SerdeFormat, cut: int)
    requires
        0 <= at <= cut <= input.len(),
        cut < at + 32,
    ensures
        parse_scalar(input.take(cut), at, format) == Err::<Seq<u8>, SerdeError>(
            SerdeError::Truncated,
        ),
{
}

/// A sequence that reads well is not read from an input that ends inside
/// it: cutting the input anywhere before the end of the sequence gives
/// `Truncated`.
pub proof fn lemma_cut_polynomial_is_truncated(
    input: Seq<u8>,
    at: int,
    format: SerdeFormat,
    cut: int,
)
    requires
        parse_polynomial(input, at, format) is Ok,
        0 <= at <= cut <= input.len(),
        cut < parse_polynomial(input, at, format).unwrap().1,
    ensures
        parse_polynomial(input.take(cut), at, format) == Err::<(Seq<Seq<u8>>, int), SerdeError>(
            SerdeError::Truncated,
        ),
{
    let n = parse_u32(input, at).unwrap();
    lemma_parse_u32_cut(input, at, cut);
    lemma_parse_scalars_cut(input, at + 4, n as nat, format, cut);
}

/// A list that reads well is not read from an input that ends inside it:
/// cutting the input anywhere before the end of the list gives `Truncated`,
/// whichever way the list is read.
pub proof fn lemma_cut_vec_is_truncated(input: Seq<u8>, at: int, format: SerdeFormat, cut: int)
    requires
        parse_polynomial_vec(input, at, format) is Ok,
        0 <= at <= cut <= input.len(),
        cut < parse_polynomial_vec(input, at, format).unwrap().1,
    ensures
        parse_polynomial_vec(input.take(cut), at, format) == Err::<
            (Seq<Seq<Seq<u8>>>, int),
            SerdeError,
        >(SerdeError::Truncated),
        parse_polynomial_vec_parallel(input.take(cut), at, format) == Err::<
            (Seq<Seq<Seq<u8>>>, int),
            SerdeError,
        >(SerdeError::Truncated),
{
    let count = parse_u32(input, at).unwrap();
    let lens = parse_lens(input, at + 4, count as nat).unwrap();
    let start = at + 4 + 4 * count;
    lemma_parse_u32_cut(input, at, cut);
    lemma_parse_lens_cut(input, at + 4, count as nat, cut);
    lemma_parse_lens_in_bounds(input, at + 4, count as nat);
    lemma_parse_bodies_in_bounds(input, start, lens, format);
    if start <= cut {
        lemma_parse_bodies_cut(input, start, lens, format, cut);
        lemma_bodies_vs_buffers(input, start, lens, format);
        lemma_slice_buffers_cut(input, start, lens, cut);
    }
}

/// What was written reads back: behind any bytes, the bytes of a list read
/// as the list, whichever way it is read, and without their last byte as
/// `Truncated`, provided each scalar decodes from its own bytes.
pub proof fn lemma_written_list_reads_back(
    prefix: Seq<u8>,
    polys: Seq<Seq<Seq<u8>>>,
    format: SerdeFormat,
)
    requires
        lengths_fit(polys),
        polys_round_trip(polys, format),
    ensures
        reads_back(
            prefix + polynomial_vec_encoding(polys, format),
            prefix.len() as int,
            polys,
            format,
        ),
{
    let piece = polynomial_vec_encoding(polys, format);
    let input = prefix + piece;
    let at = prefix.len() as int;
    assert(input.subrange(at, at + piece.len()) =~= piece);
    lemma_parse_vec_of_encoding(input, at, polys, format);
    lemma_parallel_agrees_with_sequential(input, at, format);
    lemma_cut_vec_is_truncated(input, at, format, input.len() - 1);
    assert(input.drop_last() =~= input.take(input.len() - 1));
}

} // verus!
