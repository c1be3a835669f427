//! Lemmas about the framed format that the codec and its laws rest on.

use vstd::prelude::*;
use crate::field::scalar_encoding;
use crate::format::SerdeError;
use crate::format::SerdeFormat;
use crate::framing_laws::lemma_parse_polynomial_of_encoding;
use crate::framing_laws::lemma_parse_scalars_local;
use crate::parallel::decode_buffer;
use crate::parallel::decode_buffers;
use crate::parallel::slice_buffers;
use crate::poly::bodies_encoding;
use crate::poly::bodies_len;
use crate::poly::coeffs_round_trip;
use crate::poly::holds_at;
use crate::poly::lengths_fit;
use crate::poly::lens_encoding;
use crate::poly::lens_of;
use crate::poly::parse_bodies;
use crate::poly::parse_framed;
use crate::poly::parse_lens;
use crate::poly::parse_polynomial_vec;
use crate::poly::parse_scalars;
use crate::poly::polynomial_encoding;
use crate::poly::polynomial_slice_len;
use crate::poly::polynomial_vec_encoding;
use crate::poly::polys_round_trip;
use crate::poly::polys_widths_hold;
use crate::poly::scalars_encoding;
use crate::poly::widths_hold;
use crate::reader::has_bytes;
use crate::reader::lemma_be_u32_round_trip;
use crate::reader::parse_u32;
use crate::reader::u32_be_bytes;

verus! {

/// An input that holds two pieces joined holds the first, and the second behind it.
pub(crate) proof fn lemma_holds_at_split(input: Seq<u8>, at: int, a: Seq<u8>, b: Seq<u8>)
    requires
        holds_at(input, at, a + b),
    ensures
        holds_at(input, at, a),
        holds_at(input, at + a.len(), b),
{
    let w = input.subrange(at, at + (a + b).len());
    assert(input.subrange(at, at + a.len()) =~= w.subrange(0, a.len() as int));
    assert(w.subrange(0, a.len() as int) =~= a);
    assert(input.subrange(at + a.len(), at + a.len() + b.len()) =~= w.subrange(
        a.len() as int,
        (a + b).len() as int,
    ));
    assert(w.subrange(a.len() as int, (a + b).len() as int) =~= b);
}

/// A run of scalars that are each written as 32 bytes takes 32 bytes a scalar.
pub(crate) proof fn lemma_scalars_encoding_len(coeffs: Seq<Seq<u8>>, format: SerdeFormat)
    requires
        widths_hold(coeffs, format),
    ensures
        scalars_encoding(coeffs, format).len() == 32 * coeffs.len(),
    decreases coeffs.len(),
{
    if coeffs.len() > 0 {
        let front = coeffs.drop_last();
        assert forall|i: int| 0 <= i < front.len() implies (#[trigger] scalar_encoding(
            front[i],
            format,
        )).len() == 32 by {
            assert(front[i] == coeffs[i]);
        }
        lemma_scalars_encoding_len(front, format);
        assert(scalar_encoding(coeffs[coeffs.len() - 1], format).len() == 32);
    }
}

/// Reading the announced lengths back from their own bytes gives them.
pub(crate) proof fn lemma_parse_lens_of_encoding(input: Seq<u8>, at: int, polys: Seq<Seq<Seq<u8>>>)
    requires
        forall|i: int| 0 <= i < polys.len() ==> (#[trigger] polys[i]).len() <= u32::MAX,
        holds_at(input, at, lens_encoding(polys)),
    ensures
        parse_lens(input, at, polys.len()) == Ok::<Seq<u32>, SerdeError>(lens_of(polys)),
        lens_encoding(polys).len() == 4 * polys.len(),
    decreases polys.len(),
{
    if polys.len() == 0 {
        assert(lens_of(polys) =~= Seq::<u32>::empty());
    } else {
        let front = polys.drop_last();
        let n = polys.last().len() as u32;
        assert forall|i: int| 0 <= i < front.len() implies (#[trigger] front[i]).len()
            <= u32::MAX by {
            assert(front[i] == polys[i]);
        }
        lemma_be_u32_round_trip(n);
        lemma_holds_at_split(input, at, lens_encoding(front), u32_be_bytes(n));
        lemma_parse_lens_of_encoding(input, at, front);
        assert(lens_of(front).push(n) =~= lens_of(polys));
    }
}

/// Reading the sequences back from their own bytes gives them.
pub(crate) proof fn lemma_parse_bodies_of_encoding(
    input: Seq<u8>,
    at: int,
    polys: Seq<Seq<Seq<u8>>>,
    format: SerdeFormat,
)
    requires
        lengths_fit(polys),
        polys_round_trip(polys, format),
        holds_at(input, at, bodies_encoding(polys, format)),
    ensures
        parse_bodies(input, at, lens_of(polys), format) == Ok::<
            (Seq<Seq<Seq<u8>>>, int),
            SerdeError,
        >((polys, at + bodies_len(polys))),
        bodies_encoding(polys, format).len() == bodies_len(polys),
    decreases polys.len(),
{
    if polys.len() == 0 {
        assert(polys =~= Seq::<Seq<Seq<u8>>>::empty());
    } else {
        let front = polys.drop_last();
        let last = polys.last();
        assert forall|i: int| 0 <= i < front.len() implies (#[trigger] front[i]).len() <= u32::MAX
            && coeffs_round_trip(front[i], format) by {
            assert(front[i] == polys[i]);
        }
        assert(coeffs_round_trip(polys[polys.len() - 1], format));
        lemma_holds_at_split(
            input,
            at,
            bodies_encoding(front, format),
            polynomial_encoding(last, format),
        );
        lemma_parse_bodies_of_encoding(input, at, front, format);
        lemma_parse_polynomial_of_encoding(input, at + bodies_len(front), last, format);
        assert(lens_of(polys).drop_last() =~= lens_of(front));
        assert(front.push(last) =~= polys);
    }
}

/// Scalars that were read lay inside the input.
pub(crate) proof fn lemma_parse_scalars_in_bounds(input: Seq<u8>, at: int, n: nat, format: SerdeFormat)
    requires
        parse_scalars(input, at, n, format) is Ok,
        0 <= at <= input.len(),
    ensures
        at + 32 * n <= input.len(),
        parse_scalars(input, at, n, format).unwrap().len() == n,
    decreases n,
{
    if n > 0 {
        lemma_parse_scalars_in_bounds(input, at, (n - 1) as nat, format);
    }
}

/// Sequences that were read lay inside the input, and there are as many as
/// lengths were announced.
pub(crate) proof fn lemma_parse_bodies_in_bounds(
    input: Seq<u8>,
    at: int,
    lens: Seq<u32>,
    format: SerdeFormat,
)
    requires
        parse_bodies(input, at, lens, format) is Ok,
        0 <= at <= input.len(),
    ensures
        at <= parse_bodies(input, at, lens, format).unwrap().1 <= input.len(),
        parse_bodies(input, at, lens, format).unwrap().0.len() == lens.len(),
    decreases lens.len(),
{
    if lens.len() > 0 {
        lemma_parse_bodies_in_bounds(input, at, lens.drop_last(), format);
        let mid = parse_bodies(input, at, lens.drop_last(), format).unwrap().1;
        lemma_parse_scalars_in_bounds(input, mid + 4, lens.last() as nat, format);
    }
}

/// A list that was read lay inside the input.
pub(crate) proof fn lemma_parse_vec_in_bounds(input: Seq<u8>, at: int, format: SerdeFormat)
    requires
        parse_polynomial_vec(input, at, format) is Ok,
    ensures
        at <= parse_polynomial_vec(input, at, format).unwrap().1 <= input.len(),
{
    let count = parse_u32(input, at).unwrap();
    let lens = parse_lens(input, at + 4, count as nat).unwrap();
    lemma_parse_lens_in_bounds(input, at + 4, count as nat);
    lemma_parse_bodies_in_bounds(input, at + 4 + 4 * count, lens, format);
}

/// Lengths that were read lay inside the input.
pub(crate) proof fn lemma_parse_lens_in_bounds(input: Seq<u8>, at: int, count: nat)
    requires
        parse_lens(input, at, count) is Ok,
        0 <= at <= input.len(),
    ensures
        at + 4 * count <= input.len(),
        parse_lens(input, at, count).unwrap().len() == count,
    decreases count,
{
    if count > 0 {
        lemma_parse_lens_in_bounds(input, at, (count - 1) as nat);
    }
}

/// Once reading the first `k` scalars has failed, reading more fails the same way.
pub(crate) proof fn lemma_parse_scalars_error_stays(
    input: Seq<u8>,
    at: int,
    k: nat,
    n: nat,
    format: SerdeFormat,
)
    requires
        k <= n,
        parse_scalars(input, at, k, format) is Err,
    ensures
        parse_scalars(input, at, n, format) == parse_scalars(input, at, k, format),
    decreases n,
{
    if k < n {
        lemma_parse_scalars_error_stays(input, at, k, (n - 1) as nat, format);
    }
}

/// Once reading the first `k` lengths has failed, reading more fails the same way.
pub(crate) proof fn lemma_parse_lens_error_stays(input: Seq<u8>, at: int, k: nat, n: nat)
    requires
        k <= n,
        parse_lens(input, at, k) is Err,
    ensures
        parse_lens(input, at, n) == parse_lens(input, at, k),
    decreases n,
{
    if k < n {
        lemma_parse_lens_error_stays(input, at, k, (n - 1) as nat);
    }
}

/// Once reading the sequences of a prefix of `lens` has failed, reading
/// those of all of `lens` fails the same way.
pub(crate) proof fn lemma_parse_bodies_error_stays(
    input: Seq<u8>,
    at: int,
    lens: Seq<u32>,
    k: int,
    format: SerdeFormat,
)
    requires
        0 <= k <= lens.len(),
        parse_bodies(input, at, lens.take(k), format) is Err,
    ensures
        parse_bodies(input, at, lens, format) == parse_bodies(input, at, lens.take(k), format),
    decreases lens.len(),
{
    if k < lens.len() {
        assert(lens.drop_last().take(k) =~= lens.take(k));
        lemma_parse_bodies_error_stays(input, at, lens.drop_last(), k, format);
    } else {
        assert(lens.take(k) =~= lens);
    }
}

/// The sequences take the bytes that `bodies_len` counts.
pub(crate) proof fn lemma_bodies_encoding_len(polys: Seq<Seq<Seq<u8>>>, format: SerdeFormat)
    requires
        polys_widths_hold(polys, format),
    ensures
        bodies_encoding(polys, format).len() == bodies_len(polys),
    decreases polys.len(),
{
    if polys.len() > 0 {
        let front = polys.drop_last();
        assert forall|i: int| 0 <= i < front.len() implies widths_hold(
            #[trigger] front[i],
            format,
        ) by {
            assert(front[i] == polys[i]);
        }
        assert(widths_hold(polys[polys.len() - 1], format));
        lemma_bodies_encoding_len(front, format);
        lemma_scalars_encoding_len(polys.last(), format);
    }
}

/// The block of announced lengths takes four bytes a sequence.
pub(crate) proof fn lemma_lens_encoding_len(polys: Seq<Seq<Seq<u8>>>)
    ensures
        lens_encoding(polys).len() == 4 * polys.len(),
    decreases polys.len(),
{
    if polys.len() > 0 {
        lemma_lens_encoding_len(polys.drop_last());
    }
}

/// A list is written as the bytes that `polynomial_slice_len` counts.
pub(crate) proof fn lemma_vec_encoding_len(polys: Seq<Seq<Seq<u8>>>, format: SerdeFormat)
    requires
        polys_widths_hold(polys, format),
    ensures
        polynomial_vec_encoding(polys, format).len() == polynomial_slice_len(polys),
{
    lemma_lens_encoding_len(polys);
    lemma_bodies_encoding_len(polys, format);
}

/// The sequences of a prefix of a list take no more bytes than those of the list.
pub(crate) proof fn lemma_bodies_len_grows(polys: Seq<Seq<Seq<u8>>>, k: int)
    requires
        0 <= k <= polys.len(),
    ensures
        bodies_len(polys.take(k)) <= bodies_len(polys),
    decreases polys.len(),
{
    if k < polys.len() {
        assert(polys.drop_last().take(k) =~= polys.take(k));
        lemma_bodies_len_grows(polys.drop_last(), k);
    } else {
        assert(polys.take(k) =~= polys);
    }
}

/// Once cutting buffers for a prefix of `lens` has failed, cutting them
/// for all of `lens` fails the same way.
pub(crate) proof fn lemma_slice_buffers_error_stays(input: Seq<u8>, at: int, lens: Seq<u32>, k: int)
    requires
        0 <= k <= lens.len(),
        slice_buffers(input, at, lens.take(k)) is Err,
    ensures
        slice_buffers(input, at, lens) == slice_buffers(input, at, lens.take(k)),
    decreases lens.len(),
{
    if k < lens.len() {
        assert(lens.drop_last().take(k) =~= lens.take(k));
        lemma_slice_buffers_error_stays(input, at, lens.drop_last(), k);
    } else {
        assert(lens.take(k) =~= lens);
    }
}

/// The buffers that were cut are as many as the announced lengths, and
/// each has the size that its length asks for.
pub(crate) proof fn lemma_slice_buffers_shape(input: Seq<u8>, at: int, lens: Seq<u32>)
    requires
        slice_buffers(input, at, lens) is Ok,
        0 <= at <= input.len(),
    ensures
        slice_buffers(input, at, lens).unwrap().0.len() == lens.len(),
        forall|i: int|
            0 <= i < lens.len() ==> (#[trigger] slice_buffers(input, at, lens).unwrap().0[i]).len()
                == 4 + 32 * lens[i],
        at <= slice_buffers(input, at, lens).unwrap().1 <= input.len(),
    decreases lens.len(),
{
    if lens.len() > 0 {
        lemma_slice_buffers_shape(input, at, lens.drop_last());
    }
}

/// Scalars that all lie inside the input are never reported as truncated.
pub(crate) proof fn lemma_parse_scalars_never_truncated(
    input: Seq<u8>,
    at: int,
    n: nat,
    format: SerdeFormat,
)
    requires
        has_bytes(input, at, 32 * (n as int)),
    ensures
        parse_scalars(input, at, n, format) is Err ==> parse_scalars(input, at, n, format)
            == Err::<Seq<Seq<u8>>, SerdeError>(SerdeError::InvalidEncoding),
    decreases n,
{
    if n > 0 {
        lemma_parse_scalars_never_truncated(input, at, (n - 1) as nat, format);
    }
}

/// A buffer of the size that some length asks for decodes, or fails as
/// `InvalidEncoding`.
pub(crate) proof fn lemma_decode_buffer_errors(buffer: Seq<u8>, advertised: u32, format: SerdeFormat)
    requires
        buffer.len() == 4 + 32 * advertised,
    ensures
        decode_buffer(buffer, format) is Err ==> decode_buffer(buffer, format) == Err::<
            Seq<Seq<u8>>,
            SerdeError,
        >(SerdeError::InvalidEncoding),
{
    let n = parse_u32(buffer, 0).unwrap();
    if 4 + 32 * n == buffer.len() {
        lemma_parse_scalars_never_truncated(buffer, 4, n as nat, format);
    }
}

/// Where every buffer decodes, decoding them all gives the sequences in order.
pub(crate) proof fn lemma_decode_buffers_all_ok(
    buffers: Seq<Seq<u8>>,
    polys: Seq<Seq<Seq<u8>>>,
    format: SerdeFormat,
)
    requires
        polys.len() == buffers.len(),
        forall|i: int|
            0 <= i < buffers.len() ==> decode_buffer(#[trigger] buffers[i], format) == Ok::<
                Seq<Seq<u8>>,
                SerdeError,
            >(polys[i]),
    ensures
        decode_buffers(buffers, format) == Ok::<Seq<Seq<Seq<u8>>>, SerdeError>(polys),
    decreases buffers.len(),
{
    if buffers.len() == 0 {
        assert(polys =~= Seq::<Seq<Seq<u8>>>::empty());
    } else {
        let front = buffers.drop_last();
        assert forall|i: int| 0 <= i < front.len() implies decode_buffer(
            #[trigger] front[i],
            format,
        ) == Ok::<Seq<Seq<u8>>, SerdeError>(polys.drop_last()[i]) by {
            assert(front[i] == buffers[i]);
        }
        lemma_decode_buffers_all_ok(front, polys.drop_last(), format);
        assert(decode_buffer(buffers[buffers.len() - 1], format) == Ok::<Seq<Seq<u8>>, SerdeError>(
            polys.last(),
        ));
        assert(polys.drop_last().push(polys.last()) =~= polys);
    }
}

/// Where one buffer fails, and no buffer fails otherwise than as
/// `InvalidEncoding`, decoding them all fails as `InvalidEncoding`.
pub(crate) proof fn lemma_decode_buffers_some_err(buffers: Seq<Seq<u8>>, k: int, format: SerdeFormat)
    requires
        0 <= k < buffers.len(),
        decode_buffer(buffers[k], format) is Err,
        forall|i: int|
            0 <= i < buffers.len() && decode_buffer(#[trigger] buffers[i], format) is Err
                ==> decode_buffer(buffers[i], format) == Err::<Seq<Seq<u8>>, SerdeError>(
                SerdeError::InvalidEncoding,
            ),
    ensures
        decode_buffers(buffers, format) == Err::<Seq<Seq<Seq<u8>>>, SerdeError>(
            SerdeError::InvalidEncoding,
        ),
    decreases buffers.len(),
{
    let front = buffers.drop_last();
    if k < buffers.len() - 1 {
        assert(front[k] == buffers[k]);
        assert forall|i: int|
            0 <= i < front.len() && decode_buffer(#[trigger] front[i], format) is Err implies decode_buffer(
            front[i],
            format,
        ) == Err::<Seq<Seq<u8>>, SerdeError>(SerdeError::InvalidEncoding) by {
            assert(front[i] == buffers[i]);
        }
        lemma_decode_buffers_some_err(front, k, format);
    } else {
        lemma_decode_buffers_first_error(front, format);
    }
}

/// Where no buffer fails otherwise than as `InvalidEncoding`, decoding
/// them all does not either.
pub(crate) proof fn lemma_decode_buffers_first_error(buffers: Seq<Seq<u8>>, format: SerdeFormat)
    requires
        forall|i: int|
            0 <= i < buffers.len() && decode_buffer(#[trigger] buffers[i], format) is Err
                ==> decode_buffer(buffers[i], format) == Err::<Seq<Seq<u8>>, SerdeError>(
                SerdeError::InvalidEncoding,
            ),
    ensures
        decode_buffers(buffers, format) is Err ==> decode_buffers(buffers, format) == Err::<
            Seq<Seq<Seq<u8>>>,
            SerdeError,
        >(SerdeError::InvalidEncoding),
    decreases buffers.len(),
{
    if buffers.len() > 0 {
        let front = buffers.drop_last();
        assert forall|i: int|
            0 <= i < front.len() && decode_buffer(#[trigger] front[i], format) is Err implies decode_buffer(
            front[i],
            format,
        ) == Err::<Seq<Seq<u8>>, SerdeError>(SerdeError::InvalidEncoding) by {
            assert(front[i] == buffers[i]);
        }
        lemma_decode_buffers_first_error(front, format);
        assert(buffers.last() == buffers[buffers.len() - 1]);
    }
}

/// A sequence read in place and the same sequence decoded from its buffer
/// are the same, and one fails where the other does.
pub(crate) proof fn lemma_framed_vs_buffer(input: Seq<u8>, mid: int, advertised: u32, format: SerdeFormat)
    requires
        has_bytes(input, mid, 4 + 32 * advertised),
    ensures
        match parse_framed(input, mid, advertised, format) {
            Ok((coeffs, next)) => decode_buffer(
                input.subrange(mid, mid + 4 + 32 * advertised),
                format,
            ) == Ok::<Seq<Seq<u8>>, SerdeError>(coeffs) && next == mid + 4 + 32 * advertised,
            Err(_) => decode_buffer(input.subrange(mid, mid + 4 + 32 * advertised), format) is Err,
        },
{
    let buffer = input.subrange(mid, mid + 4 + 32 * advertised);
    assert(buffer.subrange(0, 4) =~= input.subrange(mid, mid + 4));
    let n = parse_u32(input, mid).unwrap();
    if n == advertised {
        assert(buffer.subrange(4, 4 + 32 * n) =~= input.subrange(mid + 4, mid + 4 + 32 * n));
        lemma_parse_scalars_local(buffer, 4, input, mid + 4, n as nat, format);
    }
}

/// A sequence that was read in place lay inside the input.
pub(crate) proof fn lemma_framed_in_bounds(input: Seq<u8>, mid: int, advertised: u32, format: SerdeFormat)
    requires
        parse_framed(input, mid, advertised, format) is Ok,
    ensures
        has_bytes(input, mid, 4 + 32 * advertised),
{
    lemma_parse_scalars_in_bounds(input, mid + 4, advertised as nat, format);
}

/// Reading the sequences in place succeeds exactly where cutting and
/// decoding the buffers does, and with the same sequences and end.
pub(crate) proof fn lemma_bodies_vs_buffers(input: Seq<u8>, at: int, lens: Seq<u32>, format: SerdeFormat)
    requires
        0 <= at <= input.len(),
    ensures
        match parse_bodies(input, at, lens, format) {
            Ok((polys, end)) => slice_buffers(input, at, lens) is Ok && slice_buffers(
                input,
                at,
                lens,
            ).unwrap().1 == end && decode_buffers(
                slice_buffers(input, at, lens).unwrap().0,
                format,
            ) == Ok::<Seq<Seq<Seq<u8>>>, SerdeError>(polys),
            Err(_) => slice_buffers(input, at, lens) is Err || decode_buffers(
                slice_buffers(input, at, lens).unwrap().0,
                format,
            ) is Err,
        },
    decreases lens.len(),
{
    if lens.len() > 0 {
        let front = lens.drop_last();
        let last = lens.last();
        lemma_bodies_vs_buffers(input, at, front, format);
        match parse_bodies(input, at, front, format) {
            Ok((front_polys, mid)) => {
                lemma_parse_bodies_in_bounds(input, at, front, format);
                let front_buffers = slice_buffers(input, at, front).unwrap().0;
                if has_bytes(input, mid, 4 + 32 * last) {
                    lemma_framed_vs_buffer(input, mid, last, format);
                    let buffer = input.subrange(mid, mid + 4 + 32 * last);
                    assert(front_buffers.push(buffer).drop_last() =~= front_buffers);
                } else {
                    if parse_framed(input, mid, last, format) is Ok {
                        lemma_framed_in_bounds(input, mid, last, format);
                    }
                }
            },
            Err(_) => {
                if slice_buffers(input, at, front) is Ok {
                    let (front_buffers, mid) = slice_buffers(input, at, front).unwrap();
                    if has_bytes(input, mid, 4 + 32 * last) {
                        let buffer = input.subrange(mid, mid + 4 + 32 * last);
                        assert(front_buffers.push(buffer).drop_last() =~= front_buffers);
                    }
                }
            },
        }
    }
}

/// The `u32` at an offset of an input that was cut: the same where the cut
/// lies behind it, `Truncated` where it does not.
pub(crate) proof fn lemma_parse_u32_cut(input: Seq<u8>, at: int, cut: int)
    requires
        0 <= cut <= input.len(),
        parse_u32(input, at) is Ok,
    ensures
        parse_u32(input.take(cut), at) == if at + 4 <= cut {
            parse_u32(input, at)
        } else {
            Err::<u32, SerdeError>(SerdeError::Truncated)
        },
{
    if at + 4 <= cut {
        assert(input.take(cut).subrange(at, at + 4) =~= input.subrange(at, at + 4));
    }
}

/// Scalars read from an input that was cut: the same where the cut lies
/// behind them, `Truncated` where it does not.
pub(crate) proof fn lemma_parse_scalars_cut(input: Seq<u8>, at: int, n: nat, format: SerdeFormat, cut: int)
    requires
        0 <= cut <= input.len(),
        parse_scalars(input, at, n, format) is Ok,
    ensures
        parse_scalars(input.take(cut), at, n, format) == if at + 32 * n <= cut || n == 0 {
            parse_scalars(input, at, n, format)
        } else {
            Err::<Seq<Seq<u8>>, SerdeError>(SerdeError::Truncated)
        },
    decreases n,
{
    if n > 0 {
        lemma_parse_scalars_cut(input, at, (n - 1) as nat, format, cut);
        let m = at + 32 * (n - 1);
        if m + 32 <= cut {
            assert(input.take(cut).subrange(m, m + 32) =~= input.subrange(m, m + 32));
        }
    }
}

/// Lengths read from an input that was cut.
pub(crate) proof fn lemma_parse_lens_cut(input: Seq<u8>, at: int, count: nat, cut: int)
    requires
        0 <= cut <= input.len(),
        parse_lens(input, at, count) is Ok,
    ensures
        parse_lens(input.take(cut), at, count) == if at + 4 * count <= cut || count == 0 {
            parse_lens(input, at, count)
        } else {
            Err::<Seq<u32>, SerdeError>(SerdeError::Truncated)
        },
    decreases count,
{
    if count > 0 {
        lemma_parse_lens_cut(input, at, (count - 1) as nat, cut);
        lemma_parse_u32_cut(input, at + 4 * (count - 1), cut);
    }
}

/// One announced sequence read from an input that was cut.
pub(crate) proof fn lemma_parse_framed_cut(
    input: Seq<u8>,
    mid: int,
    advertised: u32,
    format: SerdeFormat,
    cut: int,
)
    requires
        0 <= cut <= input.len(),
        parse_framed(input, mid, advertised, format) is Ok,
    ensures
        parse_framed(input.take(cut), mid, advertised, format) == if mid + 4 + 32 * advertised
            <= cut {
            parse_framed(input, mid, advertised, format)
        } else {
            Err::<(Seq<Seq<u8>>, int), SerdeError>(SerdeError::Truncated)
        },
{
    lemma_parse_u32_cut(input, mid, cut);
    lemma_parse_scalars_cut(input, mid + 4, advertised as nat, format, cut);
}

/// The sequences read from an input that was cut.
pub(crate) proof fn lemma_parse_bodies_cut(
    input: Seq<u8>,
    at: int,
    lens: Seq<u32>,
    format: SerdeFormat,
    cut: int,
)
    requires
        0 <= at <= cut <= input.len(),
        parse_bodies(input, at, lens, format) is Ok,
    ensures
        parse_bodies(input.take(cut), at, lens, format) == if parse_bodies(
            input,
            at,
            lens,
            format,
        ).unwrap().1 <= cut {
            parse_bodies(input, at, lens, format)
        } else {
            Err::<(Seq<Seq<Seq<u8>>>, int), SerdeError>(SerdeError::Truncated)
        },
    decreases lens.len(),
{
    if lens.len() > 0 {
        let front = lens.drop_last();
        lemma_parse_bodies_cut(input, at, front, format, cut);
        lemma_parse_bodies_in_bounds(input, at, front, format);
        let mid = parse_bodies(input, at, front, format).unwrap().1;
        lemma_parse_framed_cut(input, mid, lens.last(), format, cut);
    }
}

/// The buffers cut out of an input that was itself cut short.
pub(crate) proof fn lemma_slice_buffers_cut(input: Seq<u8>, at: int, lens: Seq<u32>, cut: int)
    requires
        0 <= at <= cut <= input.len(),
        slice_buffers(input, at, lens) is Ok,
    ensures
        slice_buffers(input.take(cut), at, lens) == if slice_buffers(input, at, lens).unwrap().1
            <= cut {
            slice_buffers(input, at, lens)
        } else {
            Err::<(Seq<Seq<u8>>, int), SerdeError>(SerdeError::Truncated)
        },
    decreases lens.len(),
{
    if lens.len() > 0 {
        let front = lens.drop_last();
        lemma_slice_buffers_cut(input, at, front, cut);
        lemma_slice_buffers_shape(input, at, front);
        let mid = slice_buffers(input, at, front).unwrap().1;
        let size = 4 + 32 * lens.last();
        if mid + size <= cut {
            assert(input.take(cut).subrange(mid, mid + size) =~= input.subrange(mid, mid + size));
        }
    }
}

} // verus!
