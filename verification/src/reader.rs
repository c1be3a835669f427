//! Reading fixed-size pieces out of a byte slice, big-endian lengths, and a
//! cursor that remembers how far an input has been read.

use vstd::prelude::*;
use crate::format::SerdeError;

verus! {

/// The number that four bytes denote, most significant byte first.
pub open spec fn be_u32_spec(b: Seq<u8>) -> u32
    recommends
        b.len() == 4,
{
    (b[0] * 0x100_0000 + b[1] * 0x1_0000 + b[2] * 0x100 + b[3]) as u32
}

/// The four bytes of a number, most significant byte first.
pub open spec fn u32_be_bytes(v: u32) -> Seq<u8> {
    seq![
        (v / 0x100_0000) as u8,
        ((v / 0x1_0000) % 0x100) as u8,
        ((v / 0x100) % 0x100) as u8,
        (v % 0x100) as u8,
    ]
}

/// Reading back the big-endian bytes of a number gives the number.
pub proof fn lemma_be_u32_round_trip(v: u32)
    ensures
        u32_be_bytes(v).len() == 4,
        be_u32_spec(u32_be_bytes(v)) == v,
{
}

/// Decodes a big-endian `u32`.
pub fn u32_from_be(b: &[u8; 4]) -> (v: u32)
    ensures
        v == be_u32_spec(b@),
{
    (b[0] as u32) * 0x100_0000 + (b[1] as u32) * 0x1_0000 + (b[2] as u32) * 0x100 + (b[3] as u32)
}

/// Encodes a `u32` big-endian.
pub fn u32_to_be(v: u32) -> (b: [u8; 4])
    ensures
        b@ == u32_be_bytes(v),
{
    let b = [
        (v / 0x100_0000) as u8,
        ((v / 0x1_0000) % 0x100) as u8,
        ((v / 0x100) % 0x100) as u8,
        (v % 0x100) as u8,
    ];
    assert(b@ =~= u32_be_bytes(v));
    b
}

/// Whether `n` bytes can be read from `input` at offset `at`.
pub open spec fn has_bytes(input: Seq<u8>, at: int, n: int) -> bool {
    0 <= at && 0 <= n && at + n <= input.len()
}

/// The `u32` read at offset `at`, or `Truncated` where four bytes are not there.
pub open spec fn parse_u32(input: Seq<u8>, at: int) -> Result<u32, SerdeError> {
    if has_bytes(input, at, 4) {
        Ok(be_u32_spec(input.subrange(at, at + 4)))
    } else {
        Err(SerdeError::Truncated)
    }
}

/// Copies the `N` bytes at offset `at` out of `input`, or reports
/// `Truncated` where the input does not hold that many from there.
pub fn fetch<const N: usize>(input: &[u8], at: usize) -> (r: Result<[u8; N], SerdeError>)
    ensures
        match r {
            Ok(a) => has_bytes(input@, at as int, N as int) && a@ == input@.subrange(
                at as int,
                at + N,
            ),
            Err(e) => e == SerdeError::Truncated && !has_bytes(input@, at as int, N as int),
        },
{
    if input.len() < at || input.len() - at < N {
        return Err(SerdeError::Truncated);
    }
    let mut out = [0u8; N];
    let mut i: usize = 0;
    while i < N
        invariant
            i <= N,
            at + N <= input.len(),
            forall|j: int| 0 <= j < i ==> out@[j] == input@[at + j],
        decreases N - i,
    {
        out[i] = input[at + i];
        i += 1;
    }
    assert(out@ =~= input@.subrange(at as int, at + N));
    Ok(out)
}

/// Reads a big-endian `u32` at offset `at`.
pub fn fetch_u32(input: &[u8], at: usize) -> (r: Result<u32, SerdeError>)
    ensures
        r == parse_u32(input@, at as int),
{
    match fetch::<4>(input, at) {
        Ok(b) => Ok(u32_from_be(&b)),
        Err(e) => Err(e),
    }
}

/// Appends the bytes of `piece` to `writer`.
pub fn put(writer: &mut Vec<u8>, piece: &[u8])
    ensures
        final(writer)@ == old(writer)@ + piece@,
{
    writer.extend_from_slice(piece);
}

/// A byte input together with the offset up to which it has been read.
pub struct Reader {
    data: Vec<u8>,
    pos: usize,
}

impl Reader {
    #[verifier::type_invariant]
    spec fn inv(self) -> bool {
        self.pos <= self.data@.len()
    }

    /// The whole input, read and unread.
    pub closed spec fn bytes(&self) -> Seq<u8> {
        self.data@
    }

    /// How many bytes of the input have been read.
    pub closed spec fn offset(&self) -> int {
        self.pos as int
    }

    /// A reader at the start of `data`.
    pub fn new(data: Vec<u8>) -> (r: Reader)
        ensures
            r.bytes() == data@,
            r.offset() == 0,
    {
        Reader { data, pos: 0 }
    }

    /// The whole input.
    pub fn input(&self) -> (s: &[u8])
        ensures
            s@ == self.bytes(),
    {
        self.data.as_slice()
    }

    /// The offset of the next unread byte.
    pub fn position(&self) -> (p: usize)
        ensures
            p == self.offset(),
            p <= self.bytes().len(),
    {
        proof {
            use_type_invariant(self);
        }
        self.pos
    }

    /// The number of bytes not yet read.
    pub fn remaining(&self) -> (n: usize)
        ensures
            n == self.bytes().len() - self.offset(),
    {
        proof {
            use_type_invariant(self);
        }
        self.data.len() - self.pos
    }

    /// Moves to offset `to`, or to the end of the input where `to` lies past it.
    pub fn seek(&mut self, to: usize)
        ensures
            final(self).bytes() == old(self).bytes(),
            final(self).offset() == if to <= old(self).bytes().len() {
                to as int
            } else {
                old(self).bytes().len() as int
            },
    {
        if to <= self.data.len() {
            self.pos = to;
        } else {
            self.pos = self.data.len();
        }
    }

    /// Reads a big-endian `u32` and moves past it. A failed read leaves the
    /// reader where it was.
    pub fn read_u32(&mut self) -> (r: Result<u32, SerdeError>)
        ensures
            final(self).bytes() == old(self).bytes(),
            r == parse_u32(old(self).bytes(), old(self).offset()),
            final(self).offset() == if r.is_ok() {
                old(self).offset() + 4
            } else {
                old(self).offset()
            },
    {
        let r = fetch_u32(self.data.as_slice(), self.pos);
        if r.is_ok() {
            assert(self.pos + 4 <= self.data.len());
            self.pos = self.pos + 4;
        }
        r
    }
}

} // verus!
