//! Packing of up to eight booleans into one byte, least significant bit first.

use vstd::prelude::*;

verus! {

/// Whether bit `i` of `byte` is set, bit 0 being the least significant.
pub open spec fn bit_of(byte: u8, i: int) -> bool
    recommends
        0 <= i < 8,
{
    (byte >> (i as u8)) & 1 == 1
}

/// The byte whose bit `i` is set exactly when `bits[i]` is true.
pub open spec fn pack_spec(bits: Seq<bool>) -> u8
    recommends
        bits.len() <= 8,
    decreases bits.len(),
{
    if bits.len() == 0 {
        0u8
    } else if bits.last() {
        pack_spec(bits.drop_last()) | (1u8 << ((bits.len() - 1) as u8))
    } else {
        pack_spec(bits.drop_last())
    }
}

/// The first `n` booleans read out of `byte`: position `i` holds bit `i % 8`.
pub open spec fn unpack_spec(byte: u8, n: nat) -> Seq<bool> {
    Seq::new(n, |i: int| bit_of(byte, i % 8))
}

proof fn lemma_set_bit(value: u8, k: u8, i: u8)
    by (bit_vector)
    requires
        k < 8,
        i < 8,
    ensures
        ((value | (1u8 << k)) >> i) & 1 == 1 <==> ((value >> i) & 1 == 1 || i == k),
{
}

proof fn lemma_zero_bit(i: u8)
    by (bit_vector)
    requires
        i < 8,
    ensures
        (0u8 >> i) & 1 == 0,
{
}

/// Bit `i` of `pack_spec(bits)` is set exactly when `i` is a position of
/// `bits` that holds true.
pub proof fn lemma_pack_bits(bits: Seq<bool>, i: int)
    requires
        bits.len() <= 8,
        0 <= i < 8,
    ensures
        bit_of(pack_spec(bits), i) == (i < bits.len() && bits[i]),
    decreases bits.len(),
{
    if bits.len() == 0 {
        lemma_zero_bit(i as u8);
    } else {
        let front = bits.drop_last();
        lemma_pack_bits(front, i);
        if bits.last() {
            lemma_set_bit(pack_spec(front), (bits.len() - 1) as u8, i as u8);
        }
    }
}

/// Unpacking a packed byte gives back the booleans that were packed.
pub proof fn lemma_unpack_pack(bits: Seq<bool>)
    requires
        bits.len() <= 8,
    ensures
        unpack_spec(pack_spec(bits), bits.len()) == bits,
{
    let got = unpack_spec(pack_spec(bits), bits.len());
    assert forall|i: int| 0 <= i < bits.len() implies got[i] == bits[i] by {
        lemma_pack_bits(bits, i);
    }
    assert(got =~= bits);
}

/// Packs at most eight booleans into a byte: bit `i` of the result is set
/// exactly when `bits[i]` is true, and the bits past the end are clear.
pub fn pack(bits: &[bool]) -> (value: u8)
    requires
        bits@.len() <= 8,
    ensures
        value == pack_spec(bits@),
        forall|i: int| 0 <= i < 8 ==> bit_of(value, i) == (i < bits@.len() && bits@[i]),
{
    let mut value: u8 = 0;
    let mut bit_index: usize = 0;
    while bit_index < bits.len()
        invariant
            bit_index <= bits@.len() <= 8,
            value == pack_spec(bits@.take(bit_index as int)),
        decreases bits@.len() - bit_index,
    {
        proof {
            let next = bits@.take(bit_index + 1);
            assert(next.drop_last() =~= bits@.take(bit_index as int));
            assert(next.last() == bits@[bit_index as int]);
        }
        if bits[bit_index] {
            value = value | (1u8 << (bit_index as u8));
        }
        bit_index += 1;
    }
    proof {
        assert(bits@.take(bit_index as int) =~= bits@);
        assert forall|i: int| 0 <= i < 8 implies bit_of(value, i) == (i < bits@.len()
            && bits@[i]) by {
            lemma_pack_bits(bits@, i);
        }
    }
    value
}

/// Writes bit `i % 8` of `byte` into `bits[i]`, for every position of `bits`.
/// Positions from the ninth on repeat the byte's pattern.
pub fn unpack(byte: u8, bits: &mut [bool])
    ensures
        final(bits)@ == unpack_spec(byte, old(bits)@.len()),
{
    let n = bits.len();
    let mut bit_index: usize = 0;
    while bit_index < n
        invariant
            bit_index <= n,
            n == bits@.len(),
            bits@.len() == old(bits)@.len(),
            forall|i: int| 0 <= i < bit_index ==> bits@[i] == bit_of(byte, i % 8),
        decreases n - bit_index,
    {
        let shift: u8 = (bit_index % 8) as u8;
        bits[bit_index] = (byte >> shift) & 1 == 1;
        bit_index += 1;
    }
    assert(bits@ =~= unpack_spec(byte, old(bits)@.len()));
}

} // verus!
