use halo2_codec::bits::pack;
use halo2_codec::bits::unpack;

#[test]
fn pack_sets_bits_from_the_least_significant() {
    assert_eq!(pack(&[]), 0);
    assert_eq!(pack(&[true]), 1);
    assert_eq!(pack(&[false, true]), 2);
    assert_eq!(pack(&[true, false, true, true]), 0b1101);
    assert_eq!(pack(&[true; 8]), 0xff);
    assert_eq!(pack(&[false, false, false, false, false, false, false, true]), 0x80);
}

#[test]
fn unpack_reads_bits_from_the_least_significant() {
    let mut bits = [false; 8];
    unpack(0b1010_0101, &mut bits);
    assert_eq!(bits, [true, false, true, false, false, true, false, true]);
    let mut three = [true; 3];
    unpack(0b0000_0010, &mut three);
    assert_eq!(three, [false, true, false]);
}

#[test]
fn unpack_of_nothing_changes_nothing() {
    let mut none: [bool; 0] = [];
    unpack(0xff, &mut none);
    assert_eq!(none.len(), 0);
}

#[test]
fn unpack_inverts_pack_for_every_sequence_of_up_to_eight() {
    for len in 0..=8usize {
        for pattern in 0..(1u32 << len) {
            let bits: Vec<bool> = (0..len).map(|i| (pattern >> i) & 1 == 1).collect();
            let byte = pack(&bits);
            assert_eq!(byte as u32, pattern);
            let mut out = vec![false; len];
            unpack(byte, &mut out);
            assert_eq!(out, bits);
        }
    }
}

#[test]
fn unpack_past_eight_positions_repeats_the_pattern() {
    let mut bits = [false; 20];
    unpack(0b0100_1101, &mut bits);
    for i in 0..20 {
        assert_eq!(bits[i], (0b0100_1101u8 >> (i % 8)) & 1 == 1);
    }
    assert_eq!(bits[8], true);
    assert_eq!(bits[9], false);
    assert_eq!(bits[14], true);
}

#[test]
fn pack_ignores_nothing_and_adds_nothing() {
    for byte in 0..=255u8 {
        let mut bits = [false; 8];
        unpack(byte, &mut bits);
        assert_eq!(pack(&bits), byte);
    }
}
