use ff::Field;
use ff::PrimeField;
use halo2_codec::field::Scalar;
use halo2_codec::field::SerdePrimeField;
use halo2_codec::field::SCALAR_BYTES;
use halo2_codec::format::SerdeError;
use halo2_codec::format::SerdeFormat;
use halo2_codec::reader::Reader;
use halo2curves::bn256::Fr;
use halo2curves::serde::SerdeObject;

const SCALAR_FORMATS: [SerdeFormat; 3] =
    [SerdeFormat::Processed, SerdeFormat::RawBytes, SerdeFormat::RawBytesUnchecked];

const MODULUS_LE: [u8; 32] = [
    0x01, 0x00, 0x00, 0xf0, 0x93, 0xf5, 0xe1, 0x43, 0x91, 0x70, 0xb9, 0x79, 0x48, 0xe8, 0x33, 0x28,
    0x5d, 0x58, 0x81, 0x81, 0xb6, 0x45, 0x50, 0xb8, 0x29, 0xa0, 0x31, 0xe1, 0x72, 0x4e, 0x64, 0x30,
];

fn scalar_of(value: Fr) -> Scalar {
    Scalar::from_raw(value.to_raw_bytes().try_into().unwrap())
}

fn sample_scalars() -> Vec<Fr> {
    let mut out = vec![Fr::ZERO, Fr::ONE, -Fr::ONE, Fr::from(5u64), Fr::from(u64::MAX)];
    let mut x = Fr::from(0x1234_5678_9abc_def1u64);
    for _ in 0..20 {
        x = x.square() + Fr::from(7u64);
        out.push(x);
    }
    out
}

#[test]
fn scalar_survives_a_round_trip_in_every_format() {
    for format in SCALAR_FORMATS {
        for value in sample_scalars() {
            let scalar = scalar_of(value);
            let mut bytes = Vec::new();
            scalar.write(&mut bytes, format);
            let mut reader = Reader::new(bytes);
            assert_eq!(Scalar::read(&mut reader, format), Ok(scalar));
            assert_eq!(reader.remaining(), 0);
        }
    }
}

#[test]
fn scalar_takes_thirty_two_bytes_in_every_format() {
    assert_eq!(SCALAR_BYTES, 32);
    for format in SCALAR_FORMATS {
        assert_eq!(Scalar::byte_length(format), 32);
        for value in sample_scalars() {
            let mut bytes = vec![0xaau8; 3];
            scalar_of(value).write(&mut bytes, format);
            assert_eq!(bytes.len(), 3 + 32);
            assert_eq!(&bytes[..3], &[0xaa, 0xaa, 0xaa]);
            assert_eq!(scalar_of(value).encode(format).len(), 32);
        }
    }
}

#[test]
fn processed_bytes_are_the_canonical_little_endian_value() {
    let five = scalar_of(Fr::from(5u64));
    let mut expected = [0u8; 32];
    expected[0] = 5;
    assert_eq!(five.encode(SerdeFormat::Processed), expected);
    assert_ne!(five.raw, expected);
    let big = scalar_of(Fr::from(0x0102_0304_0506_0708u64));
    let mut expected = [0u8; 32];
    expected[..8].copy_from_slice(&[8, 7, 6, 5, 4, 3, 2, 1]);
    assert_eq!(big.encode(SerdeFormat::Processed), expected);
    for value in sample_scalars() {
        let repr: [u8; 32] = value.to_repr().into();
        assert_eq!(scalar_of(value).encode(SerdeFormat::Processed), repr);
    }
}

#[test]
fn raw_bytes_are_the_internal_form() {
    let one = scalar_of(Fr::ONE);
    let limbs: [u64; 4] =
        [0xac96341c4ffffffb, 0x36fc76959f60cd29, 0x666ea36f7879462e, 0x0e0a77c19a07df2f];
    let mut expected = [0u8; 32];
    for (i, limb) in limbs.iter().enumerate() {
        expected[i * 8..(i + 1) * 8].copy_from_slice(&limb.to_le_bytes());
    }
    assert_eq!(one.raw, expected);
    assert_eq!(one.encode(SerdeFormat::RawBytes), expected);
    assert_eq!(one.encode(SerdeFormat::RawBytesUnchecked), expected);
    for value in sample_scalars() {
        let scalar = scalar_of(value);
        assert_eq!(scalar.encode(SerdeFormat::RawBytes), scalar.raw);
        assert_eq!(scalar.encode(SerdeFormat::RawBytesUnchecked), scalar.raw);
    }
}

#[test]
fn processed_decoding_builds_the_internal_form() {
    let mut repr = [0u8; 32];
    repr[0] = 5;
    let decoded = Scalar::decode(&repr, SerdeFormat::Processed).unwrap();
    assert_eq!(decoded, scalar_of(Fr::from(5u64)));
    assert_ne!(decoded.raw, repr);
    assert!(decoded.in_range());
}

#[test]
fn modulus_is_rejected_where_the_format_checks() {
    assert_eq!(Scalar::decode(&MODULUS_LE, SerdeFormat::Processed), Err(SerdeError::InvalidEncoding));
    assert_eq!(Scalar::decode(&MODULUS_LE, SerdeFormat::RawBytes), Err(SerdeError::InvalidEncoding));
    let unchecked = Scalar::decode(&MODULUS_LE, SerdeFormat::RawBytesUnchecked).unwrap();
    assert_eq!(unchecked.raw, MODULUS_LE);
    assert!(!unchecked.in_range());
    for format in [SerdeFormat::Processed, SerdeFormat::RawBytes] {
        let mut reader = Reader::new(MODULUS_LE.to_vec());
        assert_eq!(Scalar::read(&mut reader, format), Err(SerdeError::InvalidEncoding));
        assert_eq!(reader.position(), 32);
        assert_eq!(Scalar::read(&mut reader, format), Err(SerdeError::Truncated));
        assert_eq!(reader.position(), 32);
    }
    let mut reader = Reader::new(MODULUS_LE.to_vec());
    assert_eq!(Scalar::read(&mut reader, SerdeFormat::RawBytesUnchecked), Ok(unchecked));
    assert_eq!(reader.position(), 32);
}

#[test]
fn rejected_scalar_is_skipped_and_the_next_is_read() {
    for format in [SerdeFormat::Processed, SerdeFormat::RawBytes] {
        let good = scalar_of(Fr::from(12u64));
        let mut bytes = MODULUS_LE.to_vec();
        good.write(&mut bytes, format);
        let mut reader = Reader::new(bytes);
        assert_eq!(Scalar::read(&mut reader, format), Err(SerdeError::InvalidEncoding));
        assert_eq!(reader.position(), 32);
        assert_eq!(Scalar::read(&mut reader, format), Ok(good));
        assert_eq!(reader.position(), 64);
    }
}

#[test]
fn scalar_that_was_read_is_written_as_the_bytes_read() {
    let mut repr = [0u8; 32];
    repr[0] = 0x2a;
    repr[17] = 0x99;
    repr[31] = 0x20;
    for format in SCALAR_FORMATS {
        let read = Scalar::decode(&repr, format).unwrap();
        assert_eq!(read.encode(format), repr);
        let mut reader = Reader::new(repr.to_vec());
        let read = Scalar::read(&mut reader, format).unwrap();
        let mut again = Vec::new();
        read.write(&mut again, format);
        assert_eq!(again, repr.to_vec());
    }
    let all_ones = [0xffu8; 32];
    let read = Scalar::decode(&all_ones, SerdeFormat::RawBytesUnchecked).unwrap();
    assert_eq!(read.encode(SerdeFormat::RawBytesUnchecked), all_ones);
}

#[test]
fn largest_value_below_the_modulus_is_accepted() {
    let mut below = MODULUS_LE;
    below[0] = 0;
    assert!(Scalar::decode(&below, SerdeFormat::Processed).is_ok());
    assert!(Scalar::decode(&below, SerdeFormat::RawBytes).is_ok());
    assert_eq!(Scalar::decode(&below, SerdeFormat::Processed), Ok(scalar_of(-Fr::ONE)));
    assert!(Scalar::from_raw(below).in_range());
}

#[test]
fn values_above_the_modulus_are_rejected_where_the_format_checks() {
    let all_ones = [0xffu8; 32];
    assert_eq!(Scalar::decode(&all_ones, SerdeFormat::Processed), Err(SerdeError::InvalidEncoding));
    assert_eq!(Scalar::decode(&all_ones, SerdeFormat::RawBytes), Err(SerdeError::InvalidEncoding));
    assert_eq!(Scalar::decode(&all_ones, SerdeFormat::RawBytesUnchecked).unwrap().raw, all_ones);
    let mut above = MODULUS_LE;
    above[0] = 2;
    assert_eq!(Scalar::decode(&above, SerdeFormat::RawBytes), Err(SerdeError::InvalidEncoding));
    assert!(!Scalar::from_raw(above).in_range());
}

#[test]
fn unchecked_scalar_survives_a_round_trip_unchecked() {
    let odd = Scalar::from_raw([0xffu8; 32]);
    let mut bytes = Vec::new();
    odd.write(&mut bytes, SerdeFormat::RawBytesUnchecked);
    assert_eq!(bytes, vec![0xffu8; 32]);
    let mut reader = Reader::new(bytes);
    assert_eq!(Scalar::read(&mut reader, SerdeFormat::RawBytesUnchecked), Ok(odd));
}

#[test]
fn scalar_cut_short_is_truncated() {
    for format in SCALAR_FORMATS {
        let mut bytes = Vec::new();
        scalar_of(Fr::from(77u64)).write(&mut bytes, format);
        bytes.pop();
        let mut reader = Reader::new(bytes.clone());
        assert_eq!(Scalar::read(&mut reader, format), Err(SerdeError::Truncated));
        assert_eq!(reader.position(), 0);
        assert_eq!(Scalar::decode_at(&bytes, 0, format), Err(SerdeError::Truncated));
        let mut empty = Reader::new(Vec::new());
        assert_eq!(Scalar::read(&mut empty, format), Err(SerdeError::Truncated));
    }
}

#[test]
fn scalars_are_read_one_after_the_other() {
    for format in SCALAR_FORMATS {
        let a = scalar_of(Fr::from(3u64));
        let b = scalar_of(-Fr::from(3u64));
        let mut bytes = Vec::new();
        a.write(&mut bytes, format);
        b.write(&mut bytes, format);
        let mut reader = Reader::new(bytes.clone());
        assert_eq!(Scalar::read(&mut reader, format), Ok(a));
        assert_eq!(reader.position(), 32);
        assert_eq!(Scalar::read(&mut reader, format), Ok(b));
        assert_eq!(reader.position(), 64);
        assert_eq!(Scalar::read(&mut reader, format), Err(SerdeError::Truncated));
        assert_eq!(Scalar::decode_at(&bytes, 32, format), Ok(b));
        assert_eq!(Scalar::decode_at(&bytes, 33, format), Err(SerdeError::Truncated));
    }
}
