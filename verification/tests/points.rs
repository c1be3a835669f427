use halo2_codec::curve::CurvePoint;
use halo2_codec::curve::SerdeCurveAffine;
use halo2_codec::curve::COMPRESSED_BYTES;
use halo2_codec::curve::UNCOMPRESSED_BYTES;
use halo2_codec::curve_read::CurveRead;
use halo2_codec::format::SerdeError;
use halo2_codec::format::SerdeFormat;
use halo2_codec::reader::Reader;
use halo2curves::bn256::Fq;
use halo2curves::bn256::Fr;
use halo2curves::bn256::G1Affine;
use halo2curves::group::prime::PrimeCurveAffine;
use halo2curves::group::Curve;
use halo2curves::group::GroupEncoding;
use halo2curves::serde::SerdeObject;

const POINT_FORMATS: [SerdeFormat; 3] =
    [SerdeFormat::Processed, SerdeFormat::RawBytes, SerdeFormat::RawBytesUnchecked];

const BASE_MODULUS_LE: [u8; 32] = [
    0x47, 0xfd, 0x7c, 0xd8, 0x16, 0x8c, 0x20, 0x3c, 0x8d, 0xca, 0x71, 0x68, 0x91, 0x6a, 0x81, 0x97,
    0x5d, 0x58, 0x81, 0x81, 0xb6, 0x45, 0x50, 0xb8, 0x29, 0xa0, 0x31, 0xe1, 0x72, 0x4e, 0x64, 0x30,
];

fn point_of(value: G1Affine) -> CurvePoint {
    CurvePoint::from_raw(value.to_raw_bytes().try_into().unwrap())
}

fn point_from_coordinates(x: Fq, y: Fq) -> CurvePoint {
    let mut raw = [0u8; 64];
    raw[..32].copy_from_slice(&x.to_raw_bytes());
    raw[32..].copy_from_slice(&y.to_raw_bytes());
    CurvePoint::from_raw(raw)
}

fn sample_points() -> Vec<G1Affine> {
    let mut out = vec![G1Affine::identity(), G1Affine::generator()];
    for k in [2u64, 3, 5, 1000, u64::MAX] {
        out.push((G1Affine::generator() * Fr::from(k)).to_affine());
        out.push((G1Affine::generator() * (-Fr::from(k))).to_affine());
    }
    out
}

fn read_with(bytes: &[u8], format: SerdeFormat) -> (Result<CurvePoint, SerdeError>, usize) {
    let mut reader = Reader::new(bytes.to_vec());
    let r = <CurvePoint as SerdeCurveAffine>::read(&mut reader, format);
    (r, reader.position())
}

#[test]
fn point_survives_a_round_trip_in_every_format() {
    for format in POINT_FORMATS {
        for value in sample_points() {
            let point = point_of(value);
            assert!(point.check());
            let mut bytes = Vec::new();
            point.write(&mut bytes, format);
            let (r, end) = read_with(&bytes, format);
            assert_eq!(r, Ok(point));
            assert_eq!(end, bytes.len());
        }
    }
}

#[test]
fn point_takes_the_bytes_that_byte_length_says() {
    assert_eq!(COMPRESSED_BYTES, 32);
    assert_eq!(UNCOMPRESSED_BYTES, 64);
    assert_eq!(<CurvePoint as SerdeCurveAffine>::byte_length(SerdeFormat::Processed), 32);
    assert_eq!(<CurvePoint as SerdeCurveAffine>::byte_length(SerdeFormat::RawBytes), 64);
    assert_eq!(<CurvePoint as SerdeCurveAffine>::byte_length(SerdeFormat::RawBytesUnchecked), 64);
    for format in POINT_FORMATS {
        for value in sample_points() {
            let mut bytes = vec![7u8];
            point_of(value).write(&mut bytes, format);
            assert_eq!(bytes.len(), 1 + <CurvePoint as SerdeCurveAffine>::byte_length(format));
        }
    }
}

#[test]
fn compressed_generator_is_its_x_coordinate() {
    let generator = point_of(G1Affine::generator());
    let mut bytes = Vec::new();
    generator.write(&mut bytes, SerdeFormat::Processed);
    let mut expected = vec![0u8; 32];
    expected[0] = 1;
    assert_eq!(bytes, expected);
    assert_ne!(&generator.raw[..32], &expected[..]);
}

#[test]
fn compressed_identity_carries_the_identity_flag() {
    let identity = point_of(G1Affine::identity());
    assert_eq!(identity.raw, [0u8; 64]);
    let mut bytes = Vec::new();
    identity.write(&mut bytes, SerdeFormat::Processed);
    let mut expected = vec![0u8; 32];
    expected[31] = 0x40;
    assert_eq!(bytes, expected);
    assert_eq!(read_with(&bytes, SerdeFormat::Processed).0, Ok(identity));
}

#[test]
fn compressed_bytes_are_those_of_the_curve_library() {
    for value in sample_points() {
        let mut bytes = Vec::new();
        point_of(value).write(&mut bytes, SerdeFormat::Processed);
        assert_eq!(&bytes[..], value.to_bytes().as_ref());
        let mut raw = Vec::new();
        point_of(value).write(&mut raw, SerdeFormat::RawBytes);
        assert_eq!(raw, value.to_raw_bytes());
        let mut unchecked = Vec::new();
        point_of(value).write(&mut unchecked, SerdeFormat::RawBytesUnchecked);
        assert_eq!(unchecked, raw);
    }
}

#[test]
fn decompression_builds_the_internal_form() {
    let mut compressed = vec![0u8; 32];
    compressed[0] = 1;
    let (r, end) = read_with(&compressed, SerdeFormat::Processed);
    assert_eq!(r, Ok(point_of(G1Affine::generator())));
    assert_eq!(end, 32);
    let negated = (G1Affine::generator() * (-Fr::from(1u64))).to_affine();
    compressed[31] = 0x80;
    assert_eq!(read_with(&compressed, SerdeFormat::Processed).0, Ok(point_of(negated)));
}

#[test]
fn point_off_the_curve_is_rejected_where_the_format_checks() {
    let off = point_from_coordinates(Fq::from(1u64), Fq::from(1u64));
    assert!(!off.is_on_curve());
    assert!(!off.check());
    assert_eq!(read_with(&off.raw, SerdeFormat::RawBytes), (Err(SerdeError::InvalidEncoding), 64));
    assert_eq!(read_with(&off.raw, SerdeFormat::RawBytesUnchecked), (Ok(off), 64));
}

#[test]
fn coordinate_out_of_range_is_rejected_where_the_format_checks() {
    let mut raw = [0u8; 64];
    raw[..32].copy_from_slice(&BASE_MODULUS_LE);
    let odd = CurvePoint::from_raw(raw);
    assert!(!odd.check());
    assert_eq!(read_with(&raw, SerdeFormat::RawBytes), (Err(SerdeError::InvalidEncoding), 64));
    assert_eq!(read_with(&raw, SerdeFormat::RawBytesUnchecked), (Ok(odd), 64));
    let mut second = [0u8; 64];
    second[..32].copy_from_slice(&G1Affine::generator().to_raw_bytes()[..32]);
    second[32..].copy_from_slice(&[0xffu8; 32]);
    assert_eq!(read_with(&second, SerdeFormat::RawBytes).0, Err(SerdeError::InvalidEncoding));
}

#[test]
fn compressed_bytes_of_no_point_are_rejected() {
    let mut no_root = vec![0u8; 32];
    no_root[0] = 4;
    assert_eq!(read_with(&no_root, SerdeFormat::Processed), (Err(SerdeError::InvalidEncoding), 32));
    let mut out_of_range = BASE_MODULUS_LE.to_vec();
    out_of_range[0] = 0x48;
    assert_eq!(read_with(&out_of_range, SerdeFormat::Processed).0, Err(SerdeError::InvalidEncoding));
    let mut flagged_zero = vec![0u8; 32];
    flagged_zero[31] = 0xc0;
    assert_eq!(read_with(&flagged_zero, SerdeFormat::Processed).0, Err(SerdeError::InvalidEncoding));
    assert_eq!(read_with(&vec![0u8; 32], SerdeFormat::Processed).0, Err(SerdeError::InvalidEncoding));
}

#[test]
fn point_cut_short_is_truncated() {
    for format in POINT_FORMATS {
        let mut bytes = Vec::new();
        point_of(G1Affine::generator()).write(&mut bytes, format);
        bytes.pop();
        assert_eq!(read_with(&bytes, format), (Err(SerdeError::Truncated), 0));
        assert_eq!(read_with(&[], format), (Err(SerdeError::Truncated), 0));
    }
    let raw = G1Affine::generator().to_raw_bytes();
    assert_eq!(read_with(&raw[..32], SerdeFormat::RawBytes).0, Err(SerdeError::Truncated));
}

#[test]
fn write_checked_refuses_to_compress_a_point_off_the_curve() {
    let off = point_from_coordinates(Fq::from(1u64), Fq::from(1u64));
    let mut bytes = vec![1u8, 2, 3];
    assert_eq!(off.write_checked(&mut bytes, SerdeFormat::Processed), Err(SerdeError::InvalidEncoding));
    assert_eq!(bytes, vec![1, 2, 3]);
    assert_eq!(off.write_checked(&mut bytes, SerdeFormat::RawBytes), Ok(()));
    assert_eq!(bytes.len(), 3 + 64);
    assert_eq!(&bytes[3..], &off.raw[..]);
    assert_eq!(off.write_checked(&mut bytes, SerdeFormat::RawBytesUnchecked), Ok(()));
    assert_eq!(bytes.len(), 3 + 128);
}

#[test]
fn write_checked_writes_what_write_writes() {
    for format in POINT_FORMATS {
        for value in sample_points() {
            let mut plain = Vec::new();
            point_of(value).write(&mut plain, format);
            let mut checked = Vec::new();
            assert_eq!(point_of(value).write_checked(&mut checked, format), Ok(()));
            assert_eq!(checked, plain);
        }
    }
}

#[test]
fn compressed_read_takes_thirty_two_bytes() {
    let value = (G1Affine::generator() * Fr::from(9u64)).to_affine();
    let mut bytes = value.to_bytes().as_ref().to_vec();
    bytes.extend_from_slice(&[1, 2, 3]);
    let mut reader = Reader::new(bytes);
    assert_eq!(<CurvePoint as CurveRead>::read(&mut reader), Ok(point_of(value)));
    assert_eq!(reader.position(), 32);
    assert_eq!(<CurvePoint as CurveRead>::read(&mut reader), Err(SerdeError::Truncated));
    assert_eq!(reader.position(), 32);
    let mut bad = Reader::new(vec![0u8; 32]);
    assert_eq!(<CurvePoint as CurveRead>::read(&mut bad), Err(SerdeError::InvalidEncoding));
    assert_eq!(bad.position(), 32);
    let mut short = Reader::new(vec![0u8; 31]);
    assert_eq!(<CurvePoint as CurveRead>::read(&mut short), Err(SerdeError::Truncated));
    assert_eq!(short.position(), 0);
}

#[test]
fn rejected_point_is_skipped_and_the_next_is_read() {
    let good = point_of((G1Affine::generator() * Fr::from(6u64)).to_affine());
    for format in [SerdeFormat::Processed, SerdeFormat::RawBytes] {
        let width = <CurvePoint as SerdeCurveAffine>::byte_length(format);
        let mut bytes = vec![0u8; width];
        bytes[0] = 4;
        good.write(&mut bytes, format);
        let mut reader = Reader::new(bytes);
        assert_eq!(
            <CurvePoint as SerdeCurveAffine>::read(&mut reader, format),
            Err(SerdeError::InvalidEncoding)
        );
        assert_eq!(reader.position(), width);
        assert_eq!(<CurvePoint as SerdeCurveAffine>::read(&mut reader, format), Ok(good));
        assert_eq!(reader.position(), 2 * width);
        assert_eq!(
            <CurvePoint as SerdeCurveAffine>::read(&mut reader, format),
            Err(SerdeError::Truncated)
        );
        assert_eq!(reader.position(), 2 * width);
    }
    let mut compressed = vec![0u8; 32];
    good.write(&mut compressed, SerdeFormat::Processed);
    let mut reader = Reader::new(compressed);
    assert_eq!(<CurvePoint as CurveRead>::read(&mut reader), Err(SerdeError::InvalidEncoding));
    assert_eq!(<CurvePoint as CurveRead>::read(&mut reader), Ok(good));
    assert_eq!(reader.remaining(), 0);
}

#[test]
fn point_that_was_read_is_written_as_the_bytes_read() {
    for format in POINT_FORMATS {
        for value in sample_points() {
            let mut bytes = Vec::new();
            point_of(value).write(&mut bytes, format);
            let read = CurvePoint::decode_at(&bytes, 0, format).unwrap();
            let mut again = Vec::new();
            read.write(&mut again, format);
            assert_eq!(again, bytes);
        }
    }
    let mut compressed = vec![0u8; 32];
    compressed[0] = 1;
    compressed[31] = 0x80;
    let read = CurvePoint::decode_at(&compressed, 0, SerdeFormat::Processed).unwrap();
    let mut again = Vec::new();
    read.write(&mut again, SerdeFormat::Processed);
    assert_eq!(again, compressed);
}
