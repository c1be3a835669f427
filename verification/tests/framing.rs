use ff::Field;
use halo2_codec::field::Scalar;
use halo2_codec::format::SerdeError;
use halo2_codec::format::SerdeFormat;
use halo2_codec::parallel::buffer_size;
use halo2_codec::parallel::decode_polynomial_buffer;
use halo2_codec::poly::decode_polynomial_vec;
use halo2_codec::parallel::decode_polynomial_vec_parallel;
use halo2_codec::poly::polynomial_slice_byte_length;
use halo2_codec::poly::read_polynomial;
use halo2_codec::poly::read_polynomial_vec;
use halo2_codec::parallel::read_polynomial_vec_parallel;
use halo2_codec::parallel::split_buffers;
use halo2_codec::poly::write_polynomial;
use halo2_codec::poly::write_polynomial_slice;
use halo2_codec::reader::Reader;
use halo2curves::bn256::Fr;
use halo2curves::serde::SerdeObject;

const FRAME_FORMATS: [SerdeFormat; 3] =
    [SerdeFormat::Processed, SerdeFormat::RawBytes, SerdeFormat::RawBytesUnchecked];

fn coefficient(value: Fr) -> Scalar {
    Scalar::from_raw(value.to_raw_bytes().try_into().unwrap())
}

fn sequence(len: usize, seed: u64) -> Vec<Scalar> {
    let mut x = Fr::from(seed);
    let mut out = Vec::new();
    for _ in 0..len {
        x = x.square() + Fr::from(seed + 3);
        out.push(coefficient(x));
    }
    out
}

fn written(polys: &[Vec<Scalar>], format: SerdeFormat) -> Vec<u8> {
    let mut bytes = Vec::new();
    write_polynomial_slice(polys, &mut bytes, format);
    bytes
}

fn read_both_ways(bytes: &[u8], format: SerdeFormat) -> [Result<Vec<Vec<Scalar>>, SerdeError>; 2] {
    let mut one = Reader::new(bytes.to_vec());
    let mut two = Reader::new(bytes.to_vec());
    [read_polynomial_vec(&mut one, format), read_polynomial_vec_parallel(&mut two, format)]
}

#[test]
fn empty_list_is_four_zero_bytes() {
    for format in FRAME_FORMATS {
        let bytes = written(&[], format);
        assert_eq!(bytes, vec![0, 0, 0, 0]);
        assert_eq!(read_both_ways(&bytes, format), [Ok(Vec::new()), Ok(Vec::new())]);
    }
}

#[test]
fn list_of_one_empty_sequence_survives_a_round_trip() {
    for format in FRAME_FORMATS {
        let polys: Vec<Vec<Scalar>> = vec![Vec::new()];
        let bytes = written(&polys, format);
        assert_eq!(bytes, vec![0, 0, 0, 1, 0, 0, 0, 0, 0, 0, 0, 0]);
        assert_eq!(read_both_ways(&bytes, format), [Ok(polys.clone()), Ok(polys)]);
    }
}

#[test]
fn list_is_laid_out_as_count_lengths_and_bodies() {
    let polys = vec![vec![coefficient(Fr::from(5u64))], Vec::new()];
    let bytes = written(&polys, SerdeFormat::Processed);
    let mut expected = vec![0u8, 0, 0, 2, 0, 0, 0, 1, 0, 0, 0, 0, 0, 0, 0, 1, 5];
    expected.extend_from_slice(&[0u8; 31]);
    expected.extend_from_slice(&[0, 0, 0, 0]);
    assert_eq!(bytes, expected);
    assert_eq!(bytes.len(), 52);
    let raw = written(&polys, SerdeFormat::RawBytes);
    assert_eq!(&raw[..16], &expected[..16]);
    assert_eq!(&raw[16..48], &polys[0][0].raw[..]);
    assert_eq!(written(&polys, SerdeFormat::RawBytesUnchecked), raw);
}

#[test]
fn list_survives_a_round_trip_both_ways_in_every_format() {
    for format in FRAME_FORMATS {
        let polys = vec![sequence(3, 1), Vec::new(), sequence(1, 2), sequence(17, 3), Vec::new()];
        let bytes = written(&polys, format);
        assert_eq!(read_both_ways(&bytes, format), [Ok(polys.clone()), Ok(polys.clone())]);
        let mut reader = Reader::new(bytes.clone());
        assert_eq!(read_polynomial_vec(&mut reader, format), Ok(polys.clone()));
        assert_eq!(reader.remaining(), 0);
        let mut reader = Reader::new(bytes.clone());
        assert_eq!(read_polynomial_vec_parallel(&mut reader, format), Ok(polys));
        assert_eq!(reader.position(), bytes.len());
    }
}

#[test]
fn parallel_read_keeps_the_order_of_fifty_sequences() {
    for format in FRAME_FORMATS {
        let polys: Vec<Vec<Scalar>> = (1..=50usize).map(|n| sequence(n, n as u64)).collect();
        let bytes = written(&polys, format);
        let [one, two] = read_both_ways(&bytes, format);
        assert_eq!(one, two);
        let got = two.unwrap();
        assert_eq!(got.len(), 50);
        for (i, poly) in got.iter().enumerate() {
            assert_eq!(poly.len(), i + 1);
            assert_eq!(poly, &polys[i]);
        }
    }
}

#[test]
fn byte_length_is_what_is_written() {
    for format in FRAME_FORMATS {
        let polys = vec![sequence(2, 1), Vec::new(), sequence(3, 2)];
        assert_eq!(polynomial_slice_byte_length(&polys, format), 188);
        assert_eq!(written(&polys, format).len(), 188);
        assert_eq!(polynomial_slice_byte_length(&[], format), 4);
        assert_eq!(polynomial_slice_byte_length(&[Vec::new()], format), 12);
        let same = vec![sequence(4, 1), sequence(4, 2), sequence(4, 3)];
        assert_eq!(polynomial_slice_byte_length(&same, format), 4 + 12 + 3 * (4 + 128));
        assert_eq!(written(&same, format).len(), 412);
        let mut prefixed = vec![9u8; 5];
        write_polynomial_slice(&same, &mut prefixed, format);
        assert_eq!(prefixed.len(), 5 + 412);
    }
}

#[test]
fn list_cut_short_is_truncated_both_ways() {
    for format in FRAME_FORMATS {
        for polys in [
            Vec::new(),
            vec![Vec::new()],
            vec![sequence(1, 1)],
            vec![sequence(2, 1), Vec::new()],
            vec![sequence(2, 1), sequence(3, 2)],
        ] {
            let mut bytes = written(&polys, format);
            bytes.pop();
            assert_eq!(
                read_both_ways(&bytes, format),
                [Err(SerdeError::Truncated), Err(SerdeError::Truncated)]
            );
        }
        let full = written(&[sequence(2, 1), sequence(1, 2)], format);
        for cut in 0..full.len() {
            assert_eq!(
                read_both_ways(&full[..cut], format),
                [Err(SerdeError::Truncated), Err(SerdeError::Truncated)]
            );
        }
    }
}

#[test]
fn failed_read_leaves_the_reader_where_it_was() {
    let mut bytes = vec![0xeeu8; 3];
    write_polynomial_slice(&[sequence(2, 1)], &mut bytes, SerdeFormat::RawBytes);
    bytes.pop();
    let mut reader = Reader::new(bytes);
    reader.seek(3);
    assert_eq!(read_polynomial_vec(&mut reader, SerdeFormat::RawBytes), Err(SerdeError::Truncated));
    assert_eq!(reader.position(), 3);
    assert_eq!(
        read_polynomial_vec_parallel(&mut reader, SerdeFormat::RawBytes),
        Err(SerdeError::Truncated)
    );
    assert_eq!(reader.position(), 3);
    assert!(read_polynomial(&mut reader, SerdeFormat::RawBytes).is_err());
    assert_eq!(reader.position(), 3);
    reader.seek(11);
    assert_eq!(read_polynomial(&mut reader, SerdeFormat::RawBytes), Err(SerdeError::Truncated));
    assert_eq!(reader.position(), 11);
}

#[test]
fn lists_are_read_one_after_the_other() {
    for format in FRAME_FORMATS {
        let first = vec![sequence(2, 1), sequence(1, 5)];
        let second = vec![sequence(3, 9)];
        let mut bytes = Vec::new();
        write_polynomial_slice(&first, &mut bytes, format);
        let middle = bytes.len();
        write_polynomial_slice(&second, &mut bytes, format);
        let mut reader = Reader::new(bytes.clone());
        assert_eq!(read_polynomial_vec(&mut reader, format), Ok(first.clone()));
        assert_eq!(reader.position(), middle);
        assert_eq!(read_polynomial_vec_parallel(&mut reader, format), Ok(second.clone()));
        assert_eq!(reader.remaining(), 0);
        assert_eq!(decode_polynomial_vec(&bytes, middle, format), Ok((second.clone(), bytes.len())));
        assert_eq!(decode_polynomial_vec_parallel(&bytes, 0, format), Ok((first, middle)));
    }
}

#[test]
fn invalid_scalar_fails_the_whole_read() {
    for format in [SerdeFormat::Processed, SerdeFormat::RawBytes] {
        let polys = vec![sequence(2, 1), sequence(2, 2), sequence(2, 3)];
        let mut bytes = written(&polys, format);
        let second_scalar_of_second = 4 + 12 + (4 + 64) + 4 + 32;
        for b in &mut bytes[second_scalar_of_second..second_scalar_of_second + 32] {
            *b = 0xff;
        }
        assert_eq!(
            read_both_ways(&bytes, format),
            [Err(SerdeError::InvalidEncoding), Err(SerdeError::InvalidEncoding)]
        );
        let [one, two] = read_both_ways(&bytes, SerdeFormat::RawBytesUnchecked);
        assert_eq!(one, two);
        assert_eq!(one.unwrap()[1][1].raw, [0xffu8; 32]);
    }
}

#[test]
fn announced_length_that_differs_is_invalid() {
    for format in FRAME_FORMATS {
        let polys = vec![sequence(2, 1), sequence(1, 2)];
        let mut longer = written(&polys, format);
        longer[7] = 1;
        assert_eq!(
            read_both_ways(&longer, format),
            [Err(SerdeError::InvalidEncoding), Err(SerdeError::InvalidEncoding)]
        );
        let mut shorter = written(&polys, format);
        shorter[11] = 2;
        assert_eq!(read_both_ways(&shorter, format)[0], Err(SerdeError::InvalidEncoding));
        assert_eq!(read_both_ways(&shorter, format)[1], Err(SerdeError::Truncated));
        shorter.extend_from_slice(&[0u8; 32]);
        assert_eq!(
            read_both_ways(&shorter, format),
            [Err(SerdeError::InvalidEncoding), Err(SerdeError::InvalidEncoding)]
        );
    }
}

#[test]
fn single_sequence_survives_a_round_trip() {
    for format in FRAME_FORMATS {
        for len in [0usize, 1, 2, 9] {
            let coeffs = sequence(len, 77);
            let mut bytes = vec![1u8];
            write_polynomial(&coeffs, &mut bytes, format);
            assert_eq!(bytes.len(), 1 + 4 + 32 * len);
            assert_eq!(&bytes[1..5], &(len as u32).to_be_bytes());
            let mut reader = Reader::new(bytes.clone());
            reader.seek(1);
            assert_eq!(read_polynomial(&mut reader, format), Ok(coeffs.clone()));
            assert_eq!(reader.remaining(), 0);
            assert_eq!(decode_polynomial_buffer(&bytes[1..], format), Ok(coeffs));
            bytes.pop();
            let mut cut = Reader::new(bytes);
            cut.seek(1);
            assert_eq!(read_polynomial(&mut cut, format), Err(SerdeError::Truncated));
        }
    }
}

#[test]
fn buffer_must_be_filled_exactly() {
    let coeffs = sequence(2, 5);
    let mut bytes = Vec::new();
    write_polynomial(&coeffs, &mut bytes, SerdeFormat::RawBytes);
    assert_eq!(decode_polynomial_buffer(&bytes, SerdeFormat::RawBytes), Ok(coeffs));
    let mut longer = bytes.clone();
    longer.push(0);
    assert_eq!(
        decode_polynomial_buffer(&longer, SerdeFormat::RawBytes),
        Err(SerdeError::InvalidEncoding)
    );
    assert_eq!(
        decode_polynomial_buffer(&bytes[..bytes.len() - 32], SerdeFormat::RawBytes),
        Err(SerdeError::InvalidEncoding)
    );
    assert_eq!(decode_polynomial_buffer(&bytes[..3], SerdeFormat::RawBytes), Err(SerdeError::Truncated));
}

#[test]
fn buffers_are_cut_as_the_lengths_direct() {
    let input: Vec<u8> = (0..120u8).collect();
    let (buffers, end) = split_buffers(&input, 2, &vec![1, 0, 2]).unwrap();
    assert_eq!(end, 2 + 36 + 4 + 68);
    assert_eq!(buffers.len(), 3);
    assert_eq!(buffers[0], input[2..38].to_vec());
    assert_eq!(buffers[1], input[38..42].to_vec());
    assert_eq!(buffers[2], input[42..110].to_vec());
    assert_eq!(split_buffers(&input, 2, &vec![1, 0, 3]), Err(SerdeError::Truncated));
    assert_eq!(split_buffers(&input, 2, &vec![u32::MAX]), Err(SerdeError::Truncated));
    assert_eq!(split_buffers(&input, 120, &vec![]), Ok((Vec::new(), 120)));
    assert_eq!(split_buffers(&input, 500, &vec![]), Ok((Vec::new(), 500)));
    assert_eq!(split_buffers(&input, 500, &vec![0]), Err(SerdeError::Truncated));
    assert_eq!(split_buffers(&input, 117, &vec![0]), Err(SerdeError::Truncated));
    assert_eq!(split_buffers(&input, 116, &vec![0]), Ok((vec![vec![116, 117, 118, 119]], 120)));
}

#[test]
fn buffer_takes_four_bytes_and_thirty_two_a_scalar() {
    assert_eq!(buffer_size(0), 4);
    assert_eq!(buffer_size(1), 36);
    assert_eq!(buffer_size(3), 100);
    assert_eq!(buffer_size(u32::MAX), 4 + 32 * (u32::MAX as u64));
}

#[test]
fn count_larger_than_the_input_is_truncated() {
    for format in FRAME_FORMATS {
        let bytes = vec![0xffu8, 0xff, 0xff, 0xff, 0, 0, 0, 0];
        assert_eq!(
            read_both_ways(&bytes, format),
            [Err(SerdeError::Truncated), Err(SerdeError::Truncated)]
        );
        let huge = vec![0u8, 0, 0, 1, 0xff, 0xff, 0xff, 0xff, 0xff, 0xff, 0xff, 0xff, 1, 2, 3];
        assert_eq!(
            read_both_ways(&huge, format),
            [Err(SerdeError::Truncated), Err(SerdeError::Truncated)]
        );
    }
}
