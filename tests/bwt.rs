use compression::{Bwt, CodecError, Coder};

#[test]
fn transform() {
    let input = [3_u8, 8, 8, 3, 2, 1];
    let output = Bwt::decode(&Bwt::encode(&input).unwrap()).unwrap();
    assert_eq!(Vec::from(input), output)
}

#[test]
fn transform_2() {
    let input = &[46_u8, 46];
    let output = Bwt::decode(&Bwt::encode(input).unwrap()).unwrap();
    assert_eq!(Vec::from(&input[..]), output)
}

#[test]
fn transform_large() {
    let b = Bwt::new(10);
    let input: Vec<u8> = (0..(1 << 10) + 2347)
        .into_iter()
        .map(|_| rand::random::<u8>())
        .collect();
    let output = b.decode_s(&b.encode_s(&input).unwrap()).unwrap();
    assert_eq!(input, output)
}

#[test]
fn bwt_empty_input() {
    let encoded = Bwt::encode(&[]).unwrap();
    assert_eq!(encoded, vec![0, 0, 0, 0]);
    assert_eq!(Bwt::decode(&encoded).unwrap(), Vec::<u8>::new());
}

#[test]
fn bwt_known_transform() {
    // rotations of "banana" sorted: abanan, anaban, ananab, banana, nabana, nanaba
    let encoded = Bwt::encode(b"banana").unwrap();
    let mut expected = vec![6, 0, 0, 0, 3, 0, 0, 0];
    expected.extend_from_slice(b"nnbaaa");
    assert_eq!(encoded, expected);
}

#[test]
fn bwt_header_is_first_block_length() {
    let b = Bwt::new(2);
    let input = [9_u8, 1, 4, 4, 7, 0, 2];
    let encoded = b.encode_s(&input).unwrap();
    assert_eq!(&encoded[..4], &[4, 0, 0, 0]);
    // two blocks: 4 + 4 bytes, then 4 + 3 bytes
    assert_eq!(encoded.len(), 4 + 8 + 7);
    assert_eq!(b.decode_s(&encoded).unwrap(), input.to_vec());
    let whole = Bwt::new(5).encode_s(&input).unwrap();
    assert_eq!(&whole[..4], &[7, 0, 0, 0]);
}

#[test]
fn bwt_block_pow_zero() {
    let b = Bwt::new(0);
    let input = [5_u8, 6, 7];
    let encoded = b.encode_s(&input).unwrap();
    assert_eq!(encoded, vec![1, 0, 0, 0, 0, 0, 0, 0, 5, 0, 0, 0, 0, 6, 0, 0, 0, 0, 7]);
    assert_eq!(b.decode_s(&encoded).unwrap(), input.to_vec());
    assert_eq!(b.block_pow(), 0);
}

#[test]
fn bwt_decode_zero_block_length_stops() {
    let input = [0_u8, 0, 0, 0, 0, 0, 0, 0, 0, 0xa];
    assert_eq!(Bwt::decode(&input).unwrap(), Vec::<u8>::new());
}

#[test]
fn bwt_decode_short_input() {
    assert_eq!(Bwt::decode(&[1, 0, 0]), Err(CodecError::MalformedInput));
    assert_eq!(Bwt::decode(&[]), Err(CodecError::MalformedInput));
}

#[test]
fn bwt_decode_row_out_of_range() {
    // block length 2, row 2 with a block of two bytes
    let input = [2_u8, 0, 0, 0, 2, 0, 0, 0, 1, 2];
    assert_eq!(Bwt::decode(&input), Err(CodecError::MalformedInput));
}

#[test]
fn bwt_decode_truncated_block_header() {
    let mut encoded = Bwt::encode(&[1, 2, 3]).unwrap();
    encoded.extend_from_slice(&[0, 0]);
    assert_eq!(Bwt::decode(&encoded), Err(CodecError::MalformedInput));
}

#[test]
fn bwt_encode_is_deterministic() {
    let input = b"mississippi river";
    assert_eq!(Bwt::encode(input).unwrap(), Bwt::encode(input).unwrap());
}
