use compression::{get_list, Coder, MoveToFront};

#[test]
fn move_to_front() {
    let input = b"Hello, World!!!!!";
    let encoded = MoveToFront::encode(input);
    println!("{:?}", encoded);
    let output = MoveToFront::decode(&encoded.unwrap()).unwrap();
    assert_eq!(input, &output[..]);
}

#[test]
fn mtf_keeps_length() {
    let input = b"Hello, World!!!!!";
    assert_eq!(MoveToFront::encode(input).unwrap().len(), 17);
}

#[test]
fn mtf_known_ranks() {
    assert_eq!(MoveToFront::encode(&[1, 1, 0, 2]).unwrap(), vec![1, 0, 1, 2]);
    assert_eq!(MoveToFront::decode(&[1, 0, 1, 2]).unwrap(), vec![1, 1, 0, 2]);
}

#[test]
fn mtf_empty_input() {
    assert_eq!(MoveToFront::encode(&[]).unwrap(), Vec::<u8>::new());
    assert_eq!(MoveToFront::decode(&[]).unwrap(), Vec::<u8>::new());
}

#[test]
fn mtf_all_bytes_round_trip() {
    let input: Vec<u8> = (0..=255u8).rev().chain(0..=255u8).collect();
    let m = MoveToFront {};
    let encoded = m.encode_s(&input).unwrap();
    assert_eq!(encoded.len(), input.len());
    assert_eq!(m.decode_s(&encoded).unwrap(), input);
}

#[test]
fn identity_list() {
    let list = get_list();
    assert_eq!(list.len(), 256);
    for (i, v) in list.iter().enumerate() {
        assert_eq!(*v as usize, i);
    }
}
