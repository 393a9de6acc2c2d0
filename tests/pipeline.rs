use compression::{Bwt, Coder, Huffman, MoveToFront};

fn round_trip(data: &[u8]) -> Vec<u8> {
    let encoded =
        Huffman::encode(&MoveToFront::encode(&Bwt::encode(data).unwrap()).unwrap()).unwrap();
    Bwt::decode(&MoveToFront::decode(&Huffman::decode(&encoded).unwrap()).unwrap()).unwrap()
}

#[test]
fn pipeline_random_buffer() {
    let data: Vec<u8> = (0..32 * 1024).map(|_| rand::random::<u8>()).collect();
    assert_eq!(round_trip(&data), data);
}

#[test]
fn pipeline_text() {
    let data = b"she sells sea shells by the sea shore, the shells she sells are sea shells";
    assert_eq!(round_trip(data), data.to_vec());
}

#[test]
fn pipeline_empty() {
    assert_eq!(round_trip(&[]), Vec::<u8>::new());
}
