use compression::{create_tree, CodecError, Coder, Huffman, Node};

#[test]
fn create_codes() {
    let mut freqs: Vec<u32> = vec![0; 256];
    freqs[3] = 3000;
    freqs[40] = 20;

    let (nodes, root) = create_tree(&freqs);
    assert_eq!(nodes.len(), 511);
    assert_eq!(root, 510);
    assert_eq!(nodes[root].freq, 3020);
}

#[test]
fn roundtrip() {
    let input = [1, 2, 3, 3, 3, 3, 4, 8, 19];
    let output = Huffman::decode(&Huffman::encode(&input).unwrap()).unwrap();
    assert_eq!(Vec::from(input), output);
}

#[test]
fn huffman_header_holds_frequencies() {
    let input = [1_u8, 2, 3, 3, 3, 3, 4, 8, 19];
    let encoded = Huffman::encode(&input).unwrap();
    assert!(encoded.len() > 1024);
    for b in 0..256usize {
        let v = u32::from_le_bytes([
            encoded[4 * b],
            encoded[4 * b + 1],
            encoded[4 * b + 2],
            encoded[4 * b + 3],
        ]);
        let expected = match b {
            3 => 4,
            1 | 2 | 4 | 8 | 19 => 1,
            _ => 0,
        };
        assert_eq!(v, expected);
    }
}

#[test]
fn huffman_empty_input() {
    let encoded = Huffman::encode(&[]).unwrap();
    assert_eq!(encoded, vec![0; 1024]);
    assert_eq!(Huffman::decode(&encoded).unwrap(), Vec::<u8>::new());
}

#[test]
fn huffman_decode_short_input() {
    assert_eq!(Huffman::decode(&[]), Err(CodecError::MalformedInput));
    assert_eq!(Huffman::decode(&[0; 1023]), Err(CodecError::MalformedInput));
}

#[test]
fn huffman_decode_exhausted_payload() {
    let mut encoded = Huffman::encode(&[7, 7, 7, 9, 9, 1, 2, 3]).unwrap();
    encoded.truncate(1024);
    assert_eq!(Huffman::decode(&encoded), Err(CodecError::MalformedInput));
}

#[test]
fn huffman_single_byte_value() {
    let input = vec![42_u8; 100];
    let h = Huffman {};
    let encoded = h.encode_s(&input).unwrap();
    assert!(encoded.len() > 1024);
    assert_eq!(h.decode_s(&encoded).unwrap(), input);
}

#[test]
fn huffman_is_deterministic() {
    let input = b"abracadabra";
    assert_eq!(Huffman::encode(input).unwrap(), Huffman::encode(input).unwrap());
}

#[test]
fn huffman_payload_shorter_than_input() {
    let input = vec![0_u8; 800];
    let encoded = Huffman::encode(&input).unwrap();
    assert!(encoded.len() < 1024 + 800);
}

#[test]
fn empty_node() {
    let n = Node::new();
    assert!(!n.leaf);
    assert_eq!(n.freq, 0);
    assert!(n.left.is_none() && n.right.is_none());
}

#[test]
fn error_description() {
    assert_eq!(
        CodecError::MalformedInput.description(),
        "input file is not properly encoded"
    );
}
