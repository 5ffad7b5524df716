use ecc_eval::bits::{bits_to_bytes, bytes_to_bits, diff};

#[test]
fn bytes_to_bits_hello_length() {
    let bytes: Vec<u8> = vec![b'h', b'e', b'l', b'l', b'o'];
    let bits = bytes_to_bits(&bytes);
    assert_eq!(bits.len(), 40);
}

#[test]
fn bytes_to_bits_exact_pattern() {
    let bits = bytes_to_bits(&vec![0xA5u8]);
    assert_eq!(bits, vec![1, 0, 1, 0, 0, 1, 0, 1]);
    let bits = bytes_to_bits(&vec![0x01u8]);
    assert_eq!(bits, vec![0, 0, 0, 0, 0, 0, 0, 1]);
    let bits = bytes_to_bits(&vec![0x80u8]);
    assert_eq!(bits, vec![1, 0, 0, 0, 0, 0, 0, 0]);
}

#[test]
fn bytes_to_bits_empty() {
    let bits = bytes_to_bits(&Vec::new());
    assert!(bits.is_empty());
}

#[test]
fn bits_to_bytes_exact() {
    let bytes = bits_to_bytes(&vec![1, 0, 1, 0, 0, 1, 0, 1]);
    assert_eq!(bytes, vec![0xA5]);
}

#[test]
fn bytes_bits_round_trip() {
    let cases: Vec<Vec<u8>> = vec![
        vec![b'h', b'e', b'l', b'l', b'o'],
        vec![0, 255, 7],
        vec![0x00],
        Vec::new(),
    ];
    for bytes in cases {
        let bits = bytes_to_bits(&bytes);
        assert_eq!(bits_to_bytes(&bits), bytes);
    }
}

#[test]
fn diff_positions_and_count() {
    let lhs: Vec<u8> = vec![0, 1, 0, 1];
    let rhs: Vec<u8> = vec![0, 0, 0, 0];
    assert_eq!(diff(&lhs, &rhs), vec![1, 3]);
}

#[test]
fn diff_ignores_length_mismatch() {
    let lhs: Vec<u8> = vec![1, 1, 1];
    let rhs: Vec<u8> = vec![1, 0];
    assert_eq!(diff(&lhs, &rhs), vec![1]);
    let empty: Vec<u8> = Vec::new();
    assert_eq!(diff(&lhs, &empty), Vec::<usize>::new());
}
