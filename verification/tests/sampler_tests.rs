use ecc_eval::bits::diff;
use ecc_eval::sampler::{corrupt, try_corrupt};

#[test]
fn corrupt_zero_returns_equal_copy() {
    let data: Vec<u8> = vec![1, 0, 1, 1, 0, 0, 1, 0];
    assert_eq!(corrupt(&data, 0), data);
}

#[test]
fn corrupt_differs_in_exactly_k_positions() {
    let data: Vec<u8> = vec![0; 40];
    for k in [1usize, 2, 5, 17, 39] {
        let corrupted = corrupt(&data, k);
        assert_eq!(corrupted.len(), data.len());
        assert_eq!(diff(&corrupted, &data).len(), k);
        for bit in &corrupted {
            assert!(*bit <= 1);
        }
    }
}

#[test]
fn corrupt_whole_stream() {
    let data: Vec<u8> = vec![1, 0, 1, 0];
    let corrupted = corrupt(&data, 4);
    assert_eq!(corrupted, vec![0, 1, 0, 1]);
}

#[test]
fn try_corrupt_within_length_succeeds() {
    let data: Vec<u8> = vec![1, 0, 1, 0];
    let corrupted = try_corrupt(&data, 3).unwrap();
    assert_eq!(corrupted.len(), 4);
    assert_eq!(diff(&corrupted, &data).len(), 3);
}

#[test]
fn try_corrupt_beyond_length_fails() {
    let data: Vec<u8> = vec![1, 0, 1, 0];
    assert!(try_corrupt(&data, 5).is_none());
    let empty: Vec<u8> = Vec::new();
    assert!(try_corrupt(&empty, 1).is_none());
}
