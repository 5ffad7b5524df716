use ecc_eval::bits::bytes_to_bits;
use ecc_eval::ecc::ErrorCorrectingCode;
use ecc_eval::harness::{evaluate, severity_stats, worst_pair};
use ecc_eval::vote::VoteECC;

#[test]
fn worst_pair_takes_greatest_first_count() {
    let pairs: Vec<(usize, usize)> = vec![(3, 9), (5, 1), (2, 0)];
    assert_eq!(worst_pair(&pairs), (5, 1));
}

#[test]
fn worst_pair_tie_goes_to_earliest() {
    let pairs: Vec<(usize, usize)> = vec![(3, 9), (5, 1), (5, 7), (2, 0)];
    assert_eq!(worst_pair(&pairs), (5, 1));
}

#[test]
fn worst_pair_single_element() {
    let pairs: Vec<(usize, usize)> = vec![(0, 4)];
    assert_eq!(worst_pair(&pairs), (0, 4));
}

#[test]
fn severity_one_on_hello_decodes_exactly() {
    let bytes: Vec<u8> = vec![b'h', b'e', b'l', b'l', b'o'];
    let original = bytes_to_bits(&bytes);
    assert_eq!(original.len(), 40);
    let ecc = VoteECC { votes: 3 };
    let encoded = ecc.encode(&original);
    assert_eq!(encoded.len(), 120);
    let report = severity_stats(&ecc, &encoded, &original, 1, 1000);
    assert_eq!(report.trials.len(), 1000);
    // A single flipped replica is always outvoted by the other two, so
    // every trial decodes back to the original exactly.
    for (corrupted_diff, decoded_diff) in &report.trials {
        assert!(*corrupted_diff <= 1);
        assert_eq!(*decoded_diff, 0);
    }
    assert_eq!(report.worst_decoded, 0);
    assert!(report.worst_corrupted <= 1);
}

#[test]
fn evaluate_sweeps_severities_in_order() {
    let bytes: Vec<u8> = vec![b'h', b'e', b'l', b'l', b'o'];
    let original = bytes_to_bits(&bytes);
    let ecc = VoteECC { votes: 3 };
    let evaluation = evaluate(&ecc, &original, 2, 50);
    assert_eq!(evaluation.original_len, 40);
    assert_eq!(evaluation.encoded_len, 120);
    assert_eq!(evaluation.severities.len(), 2);
    for (idx, report) in evaluation.severities.iter().enumerate() {
        assert_eq!(report.trials.len(), 50);
        for (corrupted_diff, _) in &report.trials {
            assert!(*corrupted_diff <= idx + 1);
        }
    }
    // Severity 1 never flips more than one replica of a position.
    assert_eq!(evaluation.severities[0].worst_decoded, 0);
}

#[test]
fn severity_zero_reports_no_differences() {
    let ecc = VoteECC { votes: 3 };
    let original: Vec<u8> = vec![1, 0, 1, 1];
    let encoded = ecc.encode(&original);
    let report = severity_stats(&ecc, &encoded, &original, 0, 10);
    assert_eq!(report.worst_corrupted, 0);
    assert_eq!(report.worst_decoded, 0);
}
