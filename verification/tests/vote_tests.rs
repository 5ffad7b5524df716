use ecc_eval::ecc::ErrorCorrectingCode;
use ecc_eval::vote::VoteECC;

#[test]
fn encode_repeats_input() {
    let ecc = VoteECC { votes: 3 };
    let data: Vec<u8> = vec![1, 0, 1];
    assert_eq!(ecc.encode(&data), vec![1, 0, 1, 1, 0, 1, 1, 0, 1]);
}

#[test]
fn encode_single_vote_is_identity() {
    let ecc = VoteECC { votes: 1 };
    let data: Vec<u8> = vec![1, 0, 0, 1];
    assert_eq!(ecc.encode(&data), data);
}

#[test]
fn encode_empty() {
    let ecc = VoteECC { votes: 3 };
    let data: Vec<u8> = Vec::new();
    assert!(ecc.encode(&data).is_empty());
}

#[test]
fn decode_of_encode_round_trip() {
    for votes in [1usize, 2, 3, 4, 5] {
        let ecc = VoteECC { votes };
        let data: Vec<u8> = vec![1, 0, 1, 1, 0, 0, 1, 0];
        assert_eq!(ecc.decode(&ecc.encode(&data)), data);
    }
}

#[test]
fn decode_outvotes_single_flipped_replica() {
    let ecc = VoteECC { votes: 3 };
    let data: Vec<u8> = vec![1, 0];
    let mut encoded = ecc.encode(&data);
    assert_eq!(encoded, vec![1, 0, 1, 0, 1, 0]);
    // The replicas of position 0 sit at indices 0, 2 and 4; flip one.
    encoded[0] = 0;
    assert_eq!(ecc.decode(&encoded), data);
}

#[test]
fn decode_two_flipped_replicas_follow_majority() {
    let ecc = VoteECC { votes: 3 };
    let data: Vec<u8> = vec![1, 0];
    let mut encoded = ecc.encode(&data);
    // Flip two of the three replicas of position 0: the majority flips too.
    encoded[0] = 0;
    encoded[2] = 0;
    assert_eq!(ecc.decode(&encoded), vec![0, 0]);
}

#[test]
fn decode_drops_remainder_bits() {
    let ecc = VoteECC { votes: 3 };
    // Ten bits are not divisible into three segments: the last bit is
    // dropped and the segments have length 10 / 3 == 3.
    let data: Vec<u8> = vec![1, 1, 1, 0, 0, 0, 1, 1, 1, 1];
    assert_eq!(ecc.decode(&data), vec![1, 1, 1]);
}

#[test]
fn decode_even_tie_rounds_up() {
    let ecc = VoteECC { votes: 2 };
    // Position 0 has replica values 1 and 0: a tie, rounded half up to 1.
    let data: Vec<u8> = vec![1, 0, 0, 0];
    assert_eq!(ecc.decode(&data), vec![1, 0]);
}
