use incrementalmerkletree::frontier::Frontier;
use orchard::tree::MerkleHashOrchard;
use zcash_vote_server::ballot::{compute_new_cmx_root, Action, Anchors, BallotData, VoteError};
use zcash_vote_server::digest::vote_bft_digest;
use zcash_vote_server::envelope::{decode_tx, encode_tx};
use zcash_vote_server::frontier::{AppendError, CmxFrontier};

fn leaf(v: u8) -> [u8; 32] {
    let mut b = [0u8; 32];
    b[0] = v;
    b
}

#[test]
fn rollup_digest_uses_the_personalisation() {
    let d = vote_bft_digest(b"abc");
    assert_eq!(d.len(), 32);
    let expected = blake2b_simd::Params::new()
        .hash_length(32)
        .personal(b"Zcash_Vote_CmBFT")
        .hash(b"abc");
    assert_eq!(d, expected.as_bytes().to_vec());
    let plain = blake2b_simd::Params::new().hash_length(32).hash(b"abc");
    assert_ne!(d, plain.as_bytes().to_vec());
}

#[test]
fn envelope_layout_and_round_trip() {
    let bytes = encode_tx(&"ab".to_string(), &vec![9, 8, 7]);
    assert_eq!(bytes, vec![2, 0, 0, 0, 0, 0, 0, 0, b'a', b'b', 9, 8, 7]);
    let tx = decode_tx(&bytes).unwrap();
    assert_eq!(tx.id, "ab");
    assert_eq!(tx.ballot, vec![9, 8, 7]);
    let empty = encode_tx(&String::new(), &vec![]);
    assert_eq!(empty, vec![0u8; 8]);
    let tx = decode_tx(&empty).unwrap();
    assert_eq!(tx.id, "");
    assert!(tx.ballot.is_empty());
}

#[test]
fn envelope_matches_bincode_string_prefix() {
    let id = "0123abcd".to_string();
    let mut expected = bincode::serialize(&id).unwrap();
    expected.extend_from_slice(&[1, 2, 3]);
    assert_eq!(encode_tx(&id, &vec![1, 2, 3]), expected);
}

#[test]
fn malformed_envelopes_are_refused() {
    assert!(matches!(decode_tx(&[1, 0, 0]), Err(VoteError::MalformedTx)));
    assert!(matches!(decode_tx(&[3, 0, 0, 0, 0, 0, 0, 0, b'a']), Err(VoteError::MalformedTx)));
    assert!(matches!(decode_tx(&[0xff; 8]), Err(VoteError::MalformedTx)));
    assert!(matches!(decode_tx(&[1, 0, 0, 0, 0, 0, 0, 0, 0xff]), Err(VoteError::MalformedTx)));
}

#[test]
fn frontier_root_matches_the_merkle_tree() {
    let mut f = CmxFrontier::empty();
    let mut reference: Frontier<MerkleHashOrchard, 32> = Frontier::empty();
    assert_eq!(f.root(), reference.root().to_bytes());
    for v in 1..5u8 {
        assert_eq!(f.append(&leaf(v)), Ok(()));
        reference.append(MerkleHashOrchard::from_bytes(&leaf(v)).unwrap());
        assert_eq!(f.root(), reference.root().to_bytes());
    }
    let copy = f.duplicate();
    assert_eq!(copy.root(), f.root());
}

#[test]
fn non_canonical_leaf_is_refused() {
    let mut f = CmxFrontier::empty();
    let before = f.root();
    assert_eq!(f.append(&[0xffu8; 32]), Err(AppendError::NonCanonical));
    assert_eq!(f.root(), before);
}

#[test]
fn new_root_after_a_ballot() {
    let data = BallotData {
        anchors: Anchors { nf: [0u8; 32], cmx: [0u8; 32] },
        actions: vec![
            Action { cmx: leaf(1), nf: [1u8; 32] },
            Action { cmx: leaf(2), nf: [2u8; 32] },
        ],
    };
    let mut f = CmxFrontier::empty();
    assert_eq!(compute_new_cmx_root(&mut f, &data), Ok(()));
    let mut g = CmxFrontier::empty();
    g.append(&leaf(1)).unwrap();
    g.append(&leaf(2)).unwrap();
    assert_eq!(f.root(), g.root());
    assert_ne!(f.root(), CmxFrontier::empty().root());
}

#[test]
fn error_messages() {
    assert_eq!(VoteError::ElectionClosed.message(), "Election is closed");
    assert_eq!(VoteError::UnknownCommitmentAnchor.message(), "Invalid cmx root");
    assert_eq!(VoteError::MalformedTx.message(), "Malformed transaction");
}
