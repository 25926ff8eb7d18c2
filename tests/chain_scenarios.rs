use incrementalmerkletree::frontier::Frontier;
use orchard::tree::MerkleHashOrchard;
use zcash_vote_server::adapter::{app_info, check_tx_result, finalize_tx_result};
use zcash_vote_server::ballot::{Action, Anchors, Ballot, BallotData, ValidationError, VoteError};
use zcash_vote_server::chain::{Command, Reply, VoteChainRunner};
use zcash_vote_server::db::{
    close_all_elections, create_schema, get_ballot_height, get_election, get_num_ballots,
    has_nullifier, set_closed, store_election, VoteStore,
};
use zcash_vote_server::frontier::CmxFrontier;

const ELECTION: &str = "0101010101010101010101010101010101010101010101010101010101010101";
const NF_ANCHOR: [u8; 32] = [7u8; 32];

fn leaf(v: u8) -> [u8; 32] {
    let mut b = [0u8; 32];
    b[0] = v;
    b
}

fn rollup(input: &[u8]) -> String {
    let h = blake2b_simd::Params::new()
        .hash_length(32)
        .personal(b"Zcash_Vote_CmBFT")
        .hash(input);
    hex::encode(h.as_bytes())
}

fn reference_root(leaves: &[[u8; 32]]) -> [u8; 32] {
    let mut f: Frontier<MerkleHashOrchard, 32> = Frontier::empty();
    for l in leaves {
        assert!(f.append(MerkleHashOrchard::from_bytes(l).unwrap()));
    }
    f.root().to_bytes()
}

fn store_with(ids: &[&str]) -> VoteStore {
    let mut store = create_schema();
    for id in ids {
        store_election(
            &mut store,
            id.to_string(),
            "{}".to_string(),
            true,
            NF_ANCHOR,
            CmxFrontier::empty(),
            false,
        );
    }
    store
}

fn ballot(sighash: u8, anchor_cmx: [u8; 32], actions: &[(u8, u8)]) -> Ballot {
    Ballot {
        sighash: [sighash; 32],
        data: BallotData {
            anchors: Anchors { nf: NF_ANCHOR, cmx: anchor_cmx },
            actions: actions
                .iter()
                .map(|(c, n)| Action { cmx: leaf(*c), nf: [*n; 32] })
                .collect(),
        },
    }
}

fn id() -> String {
    ELECTION.to_string()
}

#[test]
fn empty_chain_reports_height_zero_and_empty_rollup() {
    let runner = VoteChainRunner::new(create_schema());
    let state = runner.info();
    assert_eq!(state.height, 0);
    assert_eq!(state.hash, rollup(b""));
    let info = app_info(&runner);
    assert_eq!(info.data, "zcash-vote-bft");
    assert_eq!(info.app_version, 1);
    assert_eq!(info.last_block_height, 0);
    assert_eq!(hex::encode(&info.last_block_app_hash), rollup(b""));
}

#[test]
fn single_valid_ballot_is_finalized() {
    let r0 = reference_root(&[]);
    let mut runner = VoteChainRunner::new(store_with(&[ELECTION]));
    assert_eq!(runner.info().hash, rollup(&r0));

    let checked = runner.check_ballot(&id(), &ballot(9, r0, &[(1, 11), (2, 12)]), Ok(()));
    assert_eq!(checked, Ok(hex::encode([9u8; 32])));
    assert_eq!(check_tx_result(&checked).code, 0);
    assert_eq!(runner.prepare_proposal(&ballot(9, r0, &[(1, 11), (2, 12)])), None);

    let fin = runner.finalize_ballot(&id(), ballot(9, r0, &[(1, 11), (2, 12)]));
    assert_eq!(fin, Ok(hex::encode([9u8; 32])));
    assert_eq!(finalize_tx_result(&fin).data, "Validated");
    let state = runner.commit();
    assert_eq!(state.height, 1);

    let store = runner.store();
    assert_eq!(get_num_ballots(store, &id()), Ok(1));
    let e = get_election(store, &id()).unwrap();
    let r1 = reference_root(&[leaf(1), leaf(2)]);
    assert_eq!(e.roots.len(), 2);
    assert_eq!(e.roots[0], r0);
    assert_eq!(e.roots[1], r1);
    assert_eq!(e.frontiers[1].root(), r1);
    assert!(has_nullifier(e, &[11u8; 32]));
    assert!(has_nullifier(e, &[12u8; 32]));
    assert!(!has_nullifier(e, &[13u8; 32]));
    assert_eq!(state.hash, rollup(&r1));
    assert_eq!(runner.info().hash, rollup(&r1));
    assert_eq!(hex::encode(app_info(&runner).last_block_app_hash), rollup(&r1));
}

#[test]
fn double_spend_within_one_block() {
    let r0 = reference_root(&[]);
    let mut runner = VoteChainRunner::new(store_with(&[ELECTION]));
    let first = ballot(1, r0, &[(1, 50), (2, 51)]);
    let second = ballot(2, r0, &[(3, 52), (4, 50)]);
    assert_eq!(runner.prepare_proposal(&first), None);
    assert_eq!(runner.prepare_proposal(&second), Some(VoteError::DoubleSpend));

    let a = runner.finalize_ballot(&id(), ballot(1, r0, &[(1, 50), (2, 51)]));
    let b = runner.finalize_ballot(&id(), ballot(2, r0, &[(3, 52), (4, 50)]));
    assert_eq!(finalize_tx_result(&a).code, 0);
    assert_eq!(finalize_tx_result(&b).code, 1);
    assert_eq!(b, Err(VoteError::DoubleSpend));
    assert_eq!(
        finalize_tx_result(&b).data,
        "Validation failed: Duplicate nullifier: double spend"
    );
    assert_eq!(get_num_ballots(runner.store(), &id()), Ok(1));
}

#[test]
fn repeated_nullifier_inside_one_ballot_is_refused() {
    let r0 = reference_root(&[]);
    let mut runner = VoteChainRunner::new(store_with(&[ELECTION]));
    assert_eq!(
        runner.prepare_proposal(&ballot(1, r0, &[(1, 60), (2, 60)])),
        Some(VoteError::DoubleSpend)
    );
    assert_eq!(
        runner.finalize_ballot(&id(), ballot(1, r0, &[(1, 60), (2, 60)])),
        Err(VoteError::DoubleSpend)
    );
}

#[test]
fn replayed_ballot_is_a_double_spend() {
    let r0 = reference_root(&[]);
    let mut runner = VoteChainRunner::new(store_with(&[ELECTION]));
    assert!(runner.check_ballot(&id(), &ballot(9, r0, &[(1, 11), (2, 12)]), Ok(())).is_ok());
    assert!(runner.finalize_ballot(&id(), ballot(9, r0, &[(1, 11), (2, 12)])).is_ok());
    runner.commit();
    let again = runner.check_ballot(&id(), &ballot(9, r0, &[(1, 11), (2, 12)]), Ok(()));
    assert_eq!(again, Err(VoteError::DoubleSpend));
    assert_eq!(check_tx_result(&again).code, 1);
    assert_eq!(check_tx_result(&again).data, "Duplicate nullifier: double spend");
    assert_eq!(
        runner.finalize_ballot(&id(), ballot(9, r0, &[(1, 11), (2, 12)])),
        Err(VoteError::DoubleSpend)
    );
}

#[test]
fn unknown_commitment_anchor() {
    let mut runner = VoteChainRunner::new(store_with(&[ELECTION]));
    let r = runner.check_ballot(&id(), &ballot(3, [0u8; 32], &[(1, 1)]), Ok(()));
    assert_eq!(r, Err(VoteError::UnknownCommitmentAnchor));
    assert_eq!(
        runner.finalize_ballot(&id(), ballot(3, [0u8; 32], &[(1, 1)])),
        Err(VoteError::UnknownCommitmentAnchor)
    );
}

#[test]
fn older_roots_remain_valid_anchors() {
    let r0 = reference_root(&[]);
    let mut runner = VoteChainRunner::new(store_with(&[ELECTION]));
    assert!(runner.finalize_ballot(&id(), ballot(1, r0, &[(1, 1)])).is_ok());
    assert!(runner.finalize_ballot(&id(), ballot(2, r0, &[(2, 2)])).is_ok());
    let r1 = reference_root(&[leaf(1)]);
    assert!(runner.finalize_ballot(&id(), ballot(3, r1, &[(3, 3)])).is_ok());
    let store = runner.store();
    let e = get_election(store, &id()).unwrap();
    assert_eq!(e.roots[3], reference_root(&[leaf(1), leaf(2), leaf(3)]));
    assert_eq!(get_ballot_height(store, &id(), 3).unwrap().sighash, [3u8; 32]);
    assert_eq!(get_ballot_height(store, &id(), 1).unwrap().sighash, [1u8; 32]);
    assert!(matches!(get_ballot_height(store, &id(), 0), Err(VoteError::StorageError)));
    assert!(matches!(get_ballot_height(store, &id(), 4), Err(VoteError::StorageError)));
}

#[test]
fn closed_election_refuses_ballots() {
    let r0 = reference_root(&[]);
    let mut store = store_with(&[ELECTION]);
    assert_eq!(set_closed(&mut store, &id(), true), Ok(()));
    let mut runner = VoteChainRunner::new(store);
    assert_eq!(
        runner.check_ballot(&id(), &ballot(9, r0, &[(1, 11)]), Ok(())),
        Err(VoteError::ElectionClosed)
    );
    assert_eq!(
        runner.finalize_ballot(&id(), ballot(9, r0, &[(1, 11)])),
        Err(VoteError::ElectionClosed)
    );
    assert_eq!(get_num_ballots(runner.store(), &id()), Ok(0));
}

#[test]
fn close_all_then_reregister_reopens() {
    let r0 = reference_root(&[]);
    let mut store = store_with(&[ELECTION]);
    close_all_elections(&mut store);
    assert!(get_election(&store, &id()).unwrap().closed);
    store_election(&mut store, id(), "{\"v\":2}".to_string(), true, NF_ANCHOR, CmxFrontier::empty(), false);
    let e = get_election(&store, &id()).unwrap();
    assert!(!e.closed);
    assert_eq!(e.definition, "{\"v\":2}");
    assert_eq!(store.elections.len(), 1);
    let mut runner = VoteChainRunner::new(store);
    assert!(runner.finalize_ballot(&id(), ballot(1, r0, &[(1, 1)])).is_ok());
}

#[test]
fn unknown_election_is_reported() {
    let mut runner = VoteChainRunner::new(store_with(&[ELECTION]));
    let other = "ff".to_string();
    assert_eq!(
        runner.check_ballot(&other, &ballot(1, [0u8; 32], &[]), Ok(())),
        Err(VoteError::ElectionNotFound)
    );
    assert_eq!(
        runner.finalize_ballot(&other, ballot(1, [0u8; 32], &[])),
        Err(VoteError::ElectionNotFound)
    );
    assert!(matches!(get_num_ballots(runner.store(), &other), Err(VoteError::ElectionNotFound)));
}

#[test]
fn validation_and_nullifier_root_failures() {
    let r0 = reference_root(&[]);
    let mut runner = VoteChainRunner::new(store_with(&[ELECTION]));
    assert_eq!(
        runner.check_ballot(&id(), &ballot(1, r0, &[(1, 1)]), Err(ValidationError::InvalidProof)),
        Err(VoteError::InvalidProof)
    );
    assert_eq!(
        runner.check_ballot(&id(), &ballot(2, r0, &[(1, 1)]), Err(ValidationError::InvalidSignature)),
        Err(VoteError::InvalidSignature)
    );
    let mut wrong = ballot(3, r0, &[(1, 1)]);
    wrong.data.anchors.nf = [8u8; 32];
    let r = runner.check_ballot(&id(), &wrong, Ok(()));
    assert_eq!(r, Err(VoteError::NullifierRootMismatch));
    assert_eq!(check_tx_result(&r).data, "Incorrect nullifier root");
}

#[test]
fn check_cache_answers_repeated_checks() {
    let r0 = reference_root(&[]);
    let mut runner = VoteChainRunner::new(store_with(&[ELECTION]));
    assert_eq!(
        runner.check_ballot(&id(), &ballot(4, r0, &[(1, 1)]), Err(ValidationError::InvalidProof)),
        Err(VoteError::InvalidProof)
    );
    // Same digest: the cached judgment stands even though validation now passes.
    assert_eq!(
        runner.check_ballot(&id(), &ballot(4, r0, &[(1, 1)]), Ok(())),
        Err(VoteError::InvalidProof)
    );
}

#[test]
fn finalize_evicts_the_cached_judgment() {
    let r0 = reference_root(&[]);
    let mut runner = VoteChainRunner::new(store_with(&[ELECTION]));
    assert!(runner.check_ballot(&id(), &ballot(5, r0, &[(1, 21)]), Ok(())).is_ok());
    assert!(runner.finalize_ballot(&id(), ballot(5, r0, &[(1, 21)])).is_ok());
    assert_eq!(
        runner.check_ballot(&id(), &ballot(5, r0, &[(1, 21)]), Ok(())),
        Err(VoteError::DoubleSpend)
    );
}

#[test]
fn finalize_clears_the_pending_nullifiers() {
    let r0 = reference_root(&[]);
    let mut runner = VoteChainRunner::new(store_with(&[ELECTION]));
    assert_eq!(runner.prepare_proposal(&ballot(1, r0, &[(1, 30)])), None);
    assert!(runner.finalize_ballot(&id(), ballot(6, r0, &[(2, 31)])).is_ok());
    assert_eq!(runner.prepare_proposal(&ballot(1, r0, &[(1, 30)])), None);
}

#[test]
fn non_canonical_commitment_is_malformed() {
    let r0 = reference_root(&[]);
    let mut runner = VoteChainRunner::new(store_with(&[ELECTION]));
    let mut b = ballot(1, r0, &[(1, 1)]);
    b.data.actions[0].cmx = [0xffu8; 32];
    assert_eq!(runner.finalize_ballot(&id(), b), Err(VoteError::MalformedTx));
    assert_eq!(get_num_ballots(runner.store(), &id()), Ok(0));
    assert!(!has_nullifier(get_election(runner.store(), &id()).unwrap(), &[1u8; 32]));
}

#[test]
fn app_hash_rolls_up_tips_in_identifier_order() {
    let b_id = "bb".to_string();
    let a_id = "aa".to_string();
    let store = store_with(&["bb", "aa"]);
    assert_eq!(store.elections[0].id, "aa");
    let r0 = reference_root(&[]);
    let mut runner = VoteChainRunner::new(store);
    assert!(runner.finalize_ballot(&b_id, ballot(1, r0, &[(5, 5)])).is_ok());
    let rb = reference_root(&[leaf(5)]);
    let mut input = Vec::new();
    input.extend_from_slice(&r0);
    input.extend_from_slice(&rb);
    assert_eq!(runner.info().hash, rollup(&input));
    assert!(runner.finalize_ballot(&a_id, ballot(2, r0, &[(6, 6)])).is_ok());
    let ra = reference_root(&[leaf(6)]);
    let mut input = Vec::new();
    input.extend_from_slice(&ra);
    input.extend_from_slice(&rb);
    assert_eq!(runner.info().hash, rollup(&input));
}

#[test]
fn two_replicas_agree() {
    let r0 = reference_root(&[]);
    let mut a = VoteChainRunner::new(store_with(&[ELECTION, "cc"]));
    let mut b = VoteChainRunner::new(store_with(&["cc", ELECTION]));
    for (s, c, n) in [(1u8, 1u8, 1u8), (2, 2, 2), (3, 3, 2)] {
        let ra = a.finalize_ballot(&id(), ballot(s, r0, &[(c, n)]));
        let rb = b.finalize_ballot(&id(), ballot(s, r0, &[(c, n)]));
        assert_eq!(ra, rb);
        assert_eq!(a.info().hash, b.info().hash);
    }
    assert_eq!(a.commit().hash, b.commit().hash);
}

#[test]
fn commands_are_dispatched() {
    let r0 = reference_root(&[]);
    let mut runner = VoteChainRunner::new(store_with(&[ELECTION]));
    match runner.process_command(Command::CheckBallot(id(), ballot(1, r0, &[(1, 1)]), Ok(()))) {
        Reply::Checked(r) => assert_eq!(r, Ok(hex::encode([1u8; 32]))),
        _ => panic!("wrong reply"),
    }
    match runner.process_command(Command::PrepareProposal(id(), ballot(1, r0, &[(1, 1)]))) {
        Reply::Proposed(r) => assert_eq!(r, None),
        _ => panic!("wrong reply"),
    }
    match runner.process_command(Command::FinalizeBallot(id(), ballot(1, r0, &[(1, 1)]))) {
        Reply::Finalized(r) => assert!(r.is_ok()),
        _ => panic!("wrong reply"),
    }
    match runner.process_command(Command::Commit) {
        Reply::Committed(st) => assert_eq!(st.height, 1),
        _ => panic!("wrong reply"),
    }
    match runner.process_command(Command::Info) {
        Reply::Info(st) => assert_eq!(st.hash, rollup(&reference_root(&[leaf(1)]))),
        _ => panic!("wrong reply"),
    }
    assert!(matches!(runner.process_command(Command::Stop), Reply::Stopped));
}

#[test]
fn digest_is_reported_as_lowercase_hex() {
    let r0 = reference_root(&[]);
    let mut runner = VoteChainRunner::new(store_with(&[ELECTION]));
    let mut b = ballot(0, r0, &[(1, 1)]);
    b.sighash[0] = 0x0f;
    b.sighash[1] = 0xa0;
    b.sighash[31] = 0xff;
    let r = runner.check_ballot(&id(), &b, Ok(()));
    let expected = format!("0fa0{}ff", "00".repeat(29));
    assert_eq!(r, Ok(expected.clone()));
    assert_eq!(runner.finalize_ballot(&id(), b), Ok(expected));
}

#[test]
fn block_screening_keeps_first_of_clashing_ballots() {
    let r0 = reference_root(&[]);
    let mut runner = VoteChainRunner::new(store_with(&[ELECTION]));
    let txs = vec![
        Some(ballot(1, r0, &[(1, 70)])),
        None,
        Some(ballot(2, r0, &[(2, 70)])),
        Some(ballot(3, r0, &[(3, 71)])),
    ];
    assert_eq!(runner.prepare_block(&txs), vec![0, 3]);
}

#[test]
fn block_finalization_reports_each_transaction() {
    let r0 = reference_root(&[]);
    let mut runner = VoteChainRunner::new(store_with(&[ELECTION]));
    let results = runner.finalize_block(vec![
        Some((id(), ballot(1, r0, &[(1, 80)]))),
        None,
        Some((id(), ballot(2, r0, &[(2, 80)]))),
        Some((id(), ballot(3, r0, &[(3, 81)]))),
    ]);
    assert_eq!(results.len(), 4);
    assert_eq!(results[0], Ok(hex::encode([1u8; 32])));
    assert_eq!(results[1], Err(VoteError::MalformedTx));
    assert_eq!(results[2], Err(VoteError::DoubleSpend));
    assert_eq!(results[3], Ok(hex::encode([3u8; 32])));
    let codes: Vec<u32> = results.iter().map(|r| finalize_tx_result(r).code).collect();
    assert_eq!(codes, vec![0, 1, 1, 0]);
    assert_eq!(get_num_ballots(runner.store(), &id()), Ok(2));
    assert_eq!(runner.info().hash, rollup(&reference_root(&[leaf(1), leaf(3)])));
}

#[test]
fn nullifier_root_mismatch_at_finalize() {
    let r0 = reference_root(&[]);
    let mut runner = VoteChainRunner::new(store_with(&[ELECTION]));
    let mut b = ballot(1, r0, &[(1, 1)]);
    b.data.anchors.nf = [0u8; 32];
    assert_eq!(runner.finalize_ballot(&id(), b), Err(VoteError::NullifierRootMismatch));
}

#[test]
fn ballot_without_actions_keeps_the_root() {
    let r0 = reference_root(&[]);
    let mut runner = VoteChainRunner::new(store_with(&[ELECTION]));
    assert!(runner.finalize_ballot(&id(), ballot(1, r0, &[])).is_ok());
    let e = get_election(runner.store(), &id()).unwrap();
    assert_eq!(e.roots.len(), 2);
    assert_eq!(e.roots[1], r0);
    assert_eq!(get_num_ballots(runner.store(), &id()), Ok(1));
}
