//! Ballot data as the chain core reads it, and the error kinds of ballot processing.
use vstd::prelude::*;
use crate::frontier::{is_node_encoding, tree_capacity, AppendError, CmxFrontier};

verus! {

/// One spend-and-create step of a ballot.
#[derive(Clone, Copy, Debug)]
pub struct Action {
    /// Note commitment of the created note: the next leaf of the commitment tree.
    pub cmx: [u8; 32],
    /// Nullifier of the spent note.
    pub nf: [u8; 32],
}

/// The public roots a ballot was built against.
#[derive(Clone, Copy, Debug)]
pub struct Anchors {
    /// Root of the historical nullifier set at election creation.
    pub nf: [u8; 32],
    /// A commitment-tree root of the election.
    pub cmx: [u8; 32],
}

/// The public part of a ballot.
pub struct BallotData {
    pub anchors: Anchors,
    pub actions: Vec<Action>,
}

/// A ballot as the core receives it: its public data and the canonical digest of that data.
pub struct Ballot {
    pub sighash: [u8; 32],
    pub data: BallotData,
}

/// The note commitments of a sequence of actions, in order.
pub open spec fn action_cmxs(acts: Seq<Action>) -> Seq<Seq<u8>> {
    acts.map_values(|a: Action| a.cmx@)
}

/// The nullifiers of a sequence of actions, in order.
pub open spec fn action_nfs(acts: Seq<Action>) -> Seq<Seq<u8>> {
    acts.map_values(|a: Action| a.nf@)
}

/// Outcome of the cryptographic checks on a ballot (proof and signatures).
#[derive(PartialEq, Eq, Structural, Clone, Copy, Debug)]
pub enum ValidationError {
    InvalidProof,
    InvalidSignature,
}

/// Why a ballot was refused.
#[derive(PartialEq, Eq, Structural, Clone, Copy, Debug)]
pub enum VoteError {
    ElectionNotFound,
    ElectionClosed,
    InvalidProof,
    InvalidSignature,
    NullifierRootMismatch,
    UnknownCommitmentAnchor,
    DoubleSpend,
    StorageError,
    MalformedTx,
}

impl ValidationError {
    /// The refusal that a failed cryptographic check leads to.
    pub open spec fn spec_to_vote_error(self) -> VoteError {
        match self {
            ValidationError::InvalidProof => VoteError::InvalidProof,
            ValidationError::InvalidSignature => VoteError::InvalidSignature,
        }
    }

    pub fn to_vote_error(self) -> (r: VoteError)
        ensures
            r == self.spec_to_vote_error(),
    {
        match self {
            ValidationError::InvalidProof => VoteError::InvalidProof,
            ValidationError::InvalidSignature => VoteError::InvalidSignature,
        }
    }
}

impl VoteError {
    /// The reason as reported to the consensus engine.
    pub open spec fn spec_message(self) -> Seq<char> {
        match self {
            VoteError::ElectionNotFound => "Election not found"@,
            VoteError::ElectionClosed => "Election is closed"@,
            VoteError::InvalidProof => "Invalid proof"@,
            VoteError::InvalidSignature => "Invalid signature"@,
            VoteError::NullifierRootMismatch => "Incorrect nullifier root"@,
            VoteError::UnknownCommitmentAnchor => "Invalid cmx root"@,
            VoteError::DoubleSpend => "Duplicate nullifier: double spend"@,
            VoteError::StorageError => "Storage error"@,
            VoteError::MalformedTx => "Malformed transaction"@,
        }
    }

    pub fn message(&self) -> (r: String)
        ensures
            r@ == self.spec_message(),
    {
        let s: &str = match self {
            VoteError::ElectionNotFound => "Election not found",
            VoteError::ElectionClosed => "Election is closed",
            VoteError::InvalidProof => "Invalid proof",
            VoteError::InvalidSignature => "Invalid signature",
            VoteError::NullifierRootMismatch => "Incorrect nullifier root",
            VoteError::UnknownCommitmentAnchor => "Invalid cmx root",
            VoteError::DoubleSpend => "Duplicate nullifier: double spend",
            VoteError::StorageError => "Storage error",
            VoteError::MalformedTx => "Malformed transaction",
        };
        s.to_owned()
    }
}

/// Compares two 32-byte values.
pub fn bytes32_eq(a: &[u8; 32], b: &[u8; 32]) -> (r: bool)
    ensures
        r == (a@ == b@),
{
    let mut i: usize = 0;
    while i < 32
        invariant
            i <= 32,
            a@.len() == 32,
            b@.len() == 32,
            forall|j: int| 0 <= j < i ==> a@[j] == b@[j],
        decreases 32 - i,
    {
        if a[i] != b[i] {
            return false;
        }
        i = i + 1;
    }
    assert(a@ =~= b@);
    true
}

/// The failure, if any, of appending the commitments of `acts` in order to a tree that
/// already holds `n` leaves.
pub open spec fn append_failure(n: nat, acts: Seq<Action>) -> Option<AppendError>
    decreases acts.len(),
{
    if acts.len() == 0 {
        None
    } else if !is_node_encoding(acts[0].cmx@) {
        Some(AppendError::NonCanonical)
    } else if n >= tree_capacity() {
        Some(AppendError::Full)
    } else {
        append_failure(n + 1, acts.drop_first())
    }
}

/// Appends the note commitments of the ballot's actions, in order, to `old_frontier`.
/// On success the frontier has gained exactly those leaves; on failure it has gained the
/// leaves before the first one that could not be appended.
pub fn compute_new_cmx_root(old_frontier: &mut CmxFrontier, ballot: &BallotData) -> (r: Result<(), AppendError>)
    ensures
        r == (match append_failure(old(old_frontier)@.len(), ballot.actions@) {
            Some(e) => Err(e),
            None => Ok(()),
        }),
        r is Ok ==> final(old_frontier)@ == old(old_frontier)@ + action_cmxs(ballot.actions@),
{
    let acts: &Vec<Action> = &ballot.actions;
    let n: usize = acts.len();
    let ghost base = old_frontier@;
    let mut k: usize = 0;
    proof {
        assert(acts@.skip(0) =~= acts@);
        assert(action_cmxs(acts@.subrange(0, 0)) =~= Seq::<Seq<u8>>::empty());
        assert(base + Seq::<Seq<u8>>::empty() =~= base);
    }
    while k < n
        invariant
            n == acts@.len(),
            k <= n,
            base == old(old_frontier)@,
            acts == &ballot.actions,
            old_frontier@ == base + action_cmxs(acts@.subrange(0, k as int)),
            append_failure(base.len(), acts@) == append_failure(old_frontier@.len(), acts@.skip(k as int)),
        decreases n - k,
    {
        proof {
            assert(acts@.skip(k as int)[0] == acts@[k as int]);
            assert(acts@.skip(k as int).drop_first() =~= acts@.skip(k + 1));
        }
        let ghost cur = old_frontier@;
        proof {
            let rest = acts@.skip(k as int);
            assert(rest.len() > 0);
            assert(append_failure(cur.len(), rest) == if !is_node_encoding(rest[0].cmx@) {
                Some(AppendError::NonCanonical)
            } else if cur.len() >= tree_capacity() {
                Some(AppendError::Full)
            } else {
                append_failure(cur.len() + 1, rest.drop_first())
            });
        }
        match old_frontier.append(&acts[k].cmx) {
            Err(e) => return Err(e),
            Ok(()) => {},
        }
        proof {
            assert(acts@.subrange(0, k + 1) =~= acts@.subrange(0, k as int).push(acts@[k as int]));
            assert(action_cmxs(acts@.subrange(0, k + 1)) =~= action_cmxs(acts@.subrange(0, k as int)).push(
                acts@[k as int].cmx@,
            ));
        }
        k = k + 1;
    }
    proof {
        assert(acts@.subrange(0, n as int) =~= acts@);
        assert(acts@.skip(n as int).len() == 0);
    }
    Ok(())
}

} // verus!
