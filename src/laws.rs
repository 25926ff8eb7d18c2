//! Properties that every state reachable through the chain core satisfies.
use vstd::prelude::*;
use crate::ballot::{Ballot, VoteError};
use crate::chain::VoteChainRunner;
use crate::db::{app_hash_of, ballots_nfs, election_index, has_election, tips_concat, ElectionRecord, VoteStore};
use crate::digest::hex_of;
use crate::frontier::commitment_root;

verus! {

/// At every height of every election, the stored root is the root of the stored frontier.
pub proof fn lemma_frontier_root_agreement(store: VoteStore, id: Seq<char>, h: int)
    requires
        store.wf(),
        has_election(store.elections@, id),
        0 <= h < store.election(id).roots@.len(),
    ensures
        store.election(id).roots@[h]@ == commitment_root(store.election(id).frontiers@[h]@),
{
    let i = election_index(store.elections@, id);
    assert(store.elections@[i].wf());
}

/// No nullifier is spent twice on an election: the nullifiers of its stored ballots are
/// pairwise distinct.
pub proof fn lemma_no_double_spend(store: VoteStore, id: Seq<char>)
    requires
        store.wf(),
        has_election(store.elections@, id),
    ensures
        ballots_nfs(store.election(id).ballots@).no_duplicates(),
{
    let i = election_index(store.elections@, id);
    assert(store.elections@[i].wf());
}

/// Every stored ballot names the election's nullifier anchor, and as commitment anchor a
/// root of a height below its own (the ballot at index `k` is stored at height `k + 1`).
pub proof fn lemma_anchor_discipline(store: VoteStore, id: Seq<char>, k: int)
    requires
        store.wf(),
        has_election(store.elections@, id),
        0 <= k < store.election(id).ballots@.len(),
    ensures
        store.election(id).ballots@[k].data.anchors.nf@ == store.election(id).nf_anchor@,
        exists|h: int|
            0 <= h <= k && #[trigger] store.election(id).roots@[h]@ == store.election(
                id,
            ).ballots@[k].data.anchors.cmx@,
{
    let i = election_index(store.elections@, id);
    assert(store.elections@[i].wf());
    assert(store.elections@[i].anchored_at(k));
}

/// The application hash is the hex form of the personalised hash of the tip roots of all
/// elections in identifier order.
pub proof fn lemma_app_hash_rollup(store: VoteStore)
    requires
        store.wf(),
    ensures
        store.state.hash@ == hex_of(app_hash_of(store.elections@)),
{
}

/// After a ballot is finalized, the check-cache holds no judgment for its digest.
pub proof fn lemma_cache_coherence(
    old: VoteChainRunner,
    new: VoteChainRunner,
    id: Seq<char>,
    b: Ballot,
    r: Result<String, VoteError>,
)
    requires
        VoteChainRunner::finalized_as(old, new, id, b, r),
        r is Ok,
    ensures
        !new.cache().contains_key(b.sighash@),
{
}

/// No ballot is finalized against a closed election.
pub proof fn lemma_closed_election_rejects(
    old: VoteChainRunner,
    new: VoteChainRunner,
    id: Seq<char>,
    b: Ballot,
    r: Result<String, VoteError>,
)
    requires
        VoteChainRunner::finalized_as(old, new, id, b, r),
        has_election(old.spec_store().elections@, id),
        old.spec_store().election(id).closed,
    ensures
        r == Err::<String, VoteError>(VoteError::ElectionClosed),
        new == old,
{
}

proof fn lemma_tips_equal(a: Seq<ElectionRecord>, b: Seq<ElectionRecord>)
    requires
        a.len() == b.len(),
        forall|j: int| 0 <= j < a.len() ==> (#[trigger] a[j]).tip() == b[j].tip(),
    ensures
        tips_concat(a) == tips_concat(b),
    decreases a.len(),
{
    if a.len() > 0 {
        lemma_tips_equal(a.drop_last(), b.drop_last());
        assert(a.last().tip() == b.last().tip());
    }
}

/// Finalizing is deterministic: two replicas in the same state that finalize the same
/// ballot agree on the outcome, on every election's roots, and on the application state.
pub proof fn lemma_finalize_deterministic(
    a0: VoteChainRunner,
    a1: VoteChainRunner,
    ra: Result<String, VoteError>,
    b0: VoteChainRunner,
    b1: VoteChainRunner,
    rb: Result<String, VoteError>,
    id: Seq<char>,
    x: Ballot,
)
    requires
        a0.wf(),
        a0.spec_store() == b0.spec_store(),
        VoteChainRunner::finalized_as(a0, a1, id, x, ra),
        VoteChainRunner::finalized_as(b0, b1, id, x, rb),
    ensures
        ra is Ok <==> rb is Ok,
        ra matches Err(e) ==> rb == Err::<String, VoteError>(e),
        ra matches Ok(s) ==> rb matches Ok(t) && s@ == t@,
        a1.spec_store().elections@.len() == b1.spec_store().elections@.len(),
        forall|j: int| 0 <= j < a1.spec_store().elections@.len() ==>
            #[trigger] a1.spec_store().elections@[j].roots@ == b1.spec_store().elections@[j].roots@,
        a1.spec_store().state.height == b1.spec_store().state.height,
        a1.spec_store().state.hash@ == b1.spec_store().state.hash@,
{
    let sa = a1.spec_store();
    let sb = b1.spec_store();
    a1.lemma_wf_store();
    b1.lemma_wf_store();
    if ra is Ok {
        let i = election_index(a0.spec_store().elections@, id);
        assert forall|j: int| 0 <= j < sa.elections@.len() implies #[trigger] sa.elections@[j].roots@
            == sb.elections@[j].roots@ by {
            if j == i {
                let ea = sa.elections@[j];
                let eb = sb.elections@[j];
                assert(ea.roots@ =~= eb.roots@) by {
                    assert forall|h: int| 0 <= h < ea.roots@.len() implies ea.roots@[h] == eb.roots@[h] by {
                        if h < ea.roots@.len() - 1 {
                            assert(ea.roots@[h] == ea.roots@.drop_last()[h]);
                            assert(eb.roots@[h] == eb.roots@.drop_last()[h]);
                        } else {
                            assert(ea.roots@[h]@ == eb.roots@[h]@);
                            assert(ea.roots@[h]@ =~= eb.roots@[h]@);
                        }
                    }
                }
            }
        }
        assert forall|j: int| 0 <= j < sa.elections@.len() implies (#[trigger] sa.elections@[j]).tip()
            == sb.elections@[j].tip() by {
            assert(sa.elections@[j].roots@ == sb.elections@[j].roots@);
        }
        lemma_tips_equal(sa.elections@, sb.elections@);
    }
}

} // verus!
