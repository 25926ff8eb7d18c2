//! The chain's store: elections with their per-height frontiers and commitment roots,
//! spent nullifiers, stored ballots, and the application state.
use vstd::prelude::*;
use crate::AppState;
use crate::cache::nf_listed;
use crate::ballot::{action_cmxs, action_nfs, append_failure, bytes32_eq, compute_new_cmx_root, Action, Ballot, VoteError};
use crate::digest::{hex_of, to_hex, vote_bft_digest, vote_bft_hash};
use crate::frontier::{commitment_root, AppendError, CmxFrontier};
use crate::order::{id_less, id_precedes, lemma_id_less_irreflexive, lemma_id_less_total, lemma_id_less_transitive};

verus! {

/// The byte views of a sequence of 32-byte values.
pub open spec fn bytes_view(s: Seq<[u8; 32]>) -> Seq<Seq<u8>> {
    s.map_values(|x: [u8; 32]| x@)
}

/// The nullifiers of a sequence of ballots, ballot after ballot, each in action order.
pub open spec fn ballots_nfs(bs: Seq<Ballot>) -> Seq<Seq<u8>>
    decreases bs.len(),
{
    if bs.len() == 0 {
        Seq::empty()
    } else {
        ballots_nfs(bs.drop_last()) + action_nfs(bs.last().data.actions@)
    }
}

/// A registered election and everything stored for it.
///
/// Heights are dense from 0: `frontiers[h]` is the frontier after the first `h` ballots,
/// `roots[h]` its root, and `ballots[h - 1]` the ballot stored at height `h`.
pub struct ElectionRecord {
    pub id: String,
    pub definition: String,
    pub signature_required: bool,
    pub nf_anchor: [u8; 32],
    pub closed: bool,
    pub frontiers: Vec<CmxFrontier>,
    pub roots: Vec<[u8; 32]>,
    pub nullifiers: Vec<[u8; 32]>,
    pub ballots: Vec<Ballot>,
}

impl ElectionRecord {
    pub open spec fn wf(&self) -> bool {
        &&& self.frontiers@.len() == self.roots@.len()
        &&& self.roots@.len() == self.ballots@.len() + 1
        &&& forall|h: int|
            0 <= h < self.roots@.len() ==> #[trigger] self.roots@[h]@ == commitment_root(
                self.frontiers@[h]@,
            )
        &&& forall|k: int|
            0 <= k < self.ballots@.len() ==> #[trigger] self.frontiers@[k + 1]@
                == self.frontiers@[k]@ + action_cmxs(self.ballots@[k].data.actions@)
        &&& bytes_view(self.nullifiers@) == ballots_nfs(self.ballots@)
        &&& bytes_view(self.nullifiers@).no_duplicates()
        &&& forall|k: int|
            0 <= k < self.ballots@.len() ==> #[trigger] self.ballots@[k].data.anchors.nf@
                == self.nf_anchor@
        &&& forall|k: int| 0 <= k < self.ballots@.len() ==> #[trigger] self.anchored_at(k)
    }

    /// The ballot at index `k` names as its commitment anchor a root of height at most `k`,
    /// that is, a root that existed before it was stored.
    pub open spec fn anchored_at(&self, k: int) -> bool {
        exists|h: int| 0 <= h <= k && #[trigger] self.roots@[h]@ == self.ballots@[k].data.anchors.cmx@
    }

    /// The root at the highest height.
    pub open spec fn tip(&self) -> Seq<u8> {
        self.roots@.last()@
    }

    /// Whether `r` is the commitment root at some height.
    pub open spec fn has_root(&self, r: Seq<u8>) -> bool {
        exists|h: int| 0 <= h < self.roots@.len() && #[trigger] self.roots@[h]@ == r
    }

    /// Whether `nf` has been spent on this election.
    pub open spec fn is_spent(&self, nf: Seq<u8>) -> bool {
        bytes_view(self.nullifiers@).contains(nf)
    }
}

/// The concatenation of the tip roots of `es`, in order.
pub open spec fn tips_concat(es: Seq<ElectionRecord>) -> Seq<u8>
    decreases es.len(),
{
    if es.len() == 0 {
        Seq::empty()
    } else {
        tips_concat(es.drop_last()) + es.last().tip()
    }
}

/// The application hash of a list of elections sorted by identifier.
pub open spec fn app_hash_of(es: Seq<ElectionRecord>) -> Seq<u8> {
    vote_bft_hash(tips_concat(es))
}

/// Identifiers strictly ascending.
pub open spec fn sorted_by_id(es: Seq<ElectionRecord>) -> bool {
    forall|i: int, j: int| 0 <= i < j < es.len() ==> id_less(#[trigger] es[i].id@, #[trigger] es[j].id@)
}

pub open spec fn has_election(es: Seq<ElectionRecord>, id: Seq<char>) -> bool {
    exists|i: int| 0 <= i < es.len() && #[trigger] es[i].id@ == id
}

/// The position of the election with identifier `id`.
pub open spec fn election_index(es: Seq<ElectionRecord>, id: Seq<char>) -> int {
    choose|i: int| 0 <= i < es.len() && #[trigger] es[i].id@ == id
}

pub proof fn lemma_sorted_unique(es: Seq<ElectionRecord>, i: int, j: int)
    requires
        sorted_by_id(es),
        0 <= i < es.len(),
        0 <= j < es.len(),
        es[i].id@ == es[j].id@,
    ensures
        i == j,
{
    if i < j {
        assert(id_less(es[i].id@, es[j].id@));
        lemma_id_less_irreflexive(es[i].id@);
    } else if j < i {
        assert(id_less(es[j].id@, es[i].id@));
        lemma_id_less_irreflexive(es[i].id@);
    }
}

/// The whole store.
pub struct VoteStore {
    pub elections: Vec<ElectionRecord>,
    pub state: AppState,
}

impl VoteStore {
    pub open spec fn wf(&self) -> bool {
        &&& sorted_by_id(self.elections@)
        &&& forall|i: int| 0 <= i < self.elections@.len() ==> (#[trigger] self.elections@[i]).wf()
        &&& self.state.hash@ == hex_of(app_hash_of(self.elections@))
    }

    /// The record of election `id`; meaningful when `has_election`.
    pub open spec fn election(&self, id: Seq<char>) -> ElectionRecord {
        self.elections@[election_index(self.elections@, id)]
    }

    /// Position of the election with identifier `id`, if there is one.
    pub fn find_election(&self, id: &String) -> (r: Option<usize>)
        requires
            self.wf(),
        ensures
            r is Some <==> has_election(self.elections@, id@),
            r matches Some(i) ==> i == election_index(self.elections@, id@) && i
                < self.elections@.len(),
    {
        let n: usize = self.elections.len();
        let mut i: usize = 0;
        while i < n
            invariant
                self.wf(),
                n == self.elections@.len(),
                i <= n,
                forall|j: int| 0 <= j < i ==> (#[trigger] self.elections@[j]).id@ != id@,
            decreases n - i,
        {
            if self.elections[i].id == *id {
                proof {
                    let k = election_index(self.elections@, id@);
                    assert(has_election(self.elections@, id@));
                    lemma_sorted_unique(self.elections@, i as int, k);
                }
                return Some(i);
            }
            i = i + 1;
        }
        None
    }

    /// Recomputes the application hash from the tip roots of all elections.
    fn refresh_app_hash(&mut self)
        requires
            sorted_by_id(old(self).elections@),
            forall|i: int| 0 <= i < old(self).elections@.len() ==> (#[trigger] old(self).elections@[i]).wf(),
        ensures
            final(self).wf(),
            final(self).elections == old(self).elections,
            final(self).state.height == old(self).state.height,
    {
        let n: usize = self.elections.len();
        let mut buf: Vec<u8> = Vec::new();
        let mut i: usize = 0;
        while i < n
            invariant
                n == self.elections@.len(),
                i <= n,
                forall|k: int| 0 <= k < n ==> (#[trigger] self.elections@[k]).wf(),
                buf@ == tips_concat(self.elections@.subrange(0, i as int)),
            decreases n - i,
        {
            let e = &self.elections[i];
            let last: usize = e.roots.len() - 1;
            let tip: [u8; 32] = e.roots[last];
            let ghost before = buf@;
            let mut j: usize = 0;
            while j < 32
                invariant
                    j <= 32,
                    tip@.len() == 32,
                    buf@ == before + tip@.subrange(0, j as int),
                decreases 32 - j,
            {
                buf.push(tip[j]);
                proof {
                    assert(tip@.subrange(0, j + 1) =~= tip@.subrange(0, j as int).push(tip@[j as int]));
                }
                j = j + 1;
            }
            proof {
                let s = self.elections@.subrange(0, i + 1);
                assert(s.drop_last() =~= self.elections@.subrange(0, i as int));
                assert(tip@.subrange(0, 32) =~= tip@);
                assert(s.last() == self.elections@[i as int]);
            }
            i = i + 1;
        }
        proof {
            assert(self.elections@.subrange(0, n as int) =~= self.elections@);
        }
        let digest: Vec<u8> = vote_bft_digest(buf.as_slice());
        self.state.hash = to_hex(digest.as_slice());
    }
}

/// A fresh store: no elections, height 0, and the hash of the empty rollup.
pub fn create_schema() -> (r: VoteStore)
    ensures
        r.wf(),
        r.elections@.len() == 0,
        r.state.height == 0,
        r.state.hash@ == hex_of(vote_bft_hash(Seq::empty())),
{
    let mut s = VoteStore { elections: Vec::new(), state: AppState { height: 0, hash: String::new() } };
    s.refresh_app_hash();
    proof {
        assert(tips_concat(s.elections@) == Seq::<u8>::empty());
    }
    s
}


/// `b` is `a` with the definition and the closed flag possibly changed.
pub open spec fn same_but_flags(a: ElectionRecord, b: ElectionRecord) -> bool {
    &&& b.id == a.id
    &&& b.signature_required == a.signature_required
    &&& b.nf_anchor == a.nf_anchor
    &&& b.frontiers == a.frontiers
    &&& b.roots == a.roots
    &&& b.nullifiers == a.nullifiers
    &&& b.ballots == a.ballots
}

/// Whether `e` is a freshly registered election seeded from `initial` at height 0.
pub open spec fn is_seeded(
    e: ElectionRecord,
    id: Seq<char>,
    definition: Seq<char>,
    signature_required: bool,
    nf_anchor: Seq<u8>,
    initial: Seq<Seq<u8>>,
    closed: bool,
) -> bool {
    &&& e.id@ == id
    &&& e.definition@ == definition
    &&& e.signature_required == signature_required
    &&& e.nf_anchor@ == nf_anchor
    &&& e.closed == closed
    &&& e.frontiers@.len() == 1
    &&& e.frontiers@[0]@ == initial
    &&& e.roots@.len() == 1
    &&& e.roots@[0]@ == commitment_root(initial)
    &&& e.nullifiers@.len() == 0
    &&& e.ballots@.len() == 0
}

proof fn lemma_flags_keep_wf(a: ElectionRecord, b: ElectionRecord)
    requires
        a.wf(),
        same_but_flags(a, b),
    ensures
        b.wf(),
{
    assert forall|k: int| 0 <= k < b.ballots@.len() implies #[trigger] b.anchored_at(k) by {
        assert(a.anchored_at(k));
        let h = choose|h: int| 0 <= h <= k && #[trigger] a.roots@[h]@ == a.ballots@[k].data.anchors.cmx@;
        assert(b.roots@[h]@ == b.ballots@[k].data.anchors.cmx@);
    }
}

/// Registers election `id`, or, if it is already known, replaces its definition and
/// closed flag and keeps everything stored for it. A new election starts at height 0
/// with `initial` as its frontier and that frontier's root as its first root. Returns
/// the election's position.
pub fn store_election(
    store: &mut VoteStore,
    id: String,
    definition: String,
    signature_required: bool,
    nf_anchor: [u8; 32],
    initial: CmxFrontier,
    closed: bool,
) -> (r: usize)
    requires
        old(store).wf(),
    ensures
        final(store).wf(),
        final(store).state.height == old(store).state.height,
        r < final(store).elections@.len(),
        has_election(final(store).elections@, id@),
        r == election_index(final(store).elections@, id@),
        final(store).elections@[r as int].definition@ == definition@,
        final(store).elections@[r as int].closed == closed,
        has_election(old(store).elections@, id@) ==> {
            &&& r == election_index(old(store).elections@, id@)
            &&& final(store).elections@.len() == old(store).elections@.len()
            &&& same_but_flags(old(store).elections@[r as int], final(store).elections@[r as int])
            &&& forall|j: int| 0 <= j < old(store).elections@.len() && j != r ==>
                #[trigger] final(store).elections@[j] == old(store).elections@[j]
        },
        !has_election(old(store).elections@, id@) ==> {
            &&& final(store).elections@.remove(r as int) == old(store).elections@
            &&& is_seeded(final(store).elections@[r as int], id@, definition@, signature_required,
                nf_anchor@, initial@, closed)
        },
{
    let n: usize = store.elections.len();
    let mut i: usize = 0;
    while i < n && id_precedes(&store.elections[i].id, &id)
        invariant
            store.wf(),
            n == store.elections@.len(),
            i <= n,
            forall|j: int| 0 <= j < i ==> id_less(#[trigger] store.elections@[j].id@, id@),
        decreases n - i,
    {
        i = i + 1;
    }
    let ghost old_es = store.elections@;
    if i < n && store.elections[i].id == id {
        let mut rec = store.elections.remove(i);
        rec.definition = definition;
        rec.closed = closed;
        store.elections.insert(i, rec);
        proof {
            assert(store.elections@ =~= old_es.update(i as int, rec));
            assert(store.elections@[i as int].id@ == id@);
            assert(has_election(store.elections@, id@));
            assert(old_es[i as int].wf());
            assert(same_but_flags(old_es[i as int], store.elections@[i as int]));
            lemma_flags_keep_wf(old_es[i as int], store.elections@[i as int]);
            assert forall|k: int| 0 <= k < store.elections@.len() implies (#[trigger] store.elections@[k]).wf() by {
                if k != i {
                    assert(store.elections@[k] == old_es[k]);
                }
            }
            assert(sorted_by_id(store.elections@)) by {
                assert forall|a: int, b: int| 0 <= a < b < store.elections@.len() implies id_less(
                    #[trigger] store.elections@[a].id@,
                    #[trigger] store.elections@[b].id@,
                ) by {
                    assert(id_less(old_es[a].id@, old_es[b].id@));
                }
            }
            lemma_sorted_unique(store.elections@, i as int, election_index(store.elections@, id@));
            assert(has_election(old_es, id@));
            lemma_sorted_unique(old_es, i as int, election_index(old_es, id@));
        }
        store.refresh_app_hash();
        i
    } else {
        proof {
            if i < n {
                assert(!id_less(old_es[i as int].id@, id@));
                lemma_id_less_total(old_es[i as int].id@, id@);
            }
            assert forall|j: int| 0 <= j < n implies #[trigger] old_es[j].id@ != id@ by {
                if j < i {
                    lemma_id_less_irreflexive(id@);
                } else if j > i {
                    lemma_id_less_transitive(id@, old_es[i as int].id@, old_es[j].id@);
                    lemma_id_less_irreflexive(id@);
                } else {
                    lemma_id_less_irreflexive(id@);
                }
            }
        }
        let root: [u8; 32] = initial.root();
        let mut frontiers: Vec<CmxFrontier> = Vec::new();
        frontiers.push(initial);
        let mut roots: Vec<[u8; 32]> = Vec::new();
        roots.push(root);
        let rec = ElectionRecord {
            id,
            definition,
            signature_required,
            nf_anchor,
            closed,
            frontiers,
            roots,
            nullifiers: Vec::new(),
            ballots: Vec::new(),
        };
        proof {
            assert(bytes_view(rec.nullifiers@) =~= Seq::<Seq<u8>>::empty());
            assert(ballots_nfs(rec.ballots@) =~= Seq::<Seq<u8>>::empty());
        }
        store.elections.insert(i, rec);
        proof {
            let es = store.elections@;
            assert(es.remove(i as int) =~= old_es);
            assert forall|a: int, b: int| 0 <= a < b < es.len() implies id_less(
                #[trigger] es[a].id@,
                #[trigger] es[b].id@,
            ) by {
                if b < i {
                } else if a < i && b == i {
                } else if a < i && b > i {
                    assert(es[b] == old_es[b - 1]);
                    if i < n {
                        lemma_id_less_total(old_es[i as int].id@, id@);
                        if b - 1 > i {
                            lemma_id_less_transitive(id@, old_es[i as int].id@, old_es[b - 1].id@);
                        }
                    }
                    lemma_id_less_transitive(es[a].id@, id@, es[b].id@);
                } else if a == i {
                    assert(es[b] == old_es[b - 1]);
                    lemma_id_less_total(old_es[i as int].id@, id@);
                    if b - 1 > i {
                        lemma_id_less_transitive(id@, old_es[i as int].id@, old_es[b - 1].id@);
                    }
                } else {
                    assert(es[a] == old_es[a - 1]);
                    assert(es[b] == old_es[b - 1]);
                }
            }
            assert forall|k: int| 0 <= k < es.len() implies (#[trigger] es[k]).wf() by {
                if k < i {
                    assert(es[k] == old_es[k]);
                } else if k > i {
                    assert(es[k] == old_es[k - 1]);
                }
            }
            assert(es[i as int].id@ == id@);
            assert(has_election(es, id@));
            lemma_sorted_unique(es, i as int, election_index(es, id@));
        }
        store.refresh_app_hash();
        i
    }
}


/// Marks every election closed.
pub fn close_all_elections(store: &mut VoteStore)
    requires
        old(store).wf(),
    ensures
        final(store).wf(),
        final(store).state == old(store).state,
        final(store).elections@.len() == old(store).elections@.len(),
        forall|j: int| 0 <= j < old(store).elections@.len() ==> {
            &&& (#[trigger] final(store).elections@[j]).closed
            &&& final(store).elections@[j].definition == old(store).elections@[j].definition
            &&& same_but_flags(old(store).elections@[j], final(store).elections@[j])
        },
{
    let n: usize = store.elections.len();
    let ghost old_es = store.elections@;
    let mut i: usize = 0;
    while i < n
        invariant
            n == store.elections@.len(),
            n == old_es.len(),
            i <= n,
            store.state == old(store).state,
            old_es == old(store).elections@,
            old(store).wf(),
            forall|j: int| i <= j < n ==> #[trigger] store.elections@[j] == old_es[j],
            forall|j: int| 0 <= j < i ==> {
                &&& (#[trigger] store.elections@[j]).closed
                &&& store.elections@[j].definition == old_es[j].definition
                &&& same_but_flags(old_es[j], store.elections@[j])
            },
        decreases n - i,
    {
        let mut rec = store.elections.remove(i);
        rec.closed = true;
        store.elections.insert(i, rec);
        proof {
            assert(store.elections@[i as int] == rec);
            assert forall|j: int| i < j < n implies #[trigger] store.elections@[j] == old_es[j] by {}
        }
        i = i + 1;
    }
    proof {
        assert forall|j: int| 0 <= j < n implies (#[trigger] store.elections@[j]).wf() by {
            assert(old_es[j].wf());
            lemma_flags_keep_wf(old_es[j], store.elections@[j]);
        }
        assert forall|a: int, b: int| 0 <= a < b < n implies id_less(
            #[trigger] store.elections@[a].id@,
            #[trigger] store.elections@[b].id@,
        ) by {
            assert(id_less(old_es[a].id@, old_es[b].id@));
        }
        assert(tips_concat(store.elections@) == tips_concat(old_es)) by {
            lemma_tips_same_roots(old_es, store.elections@);
        }
    }
}

/// Equal roots give equal rollup input.
proof fn lemma_tips_same_roots(a: Seq<ElectionRecord>, b: Seq<ElectionRecord>)
    requires
        a.len() == b.len(),
        forall|j: int| 0 <= j < a.len() ==> (#[trigger] b[j]).roots == a[j].roots,
    ensures
        tips_concat(a) == tips_concat(b),
    decreases a.len(),
{
    if a.len() > 0 {
        lemma_tips_same_roots(a.drop_last(), b.drop_last());
        assert(b.last().roots == a.last().roots);
    }
}

/// Sets the closed flag of election `id`.
pub fn set_closed(store: &mut VoteStore, id: &String, closed: bool) -> (r: Result<(), VoteError>)
    requires
        old(store).wf(),
    ensures
        final(store).wf(),
        final(store).state == old(store).state,
        r is Ok <==> has_election(old(store).elections@, id@),
        r is Err ==> r == Err::<(), VoteError>(VoteError::ElectionNotFound) && *final(store) == *old(store),
        r is Ok ==> {
            let i = election_index(old(store).elections@, id@);
            &&& final(store).elections@.len() == old(store).elections@.len()
            &&& final(store).elections@[i].closed == closed
            &&& final(store).elections@[i].definition == old(store).elections@[i].definition
            &&& same_but_flags(old(store).elections@[i], final(store).elections@[i])
            &&& forall|j: int| 0 <= j < old(store).elections@.len() && j != i ==>
                #[trigger] final(store).elections@[j] == old(store).elections@[j]
        },
{
    match store.find_election(id) {
        None => Err(VoteError::ElectionNotFound),
        Some(i) => {
            let ghost old_es = store.elections@;
            let mut rec = store.elections.remove(i);
            rec.closed = closed;
            store.elections.insert(i, rec);
            proof {
                assert(store.elections@ =~= old_es.update(i as int, rec));
                assert(old_es[i as int].wf());
                lemma_flags_keep_wf(old_es[i as int], rec);
                assert forall|k: int| 0 <= k < store.elections@.len() implies (#[trigger] store.elections@[k]).wf() by {
                    if k != i {
                        assert(store.elections@[k] == old_es[k]);
                    }
                }
                assert forall|a: int, b: int| 0 <= a < b < store.elections@.len() implies id_less(
                    #[trigger] store.elections@[a].id@,
                    #[trigger] store.elections@[b].id@,
                ) by {
                    assert(id_less(old_es[a].id@, old_es[b].id@));
                }
                lemma_tips_same_roots(old_es, store.elections@);
            }
            Ok(())
        },
    }
}

/// The record of election `id`.
pub fn get_election<'a>(store: &'a VoteStore, id: &String) -> (r: Result<&'a ElectionRecord, VoteError>)
    requires
        store.wf(),
    ensures
        r is Ok <==> has_election(store.elections@, id@),
        r matches Ok(e) ==> *e == store.election(id@),
        r is Err ==> r == Err::<&ElectionRecord, VoteError>(VoteError::ElectionNotFound),
{
    match store.find_election(id) {
        None => Err(VoteError::ElectionNotFound),
        Some(i) => Ok(&store.elections[i]),
    }
}

/// Number of ballots stored for election `id`.
pub fn get_num_ballots(store: &VoteStore, id: &String) -> (r: Result<usize, VoteError>)
    requires
        store.wf(),
    ensures
        r is Ok <==> has_election(store.elections@, id@),
        r matches Ok(n) ==> n == store.election(id@).ballots@.len(),
        r is Err ==> r == Err::<usize, VoteError>(VoteError::ElectionNotFound),
{
    match store.find_election(id) {
        None => Err(VoteError::ElectionNotFound),
        Some(i) => Ok(store.elections[i].ballots.len()),
    }
}

/// The ballot stored for election `id` at `height` (the first ballot is at height 1).
pub fn get_ballot_height<'a>(store: &'a VoteStore, id: &String, height: u32) -> (r: Result<&'a Ballot, VoteError>)
    requires
        store.wf(),
    ensures
        !has_election(store.elections@, id@) ==> r == Err::<&Ballot, VoteError>(VoteError::ElectionNotFound),
        has_election(store.elections@, id@) ==> {
            let bs = store.election(id@).ballots@;
            if 1 <= height <= bs.len() {
                r matches Ok(b) && *b == bs[height - 1]
            } else {
                r == Err::<&Ballot, VoteError>(VoteError::StorageError)
            }
        },
{
    match store.find_election(id) {
        None => Err(VoteError::ElectionNotFound),
        Some(i) => {
            let e = &store.elections[i];
            if height >= 1 && (height as usize) <= e.ballots.len() {
                Ok(&e.ballots[(height - 1) as usize])
            } else {
                Err(VoteError::StorageError)
            }
        },
    }
}

/// Whether `cmx` is the commitment root of election `e` at some height.
pub fn check_cmx_root(e: &ElectionRecord, cmx: &[u8; 32]) -> (r: Result<(), VoteError>)
    ensures
        r is Ok <==> e.has_root(cmx@),
        r is Err ==> r == Err::<(), VoteError>(VoteError::UnknownCommitmentAnchor),
{
    let n: usize = e.roots.len();
    let mut h: usize = 0;
    while h < n
        invariant
            n == e.roots@.len(),
            h <= n,
            forall|j: int| 0 <= j < h ==> #[trigger] e.roots@[j]@ != cmx@,
        decreases n - h,
    {
        if bytes32_eq(&e.roots[h], cmx) {
            return Ok(());
        }
        h = h + 1;
    }
    Err(VoteError::UnknownCommitmentAnchor)
}

/// Whether nullifier `nf` has been spent on election `e`.
pub fn has_nullifier(e: &ElectionRecord, nf: &[u8; 32]) -> (r: bool)
    ensures
        r == e.is_spent(nf@),
{
    nf_listed(&e.nullifiers, nf)
}


/// No nullifier of `acts` is spent on `e`, and no two actions share one.
pub open spec fn fresh_nullifiers(e: ElectionRecord, acts: Seq<Action>) -> bool {
    &&& forall|k: int| 0 <= k < acts.len() ==> !e.is_spent(#[trigger] acts[k].nf@)
    &&& action_nfs(acts).no_duplicates()
}

/// What storing ballot `b` for election `id` gives: the first failing check, or success.
pub open spec fn store_verdict(store: VoteStore, id: Seq<char>, b: Ballot) -> Result<(), VoteError> {
    if !has_election(store.elections@, id) {
        Err(VoteError::ElectionNotFound)
    } else {
        let e = store.election(id);
        let acts = b.data.actions@;
        if e.closed {
            Err(VoteError::ElectionClosed)
        } else if b.data.anchors.nf@ != e.nf_anchor@ {
            Err(VoteError::NullifierRootMismatch)
        } else if !e.has_root(b.data.anchors.cmx@) {
            Err(VoteError::UnknownCommitmentAnchor)
        } else if !fresh_nullifiers(e, acts) {
            Err(VoteError::DoubleSpend)
        } else {
            match append_failure(e.frontiers@.last()@.len(), acts) {
                Some(AppendError::NonCanonical) => Err(VoteError::MalformedTx),
                Some(AppendError::Full) => Err(VoteError::StorageError),
                None => Ok(()),
            }
        }
    }
}

/// `b` is `a` with ballot `x` stored at the next height.
pub open spec fn ballot_appended(a: ElectionRecord, b: ElectionRecord, x: Ballot) -> bool {
    &&& b.id == a.id
    &&& b.definition == a.definition
    &&& b.signature_required == a.signature_required
    &&& b.nf_anchor == a.nf_anchor
    &&& b.closed == a.closed
    &&& b.ballots@ == a.ballots@.push(x)
    &&& b.frontiers@.len() == a.frontiers@.len() + 1
    &&& b.roots@.len() == a.roots@.len() + 1
    &&& b.frontiers@.drop_last() == a.frontiers@
    &&& b.roots@.drop_last() == a.roots@
    &&& b.frontiers@.last()@ == a.frontiers@.last()@ + action_cmxs(x.data.actions@)
    &&& b.roots@.last()@ == commitment_root(b.frontiers@.last()@)
    &&& bytes_view(b.nullifiers@) == bytes_view(a.nullifiers@) + action_nfs(x.data.actions@)
}

/// `new` is `old` with ballot `b` stored for election `id`, the application hash aside.
pub open spec fn ballot_stored(old: VoteStore, new: VoteStore, id: Seq<char>, b: Ballot) -> bool {
    let i = election_index(old.elections@, id);
    &&& new.state.height == old.state.height
    &&& new.elections@.len() == old.elections@.len()
    &&& ballot_appended(old.elections@[i], new.elections@[i], b)
    &&& forall|j: int| 0 <= j < old.elections@.len() && j != i ==>
        #[trigger] new.elections@[j] == old.elections@[j]
}

/// Whether the nullifiers of `acts` are all unspent on `e` and pairwise distinct.
pub fn nullifiers_fresh(e: &ElectionRecord, acts: &Vec<Action>) -> (r: bool)
    ensures
        r == fresh_nullifiers(*e, acts@),
{
    let n: usize = acts.len();
    let mut k: usize = 0;
    while k < n
        invariant
            n == acts@.len(),
            k <= n,
            forall|j: int| 0 <= j < k ==> !e.is_spent(#[trigger] acts@[j].nf@),
            forall|a: int, b: int| 0 <= a < b < k ==> #[trigger] acts@[a].nf@ != #[trigger] acts@[b].nf@,
        decreases n - k,
    {
        if has_nullifier(e, &acts[k].nf) {
            return false;
        }
        let mut j: usize = 0;
        while j < k
            invariant
                n == acts@.len(),
                j <= k < n,
                forall|a: int| 0 <= a < j ==> #[trigger] acts@[a].nf@ != acts@[k as int].nf@,
            decreases k - j,
        {
            if bytes32_eq(&acts[j].nf, &acts[k].nf) {
                proof {
                    assert(action_nfs(acts@)[j as int] == action_nfs(acts@)[k as int]);
                }
                return false;
            }
            j = j + 1;
        }
        k = k + 1;
    }
    proof {
        let s = action_nfs(acts@);
        assert forall|a: int, b: int| 0 <= a < s.len() && 0 <= b < s.len() && a != b implies s[a] != s[b] by {
            if a < b {
                assert(acts@[a].nf@ != acts@[b].nf@);
            } else {
                assert(acts@[b].nf@ != acts@[a].nf@);
            }
        }
    }
    true
}

proof fn lemma_ballot_appended_wf(a: ElectionRecord, b: ElectionRecord, x: Ballot)
    requires
        a.wf(),
        ballot_appended(a, b, x),
        x.data.anchors.nf@ == a.nf_anchor@,
        a.has_root(x.data.anchors.cmx@),
        fresh_nullifiers(a, x.data.actions@),
    ensures
        b.wf(),
{
    let n = a.ballots@.len();
    assert(b.frontiers@.len() == n + 2);
    assert forall|h: int| 0 <= h < b.roots@.len() implies #[trigger] b.roots@[h]@ == commitment_root(
        b.frontiers@[h]@,
    ) by {
        if h < n + 1 {
            assert(b.roots@[h] == b.roots@.drop_last()[h]);
            assert(b.frontiers@[h] == b.frontiers@.drop_last()[h]);
        }
    }
    assert forall|k: int| 0 <= k < b.ballots@.len() implies #[trigger] b.frontiers@[k + 1]@
        == b.frontiers@[k]@ + action_cmxs(b.ballots@[k].data.actions@) by {
        assert(b.frontiers@[k] == b.frontiers@.drop_last()[k]);
        if k < n {
            assert(b.frontiers@[k + 1] == b.frontiers@.drop_last()[k + 1]);
            assert(b.ballots@[k] == a.ballots@[k]);
        }
    }
    assert(b.ballots@.drop_last() =~= a.ballots@);
    assert(bytes_view(b.nullifiers@) == ballots_nfs(b.ballots@));
    let old_nfs = bytes_view(a.nullifiers@);
    let new_nfs = action_nfs(x.data.actions@);
    assert forall|i: int, j: int| 0 <= i < old_nfs.len() && 0 <= j < new_nfs.len() implies old_nfs[i] != new_nfs[j] by {
        assert(!a.is_spent(x.data.actions@[j].nf@));
    }
    vstd::seq_lib::lemma_no_dup_in_concat(old_nfs, new_nfs);
    assert forall|k: int| 0 <= k < b.ballots@.len() implies #[trigger] b.ballots@[k].data.anchors.nf@
        == b.nf_anchor@ by {
        if k < n {
            assert(b.ballots@[k] == a.ballots@[k]);
        }
    }
    assert forall|k: int| 0 <= k < b.ballots@.len() implies #[trigger] b.anchored_at(k) by {
        if k < n {
            assert(a.anchored_at(k));
            let h = choose|h: int| 0 <= h <= k && #[trigger] a.roots@[h]@ == a.ballots@[k].data.anchors.cmx@;
            assert(b.roots@[h] == b.roots@.drop_last()[h]);
            assert(b.ballots@[k] == a.ballots@[k]);
        } else {
            let h = choose|h: int| 0 <= h < a.roots@.len() && #[trigger] a.roots@[h]@ == x.data.anchors.cmx@;
            assert(b.roots@[h] == b.roots@.drop_last()[h]);
        }
    }
}

/// Stores ballot `b` for election `id` at the election's next height: appends its note
/// commitments to the latest frontier, records its nullifiers, the new frontier and its
/// root, and recomputes the application hash. The election must be open and the ballot's
/// anchors and nullifiers are checked again against the store, so that what is stored
/// never depends on an earlier check. On any failure nothing changes.
pub fn store_ballot(store: &mut VoteStore, id: &String, b: Ballot) -> (r: Result<(), VoteError>)
    requires
        old(store).wf(),
    ensures
        final(store).wf(),
        r == store_verdict(*old(store), id@, b),
        r is Err ==> *final(store) == *old(store),
        r is Ok ==> ballot_stored(*old(store), *final(store), id@, b),
{
    let i: usize = match store.find_election(id) {
        None => return Err(VoteError::ElectionNotFound),
        Some(i) => i,
    };
    let ghost old_es = store.elections@;
    let ghost e0 = old_es[i as int];
    proof {
        assert(e0.wf());
    }
    if store.elections[i].closed {
        return Err(VoteError::ElectionClosed);
    }
    if !bytes32_eq(&b.data.anchors.nf, &store.elections[i].nf_anchor) {
        return Err(VoteError::NullifierRootMismatch);
    }
    if check_cmx_root(&store.elections[i], &b.data.anchors.cmx).is_err() {
        return Err(VoteError::UnknownCommitmentAnchor);
    }
    if !nullifiers_fresh(&store.elections[i], &b.data.actions) {
        return Err(VoteError::DoubleSpend);
    }
    let last: usize = store.elections[i].frontiers.len() - 1;
    let mut f: CmxFrontier = store.elections[i].frontiers[last].duplicate();
    let n: usize = b.data.actions.len();
    let ghost acts = b.data.actions@;
    match compute_new_cmx_root(&mut f, &b.data) {
        Err(AppendError::NonCanonical) => return Err(VoteError::MalformedTx),
        Err(AppendError::Full) => return Err(VoteError::StorageError),
        Ok(()) => {},
    }
    let root: [u8; 32] = f.root();
    let mut rec = store.elections.remove(i);
    rec.frontiers.push(f);
    rec.roots.push(root);
    let mut k: usize = 0;
    let ghost nfs0 = bytes_view(rec.nullifiers@);
    proof {
        assert(action_nfs(acts.subrange(0, 0)) =~= Seq::<Seq<u8>>::empty());
        assert(nfs0 + Seq::<Seq<u8>>::empty() =~= nfs0);
    }
    while k < n
        invariant
            n == acts.len(),
            acts == b.data.actions@,
            k <= n,
            bytes_view(rec.nullifiers@) == nfs0 + action_nfs(acts.subrange(0, k as int)),
            rec.id == e0.id,
            rec.definition == e0.definition,
            rec.signature_required == e0.signature_required,
            rec.nf_anchor == e0.nf_anchor,
            rec.closed == e0.closed,
            rec.ballots == e0.ballots,
            rec.frontiers@ == e0.frontiers@.push(f),
            rec.roots@ == e0.roots@.push(root),
        decreases n - k,
    {
        let ghost prev = rec.nullifiers@;
        rec.nullifiers.push(b.data.actions[k].nf);
        proof {
            assert(bytes_view(rec.nullifiers@) =~= bytes_view(prev).push(acts[k as int].nf@));
            assert(acts.subrange(0, k + 1) =~= acts.subrange(0, k as int).push(acts[k as int]));
            assert(action_nfs(acts.subrange(0, k + 1)) =~= action_nfs(acts.subrange(0, k as int)).push(
                acts[k as int].nf@,
            ));
            assert(bytes_view(rec.nullifiers@) =~= nfs0 + action_nfs(acts.subrange(0, k + 1)));
        }
        k = k + 1;
    }
    proof {
        assert(acts.subrange(0, n as int) =~= acts);
    }
    rec.ballots.push(b);
    proof {
        assert(rec.frontiers@.drop_last() =~= e0.frontiers@);
        assert(rec.roots@.drop_last() =~= e0.roots@);
        assert(ballot_appended(e0, rec, b));
        lemma_ballot_appended_wf(e0, rec, b);
    }
    store.elections.insert(i, rec);
    proof {
        let es = store.elections@;
        assert(es =~= old_es.update(i as int, rec));
        assert forall|k: int| 0 <= k < es.len() implies (#[trigger] es[k]).wf() by {
            if k != i {
                assert(es[k] == old_es[k]);
            }
        }
        assert forall|x: int, y: int| 0 <= x < y < es.len() implies id_less(
            #[trigger] es[x].id@,
            #[trigger] es[y].id@,
        ) by {
            assert(id_less(old_es[x].id@, old_es[y].id@));
        }
    }
    store.refresh_app_hash();
    Ok(())
}

} // verus!
