//! The chain core: a single owner of the store, the check-cache and the set of nullifiers
//! spent by the proposed block, driven one command at a time.
use vstd::prelude::*;
use crate::AppState;
use crate::ballot::{action_nfs, bytes32_eq, Action, Ballot, ValidationError, VoteError};
use crate::cache::{cache_evict, cache_insert, cache_lookup, cache_map, clashes, insert_nullifiers, CacheEntry};
use crate::db::{
    ballot_stored, bytes_view, check_cmx_root, get_election, has_election, has_nullifier,
    store_ballot, store_verdict, VoteStore,
};
use crate::digest::{hex_of, to_hex};

verus! {

/// What checking ballot `b` against election `id` of `store` judges, given the outcome
/// `validation` of its proof and signature checks.
pub open spec fn check_verdict(
    store: VoteStore,
    id: Seq<char>,
    b: Ballot,
    validation: Result<(), ValidationError>,
) -> Result<(), VoteError> {
    if !has_election(store.elections@, id) {
        Err(VoteError::ElectionNotFound)
    } else {
        let e = store.election(id);
        if e.closed {
            Err(VoteError::ElectionClosed)
        } else {
            match validation {
                Err(v) => Err(v.spec_to_vote_error()),
                Ok(_) => {
                    if b.data.anchors.nf@ != e.nf_anchor@ {
                        Err(VoteError::NullifierRootMismatch)
                    } else if !e.has_root(b.data.anchors.cmx@) {
                        Err(VoteError::UnknownCommitmentAnchor)
                    } else if exists|k: int|
                        0 <= k < b.data.actions@.len() && e.is_spent(
                            #[trigger] b.data.actions@[k].nf@,
                        ) {
                        Err(VoteError::DoubleSpend)
                    } else {
                        Ok(())
                    }
                },
            }
        }
    }
}

/// A command of the chain core.
pub enum Command {
    Stop,
    Info,
    /// A ballot for an election, with the outcome of its proof and signature checks.
    CheckBallot(String, Ballot, Result<(), ValidationError>),
    PrepareProposal(String, Ballot),
    FinalizeBallot(String, Ballot),
    Commit,
}

/// The answer to a command.
pub enum Reply {
    Stopped,
    Info(AppState),
    Checked(Result<String, VoteError>),
    Proposed(Option<VoteError>),
    Finalized(Result<String, VoteError>),
    Committed(AppState),
}

/// Screening a proposed block whose transactions open to `bs` (`None` for one that does
/// not open), from pending set `p`: the pending set afterwards and the positions of the
/// transactions kept, in order.
pub open spec fn screen_block(p: Set<Seq<u8>>, bs: Seq<Option<Ballot>>) -> (Set<Seq<u8>>, Seq<int>)
    decreases bs.len(),
{
    if bs.len() == 0 {
        (p, Seq::empty())
    } else {
        let (q, kept) = screen_block(p, bs.drop_last());
        match bs.last() {
            None => (q, kept),
            Some(b) => {
                let nfs = action_nfs(b.data.actions@);
                (q.union(nfs.to_set()), if clashes(q, nfs) {
                    kept
                } else {
                    kept.push(bs.len() - 1)
                })
            },
        }
    }
}

/// The owner of all chain state.
pub struct VoteChainRunner {
    store: VoteStore,
    check_cache: Vec<CacheEntry>,
    dnfs: Vec<[u8; 32]>,
}

/// A ballot digest and its judgment, as the core reports them.
pub open spec fn reported(sighash: Seq<u8>, outcome: Result<(), VoteError>, r: Result<String, VoteError>) -> bool {
    match outcome {
        Ok(_) => r matches Ok(s) && s@ == hex_of(sighash),
        Err(e) => r == Err::<String, VoteError>(e),
    }
}

impl VoteChainRunner {
    pub closed spec fn wf(&self) -> bool {
        self.store.wf()
    }

    /// A well-formed core holds a well-formed store.
    pub proof fn lemma_wf_store(&self)
        requires
            self.wf(),
        ensures
            self.spec_store().wf(),
    {
    }

    /// The store.
    pub closed spec fn spec_store(&self) -> VoteStore {
        self.store
    }

    /// The check-cache, from ballot digest to judgment.
    pub closed spec fn cache(&self) -> Map<Seq<u8>, Result<(), VoteError>> {
        cache_map(self.check_cache@)
    }

    /// The nullifiers spent by the ballots admitted to the proposed block.
    pub closed spec fn pending(&self) -> Set<Seq<u8>> {
        bytes_view(self.dnfs@).to_set()
    }

    /// The judgment that checking `b` gives: the cached one if there is one.
    pub open spec fn check_outcome(
        &self,
        id: Seq<char>,
        b: Ballot,
        validation: Result<(), ValidationError>,
    ) -> Result<(), VoteError> {
        if self.cache().contains_key(b.sighash@) {
            self.cache()[b.sighash@]
        } else {
            check_verdict(self.spec_store(), id, b, validation)
        }
    }

    /// The effect and reply of a check.
    pub open spec fn checked_as(
        old: Self,
        new: Self,
        id: Seq<char>,
        b: Ballot,
        validation: Result<(), ValidationError>,
        r: Result<String, VoteError>,
    ) -> bool {
        let outcome = old.check_outcome(id, b, validation);
        &&& new.wf()
        &&& new.spec_store() == old.spec_store()
        &&& new.pending() == old.pending()
        &&& new.cache() == old.cache().insert(b.sighash@, outcome)
        &&& reported(b.sighash@, outcome, r)
    }

    /// The effect and reply of screening a ballot for a proposed block.
    pub open spec fn proposed_as(old: Self, new: Self, b: Ballot, r: Option<VoteError>) -> bool {
        &&& new.wf()
        &&& new.spec_store() == old.spec_store()
        &&& new.cache() == old.cache()
        &&& new.pending() == old.pending().union(action_nfs(b.data.actions@).to_set())
        &&& r == if clashes(old.pending(), action_nfs(b.data.actions@)) {
            Some(VoteError::DoubleSpend)
        } else {
            None
        }
    }

    /// The effect and reply of finalizing a ballot.
    pub open spec fn finalized_as(old: Self, new: Self, id: Seq<char>, b: Ballot, r: Result<String, VoteError>) -> bool {
        let verdict = store_verdict(old.spec_store(), id, b);
        &&& new.wf()
        &&& reported(b.sighash@, verdict, r)
        &&& verdict is Err ==> new == old
        &&& verdict is Ok ==> {
            &&& ballot_stored(old.spec_store(), new.spec_store(), id, b)
            &&& new.cache() == old.cache().remove(b.sighash@)
            &&& new.pending() == Set::<Seq<u8>>::empty()
        }
    }

    /// The effect and reply of a commit.
    pub open spec fn committed_as(old: Self, new: Self, r: AppState) -> bool {
        &&& new.wf()
        &&& new.spec_store().elections == old.spec_store().elections
        &&& new.spec_store().state.hash == old.spec_store().state.hash
        &&& new.spec_store().state.height == if old.spec_store().state.height < u32::MAX {
            (old.spec_store().state.height + 1) as u32
        } else {
            old.spec_store().state.height
        }
        &&& new.cache() == old.cache()
        &&& new.pending() == old.pending()
        &&& r == new.spec_store().state
    }

    /// A core that owns `store`, with an empty cache and no pending nullifiers.
    pub fn new(store: VoteStore) -> (r: Self)
        requires
            store.wf(),
        ensures
            r.wf(),
            r.spec_store() == store,
            r.cache() == Map::<Seq<u8>, Result<(), VoteError>>::empty(),
            r.pending() == Set::<Seq<u8>>::empty(),
    {
        let r = VoteChainRunner { store, check_cache: Vec::new(), dnfs: Vec::new() };
        proof {
            assert(cache_map(r.check_cache@) =~= Map::<Seq<u8>, Result<(), VoteError>>::empty());
            assert(bytes_view(r.dnfs@).to_set() =~= Set::<Seq<u8>>::empty());
        }
        r
    }

    /// Read access to the store.
    pub fn store(&self) -> (r: &VoteStore)
        ensures
            *r == self.spec_store(),
    {
        &self.store
    }

    /// The application state.
    pub fn info(&self) -> (r: AppState)
        ensures
            r == self.spec_store().state,
    {
        AppState { height: self.store.state.height, hash: self.store.state.hash.clone() }
    }

    /// Judges ballot `b` against the store, without the cache.
    fn judge(&self, id: &String, b: &Ballot, validation: Result<(), ValidationError>) -> (r: Result<(), VoteError>)
        requires
            self.wf(),
        ensures
            r == check_verdict(self.spec_store(), id@, *b, validation),
    {
        let e = match get_election(&self.store, id) {
            Err(err) => return Err(err),
            Ok(e) => e,
        };
        if e.closed {
            return Err(VoteError::ElectionClosed);
        }
        if let Err(v) = validation {
            return Err(v.to_vote_error());
        }
        if !bytes32_eq(&b.data.anchors.nf, &e.nf_anchor) {
            return Err(VoteError::NullifierRootMismatch);
        }
        if check_cmx_root(e, &b.data.anchors.cmx).is_err() {
            return Err(VoteError::UnknownCommitmentAnchor);
        }
        let n: usize = b.data.actions.len();
        let mut k: usize = 0;
        while k < n
            invariant
                n == b.data.actions@.len(),
                k <= n,
                has_election(self.store.elections@, id@),
                *e == self.store.election(id@),
                !e.closed,
                validation is Ok,
                b.data.anchors.nf@ == e.nf_anchor@,
                e.has_root(b.data.anchors.cmx@),
                forall|j: int| 0 <= j < k ==> !e.is_spent(#[trigger] b.data.actions@[j].nf@),
            decreases n - k,
        {
            if has_nullifier(e, &b.data.actions[k].nf) {
                proof {
                    assert(e.is_spent(b.data.actions@[k as int].nf@));
                }
                return Err(VoteError::DoubleSpend);
            }
            k = k + 1;
        }
        Ok(())
    }

    /// Checks ballot `b` for admission to the mempool: answers from the check-cache when it
    /// holds a judgment for the ballot's digest, else judges it and caches the judgment.
    pub fn check_ballot(&mut self, id: &String, b: &Ballot, validation: Result<(), ValidationError>) -> (r: Result<
        String,
        VoteError,
    >)
        requires
            old(self).wf(),
        ensures
            Self::checked_as(*old(self), *final(self), id@, *b, validation, r),
    {
        let outcome: Result<(), VoteError> = match cache_lookup(&self.check_cache, &b.sighash) {
            Some(o) => o,
            None => self.judge(id, b, validation),
        };
        cache_insert(&mut self.check_cache, &b.sighash, outcome);
        proof {
            if old(self).cache().contains_key(b.sighash@) {
                assert(self.cache() =~= old(self).cache().insert(b.sighash@, outcome));
            }
        }
        match outcome {
            Ok(()) => Ok(to_hex(&b.sighash)),
            Err(e) => Err(e),
        }
    }

    /// Screens ballot `b` for the proposed block: adds its nullifiers to the pending set and
    /// refuses it if one of them was already there or is repeated within the ballot.
    pub fn prepare_proposal(&mut self, b: &Ballot) -> (r: Option<VoteError>)
        requires
            old(self).wf(),
        ensures
            Self::proposed_as(*old(self), *final(self), *b, r),
    {
        let acts: &Vec<Action> = &b.data.actions;
        let n: usize = acts.len();
        let mut nfs: Vec<[u8; 32]> = Vec::new();
        let mut k: usize = 0;
        while k < n
            invariant
                n == acts@.len(),
                k <= n,
                bytes_view(nfs@) == action_nfs(acts@.subrange(0, k as int)),
            decreases n - k,
        {
            let ghost before = nfs@;
            nfs.push(acts[k].nf);
            proof {
                assert(bytes_view(nfs@) =~= bytes_view(before).push(acts@[k as int].nf@));
                assert(action_nfs(acts@.subrange(0, k + 1)) =~= action_nfs(acts@.subrange(0, k as int)).push(
                    acts@[k as int].nf@,
                ));
            }
            k = k + 1;
        }
        proof {
            assert(acts@.subrange(0, n as int) =~= acts@);
        }
        if insert_nullifiers(&mut self.dnfs, &nfs) {
            Some(VoteError::DoubleSpend)
        } else {
            None
        }
    }

    /// Screens the transactions of a proposed block in order (see `prepare_proposal`) and
    /// gives the positions of those to keep; a transaction that does not open is left out.
    pub fn prepare_block(&mut self, txs: &Vec<Option<Ballot>>) -> (kept: Vec<usize>)
        requires
            old(self).wf(),
        ensures
            final(self).wf(),
            final(self).spec_store() == old(self).spec_store(),
            final(self).cache() == old(self).cache(),
            final(self).pending() == screen_block(old(self).pending(), txs@).0,
            kept@.map_values(|i: usize| i as int) == screen_block(old(self).pending(), txs@).1,
    {
        let n: usize = txs.len();
        let mut kept: Vec<usize> = Vec::new();
        let mut i: usize = 0;
        proof {
            assert(txs@.subrange(0, 0) =~= Seq::<Option<Ballot>>::empty());
            assert(kept@.map_values(|i: usize| i as int) =~= Seq::<int>::empty());
        }
        while i < n
            invariant
                n == txs@.len(),
                i <= n,
                self.wf(),
                self.spec_store() == old(self).spec_store(),
                self.cache() == old(self).cache(),
                self.pending() == screen_block(old(self).pending(), txs@.subrange(0, i as int)).0,
                kept@.map_values(|i: usize| i as int) == screen_block(old(self).pending(), txs@.subrange(0, i as int)).1,
            decreases n - i,
        {
            let ghost sub1 = txs@.subrange(0, i + 1);
            proof {
                assert(sub1.drop_last() =~= txs@.subrange(0, i as int));
                assert(sub1.last() == txs@[i as int]);
            }
            match &txs[i] {
                None => {},
                Some(b) => {
                    let ghost before = kept@;
                    if self.prepare_proposal(b).is_none() {
                        kept.push(i);
                        proof {
                            assert(kept@.map_values(|i: usize| i as int) =~= before.map_values(
                                |i: usize| i as int,
                            ).push(i as int));
                        }
                    }
                },
            }
            i = i + 1;
        }
        proof {
            assert(txs@.subrange(0, n as int) =~= txs@);
        }
        kept
    }

    /// Finalizes ballot `b` for election `id`: stores it (see `store_ballot`), then evicts its
    /// digest from the check-cache and empties the pending nullifier set.
    pub fn finalize_ballot(&mut self, id: &String, b: Ballot) -> (r: Result<String, VoteError>)
        requires
            old(self).wf(),
        ensures
            Self::finalized_as(*old(self), *final(self), id@, b, r),
    {
        let sighash: [u8; 32] = b.sighash;
        let ghost b0 = b;
        match store_ballot(&mut self.store, id, b) {
            Err(e) => Err(e),
            Ok(()) => {
                self.check_cache = cache_evict(&self.check_cache, &sighash);
                self.dnfs = Vec::new();
                proof {
                    assert(bytes_view(self.dnfs@).to_set() =~= Set::<Seq<u8>>::empty());
                }
                Ok(to_hex(&sighash))
            },
        }
    }

    /// Finalizes the transactions of a block in order; a transaction that does not open
    /// (`None`) is refused as `MalformedTx` and changes nothing. The replies are those of
    /// `finalize_ballot`, each applied to the state that the previous ones left.
    pub fn finalize_block(&mut self, txs: Vec<Option<(String, Ballot)>>) -> (r: Vec<Result<String, VoteError>>)
        requires
            old(self).wf(),
        ensures
            final(self).wf(),
            r@.len() == txs@.len(),
            exists|states: Seq<VoteChainRunner>|
                {
                    &&& states.len() == txs@.len() + 1
                    &&& states[0] == *old(self)
                    &&& states.last() == *final(self)
                    &&& forall|k: int| 0 <= k < txs@.len() ==> #[trigger] Self::block_step(
                        states[k],
                        states[k + 1],
                        txs@[k],
                        r@[k],
                    )
                },
    {
        let n: usize = txs.len();
        let ghost all = txs@;
        let ghost mut states: Seq<VoteChainRunner> = seq![*self];
        let mut replies: Vec<Result<String, VoteError>> = Vec::new();
        let mut rest = txs;
        let mut i: usize = 0;
        proof {
            assert(rest@ =~= all.subrange(0, n as int));
        }
        while i < n
            invariant
                n == all.len(),
                i <= n,
                rest@ == all.subrange(i as int, n as int),
                self.wf(),
                replies@.len() == i,
                states.len() == i + 1,
                states[0] == *old(self),
                states.last() == *self,
                forall|k: int| 0 <= k < i ==> #[trigger] Self::block_step(states[k], states[k + 1], all[k], replies@[k]),
            decreases n - i,
        {
            let tx = rest.remove(0);
            proof {
                assert(tx == all[i as int]);
                assert(rest@ =~= all.subrange(i + 1, n as int));
            }
            let ghost before = *self;
            let reply = match tx {
                None => Err(VoteError::MalformedTx),
                Some((id, b)) => self.finalize_ballot(&id, b),
            };
            replies.push(reply);
            proof {
                states = states.push(*self);
                assert(Self::block_step(before, *self, all[i as int], reply));
                assert forall|k: int| 0 <= k < i + 1 implies #[trigger] Self::block_step(
                    states[k],
                    states[k + 1],
                    all[k],
                    replies@[k],
                ) by {
                    if k < i {
                        assert(states[k] == states.drop_last()[k]);
                    }
                }
            }
            i = i + 1;
        }
        replies
    }

    /// One transaction of a finalized block.
    pub open spec fn block_step(
        old: Self,
        new: Self,
        tx: Option<(String, Ballot)>,
        r: Result<String, VoteError>,
    ) -> bool {
        match tx {
            None => r == Err::<String, VoteError>(VoteError::MalformedTx) && new == old,
            Some((id, b)) => Self::finalized_as(old, new, id@, b, r),
        }
    }

    /// Closes the block: advances the height by one (it stays at its maximum once there).
    pub fn commit(&mut self) -> (r: AppState)
        requires
            old(self).wf(),
        ensures
            Self::committed_as(*old(self), *final(self), r),
    {
        if self.store.state.height < u32::MAX {
            self.store.state.height = self.store.state.height + 1;
        }
        self.info()
    }

    /// Performs one command and gives its reply.
    pub fn process_command(&mut self, cmd: Command) -> (r: Reply)
        requires
            old(self).wf(),
        ensures
            match cmd {
                Command::Stop => r is Stopped && *final(self) == *old(self),
                Command::Info => r == Reply::Info(old(self).spec_store().state) && *final(self) == *old(self),
                Command::CheckBallot(id, b, v) => r matches Reply::Checked(res) && Self::checked_as(
                    *old(self),
                    *final(self),
                    id@,
                    b,
                    v,
                    res,
                ),
                Command::PrepareProposal(_, b) => r matches Reply::Proposed(res) && Self::proposed_as(
                    *old(self),
                    *final(self),
                    b,
                    res,
                ),
                Command::FinalizeBallot(id, b) => r matches Reply::Finalized(res) && Self::finalized_as(
                    *old(self),
                    *final(self),
                    id@,
                    b,
                    res,
                ),
                Command::Commit => r matches Reply::Committed(st) && Self::committed_as(*old(self), *final(self), st),
            },
    {
        match cmd {
            Command::Stop => Reply::Stopped,
            Command::Info => Reply::Info(self.info()),
            Command::CheckBallot(id, b, v) => Reply::Checked(self.check_ballot(&id, &b, v)),
            Command::PrepareProposal(_, b) => Reply::Proposed(self.prepare_proposal(&b)),
            Command::FinalizeBallot(id, b) => Reply::Finalized(self.finalize_ballot(&id, b)),
            Command::Commit => Reply::Committed(self.commit()),
        }
    }
}

} // verus!
