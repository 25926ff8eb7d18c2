//! The check-cache, from ballot digest to the judgment of the check, and the set of
//! nullifiers spent by the ballots of the block being proposed.
use vstd::prelude::*;
use crate::ballot::{bytes32_eq, VoteError};
use crate::db::bytes_view;

verus! {

/// One cached judgment.
#[derive(Clone, Copy, Debug)]
pub struct CacheEntry {
    pub sighash: [u8; 32],
    pub outcome: Result<(), VoteError>,
}

/// The map that a list of entries stands for: a later entry overrides an earlier one.
pub open spec fn cache_map(s: Seq<CacheEntry>) -> Map<Seq<u8>, Result<(), VoteError>>
    decreases s.len(),
{
    if s.len() == 0 {
        Map::empty()
    } else {
        cache_map(s.drop_last()).insert(s.last().sighash@, s.last().outcome)
    }
}

proof fn lemma_cache_suffix_free(s: Seq<CacheEntry>, i: int, key: Seq<u8>)
    requires
        0 <= i <= s.len(),
        forall|j: int| i <= j < s.len() ==> (#[trigger] s[j]).sighash@ != key,
    ensures
        cache_map(s).contains_key(key) == cache_map(s.subrange(0, i)).contains_key(key),
        cache_map(s).contains_key(key) ==> cache_map(s)[key] == cache_map(s.subrange(0, i))[key],
    decreases s.len() - i,
{
    if i < s.len() {
        let t = s.subrange(0, i + 1);
        assert(t.drop_last() =~= s.subrange(0, i));
        assert(t.last() == s[i]);
        lemma_cache_suffix_free(s, i + 1, key);
    } else {
        assert(s.subrange(0, i) =~= s);
    }
}

/// The cached judgment for `key`, if any.
pub fn cache_lookup(entries: &Vec<CacheEntry>, key: &[u8; 32]) -> (r: Option<Result<(), VoteError>>)
    ensures
        r is Some <==> cache_map(entries@).contains_key(key@),
        r matches Some(o) ==> o == cache_map(entries@)[key@],
{
    let mut i: usize = entries.len();
    while i > 0
        invariant
            i <= entries@.len(),
            forall|j: int| i <= j < entries@.len() ==> (#[trigger] entries@[j]).sighash@ != key@,
        decreases i,
    {
        if bytes32_eq(&entries[i - 1].sighash, key) {
            proof {
                lemma_cache_suffix_free(entries@, i as int, key@);
                let t = entries@.subrange(0, i as int);
                assert(t.drop_last() =~= entries@.subrange(0, i - 1));
                assert(t.last() == entries@[i - 1]);
            }
            return Some(entries[i - 1].outcome);
        }
        i = i - 1;
    }
    proof {
        lemma_cache_suffix_free(entries@, 0, key@);
        assert(cache_map(entries@.subrange(0, 0)) =~= Map::<Seq<u8>, Result<(), VoteError>>::empty());
    }
    None
}

/// Records `outcome` for `key`.
pub fn cache_insert(entries: &mut Vec<CacheEntry>, key: &[u8; 32], outcome: Result<(), VoteError>)
    ensures
        cache_map(final(entries)@) == cache_map(old(entries)@).insert(key@, outcome),
{
    let ghost before = entries@;
    entries.push(CacheEntry { sighash: *key, outcome });
    proof {
        assert(entries@.drop_last() =~= before);
    }
}

/// The entries without any judgment for `key`.
pub fn cache_evict(entries: &Vec<CacheEntry>, key: &[u8; 32]) -> (r: Vec<CacheEntry>)
    ensures
        cache_map(r@) == cache_map(entries@).remove(key@),
{
    let n: usize = entries.len();
    let mut kept: Vec<CacheEntry> = Vec::new();
    let mut i: usize = 0;
    proof {
        assert(cache_map(entries@.subrange(0, 0)) =~= Map::<Seq<u8>, Result<(), VoteError>>::empty());
        assert(cache_map(kept@) =~= cache_map(entries@.subrange(0, 0)).remove(key@));
    }
    while i < n
        invariant
            n == entries@.len(),
            i <= n,
            cache_map(kept@) == cache_map(entries@.subrange(0, i as int)).remove(key@),
        decreases n - i,
    {
        let e: CacheEntry = entries[i];
        let ghost t = entries@.subrange(0, i + 1);
        proof {
            assert(t.drop_last() =~= entries@.subrange(0, i as int));
            assert(t.last() == e);
        }
        if !bytes32_eq(&e.sighash, key) {
            let ghost before = kept@;
            kept.push(e);
            proof {
                assert(kept@.drop_last() =~= before);
                assert(cache_map(kept@) =~= cache_map(t).remove(key@));
            }
        } else {
            proof {
                assert(cache_map(kept@) =~= cache_map(t).remove(key@));
            }
        }
        i = i + 1;
    }
    proof {
        assert(entries@.subrange(0, n as int) =~= entries@);
    }
    kept
}

/// Some nullifier of `nfs` is already in `pending`, or equals an earlier one of `nfs`.
pub open spec fn clashes(pending: Set<Seq<u8>>, nfs: Seq<Seq<u8>>) -> bool {
    exists|k: int|
        0 <= k < nfs.len() && (pending.contains(#[trigger] nfs[k]) || exists|j: int|
            0 <= j < k && nfs[j] == nfs[k])
}

/// Whether `nf` is among `set`.
pub fn nf_listed(set: &Vec<[u8; 32]>, nf: &[u8; 32]) -> (r: bool)
    ensures
        r == bytes_view(set@).contains(nf@),
{
    let n: usize = set.len();
    let mut k: usize = 0;
    while k < n
        invariant
            n == set@.len(),
            k <= n,
            forall|j: int| 0 <= j < k ==> #[trigger] set@[j]@ != nf@,
        decreases n - k,
    {
        if bytes32_eq(&set[k], nf) {
            proof {
                assert(bytes_view(set@)[k as int] == nf@);
            }
            return true;
        }
        k = k + 1;
    }
    proof {
        if bytes_view(set@).contains(nf@) {
            let j = choose|j: int| 0 <= j < n && bytes_view(set@)[j] == nf@;
            assert(set@[j]@ != nf@);
        }
    }
    false
}

/// Adds each of `nfs` to `set` in order; returns whether one of them was already there
/// (in `set` before, or earlier in `nfs`).
pub fn insert_nullifiers(set: &mut Vec<[u8; 32]>, nfs: &Vec<[u8; 32]>) -> (clash: bool)
    ensures
        bytes_view(final(set)@).to_set() == bytes_view(old(set)@).to_set().union(bytes_view(nfs@).to_set()),
        clash == clashes(bytes_view(old(set)@).to_set(), bytes_view(nfs@)),
{
    let ghost s0 = bytes_view(set@).to_set();
    let ghost all = bytes_view(nfs@);
    let n: usize = nfs.len();
    let mut clash: bool = false;
    let mut k: usize = 0;
    proof {
        assert(bytes_view(set@).to_set() =~= s0.union(all.subrange(0, 0).to_set()));
    }
    while k < n
        invariant
            n == nfs@.len(),
            all == bytes_view(nfs@),
            k <= n,
            bytes_view(set@).to_set() == s0.union(all.subrange(0, k as int).to_set()),
            clash == clashes(s0, all.subrange(0, k as int)),
        decreases n - k,
    {
        let nf: [u8; 32] = nfs[k];
        let seen: bool = nf_listed(set, &nf);
        let ghost sub = all.subrange(0, k as int);
        let ghost sub1 = all.subrange(0, k + 1);
        proof {
            assert(all[k as int] == nf@);
            assert(seen == (s0.contains(nf@) || exists|j: int| 0 <= j < k && sub[j] == nf@)) by {
                if seen {
                    assert(bytes_view(set@).to_set().contains(nf@));
                    if !s0.contains(nf@) {
                        assert(sub.to_set().contains(nf@));
                        let j = choose|j: int| 0 <= j < sub.len() && sub[j] == nf@;
                        assert(sub[j] == nf@);
                    }
                } else {
                    if s0.contains(nf@) {
                        assert(bytes_view(set@).to_set().contains(nf@));
                    }
                    if exists|j: int| 0 <= j < k && sub[j] == nf@ {
                        let j = choose|j: int| 0 <= j < k && sub[j] == nf@;
                        assert(sub.contains(nf@));
                        assert(sub.to_set().contains(nf@));
                        assert(bytes_view(set@).to_set().contains(nf@));
                    }
                }
            }
            assert(clashes(s0, sub1) == (clashes(s0, sub) || seen)) by {
                if clashes(s0, sub1) && !clashes(s0, sub) {
                    let w = choose|w: int|
                        0 <= w < sub1.len() && (s0.contains(#[trigger] sub1[w]) || exists|j: int|
                            0 <= j < w && sub1[j] == sub1[w]);
                    if w < k {
                        assert(sub[w] == sub1[w]);
                        if !s0.contains(sub1[w]) {
                            let j = choose|j: int| 0 <= j < w && sub1[j] == sub1[w];
                            assert(sub[j] == sub1[j]);
                        }
                        assert(clashes(s0, sub));
                    } else {
                        assert(w == k);
                        if !s0.contains(sub1[w]) {
                            let j = choose|j: int| 0 <= j < w && sub1[j] == sub1[w];
                            assert(sub[j] == nf@);
                        }
                    }
                }
                if clashes(s0, sub) {
                    let w = choose|w: int|
                        0 <= w < sub.len() && (s0.contains(#[trigger] sub[w]) || exists|j: int|
                            0 <= j < w && sub[j] == sub[w]);
                    assert(sub1[w] == sub[w]);
                    if !s0.contains(sub[w]) {
                        let j = choose|j: int| 0 <= j < w && sub[j] == sub[w];
                        assert(sub1[j] == sub[j]);
                    }
                    assert(clashes(s0, sub1));
                }
                if seen {
                    assert(sub1[k as int] == nf@);
                    if !s0.contains(nf@) {
                        let j = choose|j: int| 0 <= j < k && sub[j] == nf@;
                        assert(sub1[j] == sub[j]);
                    }
                    assert(clashes(s0, sub1));
                }
            }
        }
        let ghost before_set = set@;
        if seen {
            clash = true;
        } else {
            let ghost before = set@;
            set.push(nf);
            proof {
                assert(bytes_view(set@) =~= bytes_view(before).push(nf@));
            }
        }
        proof {
            assert(sub1 =~= sub.push(nf@));
            sub.lemma_push_to_set_commute(nf@);
            if seen {
                assert(s0.union(sub.to_set()).contains(nf@));
                assert(s0.union(sub.to_set()) =~= s0.union(sub1.to_set()));
            } else {
                bytes_view(before_set).lemma_push_to_set_commute(nf@);
                assert(bytes_view(set@).to_set() =~= s0.union(sub1.to_set()));
            }
        }
        k = k + 1;
    }
    proof {
        assert(all.subrange(0, n as int) =~= all);
    }
    clash
}

} // verus!
