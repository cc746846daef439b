//! The cache of arenas that the tail has left behind, and what is taken on trust of the
//! `lru` crate that keeps it.

use vstd::prelude::*;
use lru::LruCache;
use crate::arena::Arena;

verus! {

/// The arenas kept mapped beside the two in use: a least-recently-used cache of the
/// `lru` crate, keyed by arena identifier.
#[verifier::external_body]
pub struct ArenaCache {
    inner: LruCache<usize, Arena>,
}

/// What a cache holds: identifier and bytes of each arena, the most recently used first.
pub uninterp spec fn cached(c: ArenaCache) -> Seq<(usize, Seq<u8>)>;

/// The number of arenas that a cache was made to hold at most.
pub uninterp spec fn cache_limit(c: ArenaCache) -> usize;

/// Index of the first entry with the given identifier, or -1 where there is none.
pub open spec fn find(entries: Seq<(usize, Seq<u8>)>, aid: usize) -> int
    decreases entries.len(),
{
    if entries.len() == 0 {
        -1
    } else if entries[0].0 == aid {
        0
    } else {
        let rest = find(entries.skip(1), aid);
        if rest < 0 {
            -1
        } else {
            rest + 1
        }
    }
}

/// What `find` returns is the first entry with the identifier, and -1 only where there
/// is none.
pub proof fn lemma_find(entries: Seq<(usize, Seq<u8>)>, aid: usize)
    ensures
        -1 <= find(entries, aid) < entries.len(),
        find(entries, aid) >= 0 ==> entries[find(entries, aid)].0 == aid,
        forall|i: int| 0 <= i < entries.len() && (find(entries, aid) < 0 || i < find(entries, aid))
            ==> (#[trigger] entries[i]).0 != aid,
    decreases entries.len(),
{
    if entries.len() > 0 && entries[0].0 != aid {
        let rest = entries.skip(1);
        lemma_find(rest, aid);
        assert forall|i: int|
            0 <= i < entries.len() && (find(entries, aid) < 0 || i < find(entries, aid)) implies (
        #[trigger] entries[i]).0 != aid by {
            if i > 0 {
                assert(entries[i] == rest[i - 1]);
            }
        }
    }
}

/// The identifiers of the entries, in their order.
pub open spec fn keys(entries: Seq<(usize, Seq<u8>)>) -> Seq<int> {
    Seq::new(entries.len(), |i: int| entries[i].0 as int)
}

/// Index of the first of the identifiers that is `aid`, or -1 where none is.
pub open spec fn place(kept: Seq<int>, aid: int) -> int
    decreases kept.len(),
{
    if kept.len() == 0 {
        -1
    } else if kept[0] == aid {
        0
    } else {
        let rest = place(kept.skip(1), aid);
        if rest < 0 {
            -1
        } else {
            rest + 1
        }
    }
}

/// The identifiers in a cache of at most `limit` entries after `aid` has been put in:
/// `aid` comes first; where it was there already, it has left its old place, and
/// otherwise, where the cache was full, the last has left.
pub open spec fn admitted(kept: Seq<int>, limit: int, aid: int) -> Seq<int> {
    if place(kept, aid) >= 0 {
        seq![aid] + kept.remove(place(kept, aid))
    } else if kept.len() == limit {
        seq![aid] + kept.drop_last()
    } else {
        seq![aid] + kept
    }
}

/// The identifiers in a cache after `aid` has been taken out, if it was there.
pub open spec fn dismissed(kept: Seq<int>, aid: int) -> Seq<int> {
    if place(kept, aid) >= 0 {
        kept.remove(place(kept, aid))
    } else {
        kept
    }
}

/// The identifiers in a cache of at most `limit` entries after the arenas from `lo` up
/// to, not including, `hi` have been put in, one after the other, but for arena `head`.
pub open spec fn rolled(kept: Seq<int>, limit: int, lo: int, hi: int, head: int) -> Seq<int>
    decreases hi - lo,
{
    if hi <= lo {
        kept
    } else {
        let before = rolled(kept, limit, lo, hi - 1, head);
        if hi - 1 == head {
            before
        } else {
            admitted(before, limit, hi - 1)
        }
    }
}

/// The identifiers in a cache after the arenas from `lo` to `hi` have been taken out,
/// one after the other.
pub open spec fn forgotten(kept: Seq<int>, lo: int, hi: int) -> Seq<int>
    decreases hi - lo + 1,
{
    if hi < lo {
        kept
    } else {
        dismissed(forgotten(kept, lo, hi - 1), hi)
    }
}

/// An identifier is found among the identifiers where its entry is found among the
/// entries.
pub proof fn lemma_place(entries: Seq<(usize, Seq<u8>)>, aid: usize)
    ensures
        place(keys(entries), aid as int) == find(entries, aid),
    decreases entries.len(),
{
    if entries.len() > 0 && entries[0].0 != aid {
        assert(keys(entries).skip(1) =~= keys(entries.skip(1)));
        lemma_place(entries.skip(1), aid);
    }
}

/// What `place` returns is the first place of the identifier, and -1 only where it has
/// none.
pub proof fn lemma_place_first(kept: Seq<int>, aid: int)
    ensures
        -1 <= place(kept, aid) < kept.len(),
        place(kept, aid) >= 0 ==> kept[place(kept, aid)] == aid,
        place(kept, aid) >= 0 <==> kept.contains(aid),
    decreases kept.len(),
{
    if kept.len() > 0 && kept[0] != aid {
        let rest = kept.skip(1);
        lemma_place_first(rest, aid);
        if rest.contains(aid) {
            let i = choose|i: int| 0 <= i < rest.len() && rest[i] == aid;
            assert(kept[i + 1] == aid);
        }
        if kept.contains(aid) {
            let i = choose|i: int| 0 <= i < kept.len() && kept[i] == aid;
            assert(rest[i - 1] == aid);
        }
    } else if kept.len() > 0 {
        assert(kept[0] == aid);
    }
}

/// Rolling arenas into the cache in two runs is rolling them in one.
pub proof fn lemma_rolled_join(kept: Seq<int>, limit: int, lo: int, mid: int, hi: int, head: int)
    requires
        lo <= mid <= hi,
    ensures
        rolled(rolled(kept, limit, lo, mid, head), limit, mid, hi, head) == rolled(
            kept,
            limit,
            lo,
            hi,
            head,
        ),
    decreases hi - mid,
{
    if mid < hi {
        lemma_rolled_join(kept, limit, lo, mid, hi - 1, head);
    }
}

/// How the identifiers change when an entry is put in, taken out or dropped.
pub proof fn lemma_keys(entries: Seq<(usize, Seq<u8>)>, aid: usize, bytes: Seq<u8>, i: int)
    ensures
        keys(seq![(aid, bytes)] + entries) == seq![aid as int] + keys(entries),
        0 <= i < entries.len() ==> keys(entries.remove(i)) == keys(entries).remove(i),
        entries.len() > 0 ==> keys(entries.drop_last()) == keys(entries).drop_last(),
{
    assert(keys(seq![(aid, bytes)] + entries) =~= seq![aid as int] + keys(entries));
    if 0 <= i < entries.len() {
        assert(keys(entries.remove(i)) =~= keys(entries).remove(i));
    }
    if entries.len() > 0 {
        assert(keys(entries.drop_last()) =~= keys(entries).drop_last());
    }
}

/// Taking one entry out leaves the entries with other identifiers to be found as before.
pub proof fn lemma_find_remove(entries: Seq<(usize, Seq<u8>)>, gone: usize, aid: usize)
    requires
        gone != aid,
    ensures
        find(entries, gone) >= 0 ==> (find(entries.remove(find(entries, gone)), aid) >= 0 <==> find(
            entries,
            aid,
        ) >= 0),
{
    let i = find(entries, gone);
    if i >= 0 {
        let rest = entries.remove(i);
        let j = find(entries, aid);
        let k = find(rest, aid);
        lemma_find(entries, gone);
        lemma_find(entries, aid);
        lemma_find(rest, aid);
        if j >= 0 {
            let m = if j < i {
                j
            } else {
                j - 1
            };
            assert(rest[m] == entries[j]);
        }
        if k >= 0 {
            let back = if k < i {
                k
            } else {
                k + 1
            };
            assert(rest[k] == entries[back]);
        }
    }
}

impl ArenaCache {
    /// `lru::LruCache::new`: an empty cache that holds at most `cap` entries.
    #[verifier::external_body]
    pub(crate) fn new(cap: u8) -> (c: ArenaCache)
        ensures
            cached(c) == Seq::<(usize, Seq<u8>)>::empty(),
            cache_limit(c) == cap,
    {
        ArenaCache { inner: LruCache::new(usize::from(cap)) }
    }

    /// `lru::LruCache::put`: the entry becomes the most recently used. An entry with
    /// the same key is replaced and its value handed back; otherwise, where the cache is
    /// full, the least recently used entry is dropped. With a limit of zero the call
    /// panics.
    #[verifier::external_body]
    pub(crate) fn put(&mut self, aid: usize, arena: Arena) -> (previous: Option<Arena>)
        requires
            cache_limit(*old(self)) > 0,
        ensures
            cache_limit(*final(self)) == cache_limit(*old(self)),
            ({
                let before = cached(*old(self));
                let i = find(before, aid);
                if i >= 0 {
                    &&& previous matches Some(a) && a@ == before[i].1
                    &&& cached(*final(self)) == seq![(aid, arena@)] + before.remove(i)
                } else if before.len() == cache_limit(*old(self)) {
                    &&& previous is None
                    &&& cached(*final(self)) == seq![(aid, arena@)] + before.drop_last()
                } else {
                    &&& previous is None
                    &&& cached(*final(self)) == seq![(aid, arena@)] + before
                }
            }),
    {
        self.inner.put(aid, arena)
    }

    /// `lru::LruCache::pop`: takes the entry with the key out of the cache, if there is
    /// one; the others keep their order.
    #[verifier::external_body]
    pub(crate) fn pop(&mut self, aid: usize) -> (taken: Option<Arena>)
        ensures
            cache_limit(*final(self)) == cache_limit(*old(self)),
            ({
                let before = cached(*old(self));
                let i = find(before, aid);
                if i >= 0 {
                    &&& taken matches Some(a) && a@ == before[i].1
                    &&& cached(*final(self)) == before.remove(i)
                } else {
                    &&& taken is None
                    &&& cached(*final(self)) == before
                }
            }),
    {
        self.inner.pop(&aid)
    }

    /// `lru::LruCache::peek`: the value under the key, if there is one. The order of
    /// use is not touched.
    #[verifier::external_body]
    pub(crate) fn peek(&self, aid: usize) -> (found: Option<&Arena>)
        ensures
            ({
                let i = find(cached(*self), aid);
                if i >= 0 {
                    found matches Some(a) && a@ == cached(*self)[i].1
                } else {
                    found is None
                }
            }),
    {
        self.inner.peek(&aid)
    }

    /// `lru::LruCache::pop_lru`: takes the least recently used entry out of the cache,
    /// if there is one.
    #[verifier::external_body]
    pub(crate) fn pop_lru(&mut self) -> (taken: Option<(usize, Arena)>)
        ensures
            cache_limit(*final(self)) == cache_limit(*old(self)),
            ({
                let before = cached(*old(self));
                if before.len() > 0 {
                    &&& taken matches Some(pair) && pair.0 == before.last().0 && pair.1@
                        == before.last().1
                    &&& cached(*final(self)) == before.drop_last()
                } else {
                    &&& taken is None
                    &&& cached(*final(self)) == before
                }
            }),
    {
        self.inner.pop_lru()
    }

    /// `lru::LruCache::clear`: drops every entry.
    #[verifier::external_body]
    pub(crate) fn clear(&mut self)
        ensures
            cached(*final(self)) == Seq::<(usize, Seq<u8>)>::empty(),
            cache_limit(*final(self)) == cache_limit(*old(self)),
    {
        self.inner.clear()
    }
}

} // verus!
