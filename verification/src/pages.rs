//! Pages: arenas that the caller maps for the queue when the queue names them.

use vstd::prelude::*;
use crate::arena::Arena;

verus! {


/// An arena that the caller has mapped for the queue, with its identifier.
pub struct Page {
    pub aid: usize,
    pub arena: Arena,
}

/// Index of the first page for arena `aid` that holds `size` bytes, or -1 where there is
/// none.
pub open spec fn lookup(pages: Seq<Page>, aid: int, size: int) -> int
    decreases pages.len(),
{
    if pages.len() == 0 {
        -1
    } else if pages[0].aid == aid && pages[0].arena@.len() == size {
        0
    } else {
        let rest = lookup(pages.skip(1), aid, size);
        if rest < 0 {
            -1
        } else {
            rest + 1
        }
    }
}

/// What `lookup` returns is the first page that fits, and -1 only where none does.
pub proof fn lemma_lookup(pages: Seq<Page>, aid: int, size: int)
    ensures
        -1 <= lookup(pages, aid, size) < pages.len(),
        lookup(pages, aid, size) >= 0 ==> pages[lookup(pages, aid, size)].aid == aid
            && pages[lookup(pages, aid, size)].arena@.len() == size,
        forall|i: int|
            0 <= i < pages.len() && (lookup(pages, aid, size) < 0 || i < lookup(pages, aid, size))
                ==> !((#[trigger] pages[i]).aid == aid && pages[i].arena@.len() == size),
    decreases pages.len(),
{
    if pages.len() > 0 && !(pages[0].aid == aid && pages[0].arena@.len() == size) {
        let rest = pages.skip(1);
        lemma_lookup(rest, aid, size);
        assert forall|i: int|
            0 <= i < pages.len() && (lookup(pages, aid, size) < 0 || i < lookup(
                pages,
                aid,
                size,
            )) implies !((#[trigger] pages[i]).aid == aid && pages[i].arena@.len() == size) by {
            if i > 0 {
                assert(pages[i] == rest[i - 1]);
            }
        }
    }
}

/// Finds the first page for arena `aid` that holds `size` bytes.
pub fn find_page(pages: &Vec<Page>, aid: usize, size: usize) -> (r: Option<usize>)
    ensures
        match r {
            Some(i) => i == lookup(pages@, aid as int, size as int),
            None => lookup(pages@, aid as int, size as int) == -1,
        },
{
    let mut i: usize = 0;
    while i < pages.len()
        invariant
            i <= pages.len(),
            forall|j: int|
                0 <= j < i ==> !((#[trigger] pages@[j]).aid == aid && pages@[j].arena@.len()
                    == size),
        decreases pages.len() - i,
    {
        if pages[i].aid == aid && pages[i].arena.len() == size {
            proof {
                lemma_lookup(pages@, aid as int, size as int);
            }
            return Some(i);
        }
        i = i + 1;
    }
    proof {
        lemma_lookup(pages@, aid as int, size as int);
    }
    None
}

/// Taking out the page for one arena leaves the pages for the others to be found as
/// before.
pub proof fn lemma_lookup_remove(pages: Seq<Page>, gone: int, aid: int, size: int)
    requires
        lookup(pages, gone, size) >= 0,
        gone != aid,
    ensures
        ({
            let rest = pages.remove(lookup(pages, gone, size));
            &&& lookup(rest, aid, size) >= 0 <==> lookup(pages, aid, size) >= 0
            &&& lookup(pages, aid, size) >= 0 ==> rest[lookup(rest, aid, size)] == pages[lookup(
                pages,
                aid,
                size,
            )]
        }),
{
    let i = lookup(pages, gone, size);
    let j = lookup(pages, aid, size);
    let rest = pages.remove(i);
    lemma_lookup(pages, gone, size);
    lemma_lookup(pages, aid, size);
    lemma_lookup(rest, aid, size);
    let k = lookup(rest, aid, size);
    assert forall|m: int| 0 <= m < rest.len() implies #[trigger] rest[m] == pages[if m < i {
        m
    } else {
        m + 1
    }] by {}
    if j >= 0 {
        let m = if j < i {
            j
        } else {
            j - 1
        };
        assert(rest[m] == pages[j]);
        if k < 0 || m < k {
            assert(!(rest[m].aid == aid && rest[m].arena@.len() == size));
        }
        let back = if k < i {
            k
        } else {
            k + 1
        };
        assert(rest[k] == pages[back]);
        if k < m {
            assert(!(pages[back].aid == aid && pages[back].arena@.len() == size));
        }
    } else if k >= 0 {
        let back = if k < i {
            k
        } else {
            k + 1
        };
        assert(rest[k] == pages[back]);
        assert(!(pages[back].aid == aid && pages[back].arena@.len() == size));
    }
}

/// The first arena from `lo` to `hi` for which the pages hold nothing, if there is one.
pub open spec fn first_gap(pages: Seq<Page>, lo: int, hi: int, size: int) -> Option<int>
    decreases hi - lo + 1,
{
    if lo > hi {
        None
    } else if lookup(pages, lo, size) < 0 {
        Some(lo)
    } else {
        first_gap(pages, lo + 1, hi, size)
    }
}

/// The pages that are left when those for the arenas from `lo` to `hi` have been taken
/// out, one after the other.
pub open spec fn taken(pages: Seq<Page>, lo: int, hi: int, size: int) -> Seq<Page>
    decreases hi - lo + 1,
{
    if lo > hi {
        pages
    } else {
        taken(pages.remove(lookup(pages, lo, size)), lo + 1, hi, size)
    }
}

/// What `first_gap` returns is the least arena from `lo` to `hi` without a page.
pub proof fn lemma_first_gap(pages: Seq<Page>, lo: int, hi: int, size: int)
    ensures
        match first_gap(pages, lo, hi, size) {
            Some(aid) => lo <= aid <= hi && lookup(pages, aid, size) < 0 && forall|k: int|
                lo <= k < aid ==> #[trigger] lookup(pages, k, size) >= 0,
            None => forall|k: int| lo <= k <= hi ==> #[trigger] lookup(pages, k, size) >= 0,
        },
    decreases hi - lo + 1,
{
    if lo <= hi && lookup(pages, lo, size) >= 0 {
        lemma_first_gap(pages, lo + 1, hi, size);
    }
}

/// Where there is no gap, every arena from `lo` to `hi` has a page.
pub proof fn lemma_no_gap(pages: Seq<Page>, lo: int, hi: int, size: int, aid: int)
    requires
        first_gap(pages, lo, hi, size) is None,
        lo <= aid <= hi,
    ensures
        lookup(pages, aid, size) >= 0,
    decreases hi - lo + 1,
{
    if lo < aid {
        lemma_no_gap(pages, lo + 1, hi, size, aid);
    }
}

/// The first arena from `lo` to `hi` for which the pages hold nothing.
pub(crate) fn missing_page(pages: &Vec<Page>, lo: usize, hi: usize, size: usize) -> (r: Option<usize>)
    ensures
        match r {
            Some(aid) => first_gap(pages@, lo as int, hi as int, size as int) == Some(aid as int),
            None => first_gap(pages@, lo as int, hi as int, size as int) is None,
        },
{
    if lo > hi {
        return None;
    }
    let mut aid = lo;
    loop
        invariant
            lo <= aid <= hi,
            first_gap(pages@, lo as int, hi as int, size as int) == first_gap(
                pages@,
                aid as int,
                hi as int,
                size as int,
            ),
        decreases hi - aid,
    {
        if find_page(pages, aid, size).is_none() {
            return Some(aid);
        }
        if aid == hi {
            assert(first_gap(pages@, aid + 1, hi as int, size as int) is None);
            return None;
        }
        aid = aid + 1;
    }
}

/// Takes the pages for the arenas from `lo` to `hi` out of `pages`, in this order.
pub(crate) fn take_pages(pages: &mut Vec<Page>, lo: usize, hi: usize, size: usize) -> (fresh: Vec<Arena>)
    requires
        first_gap(old(pages)@, lo as int, hi as int, size as int) is None,
    ensures
        final(pages)@ == taken(old(pages)@, lo as int, hi as int, size as int),
        fresh@.len() == if lo <= hi {
            hi - lo + 1
        } else {
            0
        },
        forall|i: int|
            0 <= i < fresh@.len() ==> (#[trigger] fresh@[i])@ == old(pages)@[lookup(
                old(pages)@,
                lo + i,
                size as int,
            )].arena@ && fresh@[i]@.len() == size,
{
    let mut fresh: Vec<Arena> = Vec::new();
    if lo > hi {
        return fresh;
    }
    let mut aid = lo;
    proof {
        assert forall|later: int| lo <= later <= hi implies lookup(pages@, later, size as int)
            >= 0 by {
            lemma_no_gap(pages@, lo as int, hi as int, size as int, later);
        }
    }
    loop
        invariant
            lo <= aid <= hi,
            fresh@.len() == aid - lo,
            taken(old(pages)@, lo as int, hi as int, size as int) == taken(
                pages@,
                aid as int,
                hi as int,
                size as int,
            ),
            forall|i: int|
                0 <= i < fresh@.len() ==> (#[trigger] fresh@[i])@ == old(pages)@[lookup(
                    old(pages)@,
                    lo + i,
                    size as int,
                )].arena@ && fresh@[i]@.len() == size,
            forall|later: int|
                aid <= later <= hi ==> #[trigger] lookup(pages@, later, size as int) >= 0
                    && pages@[lookup(pages@, later, size as int)] == old(pages)@[lookup(
                    old(pages)@,
                    later,
                    size as int,
                )],
        decreases hi - aid,
    {
        let ghost before = pages@;
        let i = match find_page(pages, aid, size) {
            Some(i) => i,
            None => {
                assert(lookup(before, aid as int, size as int) >= 0);
                return fresh;
            },
        };
        proof {
            lemma_lookup(before, aid as int, size as int);
            assert(before[i as int] == old(pages)@[lookup(old(pages)@, aid as int, size as int)]);
        }
        let page = pages.remove(i);
        fresh.push(page.arena);
        proof {
            assert forall|later: int| aid + 1 <= later <= hi implies #[trigger] lookup(
                pages@,
                later,
                size as int,
            ) >= 0 && pages@[lookup(pages@, later, size as int)] == old(pages)@[lookup(
                old(pages)@,
                later,
                size as int,
            )] by {
                lemma_lookup_remove(before, aid as int, later, size as int);
                assert(lookup(before, later, size as int) >= 0);
            }
        }
        if aid == hi {
            assert(taken(pages@, aid + 1, hi as int, size as int) == pages@);
            return fresh;
        }
        aid = aid + 1;
    }
}

} // verus!
