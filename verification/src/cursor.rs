//! Arithmetic on cursors: an arena's identifier and an offset into it.

use vstd::prelude::*;
use vstd::arithmetic::div_mod::{lemma_fundamental_div_mod, lemma_mod_bound};
use crate::stream::{lemma_locate, lemma_slot, lemma_split, pos, slot};

verus! {

/// Positions compare as their arenas do, and within one arena as their offsets.
pub proof fn lemma_pos_order(a1: int, o1: int, a2: int, o2: int, size: int)
    requires
        size > 0,
        0 <= o1 < size,
        0 <= o2 < size,
    ensures
        pos(a1, o1, size) <= pos(a2, o2, size) <==> a1 < a2 || (a1 == a2 && o1 <= o2),
        pos(a1, o1, size) == pos(a2, o2, size) <==> a1 == a2 && o1 == o2,
{
    if a1 < a2 {
        assert(a1 * size + size <= a2 * size) by (nonlinear_arith)
            requires
                a1 + 1 <= a2,
                size > 0,
        ;
    } else if a2 < a1 {
        assert(a2 * size + size <= a1 * size) by (nonlinear_arith)
            requires
                a2 + 1 <= a1,
                size > 0,
        ;
    }
}

/// Every position in an arena, and the position at its end, lies at or before every
/// position in a later arena.
pub proof fn lemma_pos_before(a1: int, o1: int, a2: int, o2: int, size: int)
    requires
        size > 0,
        o1 <= size,
        0 <= o2,
        a1 < a2,
    ensures
        pos(a1, o1, size) <= pos(a2, o2, size),
{
    assert(a1 * size + size <= a2 * size) by (nonlinear_arith)
        requires
            a1 + 1 <= a2,
            size > 0,
    ;
}

/// A position in an arena with a nonnegative identifier is not negative.
pub proof fn lemma_pos_nonnegative(aid: int, offset: int, size: int)
    requires
        size > 0,
        0 <= aid,
        0 <= offset,
    ensures
        0 <= pos(aid, offset, size),
{
    assert(0 <= aid * size) by (nonlinear_arith)
        requires
            0 <= aid,
            0 < size,
    ;
}

/// The cursor `n` bytes after the given one, or `None` where its arena's identifier
/// does not fit the machine word.
pub fn advance(aid: usize, offset: usize, n: u64, size: usize) -> (r: Option<(usize, usize)>)
    requires
        size > 0,
        offset < size,
    ensures
        match r {
            Some(c) => c.1 < size && pos(c.0 as int, c.1 as int, size as int) == pos(
                aid as int,
                offset as int,
                size as int,
            ) + n,
            None => (pos(aid as int, offset as int, size as int) + n) / (size as int) > usize::MAX,
        },
{
    let total: u128 = offset as u128 + n as u128;
    let arenas: u128 = total / (size as u128);
    let rest: u128 = total % (size as u128);
    proof {
        lemma_fundamental_div_mod(total as int, size as int);
        lemma_mod_bound(total as int, size as int);
        let p = pos(aid as int, offset as int, size as int) + n;
        assert(p == (aid + arenas) * size + rest) by (nonlinear_arith)
            requires
                p == aid * size + total,
                total == size * arenas + rest,
        ;
        lemma_locate(aid + arenas, rest as int, size as int);
    }
    if arenas > (usize::MAX - aid) as u128 {
        return None;
    }
    Some((aid + arenas as usize, rest as usize))
}

/// The cursor at which the length word of a record appended at the given cursor starts,
/// or `None` where its arena's identifier does not fit the machine word.
pub fn slot_of(aid: usize, offset: usize, size: usize) -> (r: Option<(usize, usize)>)
    requires
        size > 8,
        offset < size,
    ensures
        match r {
            Some(c) => c.1 + 8 <= size && pos(c.0 as int, c.1 as int, size as int) == slot(
                pos(aid as int, offset as int, size as int),
                size as int,
            ),
            None => slot(pos(aid as int, offset as int, size as int), size as int) / (size as int)
                > usize::MAX,
        },
{
    proof {
        lemma_pos_nonnegative(aid as int, offset as int, size as int);
        lemma_locate(aid as int, offset as int, size as int);
        lemma_slot(pos(aid as int, offset as int, size as int), size as int);
        lemma_split(slot(pos(aid as int, offset as int, size as int), size as int), size as int);
    }
    if size - offset < 8 {
        if aid == usize::MAX {
            return None;
        }
        Some((aid + 1, 0))
    } else {
        Some((aid, offset))
    }
}

} // verus!
