//! Writing at the tail: `push`.

use vstd::prelude::*;
use vstd::arithmetic::div_mod::lemma_div_is_ordered;
use vstd::bytes::spec_u64_to_le_bytes;
use crate::arena::Arena;
use crate::cache::{cached, find, lemma_find, lemma_keys, lemma_place, lemma_rolled_join, rolled};
use crate::codec::transform_u64_to_array_of_u8;
use crate::cursor::{advance, lemma_pos_nonnegative, lemma_pos_order, slot_of};
use crate::error::Error;
use crate::fifo::{lemma_laid_local, lemma_push_appends};
use crate::names::{arena_file_name, arena_name};
use crate::pages::{first_gap, lemma_lookup, lemma_no_gap, missing_page, take_pages, taken, Page};
use crate::queue::BigQueue;
use crate::stream::{
    body, lemma_locate, lemma_put_in_arena, lemma_put_join, lemma_put_nothing, lemma_put_uniform,
    lemma_slot, lemma_split, next, pos, put, put_frame, slot,
};

verus! {

impl BigQueue {
    /// The position of byte `offset` of the tail's arena.
    spec fn tail_at(&self, offset: int) -> int {
        pos(self.tail_aid as int, offset, self.config.arena_size as int)
    }

    /// The arenas in `fresh` are those that follow the tail's, in order, as the image
    /// has them.
    spec fn aligned(&self, fresh: Seq<Arena>) -> bool {
        forall|i: int|
            0 <= i < fresh.len() ==> (#[trigger] fresh[i])@ == self.image@[self.tail_aid + 1 + i]
    }

    /// The queue is in the midst of a push that began in the state `from`: the tail
    /// has not gone back, the arenas that it has left are in the cache, and the
    /// configuration, the index, the head and the offset recorded for the tail are as
    /// they were.
    spec fn pushing(&self, from: BigQueue) -> bool {
        &&& self.config == from.config
        &&& self.index == from.index
        &&& self.head_aid == from.head_aid
        &&& self.head_offset == from.head_offset
        &&& self.tail_offset == from.tail_offset
        &&& self.tail_aid >= from.tail_aid
        &&& self.cache_size() == from.cache_size()
        &&& self.kept() == rolled(
            from.kept(),
            from.cache_size(),
            from.tail_aid as int,
            self.tail_aid as int,
            from.head_aid as int,
        )
    }

    /// A push that has gone on from `mid`, which it had reached from `from`, has gone
    /// on from `from`.
    proof fn lemma_pushing_on(&self, mid: BigQueue, from: BigQueue)
        requires
            mid.pushing(from),
            self.pushing(mid),
        ensures
            self.pushing(from),
    {
        lemma_rolled_join(
            from.kept(),
            from.cache_size(),
            from.tail_aid as int,
            mid.tail_aid as int,
            self.tail_aid as int,
            from.head_aid as int,
        );
    }

    /// Moves the tail to the next arena. The arena that it leaves goes to the head,
    /// where the head is in it, and to the cache otherwise.
    fn flip_tail_page_forward(&mut self, arena: Arena)
        requires
            old(self).steady(),
            old(self).tail_aid < usize::MAX,
            arena@ == old(self).image@[old(self).tail_aid + 1],
        ensures
            final(self).steady(),
            final(self).pushing(*old(self)),
            final(self).tail_aid == old(self).tail_aid + 1,
            final(self).image@ == old(self).image@,
    {
        let old_aid = self.tail_aid;
        assert(rolled(
            self.kept(),
            self.cache_size(),
            old_aid as int,
            old_aid as int,
            self.head_aid as int,
        ) == self.kept());
        let mut left = arena;
        core::mem::swap(&mut self.q_tail, &mut left);
        if self.head_aid == old_aid {
            self.q_head = Some(left);
        } else {
            let ghost before = cached(self.cache);
            let ghost bytes = left@;
            let _ = self.cache.put(old_aid, left);
            proof {
                let after = cached(self.cache);
                let i = find(before, old_aid);
                lemma_find(before, old_aid);
                lemma_place(before, old_aid);
                lemma_keys(before, old_aid, bytes, i);
                lemma_keys(before.drop_last(), old_aid, bytes, i);
                assert forall|k: int| 0 <= k < after.len() implies (#[trigger] after[k]).0
                    < old_aid + 1 && after[k].1 == self.image@[after[k].0 as int] by {
                    if k > 0 {
                        assert(after[k] == before[k - 1]);
                    }
                }
            }
        }
        self.tail_aid = old_aid + 1;
    }

    /// Writes `data` into the tail's arena at `offset` and records it in the image.
    fn write_tail(&mut self, offset: usize, data: &[u8])
        requires
            old(self).steady(),
            offset + data@.len() <= old(self).arena_size(),
        ensures
            final(self).steady(),
            final(self).pushing(*old(self)),
            final(self).tail_aid == old(self).tail_aid,
            final(self).image@ == put(
                old(self).image@,
                old(self).arena_size(),
                old(self).tail_at(offset as int),
                data@,
            ),
            forall|aid: int|
                aid != old(self).tail_aid ==> final(self).image@[aid] == old(self).image@[aid],
    {
        let ghost size = self.config.arena_size as int;
        let ghost before = self.image@;
        proof {
            lemma_put_in_arena(before, size, self.tail_aid as int, offset as int, data@);
            lemma_put_uniform(before, size, self.tail_at(offset as int), data@);
        }
        let written = self.q_tail.write_bytes_at(offset, data);
        assert(written is Ok);
        self.image = Ghost(before.insert(self.tail_aid as int, self.q_tail@));
    }

    /// Takes the next arena of `fresh` for the tail.
    fn next_tail(&mut self, fresh: &mut Vec<Arena>)
        requires
            old(self).steady(),
            old(self).tail_aid < usize::MAX,
            old(fresh)@.len() > 0,
            old(self).aligned(old(fresh)@),
        ensures
            final(self).steady(),
            final(self).pushing(*old(self)),
            final(self).aligned(final(fresh)@),
            final(fresh)@ == old(fresh)@.skip(1),
            final(self).tail_aid == old(self).tail_aid + 1,
            final(self).image@ == old(self).image@,
    {
        let arena = fresh.remove(0);
        assert(fresh@ =~= old(fresh)@.skip(1));
        self.flip_tail_page_forward(arena);
        assert forall|i: int| 0 <= i < fresh@.len() implies (#[trigger] fresh@[i])@
            == self.image@[self.tail_aid + 1 + i] by {
            assert(fresh@[i] == old(fresh)@[i + 1]);
        }
    }

    /// Writes the length word of a record at the tail, which is at `offset` in its
    /// arena, and moves the tail behind it. The word is never split: where fewer than
    /// eight bytes are left in the arena, it starts the next one. Returns the tail's new
    /// offset.
    fn write_length(&mut self, offset: usize, length: u64, fresh: &mut Vec<Arena>) -> (off: usize)
        requires
            old(self).steady(),
            offset < old(self).arena_size(),
            old(self).aligned(old(fresh)@),
            body(old(self).tail_at(offset as int), old(self).arena_size()) / old(self).arena_size()
                <= old(self).tail_aid + old(fresh)@.len() <= usize::MAX,
        ensures
            final(self).steady(),
            final(self).pushing(*old(self)),
            final(self).aligned(final(fresh)@),
            final(fresh)@ == old(fresh)@.skip(final(self).tail_aid - old(self).tail_aid),
            off < old(self).arena_size(),
            final(self).tail_at(off as int) == body(
                old(self).tail_at(offset as int),
                old(self).arena_size(),
            ),
            final(self).image@ == put(
                old(self).image@,
                old(self).arena_size(),
                slot(old(self).tail_at(offset as int), old(self).arena_size()),
                spec_u64_to_le_bytes(length),
            ),
    {
        let size = self.config.arena_size;
        let ghost p = self.tail_at(offset as int);
        let ghost at = slot(p, size as int);
        proof {
            lemma_pos_nonnegative(self.tail_aid as int, offset as int, size as int);
            lemma_locate(self.tail_aid as int, offset as int, size as int);
            lemma_slot(p, size as int);
            lemma_split(at, size as int);
            lemma_div_is_ordered(at, at + 8, size as int);
            assert(fresh@ =~= old(fresh)@.skip(0));
        }
        let mut i_offset = offset;
        if size - i_offset < 8 {
            self.next_tail(fresh);
            i_offset = 0;
        }
        proof {
            lemma_pos_order(
                self.tail_aid as int,
                i_offset as int,
                at / (size as int),
                at % (size as int),
                size as int,
            );
        }
        let ghost mid = *self;
        let word = transform_u64_to_array_of_u8(length);
        self.write_tail(i_offset, word.as_slice());
        proof {
            self.lemma_pushing_on(mid, *old(self));
        }
        i_offset = i_offset + 8;
        if i_offset == size {
            proof {
                lemma_locate(self.tail_aid + 1, 0, size as int);
                assert((self.tail_aid + 1) * size == self.tail_aid * size + size)
                    by (nonlinear_arith);
            }
            let ghost mid = *self;
            self.next_tail(fresh);
            i_offset = 0;
            proof {
                self.lemma_pushing_on(mid, *old(self));
                assert(fresh@ =~= old(fresh)@.skip(self.tail_aid - old(self).tail_aid));
            }
        }
        i_offset
    }

    /// Writes the payload of a record at the tail, which is at `offset` in its arena,
    /// and moves the tail behind it: what does not fit in an arena goes on in the next.
    /// Returns the tail's new offset.
    fn write_bytes(&mut self, offset: usize, bytes: &[u8], fresh: &mut Vec<Arena>) -> (off: usize)
        requires
            old(self).steady(),
            offset < old(self).arena_size(),
            old(self).aligned(old(fresh)@),
            (old(self).tail_at(offset as int) + bytes@.len()) / old(self).arena_size() <= old(
                self,
            ).tail_aid + old(fresh)@.len() <= usize::MAX,
        ensures
            final(self).steady(),
            final(self).pushing(*old(self)),
            final(self).aligned(final(fresh)@),
            final(fresh)@ == old(fresh)@.skip(final(self).tail_aid - old(self).tail_aid),
            off < old(self).arena_size(),
            final(self).tail_at(off as int) == old(self).tail_at(offset as int) + bytes@.len(),
            final(self).image@ == put(
                old(self).image@,
                old(self).arena_size(),
                old(self).tail_at(offset as int),
                bytes@,
            ),
    {
        let size = self.config.arena_size;
        let length = bytes.len();
        let ghost start = self.tail_at(offset as int);
        let ghost base = self.image@;
        let mut i_offset = offset;
        let mut count: usize = 0;
        proof {
            lemma_put_nothing(base, size as int, start);
            assert(bytes@.subrange(0, 0) =~= Seq::<u8>::empty());
            assert(fresh@ =~= old(fresh)@.skip(0));
            assert(rolled(
                self.kept(),
                self.cache_size(),
                self.tail_aid as int,
                self.tail_aid as int,
                self.head_aid as int,
            ) == self.kept());
        }
        loop
            invariant
                self.steady(),
                self.pushing(*old(self)),
                self.aligned(fresh@),
                fresh@ == old(fresh)@.skip(self.tail_aid - old(self).tail_aid),
                size == self.config.arena_size,
                length == bytes@.len(),
                start == old(self).tail_at(offset as int),
                base == old(self).image@,
                i_offset < size,
                count <= length,
                self.tail_at(i_offset as int) == start + count,
                self.image@ == put(base, size as int, start, bytes@.subrange(0, count as int)),
                (start + length) / (size as int) <= old(self).tail_aid + old(fresh)@.len()
                    <= usize::MAX,
            decreases length - count,
        {
            let room = size - i_offset;
            let left = length - count;
            let ghost done = bytes@.subrange(0, count as int);
            let ghost mid = *self;
            if left >= room {
                let chunk = vstd::slice::slice_subrange(bytes, count, count + room);
                self.write_tail(i_offset, chunk);
                proof {
                    self.lemma_pushing_on(mid, *old(self));
                    lemma_put_join(base, size as int, start, done, chunk@);
                    assert(done + chunk@ =~= bytes@.subrange(0, count + room));
                    lemma_locate(self.tail_aid + 1, 0, size as int);
                    assert((self.tail_aid + 1) * size == self.tail_aid * size + size)
                        by (nonlinear_arith);
                    lemma_div_is_ordered(start + count + room, start + length, size as int);
                }
                count = count + room;
                let ghost mid = *self;
                self.next_tail(fresh);
                i_offset = 0;
                proof {
                    self.lemma_pushing_on(mid, *old(self));
                    assert(fresh@ =~= old(fresh)@.skip(self.tail_aid - old(self).tail_aid));
                }
            } else {
                let chunk = vstd::slice::slice_subrange(bytes, count, length);
                self.write_tail(i_offset, chunk);
                proof {
                    self.lemma_pushing_on(mid, *old(self));
                    lemma_put_join(base, size as int, start, done, chunk@);
                    assert(done + chunk@ =~= bytes@);
                }
                return i_offset + left;
            }
        }
    }

    /// Records the tail cursor in the index and in the queue.
    fn set_tail_index(&mut self, aid: usize, offset: usize) -> (r: Result<(), Error>)
        requires
            old(self).steady(),
            aid == old(self).tail_aid,
            offset < old(self).arena_size(),
            old(self).head_aid == aid ==> old(self).head_offset <= offset,
            old(self).index@.head_aid == old(self).head_aid as u64,
            old(self).index@.head_offset == old(self).head_offset as u64,
        ensures
            r is Ok,
            final(self).wf(),
            final(self).tail_offset == offset,
            final(self).image@ == old(self).image@,
            final(self).config == old(self).config,
            final(self).head_aid == old(self).head_aid,
            final(self).head_offset == old(self).head_offset,
            final(self).tail_aid == old(self).tail_aid,
            final(self).cache == old(self).cache,
    {
        self.index.set_tail(aid, offset)?;
        self.tail_aid = aid;
        self.tail_offset = offset;
        Ok(())
    }

    /// Appends a record with the payload `bytes`. The arenas after the tail's that the
    /// record reaches are taken from `pages`.
    ///
    /// Fails with `Write` where the record would end in an arena whose identifier does
    /// not fit the machine word, and with `Exist`, naming the file, where `pages` holds
    /// nothing for an arena that the record reaches. A failed push changes nothing.
    pub fn push(&mut self, bytes: &[u8], pages: &mut Vec<Page>) -> (r: Result<(), Error>)
        requires
            old(self).wf(),
        ensures
            final(self).wf(),
            final(self).arena_size() == old(self).arena_size(),
            final(self).cache_size() == old(self).cache_size(),
            final(self).head_aid() == old(self).head_aid(),
            final(self).head_offset() == old(self).head_offset(),
            ({
                let size = old(self).arena_size();
                let end = next(old(self).tail(), size, bytes@.len() as int);
                let lo = old(self).tail_aid() + 1;
                let hi = end / size;
                match r {
                    Ok(_) => {
                        &&& hi <= usize::MAX
                        &&& first_gap(old(pages)@, lo, hi, size) is None
                        &&& final(self).tail() == end
                        &&& final(self).image() == put_frame(
                            old(self).adopt(old(pages)@, lo, hi),
                            size,
                            old(self).tail(),
                            bytes@,
                        )
                        &&& final(pages)@ == taken(old(pages)@, lo, hi, size)
                        &&& final(self).kept() == rolled(
                            old(self).kept(),
                            old(self).cache_size(),
                            old(self).tail_aid(),
                            hi,
                            old(self).head_aid(),
                        )
                        &&& forall|records: Seq<Seq<u8>>| #[trigger]
                            old(self).holds(records) ==> final(self).holds(records.push(bytes@))
                    },
                    Err(Error::Write) => hi > usize::MAX && *final(self) == *old(self) && final(pages)@ == old(pages)@,
                    Err(Error::Exist(name)) => {
                        &&& hi <= usize::MAX
                        &&& first_gap(old(pages)@, lo, hi, size) matches Some(aid) && name@
                            == arena_name(aid as nat)
                        &&& *final(self) == *old(self)
                        &&& final(pages)@ == old(pages)@
                    },
                    Err(_) => false,
                }
            }),
    {
        let size = self.config.arena_size;
        let length = bytes.len();
        let tail_aid = self.tail_aid;
        let ghost start = pos(tail_aid as int, self.tail_offset as int, size as int);
        let ghost end = next(start, size as int, length as int);
        proof {
            lemma_pos_nonnegative(tail_aid as int, self.tail_offset as int, size as int);
            lemma_locate(tail_aid as int, self.tail_offset as int, size as int);
            lemma_slot(start, size as int);
            lemma_div_is_ordered(slot(start, size as int), end, size as int);
            lemma_div_is_ordered(body(start, size as int), end, size as int);
            lemma_div_is_ordered(start, slot(start, size as int), size as int);
        }
        let s = match slot_of(tail_aid, self.tail_offset, size) {
            Some(c) => c,
            None => { return Err(Error::Write); },
        };
        let b = if s.1 + 8 == size {
            proof {
                lemma_locate(s.0 + 1, 0, size as int);
                assert((s.0 + 1) * size == s.0 * size + size) by (nonlinear_arith);
            }
            if s.0 == usize::MAX {
                return Err(Error::Write);
            }
            (s.0 + 1, 0)
        } else {
            (s.0, s.1 + 8)
        };
        let e = match advance(b.0, b.1, length as u64, size) {
            Some(c) => c,
            None => { return Err(Error::Write); },
        };
        proof {
            lemma_locate(e.0 as int, e.1 as int, size as int);
            lemma_locate(b.0 as int, b.1 as int, size as int);
            lemma_locate(s.0 as int, s.1 as int, size as int);
        }
        let mut fresh: Vec<Arena> = Vec::new();
        if e.0 > tail_aid {
            match missing_page(pages, tail_aid + 1, e.0, size) {
                Some(aid) => {
                    return Err(Error::Exist(arena_file_name(aid)));
                },
                None => {},
            }
            fresh = take_pages(pages, tail_aid + 1, e.0, size);
        }
        let ghost adopted = self.adopt(old(pages)@, tail_aid + 1, e.0 as int);
        proof {
            assert forall|aid: int|
                #![trigger adopted.dom().contains(aid)]
                #![trigger adopted[aid]]
                adopted.dom().contains(aid) && adopted[aid].len() == size by {
                lemma_lookup(old(pages)@, aid, size as int);
                assert(self.image@[aid].len() == size);
            }
            assert forall|i: int| 0 <= i < fresh@.len() implies (#[trigger] fresh@[i])@
                == adopted[tail_aid + 1 + i] by {
                let aid = tail_aid + 1 + i;
                if self.in_cache(aid) {
                    self.lemma_cache_before_tail(aid);
                }
                lemma_no_gap(old(pages)@, tail_aid + 1, e.0 as int, size as int, aid);
            }
        }
        self.image = Ghost(adopted);
        let ghost begun = *self;
        let ghost supplied = fresh@;
        proof {
            assert(rolled(
                self.kept(),
                self.cache_size(),
                tail_aid as int,
                tail_aid as int,
                self.head_aid as int,
            ) == self.kept());
        }
        let offset = self.write_length(self.tail_offset, length as u64, &mut fresh);
        let ghost worded = *self;
        proof {
            lemma_locate(self.tail_aid as int, offset as int, size as int);
            assert(fresh@.len() == supplied.len() - (self.tail_aid - tail_aid));
        }
        let offset = self.write_bytes(offset, bytes, &mut fresh);
        proof {
            self.lemma_pushing_on(worded, begun);
            lemma_pos_order(
                self.tail_aid as int,
                offset as int,
                e.0 as int,
                e.1 as int,
                size as int,
            );
            lemma_pos_order(
                self.head_aid as int,
                self.head_offset as int,
                self.tail_aid as int,
                offset as int,
                size as int,
            );
            lemma_pos_order(
                self.head_aid as int,
                self.head_offset as int,
                tail_aid as int,
                old(self).tail_offset as int,
                size as int,
            );
        }
        let done = self.set_tail_index(self.tail_aid, offset);
        proof {
            assert forall|records: Seq<Seq<u8>>| #[trigger]
                old(self).holds(records) implies self.holds(records.push(bytes@)) by {
                old(self).lemma_order();
                old(self).lemma_adopt_after(old(pages)@, tail_aid + 1, e.0 as int, start);
                lemma_laid_local(
                    old(self).image@,
                    adopted,
                    size as int,
                    old(self).head(),
                    start,
                    records,
                );
                lemma_push_appends(adopted, size as int, old(self).head(), start, records, bytes@);
            }
        }
        done
    }
}

} // verus!
