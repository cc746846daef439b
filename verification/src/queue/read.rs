//! Reading at the head: `peek`, `pop` and `dequeue`.

use vstd::prelude::*;
use vstd::arithmetic::div_mod::lemma_div_is_ordered;
use crate::arena::Arena;
use crate::cache::{
    cached, dismissed, find, forgotten, keys, lemma_find, lemma_find_remove, lemma_keys, lemma_place,
};
use crate::cursor::{advance, lemma_pos_before, lemma_pos_order, slot_of};
use crate::error::Error;
use crate::names::{arena_file_name, arena_name};
use crate::pages::{find_page, lemma_lookup, Page};
use crate::queue::{reports, BigQueue};
use crate::stream::{
    body, frame_end, frame_len, frame_payload, lemma_locate, lemma_slot, lemma_split,
    lemma_stream_in_arena, lemma_stream_join, pos, slot, stream,
};

verus! {

impl BigQueue {
    /// The arena `aid` where it is at hand: the tail's, the head's, one of the cache or
    /// one of the pages, in this order.
    fn page_at<'a>(&'a self, pages: &'a Vec<Page>, aid: usize) -> (r: Option<&'a Arena>)
        requires
            self.wf(),
            self.head_aid <= aid <= self.tail_aid,
        ensures
            match r {
                Some(arena) => self.available(pages@, aid as int) && arena@ == self.seen(
                    pages@,
                )[aid as int] && arena@.len() == self.config.arena_size,
                None => !self.available(pages@, aid as int),
            },
    {
        proof {
            lemma_find(cached(self.cache), aid);
            lemma_lookup(pages@, aid as int, self.config.arena_size as int);
            assert(self.image@[aid as int].len() == self.config.arena_size);
        }
        if aid == self.tail_aid {
            return Some(&self.q_tail);
        }
        if aid == self.head_aid {
            return self.q_head.as_ref();
        }
        match self.cache.peek(aid) {
            Some(arena) => Some(arena),
            None => match find_page(pages, aid, self.config.arena_size) {
                Some(i) => Some(&pages[i].arena),
                None => None,
            },
        }
    }

    /// The first arena from `lo` to `hi` that is not at hand.
    fn missing_between(&self, pages: &Vec<Page>, lo: usize, hi: usize) -> (r: Option<usize>)
        requires
            self.wf(),
            self.head_aid <= lo,
            hi <= self.tail_aid,
        ensures
            match r {
                Some(aid) => self.first_missing(pages@, lo as int, hi as int) == Some(aid as int),
                None => self.first_missing(pages@, lo as int, hi as int) is None,
            },
    {
        if lo > hi {
            return None;
        }
        let mut aid = lo;
        loop
            invariant
                self.wf(),
                self.head_aid <= lo <= aid <= hi <= self.tail_aid,
                self.first_missing(pages@, lo as int, hi as int) == self.first_missing(
                    pages@,
                    aid as int,
                    hi as int,
                ),
            decreases hi - aid,
        {
            if self.page_at(pages, aid).is_none() {
                return Some(aid);
            }
            if aid == hi {
                assert(self.first_missing(pages@, aid + 1, hi as int) is None);
                return None;
            }
            aid = aid + 1;
        }
    }

    /// Reads the length word of the record at the head. Returns the cursor of the
    /// record's payload and the length.
    fn read_length(&self, pages: &Vec<Page>) -> (r: Result<(usize, usize, u64), Error>)
        requires
            self.wf(),
            self.head() != self.tail(),
        ensures
            ({
                let size = self.arena_size();
                let at = slot(self.head(), size);
                match r {
                    Ok(found) => {
                        &&& at + 8 <= self.tail()
                        &&& self.available(pages@, at / size)
                        &&& found.1 < size
                        &&& self.head_aid <= found.0 <= self.tail_aid
                        &&& pos(found.0 as int, found.1 as int, size) == body(self.head(), size)
                        &&& found.2 == frame_len(self.seen(pages@), size, self.head())
                    },
                    Err(Error::ReadLength) => at + 8 > self.tail(),
                    Err(Error::Exist(name)) => at + 8 <= self.tail() && !self.available(
                        pages@,
                        at / size,
                    ) && name@ == arena_name((at / size) as nat),
                    Err(_) => false,
                }
            }),
    {
        let size = self.config.arena_size;
        let ghost head = pos(self.head_aid as int, self.head_offset as int, size as int);
        let ghost tail = pos(self.tail_aid as int, self.tail_offset as int, size as int);
        proof {
            self.lemma_order();
            lemma_locate(self.head_aid as int, self.head_offset as int, size as int);
            lemma_slot(head, size as int);
            lemma_split(slot(head, size as int), size as int);
            lemma_split(tail, size as int);
            lemma_locate(self.tail_aid as int, self.tail_offset as int, size as int);
        }
        let s = match slot_of(self.head_aid, self.head_offset, size) {
            Some(c) => c,
            None => {
                return Err(Error::ReadLength);
            },
        };
        proof {
            lemma_locate(s.0 as int, s.1 as int, size as int);
            lemma_pos_order(
                s.0 as int,
                s.1 as int,
                self.tail_aid as int,
                self.tail_offset as int,
                size as int,
            );
        }
        if s.0 > self.tail_aid || (s.0 == self.tail_aid && (s.1 > self.tail_offset
            || self.tail_offset - s.1 < 8)) {
            proof {
                if s.0 > self.tail_aid {
                    lemma_pos_before(
                        self.tail_aid as int,
                        self.tail_offset as int,
                        s.0 as int,
                        s.1 as int,
                        size as int,
                    );
                }
            }
            return Err(Error::ReadLength);
        }
        proof {
            if s.0 < self.tail_aid {
                lemma_pos_before(
                    s.0 as int,
                    s.1 + 8,
                    self.tail_aid as int,
                    self.tail_offset as int,
                    size as int,
                );
            }
        }
        let arena = match self.page_at(pages, s.0) {
            Some(arena) => arena,
            None => {
                return Err(Error::Exist(arena_file_name(s.0)));
            },
        };
        let length = match arena.read_u64_at(s.1) {
            Some(v) => v,
            None => {
                return Err(Error::ReadLength);
            },
        };
        proof {
            lemma_stream_in_arena(self.seen(pages@), size as int, s.0 as int, s.1 as int, 8);
        }
        if s.1 + 8 == size {
            proof {
                lemma_locate(s.0 + 1, 0, size as int);
                assert((s.0 + 1) * size == s.0 * size + size) by (nonlinear_arith);
                lemma_pos_order(
                    s.0 + 1,
                    0,
                    self.tail_aid as int,
                    self.tail_offset as int,
                    size as int,
                );
            }
            Ok((s.0 + 1, 0, length))
        } else {
            Ok((s.0, s.1 + 8, length))
        }
    }

    /// The cursor at which a record ends whose payload starts at the given cursor, or
    /// `None` where that is after the tail.
    fn read_end(&self, aid: usize, offset: usize, length: u64) -> (r: Option<(usize, usize)>)
        requires
            self.wf(),
            offset < self.config.arena_size,
            self.head_aid <= aid <= self.tail_aid,
        ensures
            ({
                let size = self.arena_size();
                let end = pos(aid as int, offset as int, size) + length;
                match r {
                    Some(e) => {
                        &&& end <= self.tail()
                        &&& e.1 < size
                        &&& aid <= e.0 <= self.tail_aid
                        &&& pos(e.0 as int, e.1 as int, size) == end
                    },
                    None => end > self.tail(),
                }
            }),
    {
        let size = self.config.arena_size;
        let ghost end = pos(aid as int, offset as int, size as int) + length;
        proof {
            lemma_locate(self.tail_aid as int, self.tail_offset as int, size as int);
            if end <= self.tail() {
                lemma_div_is_ordered(end, self.tail(), size as int);
            }
        }
        match advance(aid, offset, length, size) {
            None => None,
            Some(e) => {
                proof {
                    lemma_pos_order(
                        e.0 as int,
                        e.1 as int,
                        self.tail_aid as int,
                        self.tail_offset as int,
                        size as int,
                    );
                    lemma_pos_order(aid as int, offset as int, e.0 as int, e.1 as int, size as int);
                }
                if e.0 > self.tail_aid || (e.0 == self.tail_aid && e.1 > self.tail_offset) {
                    None
                } else {
                    Some(e)
                }
            },
        }
    }

    /// Reads the `length` bytes from the given cursor on, going from arena to arena.
    fn read_bytes(
        &self,
        pages: &Vec<Page>,
        aid: usize,
        offset: usize,
        end_aid: usize,
        length: u64,
    ) -> (r: Option<Vec<u8>>)
        requires
            self.wf(),
            offset < self.config.arena_size,
            self.head_aid <= aid <= end_aid <= self.tail_aid,
            pos(aid as int, offset as int, self.arena_size()) + length < pos(
                end_aid as int,
                self.arena_size(),
                self.arena_size(),
            ),
            forall|k: int| aid <= k <= end_aid ==> self.available(pages@, k),
        ensures
            r matches Some(out) && out@ == stream(
                self.seen(pages@),
                self.arena_size(),
                pos(aid as int, offset as int, self.arena_size()),
                length as int,
            ),
    {
        let size = self.config.arena_size;
        let ghost image = self.seen(pages@);
        let ghost start = pos(aid as int, offset as int, size as int);
        let mut out: Vec<u8> = Vec::new();
        let mut at = aid;
        let mut off = offset;
        let mut left = length;
        assert(out@ =~= stream(image, size as int, start, 0));
        loop
            invariant
                self.wf(),
                size == self.config.arena_size,
                image == self.seen(pages@),
                start == pos(aid as int, offset as int, size as int),
                off < size,
                left <= length,
                self.head_aid <= aid <= at <= end_aid <= self.tail_aid,
                pos(at as int, off as int, size as int) == start + (length - left),
                start + length < pos(end_aid as int, size as int, size as int),
                out@ == stream(image, size as int, start, length - left),
                forall|k: int| aid <= k <= end_aid ==> self.available(pages@, k),
            decreases left,
        {
            let arena = match self.page_at(pages, at) {
                Some(arena) => arena,
                None => {
                    assert(self.available(pages@, at as int));
                    return None;
                },
            };
            let room = size - off;
            let ghost done = length - left;
            if left >= room as u64 {
                let chunk = vstd::slice::slice_subrange(arena.as_slice(), off, size);
                out.extend_from_slice(chunk);
                proof {
                    lemma_stream_in_arena(image, size as int, at as int, off as int, room as int);
                    lemma_stream_join(image, size as int, start, done, room as int);
                    assert((at + 1) * size == at * size + size) by (nonlinear_arith);
                    assert(at < end_aid);
                }
                left = left - room as u64;
                at = at + 1;
                off = 0;
            } else {
                let chunk = vstd::slice::slice_subrange(arena.as_slice(), off, off + left as usize);
                out.extend_from_slice(chunk);
                proof {
                    lemma_stream_in_arena(image, size as int, at as int, off as int, left as int);
                    lemma_stream_join(image, size as int, start, done, left as int);
                }
                return Some(out);
            }
        }
    }

    /// Reads the record at the head, or finds where it ends when `whole` is not set.
    /// Returns the payload, empty where it was not read, and the cursor behind the
    /// record.
    fn front(&self, pages: &Vec<Page>, whole: bool) -> (r: Result<(Vec<u8>, usize, usize), Error>)
        requires
            self.wf(),
        ensures
            ({
                let size = self.arena_size();
                let image = self.seen(pages@);
                match r {
                    Ok(found) => {
                        &&& self.outcome(pages@, whole) is Found
                        &&& whole ==> found.0@ == frame_payload(image, size, self.head())
                        &&& found.2 < size
                        &&& self.head_aid <= found.1 <= self.tail_aid
                        &&& pos(found.1 as int, found.2 as int, size) == frame_end(
                            image,
                            size,
                            self.head(),
                        )
                        &&& self.available(pages@, found.1 as int)
                    },
                    Err(e) => reports(e, self.outcome(pages@, whole)),
                }
            }),
    {
        let size = self.config.arena_size;
        if self.is_empty() {
            return Err(Error::QueueEmpty);
        }
        let (aid, offset, length) = match self.read_length(pages) {
            Ok(found) => found,
            Err(e) => {
                return Err(e);
            },
        };
        let (end_aid, end_offset) = match self.read_end(aid, offset, length) {
            Some(e) => e,
            None => {
                return Err(Error::Read);
            },
        };
        proof {
            lemma_locate(end_aid as int, end_offset as int, size as int);
        }
        if !whole {
            if self.page_at(pages, end_aid).is_none() {
                return Err(Error::Exist(arena_file_name(end_aid)));
            }
            return Ok((Vec::new(), end_aid, end_offset));
        }
        if end_aid > self.head_aid {
            match self.missing_between(pages, self.head_aid + 1, end_aid) {
                Some(missing) => {
                    return Err(Error::Exist(arena_file_name(missing)));
                },
                None => {},
            }
        }
        proof {
            assert forall|k: int| aid <= k <= end_aid implies self.available(pages@, k) by {
                if k > self.head_aid {
                    self.lemma_none_missing(pages@, self.head_aid + 1, end_aid as int, k);
                }
            }
            assert((end_aid + 1) * size == end_aid * size + size) by (nonlinear_arith);
        }
        match self.read_bytes(pages, aid, offset, end_aid, length) {
            Some(payload) => Ok((payload, end_aid, end_offset)),
            None => Err(Error::Read),
        }
    }

    /// The record at the head, which stays where it is. The arenas after the head's
    /// that the record reaches and that the queue does not hold mapped are looked up in
    /// `pages`.
    ///
    /// Fails with `QueueEmpty` on an empty queue, with `ReadLength` or `Read` where the
    /// length word or the record does not end before the tail, and with `Exist`, naming
    /// the file, for the first arena that is needed and not at hand.
    pub fn peek(&self, pages: &Vec<Page>) -> (r: Result<Vec<u8>, Error>)
        requires
            self.wf(),
        ensures
            match r {
                Ok(payload) => self.outcome(pages@, true) is Found && payload@ == frame_payload(
                    self.seen(pages@),
                    self.arena_size(),
                    self.head(),
                ),
                Err(e) => reports(e, self.outcome(pages@, true)),
            },
    {
        match self.front(pages, true) {
            Ok(found) => Ok(found.0),
            Err(e) => Err(e),
        }
    }

    /// Records the head cursor in the index and in the queue.
    fn set_head_index(&mut self, aid: usize, offset: usize) -> (r: Result<(), Error>)
        requires
            old(self).steady(),
            aid == old(self).head_aid,
            offset < old(self).config.arena_size,
            old(self).tail_offset < old(self).config.arena_size,
            old(self).tail_aid == aid ==> offset <= old(self).tail_offset,
            old(self).index@.tail_aid == old(self).tail_aid as u64,
            old(self).index@.tail_offset == old(self).tail_offset as u64,
        ensures
            r is Ok,
            final(self).wf(),
            final(self).image@ == old(self).image@,
            final(self).config == old(self).config,
            final(self).head_aid == aid,
            final(self).head_offset == offset,
            final(self).tail_aid == old(self).tail_aid,
            final(self).tail_offset == old(self).tail_offset,
            final(self).cache == old(self).cache,
    {
        self.index.set_head(aid, offset)?;
        self.head_aid = aid;
        self.head_offset = offset;
        Ok(())
    }

    /// Drops from the cache the arenas from `lo` up to, not including, `hi`.
    fn forget(&mut self, lo: usize, hi: usize)
        requires
            old(self).steady(),
        ensures
            final(self).steady(),
            final(self).image@ == old(self).image@,
            final(self).config == old(self).config,
            final(self).index == old(self).index,
            final(self).head_aid == old(self).head_aid,
            final(self).head_offset == old(self).head_offset,
            final(self).tail_aid == old(self).tail_aid,
            final(self).tail_offset == old(self).tail_offset,
            final(self).q_head == old(self).q_head,
            final(self).q_tail == old(self).q_tail,
            final(self).cache_size() == old(self).cache_size(),
            final(self).kept() == forgotten(old(self).kept(), lo as int, hi - 1),
            forall|aid: int| hi <= aid ==> (final(self).in_cache(aid) <==> old(self).in_cache(aid)),
    {
        let mut aid = lo;
        while aid < hi
            invariant
                self.steady(),
                lo <= aid,
                aid <= hi || aid == lo,
                self.cache_size() == old(self).cache_size(),
                self.kept() == forgotten(old(self).kept(), lo as int, aid - 1),
                self.image@ == old(self).image@,
                self.config == old(self).config,
                self.index == old(self).index,
                self.head_aid == old(self).head_aid,
                self.head_offset == old(self).head_offset,
                self.tail_aid == old(self).tail_aid,
                self.tail_offset == old(self).tail_offset,
                self.q_head == old(self).q_head,
                self.q_tail == old(self).q_tail,
                forall|k: int| hi <= k ==> (self.in_cache(k) <==> old(self).in_cache(k)),
            decreases hi - aid,
        {
            let ghost before = cached(self.cache);
            let ghost was = *self;
            proof {
                lemma_find(before, aid);
            }
            let _ = self.cache.pop(aid);
            proof {
                let after = cached(self.cache);
                let i = find(before, aid);
                lemma_place(before, aid);
                lemma_keys(before, aid, Seq::empty(), i);
                assert(self.kept() == dismissed(keys(before), aid as int));
                assert(forgotten(old(self).kept(), lo as int, aid as int) == dismissed(
                    forgotten(old(self).kept(), lo as int, aid - 1),
                    aid as int,
                ));
                assert forall|k: int| 0 <= k < after.len() implies (#[trigger] after[k]).0
                    < self.tail_aid && after[k].1 == self.image@[after[k].0 as int] by {
                    if i >= 0 {
                        assert(after[k] == before[if k < i {
                            k
                        } else {
                            k + 1
                        }]);
                    }
                }
                assert forall|k: int| hi <= k implies (self.in_cache(k) <==> was.in_cache(k)) by {
                    if 0 <= k <= usize::MAX {
                        lemma_find_remove(before, aid, k as usize);
                    }
                }
            }
            aid = aid + 1;
        }
        assert(hi <= lo ==> forgotten(old(self).kept(), lo as int, hi - 1) == old(self).kept());
    }

    /// Moves the head to the given cursor, which lies in an arena that is at hand, and
    /// records it in the index. The head's new arena comes from the tail, from the cache
    /// or from `pages`, and the arenas that the head has passed leave the cache.
    fn move_head(&mut self, pages: &mut Vec<Page>, aid: usize, offset: usize) -> (r: Result<
        (),
        Error,
    >)
        requires
            old(self).wf(),
            offset < old(self).config.arena_size,
            old(self).head_aid <= aid <= old(self).tail_aid,
            aid == old(self).head_aid ==> old(self).head_offset <= offset,
            aid == old(self).tail_aid ==> offset <= old(self).tail_offset,
            old(self).available(old(pages)@, aid as int),
        ensures
            r is Ok,
            final(self).wf(),
            final(self).config == old(self).config,
            final(self).head_aid == aid,
            final(self).head_offset == offset,
            final(self).tail_aid == old(self).tail_aid,
            final(self).tail_offset == old(self).tail_offset,
            final(self).image@ == old(self).seen(old(pages)@),
            final(pages)@ == old(self).left_over(old(pages)@, aid as int),
            final(self).cache_size() == old(self).cache_size(),
            final(self).kept() == forgotten(old(self).kept(), old(self).head_aid + 1, aid as int),
    {
        let size = self.config.arena_size;
        let ghost image = self.seen(pages@);
        proof {
            assert forall|k: int|
                #![trigger image.dom().contains(k)]
                #![trigger image[k]]
                image.dom().contains(k) && image[k].len() == size by {
                lemma_lookup(pages@, k, size as int);
                assert(self.image@[k].len() == size);
            }
            assert forall|i: int| 0 <= i < cached(self.cache).len() implies image[(
            #[trigger] cached(self.cache)[i]).0 as int] == self.image@[cached(
                self.cache,
            )[i].0 as int] by {
                let key = cached(self.cache)[i].0;
                lemma_find(cached(self.cache), key);
            }
        }
        self.image = Ghost(image);
        assert(self.steady());
        assert(self.in_cache(aid as int) == old(self).in_cache(aid as int));
        if aid != self.head_aid {
            self.forget(self.head_aid + 1, aid);
            assert(self.in_cache(aid as int) == old(self).in_cache(aid as int));
            proof {
                lemma_find(cached(self.cache), aid);
                lemma_place(cached(self.cache), aid);
            }
            if aid == self.tail_aid {
                self.q_head = None;
            } else {
                let ghost before = cached(self.cache);
                proof {
                    lemma_find(before, aid);
                    lemma_lookup(pages@, aid as int, size as int);
                }
                match self.cache.pop(aid) {
                    Some(arena) => {
                        self.q_head = Some(arena);
                    },
                    None => {
                        let i = match find_page(pages, aid, size) {
                            Some(i) => i,
                            None => {
                                assert(false);
                                return Err(Error::Read);
                            },
                        };
                        let page = pages.remove(i);
                        self.q_head = Some(page.arena);
                    },
                }
                proof {
                    let after = cached(self.cache);
                    let i = find(before, aid);
                    lemma_keys(before, aid, Seq::empty(), i);
                    assert forall|k: int| 0 <= k < after.len() implies (#[trigger] after[k]).0
                        < self.tail_aid && after[k].1 == self.image@[after[k].0 as int] by {
                        if i >= 0 {
                            assert(after[k] == before[if k < i {
                                k
                            } else {
                                k + 1
                            }]);
                        }
                    }
                }
            }
            self.head_aid = aid;
        }
        self.set_head_index(aid, offset)
    }

    /// Takes the record at the head off the queue and returns its payload. The arenas
    /// after the head's that the record reaches and that the queue does not hold mapped
    /// are looked up in `pages`; the one that the head moves into is taken from there.
    ///
    /// Fails as `peek` does. A failed pop changes nothing.
    pub fn pop(&mut self, pages: &mut Vec<Page>) -> (r: Result<Vec<u8>, Error>)
        requires
            old(self).wf(),
        ensures
            final(self).wf(),
            final(self).arena_size() == old(self).arena_size(),
            final(self).cache_size() == old(self).cache_size(),
            final(self).tail_aid() == old(self).tail_aid(),
            final(self).tail_offset() == old(self).tail_offset(),
            ({
                let size = old(self).arena_size();
                let image = old(self).seen(old(pages)@);
                let end = frame_end(image, size, old(self).head());
                match r {
                    Ok(payload) => {
                        &&& old(self).outcome(old(pages)@, true) is Found
                        &&& payload@ == frame_payload(image, size, old(self).head())
                        &&& final(self).head() == end
                        &&& final(self).image() == image
                        &&& final(pages)@ == old(self).left_over(old(pages)@, end / size)
                        &&& final(self).kept() == forgotten(
                            old(self).kept(),
                            old(self).head_aid() + 1,
                            end / size,
                        )
                        &&& forall|records: Seq<Seq<u8>>| #[trigger]
                            old(self).holds_with(old(pages)@, records) ==> records.len() > 0
                                && payload@ == records[0] && final(self).holds(records.skip(1))
                    },
                    Err(e) => {
                        &&& *final(self) == *old(self)
                        &&& final(pages)@ == old(pages)@
                        &&& reports(e, old(self).outcome(old(pages)@, true))
                    },
                }
            }),
    {
        let (payload, aid, offset) = match self.front(pages, true) {
            Ok(found) => found,
            Err(e) => {
                return Err(e);
            },
        };
        proof {
            self.lemma_end_in_order(pages@, aid, offset);
        }
        match self.move_head(pages, aid, offset) {
            Ok(_) => Ok(payload),
            Err(e) => Err(e),
        }
    }

    /// Takes the record at the head off the queue without reading its payload. Of the
    /// arenas after the head's, only that of the length word and that in which the
    /// record ends are needed.
    ///
    /// Fails as `peek` does. A failed dequeue changes nothing.
    pub fn dequeue(&mut self, pages: &mut Vec<Page>) -> (r: Result<(), Error>)
        requires
            old(self).wf(),
        ensures
            final(self).wf(),
            final(self).arena_size() == old(self).arena_size(),
            final(self).cache_size() == old(self).cache_size(),
            final(self).tail_aid() == old(self).tail_aid(),
            final(self).tail_offset() == old(self).tail_offset(),
            ({
                let size = old(self).arena_size();
                let image = old(self).seen(old(pages)@);
                let end = frame_end(image, size, old(self).head());
                match r {
                    Ok(_) => {
                        &&& old(self).outcome(old(pages)@, false) is Found
                        &&& final(self).head() == end
                        &&& final(self).image() == image
                        &&& final(pages)@ == old(self).left_over(old(pages)@, end / size)
                        &&& final(self).kept() == forgotten(
                            old(self).kept(),
                            old(self).head_aid() + 1,
                            end / size,
                        )
                        &&& forall|records: Seq<Seq<u8>>| #[trigger]
                            old(self).holds_with(old(pages)@, records) ==> records.len() > 0
                                && final(self).holds(records.skip(1))
                    },
                    Err(e) => {
                        &&& *final(self) == *old(self)
                        &&& final(pages)@ == old(pages)@
                        &&& reports(e, old(self).outcome(old(pages)@, false))
                    },
                }
            }),
    {
        let (_, aid, offset) = match self.front(pages, false) {
            Ok(found) => found,
            Err(e) => {
                return Err(e);
            },
        };
        proof {
            self.lemma_end_in_order(pages@, aid, offset);
        }
        self.move_head(pages, aid, offset)
    }

    /// A record ends after the head, and its end lies in the arena and at the offset
    /// that its position splits into.
    proof fn lemma_end_in_order(&self, pages: Seq<Page>, aid: usize, offset: usize)
        requires
            self.wf(),
            offset < self.arena_size(),
            pos(aid as int, offset as int, self.arena_size()) == frame_end(
                self.seen(pages),
                self.arena_size(),
                self.head(),
            ),
            frame_end(self.seen(pages), self.arena_size(), self.head()) <= self.tail(),
        ensures
            aid == self.head_aid ==> self.head_offset <= offset,
            aid == self.tail_aid ==> offset <= self.tail_offset,
            frame_end(self.seen(pages), self.arena_size(), self.head()) / self.arena_size() == aid,
    {
        let size = self.arena_size();
        self.lemma_order();
        lemma_slot(self.head(), size);
        lemma_locate(aid as int, offset as int, size);
        lemma_pos_order(
            self.head_aid as int,
            self.head_offset as int,
            aid as int,
            offset as int,
            size,
        );
        lemma_pos_order(
            aid as int,
            offset as int,
            self.tail_aid as int,
            self.tail_offset as int,
            size,
        );
    }
}

} // verus!
