//! The queue.
//!
//! The queue owns the index and the arenas it works on, and it never touches the file
//! system. Where an operation reaches an arena that the queue does not hold mapped, it
//! fails with `Error::Exist`, naming the arena's file, and changes nothing; the caller
//! maps the file, adds it to the pages that it hands in, and calls again.

use vstd::prelude::*;
use vstd::arithmetic::div_mod::lemma_div_is_ordered;
use vstd::string::StringExecFns;
use crate::arena::Arena;
use crate::cache::{
    cached, cache_limit, find, keys, lemma_find, lemma_place, lemma_place_first, ArenaCache,
};
use crate::config::{Config, DEFAULT_ARENA_SIZE, MIN_ARENAS_MAX_IN_MEM};
use crate::error::Error;
use crate::fifo::{agree, laid, lemma_laid_local, lemma_laid_order};
use crate::index::{lemma_blank_index, lemma_index_layout, Index, IndexView, INDEX_FILE, INDEX_FILE_SIZE};
use crate::names::{arena_file_name, arena_id, arena_id_of, arena_name};
use crate::pages::{lemma_lookup, lookup, Page};
use crate::stream::{
    byte_at, frame_end, frame_payload, lemma_locate, lemma_slot, pos, slot, uniform, Image,
};

mod read;
mod write;

verus! {

/// An arena of zeros, which stands in the image for every arena that the queue has not
/// seen.
pub open spec fn blank(size: int) -> Seq<u8> {
    Seq::new(size as nat, |i: int| 0u8)
}

/// Whether a file of the given name holds an arena that the head has left behind.
pub open spec fn stale(name: Seq<char>, head_aid: int) -> bool {
    arena_id_of(name) matches Some(aid) && aid < head_aid
}

/// The test that `shrink` applies to each name.
pub open spec fn stale_before(head_aid: int) -> spec_fn(String) -> bool {
    |name: String| stale(name@, head_aid)
}

/// What `shrink` returns holds every name that is stale, and no other.
pub proof fn lemma_shrink(names: Seq<String>, head_aid: int)
    ensures
        forall|j: int|
            0 <= j < names.filter(stale_before(head_aid)).len() ==> stale(
                (#[trigger] names.filter(stale_before(head_aid))[j])@,
                head_aid,
            ),
        forall|i: int|
            0 <= i < names.len() && stale((#[trigger] names[i])@, head_aid) ==> names.filter(
                stale_before(head_aid),
            ).contains(names[i]),
{
    let keep = stale_before(head_aid);
    let gone = names.filter(keep);
    assert forall|j: int| 0 <= j < gone.len() implies stale((#[trigger] gone[j])@, head_aid) by {
        names.lemma_filter_pred(keep, j);
    }
    assert forall|i: int| 0 <= i < names.len() && stale((#[trigger] names[i])@, head_aid) implies gone.contains(
        names[i],
    ) by {
        names.lemma_filter_contains(keep, i);
    }
}

/// How an attempt to read the record at the head ends.
pub enum Outcome {
    /// The queue holds no record.
    Empty,
    /// The length word does not lie before the tail.
    NoLength,
    /// The record does not end before the tail.
    Overrun,
    /// An arena that the read needs is not at hand.
    Missing(int),
    /// The record can be read.
    Found,
}

/// Whether the error is the one that a read returns when it ends in the given way.
pub open spec fn reports(e: Error, outcome: Outcome) -> bool {
    match e {
        Error::QueueEmpty => outcome is Empty,
        Error::ReadLength => outcome is NoLength,
        Error::Read => outcome is Overrun,
        Error::Exist(name) => outcome matches Outcome::Missing(aid) && 0 <= aid && name@
            == arena_name(aid as nat),
        _ => false,
    }
}

/// The queue: two cursors over a row of arenas, the arenas at the cursors, a cache of
/// arenas that the tail has left behind, and the index that records the cursors.
pub struct BigQueue {
    index: Index,
    config: Config,
    head_aid: usize,
    head_offset: usize,
    tail_aid: usize,
    tail_offset: usize,
    q_head: Option<Arena>,
    q_tail: Arena,
    cache: ArenaCache,
    image: Ghost<Image>,
}

impl BigQueue {
    /// Bytes in every arena.
    pub closed spec fn arena_size(&self) -> int {
        self.config.arena_size as int
    }

    /// Arena of the read cursor.
    pub closed spec fn head_aid(&self) -> int {
        self.head_aid as int
    }

    /// Offset of the read cursor in its arena.
    pub closed spec fn head_offset(&self) -> int {
        self.head_offset as int
    }

    /// Arena of the write cursor.
    pub closed spec fn tail_aid(&self) -> int {
        self.tail_aid as int
    }

    /// Offset of the write cursor in its arena.
    pub closed spec fn tail_offset(&self) -> int {
        self.tail_offset as int
    }

    /// Position of the read cursor in the row of bytes.
    pub open spec fn head(&self) -> int {
        pos(self.head_aid(), self.head_offset(), self.arena_size())
    }

    /// Position of the write cursor in the row of bytes.
    pub open spec fn tail(&self) -> int {
        pos(self.tail_aid(), self.tail_offset(), self.arena_size())
    }

    /// What the arena files hold, as far as the queue knows: what it last read from or
    /// wrote to each.
    pub closed spec fn image(&self) -> Image {
        self.image@
    }

    /// The bytes of the index.
    pub closed spec fn index_bytes(&self) -> Seq<u8> {
        self.index.bytes()
    }

    /// The arenas that the cache holds, the most recently used first.
    pub closed spec fn kept(&self) -> Seq<int> {
        keys(cached(self.cache))
    }

    /// The number of arenas that the cache holds at most.
    pub closed spec fn cache_size(&self) -> int {
        cache_limit(self.cache) as int
    }

    /// The arenas that the queue holds mapped: the tail's, then the head's where it is
    /// another one, then those of the cache, the least recently used first.
    pub open spec fn mapped(&self) -> Seq<int> {
        seq![self.tail_aid()] + (if self.head_aid() != self.tail_aid() {
            seq![self.head_aid()]
        } else {
            Seq::empty()
        }) + self.kept().reverse()
    }

    /// Whether the cache holds arena `aid`.
    pub closed spec fn in_cache(&self, aid: int) -> bool {
        0 <= aid <= usize::MAX && find(cached(self.cache), aid as usize) >= 0
    }

    /// Whether the queue holds arena `aid` mapped: at a cursor or in the cache.
    pub open spec fn resident(&self, aid: int) -> bool {
        aid == self.head_aid() || aid == self.tail_aid() || self.in_cache(aid)
    }

    /// Whether arena `aid` is at hand: mapped by the queue or among the pages.
    pub open spec fn available(&self, pages: Seq<Page>, aid: int) -> bool {
        self.resident(aid) || lookup(pages, aid, self.arena_size()) >= 0
    }

    /// The words that the index holds when it records the cursors.
    pub open spec fn cursors(&self) -> IndexView {
        IndexView {
            head_aid: self.head_aid() as u64,
            head_offset: self.head_offset() as u64,
            tail_aid: self.tail_aid() as u64,
            tail_offset: self.tail_offset() as u64,
        }
    }

    /// The image with the pages for the arenas from `lo` to `hi` taken in: such a page
    /// stands for its arena unless the queue holds that arena mapped itself.
    pub open spec fn adopt(&self, pages: Seq<Page>, lo: int, hi: int) -> Image {
        Map::new(
            |aid: int| true,
            |aid: int|
                if lo <= aid <= hi && !self.resident(aid) && lookup(pages, aid, self.arena_size())
                    >= 0 {
                    pages[lookup(pages, aid, self.arena_size())].arena@
                } else {
                    self.image()[aid]
                },
        )
    }

    /// The image that a read works on: the pages for the arenas after the head's, up
    /// to the tail's, taken in.
    pub open spec fn seen(&self, pages: Seq<Page>) -> Image {
        self.adopt(pages, self.head_aid() + 1, self.tail_aid())
    }

    /// The pages that are left when the head has moved to arena `aid`: the page for that
    /// arena is taken, unless the queue held the arena mapped already.
    pub open spec fn left_over(&self, pages: Seq<Page>, aid: int) -> Seq<Page> {
        if self.resident(aid) {
            pages
        } else {
            pages.remove(lookup(pages, aid, self.arena_size()))
        }
    }

    /// What holds of a queue between any two operations.
    pub open spec fn wf(&self) -> bool {
        &&& self.arena_size() > 8
        &&& 0 <= self.head_aid() <= self.tail_aid() <= usize::MAX
        &&& 0 <= self.head_offset() < self.arena_size()
        &&& 0 <= self.tail_offset() < self.arena_size()
        &&& self.head_aid() == self.tail_aid() ==> self.head_offset() <= self.tail_offset()
        &&& uniform(self.image(), self.arena_size())
        &&& self.index_bytes().len() == INDEX_FILE_SIZE
        &&& IndexView::decode(self.index_bytes()) == self.cursors()
        &&& self.inv()
    }

    /// The mapped arenas hold what the image says, the head has an arena of its own
    /// exactly when it is not in the tail's, and the cache holds arenas before the tail.
    pub closed spec fn inv(&self) -> bool {
        &&& self.config.valid()
        &&& cache_limit(self.cache) > 0
        &&& self.q_tail@ == self.image@[self.tail_aid as int]
        &&& self.q_head is Some <==> self.head_aid != self.tail_aid
        &&& self.q_head matches Some(a) ==> a@ == self.image@[self.head_aid as int]
        &&& forall|i: int|
            0 <= i < cached(self.cache).len() ==> {
                &&& (#[trigger] cached(self.cache)[i]).0 < self.tail_aid
                &&& cached(self.cache)[i].1 == self.image@[cached(self.cache)[i].0 as int]
            }
    }

    /// What holds of a queue while its tail moves: all of `wf` but what it says of the
    /// tail's offset and of the index's words.
    pub closed spec fn steady(&self) -> bool {
        &&& self.config.arena_size > 8
        &&& self.head_aid <= self.tail_aid
        &&& self.head_offset < self.config.arena_size
        &&& uniform(self.image@, self.config.arena_size as int)
        &&& self.index.bytes().len() == INDEX_FILE_SIZE
        &&& self.inv()
    }

    /// The queue holds the given records, the oldest first: they lie framed in the image
    /// from the head to the tail.
    pub open spec fn holds(&self, records: Seq<Seq<u8>>) -> bool {
        laid(self.image(), self.arena_size(), self.head(), self.tail(), records)
    }

    /// The queue holds the given records once the pages are taken in.
    pub open spec fn holds_with(&self, pages: Seq<Page>, records: Seq<Seq<u8>>) -> bool {
        laid(self.seen(pages), self.arena_size(), self.head(), self.tail(), records)
    }

    /// Every page holds what the image has for its arena.
    pub open spec fn faithful(&self, pages: Seq<Page>) -> bool {
        forall|i: int|
            0 <= i < pages.len() ==> (#[trigger] pages[i]).arena@ == self.image()[pages[i].aid as int]
    }

    /// The first arena from `lo` to `hi` that is not at hand, if there is one.
    pub open spec fn first_missing(&self, pages: Seq<Page>, lo: int, hi: int) -> Option<int>
        decreases hi - lo + 1,
    {
        if lo > hi {
            None
        } else if !self.available(pages, lo) {
            Some(lo)
        } else {
            self.first_missing(pages, lo + 1, hi)
        }
    }

    /// How reading the record at the head ends, given the pages at hand. A read of the
    /// `whole` record needs every arena from the length word to the record's end; one
    /// that skips the payload needs the arena of the length word and that of the end.
    pub open spec fn outcome(&self, pages: Seq<Page>, whole: bool) -> Outcome {
        let size = self.arena_size();
        let image = self.seen(pages);
        let at = slot(self.head(), size);
        let end = frame_end(image, size, self.head());
        if self.head() == self.tail() {
            Outcome::Empty
        } else if at + 8 > self.tail() {
            Outcome::NoLength
        } else if !self.available(pages, at / size) {
            Outcome::Missing(at / size)
        } else if end > self.tail() {
            Outcome::Overrun
        } else if whole {
            match self.first_missing(pages, self.head_aid() + 1, end / size) {
                Some(aid) => Outcome::Missing(aid),
                None => Outcome::Found,
            }
        } else if !self.available(pages, end / size) {
            Outcome::Missing(end / size)
        } else {
            Outcome::Found
        }
    }

    /// Whether the four words fit the machine word and make two cursors in order, each
    /// within its arena.
    pub open spec fn usable(words: IndexView, size: int) -> bool {
        &&& words.head_aid <= words.tail_aid <= usize::MAX
        &&& words.head_offset < size
        &&& words.tail_offset < size
        &&& words.head_aid == words.tail_aid ==> words.head_offset <= words.tail_offset
    }

    /// What opening a queue answers to what it is given. A queue is opened where the
    /// index has 32 bytes, its words make usable cursors, the tail's arena has the
    /// configured size, and so has the head's where the head is in another arena. Each
    /// error comes for the first of these that fails.
    pub open spec fn opened(
        index: Index,
        head: Option<Arena>,
        tail: Arena,
        conf: Config,
        r: Result<BigQueue, Error>,
    ) -> bool {
        let size = conf.arena_size as int;
        let words = index@;
        let apart = words.head_aid != words.tail_aid;
        match r {
            Ok(q) => {
                &&& index.bytes().len() == INDEX_FILE_SIZE
                &&& Self::usable(words, size)
                &&& q.wf()
                &&& q.arena_size() == size
                &&& q.cache_size() == conf.max_arenas_in_mem
                &&& q.index_bytes() == index.bytes()
                &&& q.kept() == Seq::<int>::empty()
                &&& forall|aid: int|
                    #[trigger] q.image()[aid] == if aid == words.tail_aid {
                        tail@
                    } else if aid == words.head_aid {
                        head->0@
                    } else {
                        blank(size)
                    }
            },
            Err(Error::OpenFileWithLength(name, n)) => {
                ||| index.bytes().len() != INDEX_FILE_SIZE && name@ == INDEX_FILE@ && n
                    == INDEX_FILE_SIZE
                ||| {
                    &&& index.bytes().len() == INDEX_FILE_SIZE
                    &&& Self::usable(words, size)
                    &&& n == size
                    &&& if tail@.len() != size {
                        name@ == arena_name(words.tail_aid as nat)
                    } else {
                        &&& apart
                        &&& head is Some
                        &&& head->0@.len() != size
                        &&& name@ == arena_name(words.head_aid as nat)
                    }
                }
            },
            Err(Error::Read) => index.bytes().len() == INDEX_FILE_SIZE && !Self::usable(words, size),
            Err(Error::Exist(name)) => {
                &&& index.bytes().len() == INDEX_FILE_SIZE
                &&& Self::usable(words, size)
                &&& tail@.len() == size
                &&& apart
                &&& head is None
                &&& name@ == arena_name(words.head_aid as nat)
            },
            Err(_) => false,
        }
    }

    /// Opens a queue on an index and the arenas at its two cursors: `tail` is the arena
    /// of the write cursor, `head` that of the read cursor where it is another one. The
    /// cursors are those that the index records, and the cache is empty.
    ///
    /// Fails with `OpenFileWithLength` for an index that does not have 32 bytes, with
    /// `Read` for words that make no usable cursors, with `OpenFileWithLength` for an
    /// arena that does not have the configured size, and with `Exist` where the head's
    /// arena is needed and missing.
    pub fn with_config(index: Index, head: Option<Arena>, tail: Arena, conf: Config) -> (r: Result<
        BigQueue,
        Error,
    >)
        requires
            conf.valid(),
        ensures
            Self::opened(index, head, tail, conf, r),
    {
        let size = conf.arena_size;
        if index.len() != INDEX_FILE_SIZE {
            return Err(Error::OpenFileWithLength(String::from_str(INDEX_FILE), INDEX_FILE_SIZE));
        }
        let (head_aid, head_offset) = match index.head_words() {
            Some(pair) => pair,
            None => {
                return Err(Error::OpenFileWithLength(String::from_str(INDEX_FILE), INDEX_FILE_SIZE));
            },
        };
        let (tail_aid, tail_offset) = match index.tail_words() {
            Some(pair) => pair,
            None => {
                return Err(Error::OpenFileWithLength(String::from_str(INDEX_FILE), INDEX_FILE_SIZE));
            },
        };
        if tail_aid > usize::MAX as u64 || head_aid > tail_aid || head_offset >= size as u64
            || tail_offset >= size as u64 || (head_aid == tail_aid && head_offset > tail_offset) {
            return Err(Error::Read);
        }
        let head_aid = head_aid as usize;
        let head_offset = head_offset as usize;
        let tail_aid = tail_aid as usize;
        let tail_offset = tail_offset as usize;
        if tail.len() != size {
            return Err(Error::OpenFileWithLength(arena_file_name(tail_aid), size));
        }
        let q_head = if head_aid != tail_aid {
            match head {
                None => {
                    return Err(Error::Exist(arena_file_name(head_aid)));
                },
                Some(a) => {
                    if a.len() != size {
                        return Err(Error::OpenFileWithLength(arena_file_name(head_aid), size));
                    }
                    Some(a)
                },
            }
        } else {
            None
        };
        let ghost image = Map::new(
            |aid: int| true,
            |aid: int|
                if aid == tail_aid {
                    tail@
                } else if aid == head_aid {
                    head->0@
                } else {
                    blank(size as int)
                },
        );
        let cache = ArenaCache::new(conf.max_arenas_in_mem);
        let q = BigQueue {
            index,
            config: conf,
            head_aid,
            head_offset,
            tail_aid,
            tail_offset,
            q_head,
            q_tail: tail,
            cache,
            image: Ghost(image),
        };
        assert(q.kept() =~= Seq::<int>::empty());
        Ok(q)
    }

    /// Opens a queue with the default configuration.
    pub fn new(index: Index, head: Option<Arena>, tail: Arena) -> (r: Result<BigQueue, Error>)
        ensures
            Self::opened(
                index,
                head,
                tail,
                Config {
                    arena_size: DEFAULT_ARENA_SIZE,
                    max_arenas_in_mem: MIN_ARENAS_MAX_IN_MEM,
                },
                r,
            ),
    {
        BigQueue::with_config(index, head, tail, Config::new())
    }

    /// Whether the queue holds no record.
    pub fn is_empty(&self) -> (b: bool)
        requires
            self.wf(),
        ensures
            b == (self.head() == self.tail()),
    {
        proof {
            self.lemma_order();
        }
        self.head_aid == self.tail_aid && self.head_offset == self.tail_offset
    }

    /// Of the files named, those that can be removed: the arenas that the head has left
    /// behind. The names come back in the order given.
    pub fn shrink(&self, names: &Vec<String>) -> (gone: Vec<String>)
        ensures
            gone@ == names@.filter(stale_before(self.head_aid())),
    {
        let mut gone: Vec<String> = Vec::new();
        let mut i: usize = 0;
        proof {
            reveal(Seq::filter);
            assert(names@.subrange(0, 0) =~= Seq::<String>::empty());
        }
        while i < names.len()
            invariant
                i <= names.len(),
                gone@ == names@.subrange(0, i as int).filter(stale_before(self.head_aid())),
            decreases names.len() - i,
        {
            let ghost longer = names@.subrange(0, i + 1);
            proof {
                reveal(Seq::filter);
                assert(longer.drop_last() =~= names@.subrange(0, i as int));
                assert(longer.last() == names@[i as int]);
            }
            if self.is_stale(names[i].as_str()) {
                gone.push(names[i].clone());
            }
            i = i + 1;
        }
        assert(names@.subrange(0, i as int) =~= names@);
        gone
    }

    /// Whether a file of the given name holds an arena that the head has left behind.
    pub fn is_stale(&self, name: &str) -> (b: bool)
        ensures
            b == stale(name@, self.head_aid()),
    {
        match arena_id(name) {
            Some(aid) => aid < self.head_aid,
            None => false,
        }
    }

    /// Drops the arenas in the cache.
    pub fn clear_cache(&mut self)
        requires
            old(self).wf(),
        ensures
            final(self).wf(),
            final(self).kept() == Seq::<int>::empty(),
            final(self).cache_size() == old(self).cache_size(),
            final(self).arena_size() == old(self).arena_size(),
            final(self).head_aid() == old(self).head_aid(),
            final(self).head_offset() == old(self).head_offset(),
            final(self).tail_aid() == old(self).tail_aid(),
            final(self).tail_offset() == old(self).tail_offset(),
            final(self).image() == old(self).image(),
            final(self).index_bytes() == old(self).index_bytes(),
    {
        self.cache.clear();
        assert(self.kept() =~= Seq::<int>::empty());
    }

    /// Closes the queue and hands back the index and every arena that the queue holds
    /// mapped, the tail's first. Each arena holds what the image has for it.
    pub fn close(self) -> (parts: (Index, Vec<Page>))
        requires
            self.wf(),
        ensures
            parts.0.bytes() == self.index_bytes(),
            parts.1@.len() == self.mapped().len(),
            forall|i: int|
                0 <= i < parts.1@.len() ==> (#[trigger] parts.1@[i]).aid == self.mapped()[i]
                    && parts.1@[i].arena@ == self.image()[self.mapped()[i]],
    {
        let BigQueue { index, config, head_aid, head_offset, tail_aid, tail_offset, q_head, q_tail, cache, image } = self;
        let mut cache = cache;
        let mut pages: Vec<Page> = Vec::new();
        pages.push(Page { aid: tail_aid, arena: q_tail });
        match q_head {
            Some(arena) => {
                pages.push(Page { aid: head_aid, arena });
            },
            None => {},
        }
        let ghost entries = cached(cache);
        let ghost fixed = pages@;
        loop
            invariant
                self.wf(),
                image == self.image,
                entries == cached(self.cache),
                cached(cache).len() <= entries.len(),
                cached(cache) == entries.subrange(0, cached(cache).len() as int),
                fixed.len() >= 1,
                fixed[0].aid == self.tail_aid,
                fixed[0].arena@ == image@[self.tail_aid as int],
                fixed.len() == (if self.head_aid == self.tail_aid {
                    1int
                } else {
                    2int
                }),
                self.head_aid != self.tail_aid ==> fixed[1].aid == self.head_aid && fixed[1].arena@
                    == image@[self.head_aid as int],
                pages@.len() == fixed.len() + (entries.len() - cached(cache).len()),
                forall|i: int| 0 <= i < fixed.len() ==> pages@[i] == fixed[i],
                forall|i: int|
                    fixed.len() <= i < pages@.len() ==> (#[trigger] pages@[i]).aid == entries[
                        entries.len() - 1 - (i - fixed.len())].0 && pages@[i].arena@ == entries[
                        entries.len() - 1 - (i - fixed.len())].1,
            ensures
                cached(cache).len() == 0,
            decreases cached(cache).len(),
        {
            let ghost before = cached(cache);
            match cache.pop_lru() {
                Some((aid, arena)) => {
                    pages.push(Page { aid, arena });
                    assert(cached(cache) =~= entries.subrange(0, cached(cache).len() as int));
                },
                None => {
                    break ;
                },
            }
        }
        proof {
            let mapped = self.mapped();
            let kept = self.kept();
            assert(kept.len() == entries.len());
            assert(pages@.len() == mapped.len());
            assert forall|i: int| 0 <= i < pages@.len() implies (#[trigger] pages@[i]).aid
                == mapped[i] && pages@[i].arena@ == self.image()[mapped[i]] by {
                if i >= fixed.len() {
                    let k = entries.len() - 1 - (i - fixed.len());
                    assert(kept.reverse()[i - fixed.len()] == kept[k]);
                    assert(kept[k] == entries[k].0);
                }
            }
        }
        (index, pages)
    }

    /// The cursors are in order, and they are at one position exactly when they are equal.
    pub proof fn lemma_order(&self)
        requires
            self.wf(),
        ensures
            0 <= self.head() <= self.tail(),
            self.head() == self.tail() <==> self.head_aid() == self.tail_aid()
                && self.head_offset() == self.tail_offset(),
    {
        let size = self.arena_size();
        lemma_locate(self.head_aid(), self.head_offset(), size);
        lemma_locate(self.tail_aid(), self.tail_offset(), size);
        assert(0 <= self.head_aid() * size) by (nonlinear_arith)
            requires
                0 <= self.head_aid(),
                0 < size,
        ;
        if self.head_aid() < self.tail_aid() {
            assert(self.head_aid() * size + size <= self.tail_aid() * size) by (nonlinear_arith)
                requires
                    self.head_aid() + 1 <= self.tail_aid(),
                    0 < size,
            ;
        }
    }

    /// The cache holds an arena exactly when the arena is among those kept.
    pub proof fn lemma_kept(&self, aid: int)
        ensures
            self.in_cache(aid) <==> self.kept().contains(aid),
    {
        lemma_place_first(self.kept(), aid);
        if 0 <= aid <= usize::MAX {
            lemma_place(cached(self.cache), aid as usize);
        } else if self.kept().contains(aid) {
            let i = choose|i: int| 0 <= i < self.kept().len() && self.kept()[i] == aid;
            assert(self.kept()[i] == cached(self.cache)[i].0);
        }
    }

    /// The queue holds an arena mapped exactly when the arena is among those that
    /// closing the queue hands back.
    pub proof fn lemma_mapped(&self, aid: int)
        ensures
            self.resident(aid) <==> self.mapped().contains(aid),
    {
        let mapped = self.mapped();
        let kept = self.kept();
        let fixed: int = if self.head_aid() != self.tail_aid() {
            2
        } else {
            1
        };
        self.lemma_kept(aid);
        assert(mapped[0] == self.tail_aid());
        if self.head_aid() != self.tail_aid() {
            assert(mapped[1] == self.head_aid());
        }
        assert forall|j: int| 0 <= j < kept.len() implies #[trigger] kept.reverse()[j] == kept[kept.len()
            - 1 - j] && mapped[fixed + j] == kept.reverse()[j] by {}
        if kept.contains(aid) {
            let k = choose|k: int| 0 <= k < kept.len() && kept[k] == aid;
            assert(kept.reverse()[kept.len() - 1 - k] == aid);
            assert(mapped[fixed + (kept.len() - 1 - k)] == aid);
        }
        if mapped.contains(aid) {
            let i = choose|i: int| 0 <= i < mapped.len() && mapped[i] == aid;
            if i >= fixed {
                assert(kept.reverse()[i - fixed] == aid);
                assert(kept[kept.len() - 1 - (i - fixed)] == aid);
            }
        }
    }

    /// The cache holds no arena at or after the tail's.
    proof fn lemma_cache_before_tail(&self, aid: int)
        requires
            self.inv(),
            self.in_cache(aid),
        ensures
            aid < self.tail_aid,
    {
        lemma_find(cached(self.cache), aid as usize);
    }

    /// What `first_missing` returns is the least arena from `lo` to `hi` that is not at
    /// hand.
    pub proof fn lemma_first_missing(&self, pages: Seq<Page>, lo: int, hi: int)
        ensures
            match self.first_missing(pages, lo, hi) {
                Some(aid) => lo <= aid <= hi && !self.available(pages, aid) && forall|k: int|
                    lo <= k < aid ==> #[trigger] self.available(pages, k),
                None => forall|k: int| lo <= k <= hi ==> #[trigger] self.available(pages, k),
            },
        decreases hi - lo + 1,
    {
        if lo <= hi && self.available(pages, lo) {
            self.lemma_first_missing(pages, lo + 1, hi);
        }
    }

    /// Where nothing is missing, every arena from `lo` to `hi` is at hand.
    pub proof fn lemma_none_missing(&self, pages: Seq<Page>, lo: int, hi: int, aid: int)
        requires
            self.first_missing(pages, lo, hi) is None,
            lo <= aid <= hi,
        ensures
            self.available(pages, aid),
        decreases hi - lo + 1,
    {
        if lo < aid {
            self.lemma_none_missing(pages, lo + 1, hi, aid);
        }
    }

    /// Pages that hold what the image has change nothing of what a read sees.
    pub proof fn lemma_faithful(&self, pages: Seq<Page>)
        requires
            self.wf(),
            self.faithful(pages),
        ensures
            self.seen(pages) == self.image(),
            forall|records: Seq<Seq<u8>>|
                self.holds_with(pages, records) <==> #[trigger] self.holds(records),
    {
        let seen = self.seen(pages);
        assert forall|aid: int| #[trigger] seen[aid] == self.image()[aid] by {
            lemma_lookup(pages, aid, self.arena_size());
        }
        assert forall|aid: int| seen.dom().contains(aid) <==> self.image().dom().contains(aid) by {
            assert(self.image().dom().contains(aid));
        }
        assert(seen =~= self.image());
    }

    /// Reading the head's record again gives the same: with pages that hold what the
    /// image has, every read sees the same record at the head, whichever pages they are.
    pub proof fn lemma_read_again(&self, first: Seq<Page>, second: Seq<Page>)
        requires
            self.wf(),
            self.faithful(first),
            self.faithful(second),
        ensures
            frame_payload(self.seen(first), self.arena_size(), self.head()) == frame_payload(
                self.seen(second),
                self.arena_size(),
                self.head(),
            ),
            frame_end(self.seen(first), self.arena_size(), self.head()) == frame_end(
                self.seen(second),
                self.arena_size(),
                self.head(),
            ),
    {
        self.lemma_faithful(first);
        self.lemma_faithful(second);
    }

    /// Taking in pages for arenas after the one in which `upto` lies changes no byte
    /// before `upto`.
    pub proof fn lemma_adopt_after(&self, pages: Seq<Page>, lo: int, hi: int, upto: int)
        requires
            self.arena_size() > 0,
            0 <= upto,
            upto / self.arena_size() < lo,
        ensures
            agree(self.image(), self.adopt(pages, lo, hi), self.arena_size(), 0, upto),
    {
        let size = self.arena_size();
        let after = self.adopt(pages, lo, hi);
        assert forall|p: int| 0 <= p < upto implies #[trigger] byte_at(self.image(), size, p)
            == byte_at(after, size, p) by {
            lemma_div_is_ordered(p, upto, size);
        }
    }

    /// A queue that holds records has its next read succeed, or fail for want of an
    /// arena, and for no other reason.
    pub proof fn lemma_read_owed(&self, pages: Seq<Page>, records: Seq<Seq<u8>>, whole: bool)
        requires
            self.wf(),
            self.holds_with(pages, records),
        ensures
            records.len() == 0 <==> self.outcome(pages, whole) is Empty,
            records.len() > 0 ==> self.outcome(pages, whole) is Found || self.outcome(
                pages,
                whole,
            ) is Missing,
    {
        self.lemma_order();
        lemma_laid_order(self.seen(pages), self.arena_size(), self.head(), self.tail(), records);
        lemma_slot(self.head(), self.arena_size());
    }

    /// The index holds the cursors: head arena, head offset, tail arena and tail offset,
    /// eight bytes each, least significant byte first.
    pub proof fn lemma_index_records_cursors(&self)
        requires
            self.wf(),
        ensures
            self.index_bytes() == self.cursors().encode(),
    {
        lemma_index_layout(self.cursors(), self.index_bytes());
    }

    /// Two queues on one index have the same cursors; where their images agree between
    /// head and tail, they hold the same records.
    pub proof fn lemma_reopened(&self, other: &BigQueue, records: Seq<Seq<u8>>)
        requires
            self.wf(),
            other.wf(),
            other.arena_size() == self.arena_size(),
            other.index_bytes() == self.index_bytes(),
        ensures
            other.head_aid() == self.head_aid(),
            other.head_offset() == self.head_offset(),
            other.tail_aid() == self.tail_aid(),
            other.tail_offset() == self.tail_offset(),
            self.holds(records) && agree(
                self.image(),
                other.image(),
                self.arena_size(),
                self.head(),
                self.tail(),
            ) ==> other.holds(records),
    {
        self.lemma_order();
        if self.holds(records) && agree(
            self.image(),
            other.image(),
            self.arena_size(),
            self.head(),
            self.tail(),
        ) {
            lemma_laid_local(
                self.image(),
                other.image(),
                self.arena_size(),
                self.head(),
                self.tail(),
                records,
            );
        }
    }

    /// A blank index and an arena of the configured size for the tail are enough to open
    /// a queue.
    pub proof fn lemma_blank_opens(
        index: Index,
        head: Option<Arena>,
        tail: Arena,
        conf: Config,
        r: Result<BigQueue, Error>,
    )
        requires
            conf.valid(),
            Self::opened(index, head, tail, conf, r),
            index.bytes() == blank(INDEX_FILE_SIZE as int),
            tail@.len() == conf.arena_size,
        ensures
            r is Ok,
    {
        lemma_blank_index(index.bytes());
    }

    /// A queue whose index is blank is empty: it holds no record, and every read finds
    /// it empty.
    pub proof fn lemma_blank_is_empty(&self, pages: Seq<Page>, whole: bool)
        requires
            self.wf(),
            forall|i: int| 0 <= i < 32 ==> self.index_bytes()[i] == 0,
        ensures
            self.head() == 0,
            self.tail() == 0,
            self.holds(Seq::empty()),
            self.outcome(pages, whole) is Empty,
    {
        lemma_blank_index(self.index_bytes());
        assert(0 * self.arena_size() == 0);
    }
}

} // verus!
