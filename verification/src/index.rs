//! The index: 32 bytes that record the queue's two cursors.

use vstd::prelude::*;
use vstd::bytes::{lemma_auto_spec_u64_to_from_le_bytes, spec_u64_to_le_bytes};
use crate::arena::Arena;
use crate::codec::{overwrite, word_at};
use crate::error::Error;

verus! {

/// Name of the file that holds the index.
pub const INDEX_FILE: &'static str = "index.dat";

/// Bytes in the index: four words of eight bytes.
pub const INDEX_FILE_SIZE: usize = 32;

/// The four words of the index: where the next record is read and where the next one
/// is written.
pub struct IndexView {
    pub head_aid: u64,
    pub head_offset: u64,
    pub tail_aid: u64,
    pub tail_offset: u64,
}

impl IndexView {
    /// The index file's bytes: the four words little-endian, head pair first.
    pub open spec fn encode(self) -> Seq<u8> {
        spec_u64_to_le_bytes(self.head_aid) + spec_u64_to_le_bytes(self.head_offset)
            + spec_u64_to_le_bytes(self.tail_aid) + spec_u64_to_le_bytes(self.tail_offset)
    }

    /// The words found in the first 32 bytes of `bytes`.
    pub open spec fn decode(bytes: Seq<u8>) -> IndexView {
        IndexView {
            head_aid: word_at(bytes, 0),
            head_offset: word_at(bytes, 8),
            tail_aid: word_at(bytes, 16),
            tail_offset: word_at(bytes, 24),
        }
    }
}

/// Decoding undoes encoding, and a 32-byte index is the encoding of what it decodes to.
pub proof fn lemma_index_layout(v: IndexView, bytes: Seq<u8>)
    ensures
        v.encode().len() == 32,
        IndexView::decode(v.encode()) == v,
        bytes.len() == 32 ==> IndexView::decode(bytes).encode() == bytes,
{
    lemma_auto_spec_u64_to_from_le_bytes();
    let e = v.encode();
    assert(e.subrange(0, 8) =~= spec_u64_to_le_bytes(v.head_aid));
    assert(e.subrange(8, 16) =~= spec_u64_to_le_bytes(v.head_offset));
    assert(e.subrange(16, 24) =~= spec_u64_to_le_bytes(v.tail_aid));
    assert(e.subrange(24, 32) =~= spec_u64_to_le_bytes(v.tail_offset));
    if bytes.len() == 32 {
        let d = IndexView::decode(bytes);
        assert(spec_u64_to_le_bytes(d.head_aid) == bytes.subrange(0, 8));
        assert(spec_u64_to_le_bytes(d.head_offset) == bytes.subrange(8, 16));
        assert(spec_u64_to_le_bytes(d.tail_aid) == bytes.subrange(16, 24));
        assert(spec_u64_to_le_bytes(d.tail_offset) == bytes.subrange(24, 32));
        assert(d.encode() =~= bytes);
    }
}

/// An index of zeros holds four zero words.
pub proof fn lemma_blank_index(bytes: Seq<u8>)
    requires
        bytes.len() >= 32,
        forall|i: int| 0 <= i < 32 ==> bytes[i] == 0,
    ensures
        IndexView::decode(bytes) == (IndexView {
            head_aid: 0,
            head_offset: 0,
            tail_aid: 0,
            tail_offset: 0,
        }),
{
    lemma_auto_spec_u64_to_from_le_bytes();
    vstd::bytes::spec_u64_to_le_bytes_to_open(0);
    let zero = spec_u64_to_le_bytes(0);
    assert(0u64 & 0xff == 0 && (0u64 >> 8) & 0xff == 0 && (0u64 >> 16) & 0xff == 0 && (0u64 >> 24)
        & 0xff == 0 && (0u64 >> 32) & 0xff == 0 && (0u64 >> 40) & 0xff == 0 && (0u64 >> 48) & 0xff
        == 0 && (0u64 >> 56) & 0xff == 0) by (bit_vector);
    assert(bytes.subrange(0, 8) =~= zero);
    assert(bytes.subrange(8, 16) =~= zero);
    assert(bytes.subrange(16, 24) =~= zero);
    assert(bytes.subrange(24, 32) =~= zero);
}

/// Writing a word into a slot changes that word and no other.
pub proof fn lemma_overwrite_word(bytes: Seq<u8>, slot: int, v: u64, other: int)
    requires
        0 <= slot,
        slot + 8 <= bytes.len(),
        0 <= other,
        other + 8 <= bytes.len(),
    ensures
        word_at(overwrite(bytes, slot, spec_u64_to_le_bytes(v)), slot) == v,
        other + 8 <= slot || slot + 8 <= other ==> word_at(
            overwrite(bytes, slot, spec_u64_to_le_bytes(v)),
            other,
        ) == word_at(bytes, other),
{
    lemma_auto_spec_u64_to_from_le_bytes();
    let after = overwrite(bytes, slot, spec_u64_to_le_bytes(v));
    assert(after.subrange(slot, slot + 8) =~= spec_u64_to_le_bytes(v));
    if other + 8 <= slot || slot + 8 <= other {
        assert(after.subrange(other, other + 8) =~= bytes.subrange(other, other + 8));
    }
}

/// The queue's cursors, kept in an arena of their own.
pub struct Index {
    arena: Arena,
}

impl Index {
    /// The bytes of the index.
    pub closed spec fn bytes(&self) -> Seq<u8> {
        self.arena@
    }

    /// The four words that the index holds.
    pub open spec fn view(&self) -> IndexView {
        IndexView::decode(self.bytes())
    }

    /// Takes an arena as the index.
    pub fn new(arena: Arena) -> (index: Index)
        ensures
            index.bytes() == arena@,
    {
        Index { arena }
    }

    /// The bytes of the index as a slice.
    pub fn as_slice(&self) -> (bytes: &[u8])
        ensures
            bytes@ == self.bytes(),
    {
        self.arena.as_slice()
    }

    /// Number of bytes in the index.
    pub fn len(&self) -> (n: usize)
        ensures
            n == self.bytes().len(),
    {
        self.arena.len()
    }

    /// The two words of the head pair as they are stored, or `None` when the index is
    /// too short to hold them.
    pub fn head_words(&self) -> (r: Option<(u64, u64)>)
        ensures
            match r {
                Some(pair) => self.bytes().len() >= 16 && pair.0 == self@.head_aid && pair.1
                    == self@.head_offset,
                None => self.bytes().len() < 16,
            },
    {
        let aid = match self.arena.read_u64_at_windows(0) {
            Some(v) => v,
            None => { return None; },
        };
        let offset = match self.arena.read_u64_at_windows(1) {
            Some(v) => v,
            None => { return None; },
        };
        Some((aid, offset))
    }

    /// The two words of the tail pair as they are stored, or `None` when the index is
    /// too short to hold them.
    pub fn tail_words(&self) -> (r: Option<(u64, u64)>)
        ensures
            match r {
                Some(pair) => self.bytes().len() >= 32 && pair.0 == self@.tail_aid && pair.1
                    == self@.tail_offset,
                None => self.bytes().len() < 32,
            },
    {
        let aid = match self.arena.read_u64_at_windows(2) {
            Some(v) => v,
            None => { return None; },
        };
        let offset = match self.arena.read_u64_at_windows(3) {
            Some(v) => v,
            None => { return None; },
        };
        Some((aid, offset))
    }

    /// The head pair, or `None` when the index is too short to hold it.
    pub fn get_head_tuple(&self) -> (r: Option<(usize, usize)>)
        ensures
            match r {
                Some(pair) => self.bytes().len() >= 16 && pair.0 == self@.head_aid as usize
                    && pair.1 == self@.head_offset as usize,
                None => self.bytes().len() < 16,
            },
    {
        match self.head_words() {
            Some((aid, offset)) => Some((aid as usize, offset as usize)),
            None => None,
        }
    }

    /// The tail pair, or `None` when the index is too short to hold it.
    pub fn get_tail_tuple(&self) -> (r: Option<(usize, usize)>)
        ensures
            match r {
                Some(pair) => self.bytes().len() >= 32 && pair.0 == self@.tail_aid as usize
                    && pair.1 == self@.tail_offset as usize,
                None => self.bytes().len() < 32,
            },
    {
        match self.tail_words() {
            Some((aid, offset)) => Some((aid as usize, offset as usize)),
            None => None,
        }
    }

    /// Stores the head pair in the first two words. Fails with `Write` when a word does
    /// not fit; a word that fits before one that does not is still written.
    pub fn set_head(&mut self, aid: usize, offset: usize) -> (r: Result<(), Error>)
        ensures
            match r {
                Ok(_) => old(self).bytes().len() >= 16 && final(self).bytes() == overwrite(
                    overwrite(old(self).bytes(), 0, spec_u64_to_le_bytes(aid as u64)),
                    8,
                    spec_u64_to_le_bytes(offset as u64),
                ),
                Err(e) => e is Write && old(self).bytes().len() < 16 && final(self).bytes() == (
                if old(self).bytes().len() >= 8 {
                    overwrite(old(self).bytes(), 0, spec_u64_to_le_bytes(aid as u64))
                } else {
                    old(self).bytes()
                }),
            },
            r is Ok ==> final(self)@.head_aid == aid && final(self)@.head_offset == offset,
            old(self).bytes().len() >= 32 ==> final(self)@.tail_aid == old(self)@.tail_aid
                && final(self)@.tail_offset == old(self)@.tail_offset,
    {
        let ghost before = self.arena@;
        self.arena.write_u64_at_windows(0, aid as u64)?;
        let ghost mid = self.arena@;
        self.arena.write_u64_at_windows(1, offset as u64)?;
        proof {
            lemma_overwrite_word(before, 0, aid as u64, 0);
            lemma_overwrite_word(mid, 8, offset as u64, 0);
            if before.len() >= 32 {
                lemma_overwrite_word(before, 0, aid as u64, 16);
                lemma_overwrite_word(before, 0, aid as u64, 24);
                lemma_overwrite_word(mid, 8, offset as u64, 16);
                lemma_overwrite_word(mid, 8, offset as u64, 24);
            }
        }
        Ok(())
    }

    /// Stores the tail pair in the last two words. Fails with `Write` when a word does
    /// not fit; a word that fits before one that does not is still written.
    pub fn set_tail(&mut self, aid: usize, offset: usize) -> (r: Result<(), Error>)
        ensures
            match r {
                Ok(_) => old(self).bytes().len() >= 32 && final(self).bytes() == overwrite(
                    overwrite(old(self).bytes(), 16, spec_u64_to_le_bytes(aid as u64)),
                    24,
                    spec_u64_to_le_bytes(offset as u64),
                ),
                Err(e) => e is Write && old(self).bytes().len() < 32 && final(self).bytes() == (
                if old(self).bytes().len() >= 24 {
                    overwrite(old(self).bytes(), 16, spec_u64_to_le_bytes(aid as u64))
                } else {
                    old(self).bytes()
                }),
            },
            r is Ok ==> final(self)@.tail_aid == aid && final(self)@.tail_offset == offset,
            old(self).bytes().len() >= 32 ==> final(self)@.head_aid == old(self)@.head_aid
                && final(self)@.head_offset == old(self)@.head_offset,
    {
        let ghost before = self.arena@;
        self.arena.write_u64_at_windows(2, aid as u64)?;
        let ghost mid = self.arena@;
        self.arena.write_u64_at_windows(3, offset as u64)?;
        proof {
            lemma_overwrite_word(before, 16, aid as u64, 0);
            lemma_overwrite_word(before, 16, aid as u64, 8);
            lemma_overwrite_word(before, 16, aid as u64, 24);
            lemma_overwrite_word(mid, 24, offset as u64, 0);
            lemma_overwrite_word(mid, 24, offset as u64, 8);
            lemma_overwrite_word(mid, 24, offset as u64, 16);
        }
        Ok(())
    }
}

} // verus!
