//! Arenas: the fixed-size memory maps that hold the queue's bytes.
//!
//! An arena is made from a map that the caller has created. Whoever maps a file has
//! promised `memmap` that nothing else changes the file while it is mapped; the claims
//! made here of a map's bytes rest on that promise.

use vstd::prelude::*;
use vstd::bytes::spec_u64_to_le_bytes;
use memmap::MmapMut;
use crate::codec::{overwrite, read_bytes, read_u64, word_at, write_bytes, write_u64};
use crate::error::Error;
use crate::names::{decimal, push_decimal};
use vstd::string::StringExecFns;

verus! {

/// A writable memory map of the `memmap` crate.
#[verifier::external_type_specification]
#[verifier::external_body]
pub struct ExMmapMut(MmapMut);

/// The bytes that a memory map covers, first to last: the slice it dereferences to. As
/// with any slice, they change only through an exclusive reference to the map.
pub uninterp spec fn mapped_bytes(m: MmapMut) -> Seq<u8>;

/// `Deref` of `memmap::MmapMut` hands out the mapped memory as a byte slice.
pub assume_specification[ <MmapMut as core::ops::Deref>::deref ](m: &MmapMut) -> (s: &[u8])
    ensures
        s@ == mapped_bytes(*m),
;

/// `DerefMut` of `memmap::MmapMut` hands out the mapped memory as a mutable byte slice:
/// what is written through the slice is what the map holds afterwards.
pub assume_specification[ <MmapMut as core::ops::DerefMut>::deref_mut ](m: &mut MmapMut) -> (s:
    &mut [u8])
    ensures
        s@ == mapped_bytes(*old(m)),
        final(s)@ == mapped_bytes(*final(m)),
;

/// `memmap::MmapMut::flush` asks the system to write the map back to its file. It takes
/// the map by shared reference; nothing is promised of its outcome.
pub assume_specification[ MmapMut::flush ](m: &MmapMut) -> (r: Result<(), std::io::Error>)
;

/// The bytes in decimal, with a comma and a blank between one and the next.
pub open spec fn listed(bytes: Seq<u8>) -> Seq<char>
    decreases bytes.len(),
{
    if bytes.len() == 0 {
        Seq::empty()
    } else if bytes.len() == 1 {
        decimal(bytes[0] as nat)
    } else {
        listed(bytes.drop_last()) + ", "@ + decimal(bytes.last() as nat)
    }
}

/// One fixed-size segment of the queue's byte stream, held as a memory map.
pub struct Arena {
    mmap: MmapMut,
}

impl Arena {
    /// The bytes of the arena.
    pub closed spec fn view(&self) -> Seq<u8> {
        mapped_bytes(self.mmap)
    }

    /// Wraps a memory map.
    pub fn new(mmap: MmapMut) -> (a: Arena)
        ensures
            a@ == mapped_bytes(mmap),
    {
        Arena { mmap }
    }

    /// Gives the memory map back.
    pub fn into_inner(self) -> (mmap: MmapMut)
        ensures
            mapped_bytes(mmap) == self@,
    {
        self.mmap
    }

    /// The bytes of the arena as a slice.
    pub fn as_slice(&self) -> (bytes: &[u8])
        ensures
            bytes@ == self@,
    {
        &self.mmap
    }

    /// Number of bytes in the arena.
    pub fn len(&self) -> (n: usize)
        ensures
            n == self@.len(),
    {
        self.mmap.len()
    }

    /// The little-endian word at `offsize`, or `None` when it leaves the arena.
    pub fn read_u64_at(&self, offsize: usize) -> (r: Option<u64>)
        ensures
            match r {
                Some(v) => offsize + 8 <= self@.len() && v == word_at(self@, offsize as int),
                None => offsize + 8 > self@.len(),
            },
    {
        read_u64(&self.mmap, offsize)
    }

    /// The word in the `win`-th eight-byte slot.
    pub fn read_u64_at_windows(&self, win: usize) -> (r: Option<u64>)
        ensures
            match r {
                Some(v) => win * 8 + 8 <= self@.len() && v == word_at(self@, win * 8),
                None => win * 8 + 8 > self@.len(),
            },
    {
        let total = self.len();
        if win > total / 8 {
            return None;
        }
        self.read_u64_at(win * 8)
    }

    /// The `length` bytes from `offsize` on, or `None` when the range leaves the arena.
    pub fn read_bytes_at(&self, offsize: usize, length: usize) -> (r: Option<Vec<u8>>)
        ensures
            match r {
                Some(b) => offsize + length <= self@.len() && b@ == self@.subrange(
                    offsize as int,
                    offsize + length,
                ),
                None => offsize + length > self@.len(),
            },
    {
        read_bytes(&self.mmap, offsize, length as u64)
    }

    /// Stores `v` little-endian at `offsize`, or fails with `Write` when it does not fit.
    pub fn write_u64_at(&mut self, offsize: usize, v: u64) -> (r: Result<(), Error>)
        ensures
            match r {
                Ok(_) => offsize + 8 <= old(self)@.len() && final(self)@ == overwrite(
                    old(self)@,
                    offsize as int,
                    spec_u64_to_le_bytes(v),
                ),
                Err(e) => e is Write && offsize + 8 > old(self)@.len() && final(self)@ == old(
                    self,
                )@,
            },
    {
        write_u64(&mut self.mmap, offsize, v)
    }

    /// Copies `bytes` to `offsize`, or fails with `Write` when they do not fit.
    pub fn write_bytes_at(&mut self, offsize: usize, bytes: &[u8]) -> (r: Result<(), Error>)
        ensures
            match r {
                Ok(_) => offsize + bytes@.len() <= old(self)@.len() && final(self)@ == overwrite(
                    old(self)@,
                    offsize as int,
                    bytes@,
                ),
                Err(e) => e is Write && offsize + bytes@.len() > old(self)@.len() && final(self)@
                    == old(self)@,
            },
    {
        write_bytes(&mut self.mmap, offsize, bytes)
    }

    /// Stores `v` in the `win`-th eight-byte slot.
    pub fn write_u64_at_windows(&mut self, win: usize, v: u64) -> (r: Result<(), Error>)
        ensures
            match r {
                Ok(_) => win * 8 + 8 <= old(self)@.len() && final(self)@ == overwrite(
                    old(self)@,
                    win * 8,
                    spec_u64_to_le_bytes(v),
                ),
                Err(e) => e is Write && win * 8 + 8 > old(self)@.len() && final(self)@ == old(
                    self,
                )@,
            },
    {
        let total = self.len();
        if win > total / 8 {
            return Err(Error::Write);
        }
        self.write_u64_at(win * 8, v)
    }

    /// The bytes of the arena as text: in decimal, between square brackets.
    pub fn to_string(&self) -> (text: String)
        ensures
            text@ == "["@ + listed(self@) + "]"@,
    {
        let bytes = self.as_slice();
        let mut text = String::from_str("[");
        let mut i: usize = 0;
        assert(bytes@.subrange(0, 0) =~= Seq::<u8>::empty());
        assert(text@ =~= "["@ + listed(bytes@.subrange(0, 0)));
        while i < bytes.len()
            invariant
                i <= bytes@.len(),
                text@ == "["@ + listed(bytes@.subrange(0, i as int)),
            decreases bytes@.len() - i,
        {
            let ghost shorter = bytes@.subrange(0, i as int);
            let ghost longer = bytes@.subrange(0, i + 1);
            proof {
                assert(longer.drop_last() =~= shorter);
                assert(longer.last() == bytes@[i as int]);
            }
            if i > 0 {
                text.append(", ");
            }
            push_decimal(&mut text, bytes[i] as usize);
            assert(text@ =~= "["@ + listed(longer));
            i = i + 1;
        }
        assert(bytes@.subrange(0, i as int) =~= bytes@);
        text.append("]");
        text
    }

    /// Asks for the arena to be written back to its file. A failure is not reported.
    pub fn flush(&mut self) -> (r: Result<(), Error>)
        ensures
            r is Ok,
            final(self)@ == old(self)@,
    {
        match self.mmap.flush() {
            Ok(v) => v,
            Err(_) => (),
        }
        Ok(())
    }
}

} // verus!
