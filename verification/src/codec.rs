//! Little-endian words and runs of bytes, written to and read from a region of bytes.

use vstd::prelude::*;
use vstd::bytes::{spec_u64_from_le_bytes, spec_u64_to_le_bytes, lemma_auto_spec_u64_to_from_le_bytes};
use byteorder::{ByteOrder, LittleEndian};
use crate::error::Error;

verus! {

/// `region` with the bytes from `offset` on replaced by `data`.
pub open spec fn overwrite(region: Seq<u8>, offset: int, data: Seq<u8>) -> Seq<u8> {
    Seq::new(
        region.len(),
        |i: int| if offset <= i < offset + data.len() { data[i - offset] } else { region[i] },
    )
}

/// The word stored little-endian in the eight bytes of `region` that start at `offset`.
pub open spec fn word_at(region: Seq<u8>, offset: int) -> u64 {
    spec_u64_from_le_bytes(region.subrange(offset, offset + 8))
}

/// `slice::copy_from_slice` overwrites the destination with the source, element by
/// element; it panics unless both have the same length.
pub assume_specification<T>[ <[T]>::copy_from_slice ](dst: &mut [T], src: &[T]) where T: Copy
    requires
        old(dst)@.len() == src@.len(),
    ensures
        final(dst)@ == src@,
;

/// `byteorder::LittleEndian::write_u64` on a fresh eight-byte buffer: the bytes of `x`,
/// least significant first.
#[verifier::external_body]
pub(crate) fn transform_u64_to_array_of_u8(x: u64) -> (bytes: [u8; 8])
    ensures
        bytes@ == spec_u64_to_le_bytes(x),
{
    let mut bytes: [u8; 8] = [0; 8];
    LittleEndian::write_u64(&mut bytes, x);
    bytes
}

/// `byteorder::LittleEndian::read_u64`: the word whose little-endian bytes are the first
/// eight of `x`. It panics on a shorter slice.
#[verifier::external_body]
pub(crate) fn transform_array_of_u8_to_u64(x: &[u8]) -> (v: u64)
    requires
        x@.len() >= 8,
    ensures
        v == spec_u64_from_le_bytes(x@.subrange(0, 8)),
{
    LittleEndian::read_u64(x)
}

/// Copies `v` into `region` at `offset`, or fails with `Write` when it does not fit.
pub fn write_bytes(region: &mut [u8], offset: usize, v: &[u8]) -> (r: Result<(), Error>)
    ensures
        match r {
            Ok(_) => offset + v@.len() <= old(region)@.len() && final(region)@ == overwrite(
                old(region)@,
                offset as int,
                v@,
            ),
            Err(e) => e is Write && offset + v@.len() > old(region)@.len() && final(region)@
                == old(region)@,
        },
{
    let total = region.len();
    let n = v.len();
    if offset > total || n > total - offset {
        return Err(Error::Write);
    }
    let ghost before = region@;
    let (_, tail) = region.split_at_mut(offset);
    let (area, _) = tail.split_at_mut(n);
    area.copy_from_slice(v);
    assert(region@ =~= overwrite(before, offset as int, v@));
    Ok(())
}

/// Stores `v` little-endian in the eight bytes of `region` at `offset`, or fails with
/// `Write` when they do not fit.
pub fn write_u64(region: &mut [u8], offset: usize, v: u64) -> (r: Result<(), Error>)
    ensures
        match r {
            Ok(_) => offset + 8 <= old(region)@.len() && final(region)@ == overwrite(
                old(region)@,
                offset as int,
                spec_u64_to_le_bytes(v),
            ),
            Err(e) => e is Write && offset + 8 > old(region)@.len() && final(region)@ == old(
                region,
            )@,
        },
{
    proof {
        lemma_auto_spec_u64_to_from_le_bytes();
    }
    let bytes = transform_u64_to_array_of_u8(v);
    write_bytes(region, offset, bytes.as_slice())
}

/// The `length` bytes of `region` from `offset` on, or `None` when the range leaves it.
pub fn read_bytes(region: &[u8], offset: usize, length: u64) -> (r: Option<Vec<u8>>)
    ensures
        match r {
            Some(b) => offset + length <= region@.len() && b@ == region@.subrange(
                offset as int,
                offset + length,
            ),
            None => offset + length > region@.len(),
        },
{
    let total = region.len();
    if offset > total || length > (total - offset) as u64 {
        return None;
    }
    let slice = vstd::slice::slice_subrange(region, offset, offset + length as usize);
    Some(vstd::slice::slice_to_vec(slice))
}

/// The little-endian word in the eight bytes of `region` at `offset`, or `None` when
/// they leave it.
pub fn read_u64(region: &[u8], offset: usize) -> (r: Option<u64>)
    ensures
        match r {
            Some(v) => offset + 8 <= region@.len() && v == word_at(region@, offset as int),
            None => offset + 8 > region@.len(),
        },
{
    let total = region.len();
    if total < 8 || offset > total - 8 {
        return None;
    }
    let slice = vstd::slice::slice_subrange(region, offset, offset + 8);
    assert(slice@.subrange(0, 8) =~= region@.subrange(offset as int, offset + 8));
    Some(transform_array_of_u8_to_u64(slice))
}

} // verus!
