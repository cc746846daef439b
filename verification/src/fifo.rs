//! First in, first out: what it means for records to lie in the row of bytes, and the
//! proofs that appending and reading keep their order.

use vstd::prelude::*;
use crate::stream::{
    byte_at, frame_end, frame_len, frame_payload, lemma_byte_after_put, lemma_frame_written,
    lemma_put_uniform, lemma_slot, next, put, put_frame, slot, stream, uniform, Image,
};
use vstd::bytes::spec_u64_to_le_bytes;

verus! {

/// The records `records` lie framed in the row, one after the other, from position
/// `head` to position `tail`.
pub open spec fn laid(image: Image, size: int, head: int, tail: int, records: Seq<Seq<u8>>) -> bool
    decreases records.len(),
{
    if records.len() == 0 {
        head == tail
    } else {
        &&& frame_end(image, size, head) <= tail
        &&& frame_payload(image, size, head) == records[0]
        &&& laid(image, size, frame_end(image, size, head), tail, records.skip(1))
    }
}

/// Two rows hold the same bytes from position `from` up to position `to`.
pub open spec fn agree(first: Image, second: Image, size: int, from: int, to: int) -> bool {
    forall|p: int| from <= p < to ==> #[trigger] byte_at(first, size, p) == byte_at(second, size, p)
}

/// The row and the tail after records with the given payloads have been appended, one
/// after the other, at `tail`.
pub open spec fn pushed(image: Image, size: int, tail: int, payloads: Seq<Seq<u8>>) -> (Image, int)
    decreases payloads.len(),
{
    if payloads.len() == 0 {
        (image, tail)
    } else {
        let before = pushed(image, size, tail, payloads.drop_last());
        (
            put_frame(before.0, size, before.1, payloads.last()),
            next(before.1, size, payloads.last().len() as int),
        )
    }
}

/// The payloads of the `n` records that are read one after the other from `head` on.
pub open spec fn popped(image: Image, size: int, head: int, n: nat) -> Seq<Seq<u8>>
    decreases n,
{
    if n == 0 {
        Seq::empty()
    } else {
        seq![frame_payload(image, size, head)] + popped(
            image,
            size,
            frame_end(image, size, head),
            (n - 1) as nat,
        )
    }
}

/// The head after `n` records have been read one after the other from `head` on.
pub open spec fn head_after(image: Image, size: int, head: int, n: nat) -> int
    decreases n,
{
    if n == 0 {
        head
    } else {
        head_after(image, size, frame_end(image, size, head), (n - 1) as nat)
    }
}

/// A record whose frame ends by `to` reads the same in two rows that agree up to `to`.
pub proof fn lemma_frame_local(first: Image, second: Image, size: int, head: int, to: int)
    requires
        size > 8,
        head >= 0,
        agree(first, second, size, head, to),
        frame_end(first, size, head) <= to,
    ensures
        frame_len(second, size, head) == frame_len(first, size, head),
        frame_payload(second, size, head) == frame_payload(first, size, head),
        frame_end(second, size, head) == frame_end(first, size, head),
{
    lemma_slot(head, size);
    let at = slot(head, size);
    assert(stream(first, size, at, 8) =~= stream(second, size, at, 8));
    let length = frame_len(first, size, head);
    assert(stream(first, size, at + 8, length) =~= stream(second, size, at + 8, length));
}

/// Records that lie in one row lie in every row that holds the same bytes between head
/// and tail.
pub proof fn lemma_laid_local(
    first: Image,
    second: Image,
    size: int,
    head: int,
    tail: int,
    records: Seq<Seq<u8>>,
)
    requires
        size > 8,
        head >= 0,
        laid(first, size, head, tail, records),
        agree(first, second, size, head, tail),
    ensures
        laid(second, size, head, tail, records),
    decreases records.len(),
{
    if records.len() > 0 {
        lemma_frame_local(first, second, size, head, tail);
        lemma_slot(head, size);
        lemma_laid_local(
            first,
            second,
            size,
            frame_end(first, size, head),
            tail,
            records.skip(1),
        );
    }
}

/// Records that lie in the row end where the row's tail is, which is not before the
/// head.
pub proof fn lemma_laid_order(image: Image, size: int, head: int, tail: int, records: Seq<Seq<u8>>)
    requires
        size > 8,
        head >= 0,
        laid(image, size, head, tail, records),
    ensures
        head <= tail,
        records.len() > 0 <==> head < tail,
        head_after(image, size, head, records.len()) == tail,
        popped(image, size, head, records.len()) == records,
    decreases records.len(),
{
    if records.len() > 0 {
        lemma_slot(head, size);
        lemma_laid_order(image, size, frame_end(image, size, head), tail, records.skip(1));
        assert(popped(image, size, head, records.len()) =~= records);
    } else {
        assert(popped(image, size, head, records.len()) =~= records);
    }
}

/// Framing a record at `tail` changes no byte before `tail`.
pub proof fn lemma_frame_keeps_before(image: Image, size: int, tail: int, payload: Seq<u8>)
    requires
        size > 8,
        tail >= 0,
        uniform(image, size),
    ensures
        forall|from: int| agree(image, put_frame(image, size, tail, payload), size, from, tail),
{
    let word = spec_u64_to_le_bytes(payload.len() as u64);
    let at = slot(tail, size);
    let mid = put(image, size, at, word);
    let after = put_frame(image, size, tail, payload);
    lemma_slot(tail, size);
    lemma_put_uniform(image, size, at, word);
    assert forall|p: int| p < tail implies #[trigger] byte_at(image, size, p) == byte_at(
        after,
        size,
        p,
    ) by {
        lemma_byte_after_put(image, size, at, word, p);
        lemma_byte_after_put(mid, size, at + 8, payload, p);
    }
}

/// First in, first out: a record framed at the tail comes after the records that lie
/// in the row already.
pub proof fn lemma_push_appends(
    image: Image,
    size: int,
    head: int,
    tail: int,
    records: Seq<Seq<u8>>,
    payload: Seq<u8>,
)
    requires
        size > 8,
        head >= 0,
        uniform(image, size),
        payload.len() <= u64::MAX,
        laid(image, size, head, tail, records),
    ensures
        laid(
            put_frame(image, size, tail, payload),
            size,
            head,
            next(tail, size, payload.len() as int),
            records.push(payload),
        ),
    decreases records.len(),
{
    let after = put_frame(image, size, tail, payload);
    let end = next(tail, size, payload.len() as int);
    lemma_laid_order(image, size, head, tail, records);
    lemma_slot(tail, size);
    if records.len() == 0 {
        lemma_frame_written(image, size, tail, payload);
        assert(records.push(payload).skip(1) =~= Seq::<Seq<u8>>::empty());
        assert(laid(after, size, end, end, records.push(payload).skip(1)));
    } else {
        lemma_frame_keeps_before(image, size, tail, payload);
        assert(agree(image, after, size, head, tail));
        lemma_frame_local(image, after, size, head, tail);
        lemma_slot(head, size);
        lemma_push_appends(
            image,
            size,
            frame_end(image, size, head),
            tail,
            records.skip(1),
            payload,
        );
        assert(records.push(payload).skip(1) =~= records.skip(1).push(payload));
    }
}

/// The records that lie between a head and a tail are determined by the row.
pub proof fn lemma_laid_unique(
    image: Image,
    size: int,
    head: int,
    tail: int,
    first: Seq<Seq<u8>>,
    second: Seq<Seq<u8>>,
)
    requires
        size > 8,
        head >= 0,
        laid(image, size, head, tail, first),
        laid(image, size, head, tail, second),
    ensures
        first == second,
{
    lemma_laid_order(image, size, head, tail, first);
    lemma_laid_order(image, size, head, tail, second);
    if first.len() != second.len() {
        lemma_popped_moves(image, size, head, first.len(), second.len());
    }
}

/// Every record read moves the head forward.
pub proof fn lemma_popped_moves(image: Image, size: int, head: int, n: nat, m: nat)
    requires
        size > 8,
        head >= 0,
    ensures
        head_after(image, size, head, n) >= head,
        n < m ==> head_after(image, size, head, n) < head_after(image, size, head, m),
        m < n ==> head_after(image, size, head, m) < head_after(image, size, head, n),
    decreases n + m,
{
    lemma_slot(head, size);
    let onward = frame_end(image, size, head);
    if n > 0 && m > 0 {
        lemma_popped_moves(image, size, onward, (n - 1) as nat, (m - 1) as nat);
    } else if n > 0 {
        lemma_popped_moves(image, size, onward, (n - 1) as nat, 0);
    } else if m > 0 {
        lemma_popped_moves(image, size, onward, 0, (m - 1) as nat);
    }
}

/// Appending records one after the other keeps the records that lie in the row and
/// lays the new ones behind them, in the order in which they were appended.
pub proof fn lemma_pushes_append(
    image: Image,
    size: int,
    head: int,
    tail: int,
    records: Seq<Seq<u8>>,
    payloads: Seq<Seq<u8>>,
)
    requires
        size > 8,
        head >= 0,
        uniform(image, size),
        forall|i: int| 0 <= i < payloads.len() ==> (#[trigger] payloads[i]).len() <= u64::MAX,
        laid(image, size, head, tail, records),
    ensures
        uniform(pushed(image, size, tail, payloads).0, size),
        laid(
            pushed(image, size, tail, payloads).0,
            size,
            head,
            pushed(image, size, tail, payloads).1,
            records + payloads,
        ),
    decreases payloads.len(),
{
    if payloads.len() == 0 {
        assert(records + payloads =~= records);
    } else {
        let earlier = payloads.drop_last();
        lemma_pushes_append(image, size, head, tail, records, earlier);
        let before = pushed(image, size, tail, earlier);
        lemma_laid_order(image, size, head, tail, records);
        lemma_laid_order(before.0, size, head, before.1, records + earlier);
        lemma_push_appends(before.0, size, head, before.1, records + earlier, payloads.last());
        lemma_frame_written(before.0, size, before.1, payloads.last());
        assert((records + earlier).push(payloads.last()) =~= records + payloads);
    }
}

/// Round trip: after records with the payloads `payloads` have been appended to an
/// empty queue, as many reads return these payloads, in this order, and leave the queue
/// empty.
pub proof fn theorem_round_trip(image: Image, size: int, at: int, payloads: Seq<Seq<u8>>)
    requires
        size > 8,
        at >= 0,
        uniform(image, size),
        forall|i: int| 0 <= i < payloads.len() ==> (#[trigger] payloads[i]).len() <= u64::MAX,
    ensures
        popped(pushed(image, size, at, payloads).0, size, at, payloads.len()) == payloads,
        head_after(pushed(image, size, at, payloads).0, size, at, payloads.len()) == pushed(
            image,
            size,
            at,
            payloads,
        ).1,
{
    let none = Seq::<Seq<u8>>::empty();
    assert(laid(image, size, at, at, none));
    lemma_pushes_append(image, size, at, at, none, payloads);
    assert(none + payloads =~= payloads);
    let after = pushed(image, size, at, payloads);
    lemma_laid_order(after.0, size, at, after.1, payloads);
}

/// A record appended at `tail` moves the tail by the payload's length, the eight bytes
/// of the length word and fewer than eight bytes that are skipped so that the word is
/// not split.
pub proof fn lemma_push_advance(tail: int, size: int, len: int)
    requires
        size > 8,
        tail >= 0,
    ensures
        tail + len + 8 <= next(tail, size, len) < tail + len + 16,
{
    lemma_slot(tail, size);
}

/// The bytes that the frames of the given payloads take, skipped bytes not counted.
pub open spec fn framed(payloads: Seq<Seq<u8>>) -> int
    decreases payloads.len(),
{
    if payloads.len() == 0 {
        0
    } else {
        framed(payloads.drop_last()) + payloads.last().len() + 8
    }
}

/// Records appended one after the other move the tail by the bytes of their frames and
/// by at most seven skipped bytes for each.
pub proof fn lemma_pushes_advance(image: Image, size: int, tail: int, payloads: Seq<Seq<u8>>)
    requires
        size > 8,
        tail >= 0,
    ensures
        framed(payloads) >= 0,
        tail + framed(payloads) <= pushed(image, size, tail, payloads).1 <= tail + framed(payloads)
            + 7 * payloads.len(),
    decreases payloads.len(),
{
    if payloads.len() > 0 {
        lemma_pushes_advance(image, size, tail, payloads.drop_last());
        let before = pushed(image, size, tail, payloads.drop_last());
        lemma_push_advance(before.1, size, payloads.last().len() as int);
    }
}

} // verus!
