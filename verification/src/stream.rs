//! The arenas seen as one row of bytes, and the layout of records in it.

use vstd::prelude::*;
use vstd::arithmetic::div_mod::{lemma_fundamental_div_mod, lemma_fundamental_div_mod_converse, lemma_mod_bound};
use vstd::arithmetic::mul::lemma_mul_is_commutative;
use vstd::bytes::{spec_u64_from_le_bytes, spec_u64_to_le_bytes, lemma_auto_spec_u64_to_from_le_bytes};
use crate::codec::overwrite;

verus! {

/// The arenas of a queue as one row of bytes: arena `aid` holds the bytes at the
/// positions `aid * size .. (aid + 1) * size`.
pub type Image = Map<int, Seq<u8>>;

/// Every arena is there and holds `size` bytes.
pub open spec fn uniform(image: Image, size: int) -> bool {
    forall|aid: int|
        #![trigger image.dom().contains(aid)]
        #![trigger image[aid]]
        image.dom().contains(aid) && image[aid].len() == size
}

/// The position in the row of byte `offset` of arena `aid`.
pub open spec fn pos(aid: int, offset: int, size: int) -> int {
    aid * size + offset
}

/// The byte at position `p`.
pub open spec fn byte_at(image: Image, size: int, p: int) -> u8 {
    image[p / size][p % size]
}

/// The `n` bytes from position `p` on.
pub open spec fn stream(image: Image, size: int, p: int, n: int) -> Seq<u8> {
    Seq::new(n as nat, |i: int| byte_at(image, size, p + i))
}

/// Arena `aid` after `data` has been laid over the row from position `p` on.
pub open spec fn lay(bytes: Seq<u8>, size: int, aid: int, p: int, data: Seq<u8>) -> Seq<u8> {
    Seq::new(
        bytes.len(),
        |j: int|
            if p <= aid * size + j < p + data.len() {
                data[aid * size + j - p]
            } else {
                bytes[j]
            },
    )
}

/// The row after `data` has been laid over it from position `p` on.
pub open spec fn put(image: Image, size: int, p: int, data: Seq<u8>) -> Image {
    Map::new(|aid: int| true, |aid: int| lay(image[aid], size, aid, p, data))
}

/// Where the length word of a record that is appended at `p` starts: at `p`, unless
/// fewer than eight bytes are left in the arena, in which case the word starts the next
/// arena.
pub open spec fn slot(p: int, size: int) -> int {
    if size - p % size < 8 {
        (p / size + 1) * size
    } else {
        p
    }
}

/// Where the payload of a record that is appended at `p` starts.
pub open spec fn body(p: int, size: int) -> int {
    slot(p, size) + 8
}

/// Where the next record starts after one of `len` payload bytes appended at `p`.
pub open spec fn next(p: int, size: int, len: int) -> int {
    body(p, size) + len
}

/// The length word of the record framed at `p`.
pub open spec fn frame_len(image: Image, size: int, p: int) -> int {
    spec_u64_from_le_bytes(stream(image, size, slot(p, size), 8)) as int
}

/// The payload of the record framed at `p`.
pub open spec fn frame_payload(image: Image, size: int, p: int) -> Seq<u8> {
    stream(image, size, body(p, size), frame_len(image, size, p))
}

/// Where the record framed at `p` ends.
pub open spec fn frame_end(image: Image, size: int, p: int) -> int {
    next(p, size, frame_len(image, size, p))
}

/// The row after a record with the given payload has been framed at `p`.
pub open spec fn put_frame(image: Image, size: int, p: int, payload: Seq<u8>) -> Image {
    put(
        put(image, size, slot(p, size), spec_u64_to_le_bytes(payload.len() as u64)),
        size,
        body(p, size),
        payload,
    )
}

/// A position splits into arena and offset.
pub proof fn lemma_split(p: int, size: int)
    requires
        size > 0,
    ensures
        p == pos(p / size, p % size, size),
        0 <= p % size < size,
        p >= 0 ==> p / size >= 0,
{
    lemma_fundamental_div_mod(p, size);
    lemma_mod_bound(p, size);
    lemma_mul_is_commutative(size, p / size);
    if p >= 0 && p / size < 0 {
        assert((p / size) * size <= -1 * size) by (nonlinear_arith)
            requires
                p / size <= -1,
                size > 0,
        ;
    }
}

/// Arena and offset make one position.
pub proof fn lemma_locate(aid: int, offset: int, size: int)
    requires
        size > 0,
        0 <= offset < size,
    ensures
        pos(aid, offset, size) / size == aid,
        pos(aid, offset, size) % size == offset,
{
    lemma_fundamental_div_mod_converse(pos(aid, offset, size), size, aid, offset);
}

/// Laying data over the row changes the bytes it covers and no others.
pub proof fn lemma_byte_after_put(image: Image, size: int, p: int, data: Seq<u8>, q: int)
    requires
        size > 0,
        uniform(image, size),
    ensures
        byte_at(put(image, size, p, data), size, q) == if p <= q < p + data.len() {
            data[q - p]
        } else {
            byte_at(image, size, q)
        },
{
    lemma_split(q, size);
    assert(image[q / size].len() == size);
}

/// Laying data over the row keeps every arena at its size.
pub proof fn lemma_put_uniform(image: Image, size: int, p: int, data: Seq<u8>)
    requires
        uniform(image, size),
    ensures
        uniform(put(image, size, p, data), size),
{
    let after = put(image, size, p, data);
    assert forall|aid: int|
        #![trigger after.dom().contains(aid)]
        #![trigger after[aid]]
        after.dom().contains(aid) && after[aid].len() == size by {
        assert(image[aid].len() == size);
    }
}

/// A run of the row that lies within one arena is a run of that arena.
pub proof fn lemma_stream_in_arena(image: Image, size: int, aid: int, offset: int, n: int)
    requires
        size > 0,
        0 <= offset,
        0 <= n,
        offset + n <= size,
        image[aid].len() == size,
    ensures
        stream(image, size, pos(aid, offset, size), n) == image[aid].subrange(offset, offset + n),
{
    let s = stream(image, size, pos(aid, offset, size), n);
    let t = image[aid].subrange(offset, offset + n);
    assert forall|i: int| 0 <= i < n implies s[i] == t[i] by {
        lemma_locate(aid, offset + i, size);
    }
    assert(s =~= t);
}

/// Laying data over a run within one arena changes that arena alone.
pub proof fn lemma_put_in_arena(image: Image, size: int, aid: int, offset: int, data: Seq<u8>)
    requires
        size > 0,
        0 <= offset,
        offset + data.len() <= size,
        uniform(image, size),
    ensures
        put(image, size, pos(aid, offset, size), data) == image.insert(
            aid,
            overwrite(image[aid], offset, data),
        ),
{
    let p = pos(aid, offset, size);
    let a = put(image, size, p, data);
    let b = image.insert(aid, overwrite(image[aid], offset, data));
    assert forall|k: int| #[trigger] a[k] == b[k] by {
        assert(image.dom().contains(k) && image[k].len() == size);
        if k == aid {
            assert(a[k] =~= b[k]);
        } else {
            if k < aid {
                assert(k * size + size <= aid * size) by (nonlinear_arith)
                    requires
                        k + 1 <= aid,
                        size > 0,
                ;
            } else {
                assert(aid * size + size <= k * size) by (nonlinear_arith)
                    requires
                        aid + 1 <= k,
                        size > 0,
                ;
            }
            assert(a[k] =~= image[k]);
        }
    }
    assert(forall|k: int| a.dom().contains(k) <==> b.dom().contains(k)) by {
        assert forall|k: int| a.dom().contains(k) <==> b.dom().contains(k) by {
            assert(image.dom().contains(k));
        }
    }
    assert(a =~= b);
}

/// Laying nothing over the row leaves it as it is.
pub proof fn lemma_put_nothing(image: Image, size: int, p: int)
    requires
        uniform(image, size),
    ensures
        put(image, size, p, Seq::<u8>::empty()) == image,
{
    let after = put(image, size, p, Seq::<u8>::empty());
    assert forall|k: int| #[trigger] after[k] == image[k] by {
        assert(after[k] =~= image[k]);
    }
    assert forall|k: int| after.dom().contains(k) <==> image.dom().contains(k) by {
        assert(image.dom().contains(k));
    }
    assert(after =~= image);
}

/// A run read in two parts.
pub proof fn lemma_stream_join(image: Image, size: int, p: int, n: int, m: int)
    requires
        0 <= n,
        0 <= m,
    ensures
        stream(image, size, p, n + m) == stream(image, size, p, n) + stream(image, size, p + n, m),
{
    assert(stream(image, size, p, n + m) =~= stream(image, size, p, n) + stream(
        image,
        size,
        p + n,
        m,
    ));
}

/// Data laid over the row in two parts.
pub proof fn lemma_put_join(image: Image, size: int, p: int, first: Seq<u8>, second: Seq<u8>)
    ensures
        put(put(image, size, p, first), size, p + first.len(), second) == put(
            image,
            size,
            p,
            first + second,
        ),
{
    let a = put(put(image, size, p, first), size, p + first.len(), second);
    let b = put(image, size, p, first + second);
    assert forall|k: int| #[trigger] a[k] == b[k] by {
        assert(a[k] =~= b[k]);
    }
    assert(a =~= b);
}

/// Data that was laid over the row is read back, and a run that it does not touch reads
/// as before.
pub proof fn lemma_stream_after_put(image: Image, size: int, p: int, data: Seq<u8>, q: int, n: int)
    requires
        size > 0,
        0 <= n,
        uniform(image, size),
    ensures
        q == p && n == data.len() ==> stream(put(image, size, p, data), size, q, n) == data,
        q + n <= p || p + data.len() <= q ==> stream(put(image, size, p, data), size, q, n)
            == stream(image, size, q, n),
{
    let after = put(image, size, p, data);
    let got = stream(after, size, q, n);
    assert forall|i: int| 0 <= i < n implies #[trigger] got[i] == if p <= q + i < p + data.len() {
        data[q + i - p]
    } else {
        byte_at(image, size, q + i)
    } by {
        lemma_byte_after_put(image, size, p, data, q + i);
    }
    if q == p && n == data.len() {
        assert(stream(after, size, q, n) =~= data);
    }
    if q + n <= p || p + data.len() <= q {
        assert(stream(after, size, q, n) =~= stream(image, size, q, n));
    }
}

/// The length word of a record lies within one arena, at or after the place where the
/// record was appended, and less than an arena further on.
pub proof fn lemma_slot(p: int, size: int)
    requires
        size > 8,
        p >= 0,
    ensures
        p <= slot(p, size) < p + 8,
        slot(p, size) % size + 8 <= size,
        slot(p, size) / size == if size - p % size < 8 {
            p / size + 1
        } else {
            p / size
        },
        slot(p, size) % size == if size - p % size < 8 {
            0
        } else {
            p % size
        },
{
    lemma_split(p, size);
    if size - p % size < 8 {
        lemma_locate(p / size + 1, 0, size);
        assert((p / size + 1) * size == (p / size) * size + size) by (nonlinear_arith);
    }
}

/// A record that was framed at `p` is found there: its length, its payload and its end.
pub proof fn lemma_frame_written(image: Image, size: int, p: int, payload: Seq<u8>)
    requires
        size > 8,
        p >= 0,
        uniform(image, size),
        payload.len() <= u64::MAX,
    ensures
        frame_len(put_frame(image, size, p, payload), size, p) == payload.len(),
        frame_payload(put_frame(image, size, p, payload), size, p) == payload,
        frame_end(put_frame(image, size, p, payload), size, p) == next(p, size, payload.len() as int),
        uniform(put_frame(image, size, p, payload), size),
{
    lemma_auto_spec_u64_to_from_le_bytes();
    let word = spec_u64_to_le_bytes(payload.len() as u64);
    let s = slot(p, size);
    let mid = put(image, size, s, word);
    let after = put(mid, size, s + 8, payload);
    lemma_put_uniform(image, size, s, word);
    lemma_put_uniform(mid, size, s + 8, payload);
    lemma_stream_after_put(image, size, s, word, s, 8);
    lemma_stream_after_put(mid, size, s + 8, payload, s, 8);
    lemma_stream_after_put(mid, size, s + 8, payload, s + 8, payload.len() as int);
}

/// The length word of a record is never split: it lies whole in one arena, the one of
/// `p` or, where fewer than eight bytes are left there, at the start of the next.
pub proof fn lemma_word_not_split(image: Image, size: int, p: int, payload: Seq<u8>)
    requires
        size > 8,
        p >= 0,
        uniform(image, size),
    ensures
        ({
            let at = slot(p, size);
            let after = put_frame(image, size, p, payload);
            &&& at % size + 8 <= size
            &&& size - p % size < 8 ==> at / size == p / size + 1 && at % size == 0
            &&& size - p % size >= 8 ==> at == p
            &&& after[at / size].subrange(at % size, at % size + 8) == spec_u64_to_le_bytes(
                payload.len() as u64,
            )
        }),
{
    lemma_auto_spec_u64_to_from_le_bytes();
    let at = slot(p, size);
    let word = spec_u64_to_le_bytes(payload.len() as u64);
    let mid = put(image, size, at, word);
    let after = put(mid, size, at + 8, payload);
    lemma_slot(p, size);
    lemma_split(at, size);
    lemma_put_uniform(image, size, at, word);
    lemma_put_uniform(mid, size, at + 8, payload);
    lemma_stream_after_put(image, size, at, word, at, 8);
    lemma_stream_after_put(mid, size, at + 8, payload, at, 8);
    lemma_stream_in_arena(after, size, at / size, at % size, 8);
}

} // verus!
