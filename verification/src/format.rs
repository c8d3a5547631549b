//! The binary layout: fixed sizes, integer fields in either byte order, the
//! key hash and the bucket count.
//!
//! ```text
//! header (16 bytes)   magic "GVDB" | version | byte order | 0 0 | root offset | root size
//! table               bucket count | item count | chain heads ... | items ...
//! item (28 bytes +)   hash | key offset | key size | kind | data offset | data size | next
//!                     followed by the key bytes and, for a value, the payload
//! ```
//!
//! Every offset counts from the start of the buffer. A chain head or a
//! `next` field of zero ends a chain.
use vstd::prelude::*;

verus! {

/// Size of the header at offset zero.
pub const HEADER_SIZE: usize = 16;

/// Size of the fixed part of an item record.
pub const RECORD_SIZE: usize = 28;

/// The only format version that is written and understood.
pub const VERSION: u8 = 1;

/// Byte-order marker of a little-endian database.
pub const ORDER_LITTLE: u8 = 0;

/// Byte-order marker of a big-endian database.
pub const ORDER_BIG: u8 = 1;

/// Discriminator of an item that holds a payload.
pub const KIND_VALUE: u32 = 0;

/// Discriminator of an item that holds a nested table.
pub const KIND_TABLE: u32 = 1;

/// The four magic bytes that open every database.
pub open spec fn magic() -> Seq<u8> {
    seq![0x47u8, 0x56u8, 0x44u8, 0x42u8]
}

/// The 32-bit field stored at `off`, read in the given byte order.
#[verifier::opaque]
pub open spec fn u32_at(buf: Seq<u8>, off: int, big: bool) -> int {
    if big {
        buf[off] * 16777216 + buf[off + 1] * 65536 + buf[off + 2] * 256 + buf[off + 3]
    } else {
        buf[off + 3] * 16777216 + buf[off + 2] * 65536 + buf[off + 1] * 256 + buf[off]
    }
}

/// The four bytes that store `v` in the given byte order.
pub open spec fn u32_bytes(v: int, big: bool) -> Seq<u8> {
    let b0 = (v % 256) as u8;
    let b1 = ((v / 256) % 256) as u8;
    let b2 = ((v / 65536) % 256) as u8;
    let b3 = ((v / 16777216) % 256) as u8;
    if big {
        seq![b3, b2, b1, b0]
    } else {
        seq![b0, b1, b2, b3]
    }
}

/// A field that was written is read back unchanged, wherever it lies.
pub proof fn lemma_u32_round_trip(pre: Seq<u8>, v: int, post: Seq<u8>, big: bool)
    requires
        0 <= v < 4294967296,
    ensures
        u32_bytes(v, big).len() == 4,
        u32_at(pre + u32_bytes(v, big) + post, pre.len() as int, big) == v,
{
    reveal(u32_at);
    let s = pre + u32_bytes(v, big) + post;
    let n = pre.len() as int;
    assert(s[n] == u32_bytes(v, big)[0]);
    assert(s[n + 1] == u32_bytes(v, big)[1]);
    assert(s[n + 2] == u32_bytes(v, big)[2]);
    assert(s[n + 3] == u32_bytes(v, big)[3]);
}

/// Reads the field at `off`.
pub(crate) fn read_u32(buf: &[u8], off: usize, big: bool) -> (v: u32)
    requires
        off + 4 <= buf@.len(),
    ensures
        v as int == u32_at(buf@, off as int, big),
{
    proof {
        reveal(u32_at);
    }
    let a: u32 = buf[off] as u32;
    let b: u32 = buf[off + 1] as u32;
    let c: u32 = buf[off + 2] as u32;
    let d: u32 = buf[off + 3] as u32;
    if big {
        a * 16777216 + b * 65536 + c * 256 + d
    } else {
        d * 16777216 + c * 65536 + b * 256 + a
    }
}

/// Appends `v` as a field in the given byte order.
pub(crate) fn put_u32(out: &mut Vec<u8>, v: u32, big: bool)
    ensures
        final(out)@ == old(out)@ + u32_bytes(v as int, big),
{
    let b0: u8 = (v % 256) as u8;
    let b1: u8 = ((v / 256) % 256) as u8;
    let b2: u8 = ((v / 65536) % 256) as u8;
    let b3: u8 = ((v / 16777216) % 256) as u8;
    if big {
        out.push(b3);
        out.push(b2);
        out.push(b1);
        out.push(b0);
    } else {
        out.push(b0);
        out.push(b1);
        out.push(b2);
        out.push(b3);
    }
    assert(out@ =~= old(out)@ + u32_bytes(v as int, big));
}

/// The hash of a key: Bernstein's string hash, started at 5381 and
/// multiplied by 33 per byte, in 32-bit wrapping arithmetic. It depends on
/// the key's bytes alone.
pub open spec fn key_hash(key: Seq<u8>) -> int
    decreases key.len(),
{
    if key.len() == 0 {
        5381
    } else {
        (key_hash(key.drop_last()) * 33 + key.last()) % 4294967296
    }
}

/// Computes [`key_hash`].
pub fn hash_key(key: &[u8]) -> (h: u32)
    ensures
        h as int == key_hash(key@),
{
    let mut h: u32 = 5381;
    let mut i: usize = 0;
    while i < key.len()
        invariant
            i <= key@.len(),
            h as int == key_hash(key@.take(i as int)),
        decreases key@.len() - i,
    {
        let wide: u64 = (h as u64) * 33 + (key[i] as u64);
        proof {
            assert(key@.take(i + 1).drop_last() =~= key@.take(i as int));
        }
        h = (wide % 4294967296) as u32;
        i += 1;
    }
    proof {
        assert(key@.take(i as int) =~= key@);
    }
    h
}

/// Number of buckets of a table with `items` items: one bucket per item,
/// and a single bucket for the empty table.
pub open spec fn buckets_for(items: int) -> int {
    if items <= 0 {
        1
    } else {
        items
    }
}

/// Computes [`buckets_for`].
pub fn bucket_count(items: usize) -> (n: usize)
    ensures
        n as int == buckets_for(items as int),
        n > 0,
{
    if items == 0 {
        1
    } else {
        items
    }
}

} // verus!
