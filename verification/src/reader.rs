//! Reading a database in place: the header, exact-key lookup along a bucket
//! chain, name enumeration and the structural walk over untrusted bytes.
//!
//! Every function here is total on arbitrary bytes. Each offset is checked
//! against the buffer before it is followed, and a chain may only move
//! forward, so that no walk can loop. What the trusted mode leaves out is
//! the walk over the whole structure when a database is opened.
use std::collections::HashSet;
use vstd::prelude::*;
use vstd::slice::slice_subrange;
use crate::format::{
    hash_key, key_hash, magic, read_u32, u32_at, HEADER_SIZE, KIND_TABLE, ORDER_BIG, RECORD_SIZE,
    VERSION,
};

verus! {

broadcast use vstd::std_specs::hash::group_hash_axioms;

/// Why a buffer was refused or a lookup gave nothing.
#[derive(Clone, Copy, Debug, PartialEq, Eq, Structural)]
pub enum ReadError {
    /// The buffer does not start with the magic bytes.
    BadMagic,
    /// The version byte is not one that this reader understands.
    UnsupportedVersion,
    /// An offset or a size leaves the buffer, a chain moves backward, or a
    /// field holds a value that the format does not allow.
    CorruptStructure,
    /// The table has no item under the key.
    NotFound,
    /// The item under the key holds the other kind of content.
    WrongKind,
}

/// The region of the buffer that holds one table: its offset from the
/// start of the buffer and its size in bytes. A table handle is checked
/// against the buffer whenever it is used, so any value may be passed.
#[derive(Clone, Copy, Debug, PartialEq, Eq, Structural)]
pub struct Table {
    pub offset: u32,
    pub size: u32,
}

/// What a chain walk finds under a key.
pub enum Lookup {
    /// A payload at the given region.
    Value { offset: int, size: int },
    /// A nested table at the given region.
    Nested { offset: int, size: int },
    /// No item under the key.
    Missing,
    /// The walk met a record or a table that breaks the format.
    Corrupt,
}

/// The hash field of the record at `rec`.
pub open spec fn rec_hash(buf: Seq<u8>, big: bool, rec: int) -> int {
    u32_at(buf, rec, big)
}

/// The offset of the key of the record at `rec`.
pub open spec fn rec_key_off(buf: Seq<u8>, big: bool, rec: int) -> int {
    u32_at(buf, rec + 4, big)
}

/// The length of the key of the record at `rec`.
pub open spec fn rec_key_len(buf: Seq<u8>, big: bool, rec: int) -> int {
    u32_at(buf, rec + 8, big)
}

/// The discriminator of the record at `rec`: zero for a payload, one for
/// a nested table.
pub open spec fn rec_kind(buf: Seq<u8>, big: bool, rec: int) -> int {
    u32_at(buf, rec + 12, big)
}

/// The offset of the payload or nested table of the record at `rec`.
pub open spec fn rec_data_off(buf: Seq<u8>, big: bool, rec: int) -> int {
    u32_at(buf, rec + 16, big)
}

/// The size of the payload or nested table of the record at `rec`.
pub open spec fn rec_data_len(buf: Seq<u8>, big: bool, rec: int) -> int {
    u32_at(buf, rec + 20, big)
}

/// The offset of the next record of the chain, or zero at its end.
pub open spec fn rec_next(buf: Seq<u8>, big: bool, rec: int) -> int {
    u32_at(buf, rec + 24, big)
}

/// The key bytes that the record at `rec` points to.
pub open spec fn rec_key(buf: Seq<u8>, big: bool, rec: int) -> Seq<u8> {
    buf.subrange(rec_key_off(buf, big, rec), rec_key_off(buf, big, rec) + rec_key_len(buf, big, rec))
}

/// The record at `rec` can be read: it lies behind the header and inside
/// the buffer, so do its key and its data, its kind is known, and its chain
/// ends or moves forward to a record inside the buffer.
pub open spec fn record_ok(buf: Seq<u8>, big: bool, rec: int) -> bool {
    &&& 16 <= rec
    &&& rec + 28 <= buf.len()
    &&& rec_key_off(buf, big, rec) + rec_key_len(buf, big, rec) <= buf.len()
    &&& rec_kind(buf, big, rec) <= 1
    &&& rec_data_off(buf, big, rec) + rec_data_len(buf, big, rec) <= buf.len()
    &&& (rec_next(buf, big, rec) == 0 || (rec < rec_next(buf, big, rec) && rec_next(buf, big, rec)
        + 28 <= buf.len()))
}

/// Number of buckets of the table at `toff`.
pub open spec fn table_buckets(buf: Seq<u8>, big: bool, toff: int) -> int {
    u32_at(buf, toff, big)
}

/// Number of items that the table at `toff` declares.
pub open spec fn table_items(buf: Seq<u8>, big: bool, toff: int) -> int {
    u32_at(buf, toff + 4, big)
}

/// Head of the chain of bucket `b` of the table at `toff`.
pub open spec fn table_head(buf: Seq<u8>, big: bool, toff: int, b: int) -> int {
    u32_at(buf, toff + 8 + 4 * b, big)
}

/// The table region can be read: it lies behind the header and inside the
/// buffer, and holds at least one bucket and all its chain heads.
pub open spec fn table_ok(buf: Seq<u8>, big: bool, toff: int, tsize: int) -> bool {
    &&& 16 <= toff
    &&& toff + tsize <= buf.len()
    &&& tsize >= 8
    &&& table_buckets(buf, big, toff) >= 1
    &&& 8 + 4 * table_buckets(buf, big, toff) <= tsize
}

/// The content of the record at `rec`, which is readable.
pub open spec fn rec_content(buf: Seq<u8>, big: bool, rec: int) -> Lookup {
    if rec_kind(buf, big, rec) == 0 {
        Lookup::Value { offset: rec_data_off(buf, big, rec), size: rec_data_len(buf, big, rec) }
    } else {
        Lookup::Nested { offset: rec_data_off(buf, big, rec), size: rec_data_len(buf, big, rec) }
    }
}

/// Walks the chain that starts at `rec` and stops at the first record whose
/// hash and key bytes are those asked for.
pub open spec fn chain_lookup(buf: Seq<u8>, big: bool, rec: int, hash: int, key: Seq<u8>) -> Lookup
    decreases buf.len() - rec,
{
    if rec == 0 {
        Lookup::Missing
    } else if !record_ok(buf, big, rec) {
        Lookup::Corrupt
    } else if rec_hash(buf, big, rec) == hash && rec_key(buf, big, rec) == key {
        rec_content(buf, big, rec)
    } else if rec_next(buf, big, rec) == 0 {
        Lookup::Missing
    } else {
        chain_lookup(buf, big, rec_next(buf, big, rec), hash, key)
    }
}

/// Looks `key` up in the table at `toff`: hashes it, picks the bucket and
/// walks that bucket's chain.
pub open spec fn table_lookup(buf: Seq<u8>, big: bool, toff: int, tsize: int, key: Seq<u8>) -> Lookup {
    if !table_ok(buf, big, toff, tsize) {
        Lookup::Corrupt
    } else {
        let b = key_hash(key) % table_buckets(buf, big, toff);
        chain_lookup(buf, big, table_head(buf, big, toff, b), key_hash(key), key)
    }
}

/// `acc` in front of what follows, where that could be read.
pub open spec fn prepend(acc: Seq<Seq<u8>>, rest: Option<Seq<Seq<u8>>>) -> Option<Seq<Seq<u8>>> {
    match rest {
        Some(r) => Some(acc + r),
        None => None,
    }
}

/// The keys along the chain that starts at `rec`, or `None` where a record
/// of it cannot be read.
pub open spec fn chain_names(buf: Seq<u8>, big: bool, rec: int) -> Option<Seq<Seq<u8>>>
    decreases buf.len() - rec,
{
    if rec == 0 {
        Some(Seq::empty())
    } else if !record_ok(buf, big, rec) {
        None
    } else if rec_next(buf, big, rec) == 0 {
        Some(seq![rec_key(buf, big, rec)])
    } else {
        prepend(seq![rec_key(buf, big, rec)], chain_names(buf, big, rec_next(buf, big, rec)))
    }
}

/// The keys of the buckets from `b` on, bucket by bucket.
pub open spec fn bucket_names(buf: Seq<u8>, big: bool, toff: int, b: int) -> Option<Seq<Seq<u8>>>
    decreases table_buckets(buf, big, toff) - b,
{
    if b >= table_buckets(buf, big, toff) {
        Some(Seq::empty())
    } else {
        match chain_names(buf, big, table_head(buf, big, toff, b)) {
            Some(names) => prepend(names, bucket_names(buf, big, toff, b + 1)),
            None => None,
        }
    }
}

/// The direct keys of the table at `toff`, or `None` where the table or a
/// record of it cannot be read.
pub open spec fn table_names(buf: Seq<u8>, big: bool, toff: int, tsize: int) -> Option<Seq<Seq<u8>>> {
    if !table_ok(buf, big, toff, tsize) {
        None
    } else {
        bucket_names(buf, big, toff, 0)
    }
}

/// The chain from `rec` on is sound: each record is readable and lies among
/// the items of its table, the region `lo..hi`, and each nested table lies
/// behind the record that points to it and is sound itself.
pub open spec fn valid_chain(buf: Seq<u8>, big: bool, lo: int, hi: int, rec: int) -> bool
    decreases buf.len() - rec, 0int, 0int,
{
    rec == 0 || {
        &&& record_ok(buf, big, rec)
        &&& lo <= rec
        &&& rec + 28 <= hi
        &&& (rec_kind(buf, big, rec) == 1 ==> rec < rec_data_off(buf, big, rec) <= buf.len()
            && valid_table(
            buf,
            big,
            rec_data_off(buf, big, rec),
            rec_data_len(buf, big, rec),
        ))
        &&& (rec_next(buf, big, rec) != 0 ==> valid_chain(buf, big, lo, hi, rec_next(buf, big, rec)))
    }
}

/// The chains of the buckets from `b` on are sound.
pub open spec fn valid_buckets(buf: Seq<u8>, big: bool, toff: int, tsize: int, b: int) -> bool
    decreases buf.len() - toff, 1int, table_buckets(buf, big, toff) - b,
{
    !table_ok(buf, big, toff, tsize) || b < 0 || b >= table_buckets(buf, big, toff) || {
        &&& (table_head(buf, big, toff, b) != 0 ==> toff < table_head(buf, big, toff, b)
            <= buf.len() && valid_chain(
            buf,
            big,
            toff + 8 + 4 * table_buckets(buf, big, toff),
            toff + tsize,
            table_head(buf, big, toff, b),
        ))
        &&& valid_buckets(buf, big, toff, tsize, b + 1)
    }
}

/// The table at `toff` is sound, with everything that can be reached from
/// it. This is what the walk over untrusted bytes decides.
pub open spec fn valid_table(buf: Seq<u8>, big: bool, toff: int, tsize: int) -> bool
    decreases buf.len() - toff, 2int, 0int,
{
    table_ok(buf, big, toff, tsize) && valid_buckets(buf, big, toff, tsize, 0)
}

/// The byte order that the header declares.
pub open spec fn header_big(buf: Seq<u8>) -> bool {
    buf[5] == 1
}

/// The root table that the header points to.
pub open spec fn header_root(buf: Seq<u8>) -> Table {
    Table {
        offset: u32_at(buf, 8, header_big(buf)) as u32,
        size: u32_at(buf, 12, header_big(buf)) as u32,
    }
}

/// Why the header is refused, if it is.
pub open spec fn header_error(buf: Seq<u8>) -> Option<ReadError> {
    if buf.len() < 4 || buf.subrange(0, 4) != magic() {
        Some(ReadError::BadMagic)
    } else if buf.len() < 16 {
        Some(ReadError::CorruptStructure)
    } else if buf[4] != 1 {
        Some(ReadError::UnsupportedVersion)
    } else if buf[5] > 1 {
        Some(ReadError::CorruptStructure)
    } else {
        None
    }
}

/// Why a buffer is refused in the given mode, if it is: for its header, or,
/// where it is not trusted, because the walk from its root finds a fault.
pub open spec fn open_error(buf: Seq<u8>, trusted: bool) -> Option<ReadError> {
    if header_error(buf) is Some {
        header_error(buf)
    } else if !trusted && !valid_table(
        buf,
        header_big(buf),
        header_root(buf).offset as int,
        header_root(buf).size as int,
    ) {
        Some(ReadError::CorruptStructure)
    } else {
        None
    }
}

/// The fields of one item record.
struct Record {
    hash: u32,
    key_off: u32,
    key_len: u32,
    kind: u32,
    data_off: u32,
    data_len: u32,
    next: u32,
}

/// Reads the record at `rec`, if it can be read.
fn read_record(buf: &[u8], big: bool, rec: u32) -> (r: Option<Record>)
    ensures
        r is Some <==> record_ok(buf@, big, rec as int),
        r matches Some(x) ==> {
            &&& x.hash == rec_hash(buf@, big, rec as int)
            &&& x.key_off == rec_key_off(buf@, big, rec as int)
            &&& x.key_len == rec_key_len(buf@, big, rec as int)
            &&& x.kind == rec_kind(buf@, big, rec as int)
            &&& x.data_off == rec_data_off(buf@, big, rec as int)
            &&& x.data_len == rec_data_len(buf@, big, rec as int)
            &&& x.next == rec_next(buf@, big, rec as int)
        },
{
    let len: u64 = buf.len() as u64;
    if (rec as u64) < HEADER_SIZE as u64 || rec as u64 + RECORD_SIZE as u64 > len {
        return None;
    }
    let at: usize = rec as usize;
    let x = Record {
        hash: read_u32(buf, at, big),
        key_off: read_u32(buf, at + 4, big),
        key_len: read_u32(buf, at + 8, big),
        kind: read_u32(buf, at + 12, big),
        data_off: read_u32(buf, at + 16, big),
        data_len: read_u32(buf, at + 20, big),
        next: read_u32(buf, at + 24, big),
    };
    if x.key_off as u64 + x.key_len as u64 > len || x.kind > KIND_TABLE || x.data_off as u64
        + x.data_len as u64 > len || (x.next != 0 && (x.next <= rec || x.next as u64
        + RECORD_SIZE as u64 > len)) {
        return None;
    }
    Some(x)
}

/// Reads the bucket count of a table, if the table region can be read.
fn read_buckets(buf: &[u8], big: bool, table: Table) -> (r: Option<u32>)
    ensures
        r is Some <==> table_ok(buf@, big, table.offset as int, table.size as int),
        r matches Some(n) ==> n == table_buckets(buf@, big, table.offset as int),
{
    let len: u64 = buf.len() as u64;
    if (table.offset as u64) < HEADER_SIZE as u64 || table.offset as u64 + table.size as u64 > len
        || table.size < 8 {
        return None;
    }
    let n: u32 = read_u32(buf, table.offset as usize, big);
    if n < 1 || 8 + 4 * (n as u64) > table.size as u64 {
        return None;
    }
    Some(n)
}

/// Reads the chain head of bucket `b` of a readable table.
fn read_head(buf: &[u8], big: bool, table: Table, b: u32) -> (r: u32)
    requires
        table_ok(buf@, big, table.offset as int, table.size as int),
        b < table_buckets(buf@, big, table.offset as int),
    ensures
        r == table_head(buf@, big, table.offset as int, b as int),
{
    let len: usize = buf.len();
    read_u32(buf, table.offset as usize + 8 + 4 * (b as usize), big)
}

/// Tells whether the region of `len` bytes at `off` holds exactly `key`.
fn region_is(buf: &[u8], off: u32, len: u32, key: &[u8]) -> (r: bool)
    requires
        off + len <= buf@.len(),
    ensures
        r == (buf@.subrange(off as int, off + len) == key@),
{
    let total: usize = buf.len();
    if key.len() != len as usize {
        return false;
    }
    let mut i: usize = 0;
    while i < key.len()
        invariant
            i <= key@.len(),
            key@.len() == len,
            off + len <= buf@.len(),
            total == buf@.len(),
            forall|j: int| 0 <= j < i ==> buf@[off + j] == key@[j],
        decreases key@.len() - i,
    {
        if buf[off as usize + i] != key[i] {
            assert(buf@.subrange(off as int, off + len)[i as int] != key@[i as int]);
            return false;
        }
        i += 1;
    }
    assert(buf@.subrange(off as int, off + len) =~= key@);
    true
}

/// What a lookup found, in machine integers.
enum Found {
    Value(u32, u32),
    Nested(u32, u32),
    Missing,
    Corrupt,
}

impl Found {
    spec fn model(self) -> Lookup {
        match self {
            Found::Value(o, s) => Lookup::Value { offset: o as int, size: s as int },
            Found::Nested(o, s) => Lookup::Nested { offset: o as int, size: s as int },
            Found::Missing => Lookup::Missing,
            Found::Corrupt => Lookup::Corrupt,
        }
    }
}

/// Looks `key` up in `table`.
fn find(buf: &[u8], big: bool, table: Table, key: &[u8]) -> (r: Found)
    ensures
        r.model() == table_lookup(buf@, big, table.offset as int, table.size as int, key@),
        r matches Found::Value(o, s) ==> o + s <= buf@.len(),
        r matches Found::Nested(o, s) ==> o + s <= buf@.len(),
{
    let buckets: u32 = match read_buckets(buf, big, table) {
        Some(n) => n,
        None => {
            return Found::Corrupt;
        },
    };
    let hash: u32 = hash_key(key);
    let mut rec: u32 = read_head(buf, big, table, hash % buckets);
    let ghost goal = table_lookup(buf@, big, table.offset as int, table.size as int, key@);
    while rec != 0
        invariant
            hash as int == key_hash(key@),
            goal == table_lookup(buf@, big, table.offset as int, table.size as int, key@),
            goal == chain_lookup(buf@, big, rec as int, hash as int, key@),
        decreases buf@.len() - rec,
    {
        let x: Record = match read_record(buf, big, rec) {
            Some(x) => x,
            None => {
                return Found::Corrupt;
            },
        };
        if x.hash == hash && region_is(buf, x.key_off, x.key_len, key) {
            if x.kind == KIND_TABLE {
                return Found::Nested(x.data_off, x.data_len);
            }
            return Found::Value(x.data_off, x.data_len);
        }
        if x.next == 0 {
            return Found::Missing;
        }
        rec = x.next;
    }
    Found::Missing
}

/// The views of the keys in `names`.
pub open spec fn key_views(names: Seq<Vec<u8>>) -> Seq<Seq<u8>> {
    Seq::new(names.len(), |i: int| names[i]@)
}

/// Copies the region of `len` bytes at `off`.
fn copy_region(buf: &[u8], off: u32, len: u32) -> (r: Vec<u8>)
    requires
        off + len <= buf@.len(),
    ensures
        r@ == buf@.subrange(off as int, off + len),
{
    let total: usize = buf.len();
    let mut r: Vec<u8> = Vec::new();
    let mut i: usize = 0;
    while i < len as usize
        invariant
            i <= len,
            off + len <= buf@.len(),
            total == buf@.len(),
            r@ == buf@.subrange(off as int, off + i),
        decreases len - i,
    {
        r.push(buf[off as usize + i]);
        assert(r@ =~= buf@.subrange(off as int, off + i + 1));
        i += 1;
    }
    r
}

/// Collects the direct keys of `table`, bucket by bucket.
#[verifier::rlimit(50)]
fn names_of(buf: &[u8], big: bool, table: Table) -> (r: Option<Vec<Vec<u8>>>)
    ensures
        r is Some <==> table_names(buf@, big, table.offset as int, table.size as int) is Some,
        r matches Some(v) ==> Some(key_views(v@)) == table_names(
            buf@,
            big,
            table.offset as int,
            table.size as int,
        ),
{
    let buckets: u32 = match read_buckets(buf, big, table) {
        Some(n) => n,
        None => {
            return None;
        },
    };
    let ghost toff: int = table.offset as int;
    let ghost all = table_names(buf@, big, toff, table.size as int);
    let mut names: Vec<Vec<u8>> = Vec::new();
    let mut b: u32 = 0;
    proof {
        lemma_prepend_empty(bucket_names(buf@, big, toff, 0));
        assert(key_views(names@) =~= Seq::<Seq<u8>>::empty());
    }
    while b < buckets
        invariant
            b <= buckets,
            toff == table.offset as int,
            table_ok(buf@, big, toff, table.size as int),
            buckets == table_buckets(buf@, big, toff),
            all == table_names(buf@, big, toff, table.size as int),
            all == prepend(key_views(names@), bucket_names(buf@, big, toff, b as int)),
        decreases buckets - b,
    {
        let mut rec: u32 = read_head(buf, big, table, b);
        let ghost after = bucket_names(buf@, big, toff, b + 1);
        while rec != 0
            invariant
                toff == table.offset as int,
                all == table_names(buf@, big, toff, table.size as int),
                all == prepend(
                    key_views(names@),
                    prepend_opt(chain_names(buf@, big, rec as int), after),
                ),
            decreases
                    (if rec == 0 {
                        0
                    } else {
                        buf@.len() - rec + 1
                    }),
        {
            let x: Record = match read_record(buf, big, rec) {
                Some(x) => x,
                None => {
                    return None;
                },
            };
            let key: Vec<u8> = copy_region(buf, x.key_off, x.key_len);
            let ghost before = key_views(names@);
            names.push(key);
            proof {
                let k = rec_key(buf@, big, rec as int);
                assert(key_views(names@) =~= before + seq![k]);
                let rest = chain_names(buf@, big, x.next as int);
                assert(chain_names(buf@, big, rec as int) == prepend(seq![k], rest)) by {
                    if x.next == 0 {
                        assert(seq![k] + Seq::<Seq<u8>>::empty() =~= seq![k]);
                    }
                }
                lemma_prepend_chain(before, k, rest, after);
            }
            rec = x.next;
        }
        proof {
            lemma_prepend_empty(after);
        }
        b += 1;
    }
    proof {
        assert(key_views(names@) + Seq::<Seq<u8>>::empty() =~= key_views(names@));
    }
    Some(names)
}

/// `first` in front of `second`, where both could be read.
pub open spec fn prepend_opt(first: Option<Seq<Seq<u8>>>, second: Option<Seq<Seq<u8>>>) -> Option<
    Seq<Seq<u8>>,
> {
    match first {
        Some(f) => prepend(f, second),
        None => None,
    }
}

proof fn lemma_prepend_empty(rest: Option<Seq<Seq<u8>>>)
    ensures
        prepend(Seq::empty(), rest) == rest,
        prepend_opt(Some(Seq::empty()), rest) == rest,
{
    if rest is Some {
        assert(Seq::<Seq<u8>>::empty() + rest.unwrap() =~= rest.unwrap());
    }
}

proof fn lemma_prepend_chain(
    acc: Seq<Seq<u8>>,
    key: Seq<u8>,
    rest: Option<Seq<Seq<u8>>>,
    after: Option<Seq<Seq<u8>>>,
)
    ensures
        prepend(acc, prepend_opt(prepend(seq![key], rest), after)) == prepend(
            acc + seq![key],
            prepend_opt(rest, after),
        ),
{
    if rest is Some && after is Some {
        assert(acc + ((seq![key] + rest.unwrap()) + after.unwrap()) =~= (acc + seq![key]) + (
        rest.unwrap() + after.unwrap()));
    }
}

/// The number under which the walk remembers a table region.
pub open spec fn region_key(offset: u32, size: u32) -> u64 {
    (offset * 4294967296 + size) as u64
}

/// Every table region that the walk remembers is sound.
pub open spec fn all_sound(buf: Seq<u8>, big: bool, seen: Set<u64>) -> bool {
    forall|offset: u32, size: u32|
        seen.contains(#[trigger] region_key(offset, size)) ==> valid_table(
            buf,
            big,
            offset as int,
            size as int,
        )
}

/// Computes [`region_key`].
fn key_of(table: Table) -> (k: u64)
    ensures
        k == region_key(table.offset, table.size),
{
    (table.offset as u64) * 4294967296 + table.size as u64
}

/// Walks the table at `table` and everything below it, and tells whether
/// it is sound. A nested table that was found sound is remembered in
/// `seen` and not walked again, however many items point to it.
#[verifier::rlimit(50)]
fn check_table(buf: &[u8], big: bool, table: Table, seen: &mut HashSet<u64>) -> (r: bool)
    requires
        all_sound(buf@, big, old(seen)@),
    ensures
        r == valid_table(buf@, big, table.offset as int, table.size as int),
        all_sound(buf@, big, final(seen)@),
    decreases buf@.len() - table.offset,
{
    let buckets: u32 = match read_buckets(buf, big, table) {
        Some(n) => n,
        None => {
            return false;
        },
    };
    let ghost toff: int = table.offset as int;
    let ghost tsize: int = table.size as int;
    let ghost goal = valid_table(buf@, big, toff, tsize);
    let len: u64 = buf.len() as u64;
    let lo: u64 = table.offset as u64 + 8 + 4 * (buckets as u64);
    let hi: u64 = table.offset as u64 + table.size as u64;
    let mut b: u32 = 0;
    while b < buckets
        invariant
            b <= buckets,
            toff == table.offset as int,
            tsize == table.size as int,
            table_ok(buf@, big, toff, tsize),
            buckets == table_buckets(buf@, big, toff),
            len == buf@.len(),
            lo == toff + 8 + 4 * buckets,
            hi == toff + tsize,
            all_sound(buf@, big, seen@),
            goal == valid_table(buf@, big, toff, tsize),
            goal == valid_buckets(buf@, big, toff, tsize, b as int),
        decreases buckets - b,
    {
        let mut rec: u32 = read_head(buf, big, table, b);
        if rec != 0 && (rec <= table.offset || rec as u64 > len) {
            return false;
        }
        let ghost after = valid_buckets(buf@, big, toff, tsize, b + 1);
        while rec != 0
            invariant
                toff == table.offset as int,
                lo == toff + 8 + 4 * buckets,
                hi == toff + tsize,
                rec != 0 ==> toff < rec <= buf@.len(),
                tsize == table.size as int,
                all_sound(buf@, big, seen@),
                goal == valid_table(buf@, big, toff, tsize),
                goal == (valid_chain(buf@, big, lo as int, hi as int, rec as int) && after),
            decreases
                    (if rec == 0 {
                        0
                    } else {
                        buf@.len() - rec + 1
                    }),
        {
            let x: Record = match read_record(buf, big, rec) {
                Some(x) => x,
                None => {
                    return false;
                },
            };
            if (rec as u64) < lo || rec as u64 + 28 > hi {
                return false;
            }
            if x.kind == KIND_TABLE {
                if x.data_off <= rec {
                    return false;
                }
                let nested = Table { offset: x.data_off, size: x.data_len };
                let key: u64 = key_of(nested);
                if !seen.contains(&key) {
                    if !check_table(buf, big, nested, seen) {
                        return false;
                    }
                    let ghost before = seen@;
                    seen.insert(key);
                    assert forall|offset: u32, size: u32|
                        seen@.contains(#[trigger] region_key(offset, size)) implies valid_table(
                        buf@,
                        big,
                        offset as int,
                        size as int,
                    ) by {
                        if region_key(offset, size) == key {
                            assert(offset == nested.offset && size == nested.size);
                        } else {
                            assert(before.contains(region_key(offset, size)));
                        }
                    }
                }
            }
            rec = x.next;
        }
        b += 1;
    }
    true
}

/// Walks the whole structure below `table` with nothing remembered yet.
fn check_from(buf: &[u8], big: bool, table: Table) -> (r: bool)
    ensures
        r == valid_table(buf@, big, table.offset as int, table.size as int),
{
    let mut seen: HashSet<u64> = HashSet::new();
    check_table(buf, big, table, &mut seen)
}

/// A database opened over a buffer that it borrows. Nothing is copied or
/// decoded when it is opened; every lookup reads the buffer in place.
///
/// The mode in which it was opened decides one thing: an untrusted buffer
/// is walked as a whole before it is accepted, a trusted one is not. The
/// lookups themselves check each offset that they follow in either mode,
/// and report [`ReadError::CorruptStructure`] instead of leaving the
/// buffer.
pub struct Database<'a> {
    buf: &'a [u8],
    big: bool,
    root: Table,
    trusted: bool,
}

impl<'a> Database<'a> {
    /// The bytes of the database.
    pub closed spec fn bytes(&self) -> Seq<u8> {
        self.buf@
    }

    /// Whether its integer fields are big-endian.
    pub closed spec fn big_endian(&self) -> bool {
        self.big
    }

    /// The root table that its header points to.
    pub closed spec fn root_table(&self) -> Table {
        self.root
    }

    /// Whether it was opened in trusted mode.
    pub closed spec fn trusted_mode(&self) -> bool {
        self.trusted
    }

    /// Opens a database over `buffer`.
    ///
    /// The header is always checked. Unless `trusted` is set, the whole
    /// structure is walked from the root as well, and a buffer that
    /// [`valid_table`] refuses is refused here. The buffer is refused in
    /// exactly the cases that [`open_error`] names.
    pub fn open(buffer: &'a [u8], trusted: bool) -> (r: Result<Database<'a>, ReadError>)
        ensures
            match r {
                Ok(db) => {
                    &&& open_error(buffer@, trusted) is None
                    &&& db.bytes() == buffer@
                    &&& db.big_endian() == header_big(buffer@)
                    &&& db.root_table() == header_root(buffer@)
                    &&& db.trusted_mode() == trusted
                },
                Err(e) => open_error(buffer@, trusted) == Some(e),
            },
    {
        if buffer.len() < 4 || buffer[0] != 0x47 || buffer[1] != 0x56 || buffer[2] != 0x44
            || buffer[3] != 0x42 {
            proof {
                if buffer@.len() >= 4 {
                    let m = buffer@.subrange(0, 4);
                    assert(m[0] == buffer@[0] && m[1] == buffer@[1] && m[2] == buffer@[2] && m[3]
                        == buffer@[3]);
                }
            }
            return Err(ReadError::BadMagic);
        }
        assert(buffer@.subrange(0, 4) =~= magic());
        if buffer.len() < HEADER_SIZE {
            return Err(ReadError::CorruptStructure);
        }
        if buffer[4] != VERSION {
            return Err(ReadError::UnsupportedVersion);
        }
        if buffer[5] > ORDER_BIG {
            return Err(ReadError::CorruptStructure);
        }
        let big: bool = buffer[5] == ORDER_BIG;
        let root = Table { offset: read_u32(buffer, 8, big), size: read_u32(buffer, 12, big) };
        if !trusted && !check_from(buffer, big, root) {
            return Err(ReadError::CorruptStructure);
        }
        Ok(Database { buf: buffer, big, root, trusted })
    }

    /// The root table.
    pub fn root(&self) -> (t: Table)
        ensures
            t == self.root_table(),
    {
        self.root
    }

    /// Whether the database was opened in trusted mode.
    pub fn is_trusted(&self) -> (t: bool)
        ensures
            t == self.trusted_mode(),
    {
        self.trusted
    }

    /// Whether the integer fields of the database are big-endian.
    pub fn is_big_endian(&self) -> (b: bool)
        ensures
            b == self.big_endian(),
    {
        self.big
    }

    /// Walks the whole structure from the root, as opening an untrusted
    /// buffer does, and tells whether it is sound. The answer depends on
    /// the bytes alone, and nothing is changed.
    pub fn is_valid(&self) -> (ok: bool)
        ensures
            ok == valid_table(
                self.bytes(),
                self.big_endian(),
                self.root_table().offset as int,
                self.root_table().size as int,
            ),
    {
        check_from(self.buf, self.big, self.root)
    }

    /// The direct keys of `table`, each as often as the chains hold it, in
    /// the order of the buckets and, within a bucket, of its chain.
    pub fn list_names(&self, table: Table) -> (r: Result<Vec<Vec<u8>>, ReadError>)
        ensures
            match r {
                Ok(names) => Some(key_views(names@)) == table_names(
                    self.bytes(),
                    self.big_endian(),
                    table.offset as int,
                    table.size as int,
                ),
                Err(e) => e == ReadError::CorruptStructure && table_names(
                    self.bytes(),
                    self.big_endian(),
                    table.offset as int,
                    table.size as int,
                ) is None,
            },
    {
        match names_of(self.buf, self.big, table) {
            Some(names) => Ok(names),
            None => Err(ReadError::CorruptStructure),
        }
    }

    /// Whether `table` holds an item under `key`.
    pub fn has(&self, table: Table, key: &[u8]) -> (found: bool)
        ensures
            found == {
                let l = table_lookup(
                    self.bytes(),
                    self.big_endian(),
                    table.offset as int,
                    table.size as int,
                    key@,
                );
                l is Value || l is Nested
            },
    {
        match find(self.buf, self.big, table, key) {
            Found::Value(_, _) => true,
            Found::Nested(_, _) => true,
            _ => false,
        }
    }

    /// The payload under `key` in `table`, as a part of the buffer.
    pub fn get_value(&self, table: Table, key: &[u8]) -> (r: Result<&'a [u8], ReadError>)
        ensures
            match table_lookup(
                self.bytes(),
                self.big_endian(),
                table.offset as int,
                table.size as int,
                key@,
            ) {
                Lookup::Value { offset, size } => r is Ok && offset + size <= self.bytes().len()
                    && r.unwrap()@ == self.bytes().subrange(offset, offset + size),
                Lookup::Nested { .. } => r == Err::<&[u8], ReadError>(ReadError::WrongKind),
                Lookup::Missing => r == Err::<&[u8], ReadError>(ReadError::NotFound),
                Lookup::Corrupt => r == Err::<&[u8], ReadError>(ReadError::CorruptStructure),
            },
    {
        let len: usize = self.buf.len();
        match find(self.buf, self.big, table, key) {
            Found::Value(o, s) => Ok(slice_subrange(self.buf, o as usize, o as usize + s as usize)),
            Found::Nested(_, _) => Err(ReadError::WrongKind),
            Found::Missing => Err(ReadError::NotFound),
            Found::Corrupt => Err(ReadError::CorruptStructure),
        }
    }

    /// The nested table under `key` in `table`.
    pub fn get_table(&self, table: Table, key: &[u8]) -> (r: Result<Table, ReadError>)
        ensures
            match table_lookup(
                self.bytes(),
                self.big_endian(),
                table.offset as int,
                table.size as int,
                key@,
            ) {
                Lookup::Nested { offset, size } => r == Ok::<Table, ReadError>(
                    Table { offset: offset as u32, size: size as u32 },
                ) && offset + size <= self.bytes().len(),
                Lookup::Value { .. } => r == Err::<Table, ReadError>(ReadError::WrongKind),
                Lookup::Missing => r == Err::<Table, ReadError>(ReadError::NotFound),
                Lookup::Corrupt => r == Err::<Table, ReadError>(ReadError::CorruptStructure),
            },
    {
        match find(self.buf, self.big, table, key) {
            Found::Nested(o, s) => Ok(Table { offset: o, size: s }),
            Found::Value(_, _) => Err(ReadError::WrongKind),
            Found::Missing => Err(ReadError::NotFound),
            Found::Corrupt => Err(ReadError::CorruptStructure),
        }
    }
}

} // verus!
