//! Where everything lies in a written database, and the writer that puts it
//! there.
//!
//! The tables of an arena are written one after another behind the header,
//! in the order of their indices. A table is its two counts, its chain
//! heads, and its items in insertion order, each item record directly
//! followed by its key and payload. A chain links the items of one bucket
//! in insertion order.
use vstd::prelude::*;
use crate::arena::{arena_ok, item_data_ok, table_data_ok, BuildError, Content, ItemData, TableData};
use crate::format::{
    bucket_count, buckets_for, hash_key, key_hash, magic, put_u32, u32_bytes, KIND_TABLE,
    KIND_VALUE, ORDER_BIG, ORDER_LITTLE, VERSION,
};

verus! {

/// The payload that is written for an item: its value, or nothing.
pub open spec fn payload_of(item: ItemData) -> Seq<u8> {
    match item.content {
        Content::Value(v) => v@,
        _ => Seq::empty(),
    }
}

/// Bytes that an item takes: its record, its key and its payload.
pub open spec fn item_size(item: ItemData) -> int {
    28 + item.key@.len() as int + payload_of(item).len() as int
}

/// Bytes that the first `n` items take.
pub open spec fn items_size(items: Seq<ItemData>, n: int) -> int
    decreases n,
{
    if n <= 0 {
        0
    } else {
        items_size(items, n - 1) + item_size(items[n - 1])
    }
}

/// Where the items of a table start, counted from the table's offset.
pub open spec fn items_start(items: Seq<ItemData>) -> int {
    8 + 4 * buckets_for(items.len() as int)
}

/// Bytes that a table takes.
pub open spec fn table_size(table: TableData) -> int {
    items_start(table.items@) + items_size(table.items@, table.items@.len() as int)
}

/// Bytes that the first `n` tables take.
pub open spec fn tables_size(tables: Seq<TableData>, n: int) -> int
    decreases n,
{
    if n <= 0 {
        0
    } else {
        tables_size(tables, n - 1) + table_size(tables[n - 1])
    }
}

/// Bytes that the whole database takes.
pub open spec fn database_size(tables: Seq<TableData>) -> int {
    16 + tables_size(tables, tables.len() as int)
}

/// Offset of table `t`.
pub open spec fn table_off(tables: Seq<TableData>, t: int) -> int {
    16 + tables_size(tables, t)
}

/// Offset of the record of item `i` of table `t`.
pub open spec fn item_off(tables: Seq<TableData>, t: int, i: int) -> int {
    table_off(tables, t) + items_start(tables[t].items@) + items_size(tables[t].items@, i)
}

/// The bucket that item `i` falls into.
pub open spec fn bucket_of(items: Seq<ItemData>, i: int) -> int {
    key_hash(items[i].key@) % buckets_for(items.len() as int)
}

/// The first item at or behind `from` that falls into bucket `b`, or the
/// number of items where there is none.
pub open spec fn first_in_bucket(items: Seq<ItemData>, b: int, from: int) -> int
    decreases items.len() - from,
{
    if from >= items.len() {
        items.len() as int
    } else if bucket_of(items, from) == b {
        from
    } else {
        first_in_bucket(items, b, from + 1)
    }
}

/// What is written to point to item `j` of table `t`: its offset, or zero
/// where `j` is the number of items.
pub open spec fn link(tables: Seq<TableData>, t: int, j: int) -> int {
    if j >= tables[t].items@.len() {
        0
    } else {
        item_off(tables, t, j)
    }
}

/// The discriminator written for an item.
pub open spec fn kind_of(item: ItemData) -> int {
    if item.content is Table {
        1
    } else {
        0
    }
}

/// The offset written as the data of item `i` of table `t`.
pub open spec fn data_off(tables: Seq<TableData>, t: int, i: int) -> int {
    match tables[t].items@[i].content {
        Content::Table(c) => table_off(tables, c as int),
        _ => item_off(tables, t, i) + 28 + tables[t].items@[i].key@.len() as int,
    }
}

/// The size written as the data of item `i` of table `t`.
pub open spec fn data_len(tables: Seq<TableData>, t: int, i: int) -> int {
    match tables[t].items@[i].content {
        Content::Table(c) => table_size(tables[c as int]),
        _ => payload_of(tables[t].items@[i]).len() as int,
    }
}

/// The seven fields of the record of item `i` of table `t`.
pub open spec fn record_bytes(tables: Seq<TableData>, t: int, i: int, big: bool) -> Seq<u8> {
    let items = tables[t].items@;
    u32_bytes(key_hash(items[i].key@), big) + u32_bytes(item_off(tables, t, i) + 28, big)
        + u32_bytes(items[i].key@.len() as int, big) + u32_bytes(kind_of(items[i]), big)
        + u32_bytes(data_off(tables, t, i), big) + u32_bytes(data_len(tables, t, i), big)
        + u32_bytes(link(tables, t, first_in_bucket(items, bucket_of(items, i), i + 1)), big)
}

/// The bytes of item `i` of table `t`.
pub open spec fn item_bytes(tables: Seq<TableData>, t: int, i: int, big: bool) -> Seq<u8> {
    record_bytes(tables, t, i, big) + tables[t].items@[i].key@ + payload_of(tables[t].items@[i])
}

/// The bytes of the first `n` items of table `t`.
pub open spec fn items_bytes(tables: Seq<TableData>, t: int, n: int, big: bool) -> Seq<u8>
    decreases n,
{
    if n <= 0 {
        Seq::empty()
    } else {
        items_bytes(tables, t, n - 1, big) + item_bytes(tables, t, n - 1, big)
    }
}

/// The chain heads of the first `n` buckets of table `t`.
pub open spec fn heads_bytes(tables: Seq<TableData>, t: int, n: int, big: bool) -> Seq<u8>
    decreases n,
{
    if n <= 0 {
        Seq::empty()
    } else {
        heads_bytes(tables, t, n - 1, big) + u32_bytes(
            link(tables, t, first_in_bucket(tables[t].items@, n - 1, 0)),
            big,
        )
    }
}

/// The bytes of table `t`.
pub open spec fn table_bytes(tables: Seq<TableData>, t: int, big: bool) -> Seq<u8> {
    let n = tables[t].items@.len() as int;
    u32_bytes(buckets_for(n), big) + u32_bytes(n, big) + heads_bytes(tables, t, buckets_for(n), big)
        + items_bytes(tables, t, n, big)
}

/// The bytes of the first `n` tables.
pub open spec fn tables_bytes(tables: Seq<TableData>, n: int, big: bool) -> Seq<u8>
    decreases n,
{
    if n <= 0 {
        Seq::empty()
    } else {
        tables_bytes(tables, n - 1, big) + table_bytes(tables, n - 1, big)
    }
}

/// The byte that marks the byte order.
pub open spec fn order_byte(big: bool) -> u8 {
    if big {
        1
    } else {
        0
    }
}

/// The sixteen bytes of the header.
pub open spec fn header_bytes(root_off: int, root_size: int, big: bool) -> Seq<u8> {
    magic() + seq![1u8, order_byte(big), 0u8, 0u8] + u32_bytes(root_off, big) + u32_bytes(
        root_size,
        big,
    )
}

/// The database that is written for an arena with the given root, byte
/// for byte.
pub open spec fn database_bytes(tables: Seq<TableData>, root: int, big: bool) -> Seq<u8> {
    header_bytes(table_off(tables, root), table_size(tables[root]), big) + tables_bytes(
        tables,
        tables.len() as int,
        big,
    )
}

/// More items take no fewer bytes.
pub proof fn lemma_items_size_grows(items: Seq<ItemData>, i: int, j: int)
    requires
        0 <= i <= j,
    ensures
        0 <= items_size(items, i) <= items_size(items, j),
    decreases j,
{
    if j > 0 {
        if i < j {
            lemma_items_size_grows(items, i, j - 1);
        } else {
            lemma_items_size_grows(items, i - 1, j - 1);
        }
    }
}

/// More tables take no fewer bytes.
pub proof fn lemma_tables_size_grows(tables: Seq<TableData>, i: int, j: int)
    requires
        0 <= i <= j,
    ensures
        0 <= tables_size(tables, i) <= tables_size(tables, j),
    decreases j,
{
    if j > 0 {
        lemma_items_size_grows(tables[j - 1].items@, 0, tables[j - 1].items@.len() as int);
        if i < j {
            lemma_tables_size_grows(tables, i, j - 1);
        } else {
            lemma_tables_size_grows(tables, i - 1, j - 1);
        }
    }
}

/// Every item of every table lies inside the database.
pub proof fn lemma_item_inside(tables: Seq<TableData>, t: int, i: int)
    requires
        0 <= t < tables.len(),
        0 <= i <= tables[t].items@.len(),
    ensures
        table_off(tables, t) + items_start(tables[t].items@) <= item_off(tables, t, i),
        item_off(tables, t, i) <= table_off(tables, t + 1),
        table_off(tables, t + 1) <= database_size(tables),
        16 <= table_off(tables, t),
{
    lemma_items_size_grows(tables[t].items@, i, tables[t].items@.len() as int);
    lemma_items_size_grows(tables[t].items@, 0, i);
    lemma_tables_size_grows(tables, t + 1, tables.len() as int);
    lemma_tables_size_grows(tables, 0, t);
}

/// Length of the payload that is written for an item.
fn payload_len(item: &ItemData) -> (n: usize)
    ensures
        n == payload_of(*item).len(),
{
    match &item.content {
        Content::Value(v) => v.len(),
        _ => 0,
    }
}

/// Adds up the bytes of `items`, as long as they stay within `limit`.
fn measure_items(items: &Vec<ItemData>, limit: u64) -> (r: Option<u64>)
    ensures
        r is Some <==> items_size(items@, items@.len() as int) <= limit,
        r matches Some(n) ==> n == items_size(items@, items@.len() as int),
{
    let mut acc: u64 = 0;
    let mut i: usize = 0;
    while i < items.len()
        invariant
            i <= items@.len(),
            acc == items_size(items@, i as int),
            acc <= limit,
        decreases items@.len() - i,
    {
        let size: u128 = 28 + items[i].key.len() as u128 + payload_len(&items[i]) as u128;
        if size > (limit - acc) as u128 {
            proof {
                lemma_items_size_grows(items@, i + 1, items@.len() as int);
            }
            return None;
        }
        acc = acc + size as u64;
        i += 1;
    }
    Some(acc)
}

/// Works out the offset of every table, and the end of the last one, as
/// long as the database fits 32-bit offsets.
fn table_offsets(tables: &Vec<TableData>) -> (r: Option<Vec<u32>>)
    ensures
        r is Some <==> database_size(tables@) <= u32::MAX,
        r matches Some(offs) ==> {
            &&& offs@.len() == tables@.len() + 1
            &&& forall|k: int| 0 <= k <= tables@.len() ==> #[trigger] offs@[k] == table_off(tables@, k)
        },
{
    let mut offs: Vec<u32> = Vec::new();
    let mut acc: u64 = 16;
    let mut t: usize = 0;
    while t < tables.len()
        invariant
            t <= tables@.len(),
            acc == table_off(tables@, t as int),
            acc <= u32::MAX,
            offs@.len() == t,
            forall|k: int| 0 <= k < t ==> #[trigger] offs@[k] == table_off(tables@, k),
        decreases tables@.len() - t,
    {
        let start: u128 = 8 + 4 * (bucket_count(tables[t].items.len()) as u128);
        proof {
            lemma_tables_size_grows(tables@, t + 1, tables@.len() as int);
            lemma_items_size_grows(tables@[t as int].items@, 0, tables@[t as int].items@.len() as int);
        }
        if start > (0xffff_ffffu64 - acc) as u128 {
            return None;
        }
        let room: u64 = 0xffff_ffffu64 - acc - start as u64;
        let used: u64 = match measure_items(&tables[t].items, room) {
            Some(n) => n,
            None => {
                return None;
            },
        };
        offs.push(acc as u32);
        acc = acc + start as u64 + used;
        t += 1;
    }
    offs.push(acc as u32);
    Some(offs)
}

/// A vector of `n` copies of `v`.
fn filled(n: usize, v: usize) -> (r: Vec<usize>)
    ensures
        r@.len() == n,
        forall|i: int| 0 <= i < n ==> r@[i] == v,
{
    let mut r: Vec<usize> = Vec::new();
    while r.len() < n
        invariant
            r@.len() <= n,
            forall|i: int| 0 <= i < r@.len() ==> r@[i] == v,
        decreases n - r@.len(),
    {
        r.push(v);
    }
    r
}

/// Links the items of each bucket into a chain in insertion order: for
/// each bucket its first item, and for each item the next one of its
/// bucket, with the number of items for "none".
fn chain_links(items: &Vec<ItemData>, buckets: usize) -> (r: (Vec<usize>, Vec<usize>))
    requires
        buckets == buckets_for(items@.len() as int),
    ensures
        r.0@.len() == buckets,
        r.1@.len() == items@.len(),
        forall|b: int| 0 <= b < buckets ==> #[trigger] r.0@[b] == first_in_bucket(items@, b, 0),
        forall|i: int|
            0 <= i < items@.len() ==> #[trigger] r.1@[i] == first_in_bucket(
                items@,
                bucket_of(items@, i),
                i + 1,
            ),
{
    let n: usize = items.len();
    let mut heads: Vec<usize> = filled(buckets, n);
    let mut nexts: Vec<usize> = filled(n, n);
    let mut k: usize = n;
    while k > 0
        invariant
            k <= n,
            n == items@.len(),
            buckets == buckets_for(items@.len() as int),
            heads@.len() == buckets,
            nexts@.len() == n,
            forall|b: int| 0 <= b < buckets ==> #[trigger] heads@[b] == first_in_bucket(items@, b, k as int),
            forall|i: int|
                k <= i < n ==> #[trigger] nexts@[i] == first_in_bucket(
                    items@,
                    bucket_of(items@, i),
                    i + 1,
                ),
        decreases k,
    {
        k -= 1;
        let b: usize = (hash_key(items[k].key.as_slice()) as usize) % buckets;
        assert(b == bucket_of(items@, k as int));
        let after: usize = heads[b];
        nexts.set(k, after);
        heads.set(b, k);
    }
    (heads, nexts)
}

/// Works out the offset of every item of table `t`.
fn item_offsets(tables: &Vec<TableData>, offs: &Vec<u32>, t: usize) -> (r: Vec<u32>)
    requires
        t < tables@.len(),
        database_size(tables@) <= u32::MAX,
        offs@.len() == tables@.len() + 1,
        forall|k: int| 0 <= k <= tables@.len() ==> #[trigger] offs@[k] == table_off(tables@, k),
    ensures
        r@.len() == tables@[t as int].items@.len(),
        forall|i: int| 0 <= i < r@.len() ==> #[trigger] r@[i] == item_off(tables@, t as int, i),
{
    let items = &tables[t].items;
    let mut r: Vec<u32> = Vec::new();
    proof {
        lemma_item_inside(tables@, t as int, 0);
    }
    let mut acc: u64 = offs[t] as u64 + 8 + 4 * (bucket_count(items.len()) as u64);
    let mut i: usize = 0;
    while i < items.len()
        invariant
            i <= items@.len(),
            t < tables@.len(),
            items@ == tables@[t as int].items@,
            database_size(tables@) <= u32::MAX,
            acc == item_off(tables@, t as int, i as int),
            acc <= u32::MAX,
            r@.len() == i,
            forall|j: int| 0 <= j < i ==> #[trigger] r@[j] == item_off(tables@, t as int, j),
        decreases items@.len() - i,
    {
        r.push(acc as u32);
        proof {
            lemma_item_inside(tables@, t as int, i + 1);
        }
        let size: u128 = 28 + items[i].key.len() as u128 + payload_len(&items[i]) as u128;
        acc = (acc as u128 + size) as u64;
        i += 1;
    }
    r
}

/// Appends one item: the seven fields of its record, its key and its
/// payload.
#[verifier::rlimit(50)]
fn emit_item(item: &ItemData, at: u32, data: u32, size: u32, next: u32, big: bool, out: &mut Vec<u8>)
    requires
        at + 28 + item.key@.len() <= u32::MAX,
    ensures
        final(out)@ == old(out)@ + (u32_bytes(key_hash(item.key@), big) + u32_bytes(at + 28, big)
            + u32_bytes(item.key@.len() as int, big) + u32_bytes(kind_of(*item), big) + u32_bytes(
            data as int,
            big,
        ) + u32_bytes(size as int, big) + u32_bytes(next as int, big) + item.key@ + payload_of(
            *item,
        )),
{
    let ghost start = out@;
    put_u32(out, hash_key(item.key.as_slice()), big);
    let ghost r1 = u32_bytes(key_hash(item.key@), big);
    put_u32(out, at + 28, big);
    let ghost r2 = r1 + u32_bytes(at + 28, big);
    assert(out@ == start + r2) by {
        lemma_append(start, r1, u32_bytes(at + 28, big));
    }
    put_u32(out, item.key.len() as u32, big);
    let ghost r3 = r2 + u32_bytes(item.key@.len() as int, big);
    assert(out@ == start + r3) by {
        lemma_append(start, r2, u32_bytes(item.key@.len() as int, big));
    }
    match &item.content {
        Content::Table(_) => put_u32(out, KIND_TABLE, big),
        _ => put_u32(out, KIND_VALUE, big),
    }
    let ghost r4 = r3 + u32_bytes(kind_of(*item), big);
    assert(out@ == start + r4) by {
        lemma_append(start, r3, u32_bytes(kind_of(*item), big));
    }
    put_u32(out, data, big);
    let ghost r5 = r4 + u32_bytes(data as int, big);
    assert(out@ == start + r5) by {
        lemma_append(start, r4, u32_bytes(data as int, big));
    }
    put_u32(out, size, big);
    let ghost r6 = r5 + u32_bytes(size as int, big);
    assert(out@ == start + r6) by {
        lemma_append(start, r5, u32_bytes(size as int, big));
    }
    put_u32(out, next, big);
    let ghost r7 = r6 + u32_bytes(next as int, big);
    assert(out@ == start + r7) by {
        lemma_append(start, r6, u32_bytes(next as int, big));
    }
    out.extend_from_slice(item.key.as_slice());
    let ghost r8 = r7 + item.key@;
    assert(out@ == start + r8) by {
        lemma_append(start, r7, item.key@);
    }
    let ghost before = out@;
    match &item.content {
        Content::Value(v) => {
            out.extend_from_slice(v.as_slice());
        },
        _ => {},
    }
    assert(out@ == before + payload_of(*item)) by {
        assert(before + Seq::<u8>::empty() =~= before);
    }
    assert(out@ == start + (r8 + payload_of(*item))) by {
        lemma_append(start, r8, payload_of(*item));
    }
}

/// Appending in two steps is appending the two parts joined.
pub proof fn lemma_append(a: Seq<u8>, b: Seq<u8>, c: Seq<u8>)
    ensures
        (a + b) + c == a + (b + c),
{
    assert((a + b) + c =~= a + (b + c));
}

/// Appends item `i` of table `t`, given the offsets of the tables and of
/// the table's items and the chain links.
#[verifier::rlimit(50)]
fn emit_nth_item(
    tables: &Vec<TableData>,
    offs: &Vec<u32>,
    at: &Vec<u32>,
    nexts: &Vec<usize>,
    t: usize,
    i: usize,
    big: bool,
    out: &mut Vec<u8>,
)
    requires
        arena_ok(tables@),
        t < tables@.len(),
        i < tables@[t as int].items@.len(),
        database_size(tables@) <= u32::MAX,
        offs@.len() == tables@.len() + 1,
        forall|k: int| 0 <= k <= tables@.len() ==> #[trigger] offs@[k] == table_off(tables@, k),
        nexts@.len() == tables@[t as int].items@.len(),
        at@.len() == tables@[t as int].items@.len(),
        forall|j: int| 0 <= j < at@.len() ==> #[trigger] at@[j] == item_off(tables@, t as int, j),
        nexts@[i as int] == first_in_bucket(
            tables@[t as int].items@,
            bucket_of(tables@[t as int].items@, i as int),
            i + 1,
        ),
    ensures
        final(out)@ == old(out)@ + item_bytes(tables@, t as int, i as int, big),
{
    let items = &tables[t].items;
    let n: usize = items.len();
    let ghost ti = t as int;
    let item = &items[i];
    let here: u32 = at[i];
    proof {
        lemma_item_inside(tables@, ti, i + 1);
        assert(table_data_ok(tables@, ti));
        assert(item_data_ok(tables@, ti, items@[i as int]));
        assert(item_off(tables@, ti, i + 1) == item_off(tables@, ti, i as int) + item_size(
            items@[i as int],
        ));
    }
    let follower: usize = nexts[i];
    let next: u32 = if follower >= n {
        0
    } else {
        at[follower]
    };
    assert(next == link(tables@, ti, follower as int));
    match &item.content {
        Content::Table(c) => {
            let child: usize = *c;
            let count: usize = offs.len();
            assert(offs@[child as int] == table_off(tables@, child as int));
            assert(offs@[child + 1] == table_off(tables@, child + 1));
            proof {
                lemma_tables_size_grows(tables@, child as int, child + 1);
                lemma_items_size_grows(
                    tables@[child as int].items@,
                    0,
                    tables@[child as int].items@.len() as int,
                );
            }
            emit_item(item, here, offs[child], offs[child + 1] - offs[child], next, big, out);
        },
        _ => {
            emit_item(
                item,
                here,
                here + 28 + item.key.len() as u32,
                payload_len(item) as u32,
                next,
                big,
                out,
            );
        },
    }
}

/// Appends table `t`.
#[verifier::rlimit(50)]
fn emit_table(tables: &Vec<TableData>, offs: &Vec<u32>, t: usize, big: bool, out: &mut Vec<u8>)
    requires
        arena_ok(tables@),
        t < tables@.len(),
        database_size(tables@) <= u32::MAX,
        offs@.len() == tables@.len() + 1,
        forall|k: int| 0 <= k <= tables@.len() ==> #[trigger] offs@[k] == table_off(tables@, k),
    ensures
        final(out)@ == old(out)@ + table_bytes(tables@, t as int, big),
{
    let items = &tables[t].items;
    let n: usize = items.len();
    let buckets: usize = bucket_count(n);
    let at: Vec<u32> = item_offsets(tables, offs, t);
    let (heads, nexts) = chain_links(items, buckets);
    let ghost start = out@;
    let ghost ti = t as int;
    proof {
        lemma_item_inside(tables@, ti, 0);
    }
    put_u32(out, buckets as u32, big);
    put_u32(out, n as u32, big);
    let ghost counts = u32_bytes(buckets as int, big) + u32_bytes(n as int, big);
    assert(out@ =~= start + counts + heads_bytes(tables@, ti, 0, big));
    let mut b: usize = 0;
    while b < buckets
        invariant
            b <= buckets,
            ti == t as int,
            t < tables@.len(),
            items@ == tables@[ti].items@,
            n == items@.len(),
            heads@.len() == buckets,
            at@.len() == n,
            forall|i: int| 0 <= i < n ==> #[trigger] at@[i] == item_off(tables@, ti, i),
            forall|c: int| 0 <= c < buckets ==> #[trigger] heads@[c] == first_in_bucket(items@, c, 0),
            out@ == start + counts + heads_bytes(tables@, ti, b as int, big),
        decreases buckets - b,
    {
        let first: usize = heads[b];
        let head: u32 = if first >= n {
            0
        } else {
            at[first]
        };
        put_u32(out, head, big);
        assert(out@ =~= start + counts + heads_bytes(tables@, ti, b + 1, big));
        b += 1;
    }
    let ghost front = start + counts + heads_bytes(tables@, ti, buckets as int, big);
    assert(out@ =~= front + items_bytes(tables@, ti, 0, big));
    let mut i: usize = 0;
    while i < n
        invariant
            i <= n,
            ti == t as int,
            t < tables@.len(),
            arena_ok(tables@),
            database_size(tables@) <= u32::MAX,
            offs@.len() == tables@.len() + 1,
            forall|k: int| 0 <= k <= tables@.len() ==> #[trigger] offs@[k] == table_off(tables@, k),
            items@ == tables@[ti].items@,
            n == items@.len(),
            nexts@.len() == n,
            at@.len() == n,
            forall|j: int| 0 <= j < n ==> #[trigger] at@[j] == item_off(tables@, ti, j),
            forall|j: int|
                0 <= j < n ==> #[trigger] nexts@[j] == first_in_bucket(
                    items@,
                    bucket_of(items@, j),
                    j + 1,
                ),
            out@ == front + items_bytes(tables@, ti, i as int, big),
        decreases n - i,
    {
        let ghost before = out@;
        emit_nth_item(tables, offs, &at, &nexts, t, i, big, out);
        assert(out@ =~= front + items_bytes(tables@, ti, i + 1, big)) by {
            assert(out@ == before + item_bytes(tables@, ti, i as int, big));
        }
        i += 1;
    }
    assert(out@ =~= start + table_bytes(tables@, ti, big));
}

/// Writes the database of an arena whose root is table `root`.
///
/// The result is [`database_bytes`] exactly, so that equal arenas give equal
/// bytes. It is refused only where the database would not fit 32-bit
/// offsets.
pub(crate) fn write_database(tables: &Vec<TableData>, root: usize, big: bool) -> (r: Result<
    Vec<u8>,
    BuildError,
>)
    requires
        arena_ok(tables@),
        root < tables@.len(),
    ensures
        match r {
            Ok(out) => database_size(tables@) <= u32::MAX && out@ == database_bytes(
                tables@,
                root as int,
                big,
            ),
            Err(e) => e == BuildError::TooLarge && database_size(tables@) > u32::MAX,
        },
{
    let offs: Vec<u32> = match table_offsets(tables) {
        Some(offs) => offs,
        None => {
            return Err(BuildError::TooLarge);
        },
    };
    let mut out: Vec<u8> = Vec::new();
    out.push(0x47);
    out.push(0x56);
    out.push(0x44);
    out.push(0x42);
    out.push(VERSION);
    out.push(if big {
        ORDER_BIG
    } else {
        ORDER_LITTLE
    });
    out.push(0);
    out.push(0);
    assert(offs@[root as int] == table_off(tables@, root as int));
    assert(offs@[root + 1] == table_off(tables@, root + 1));
    proof {
        lemma_tables_size_grows(tables@, root as int, root + 1);
        lemma_items_size_grows(
            tables@[root as int].items@,
            0,
            tables@[root as int].items@.len() as int,
        );
    }
    put_u32(&mut out, offs[root], big);
    put_u32(&mut out, offs[root + 1] - offs[root], big);
    let ghost header = header_bytes(
        table_off(tables@, root as int),
        table_size(tables@[root as int]),
        big,
    );
    assert(out@ =~= header + tables_bytes(tables@, 0, big));
    let mut t: usize = 0;
    while t < tables.len()
        invariant
            t <= tables@.len(),
            arena_ok(tables@),
            database_size(tables@) <= u32::MAX,
            offs@.len() == tables@.len() + 1,
            forall|k: int| 0 <= k <= tables@.len() ==> #[trigger] offs@[k] == table_off(tables@, k),
            out@ == header + tables_bytes(tables@, t as int, big),
        decreases tables@.len() - t,
    {
        emit_table(tables, &offs, t, big, &mut out);
        assert(out@ =~= header + tables_bytes(tables@, t + 1, big));
        t += 1;
    }
    Ok(out)
}

} // verus!
