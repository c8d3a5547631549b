//! What a written database holds at each offset: the link between the
//! bytes that the writer produces and the fields that the reader reads.
use vstd::prelude::*;
use crate::arena::{arena_ok, item_data_ok, table_data_ok, Content, TableData};
use crate::format::{buckets_for, key_hash, lemma_u32_round_trip, magic, u32_at, u32_bytes};
use crate::reader::{
    rec_data_len, rec_data_off, rec_hash, rec_key_len, rec_key_off, rec_kind, rec_next,
    table_buckets, table_head, table_items,
};
use crate::layout::{
    bucket_of, data_len, data_off, database_bytes, database_size, first_in_bucket, header_bytes,
    heads_bytes, item_bytes, item_off, item_size, items_bytes, items_size, items_start, kind_of,
    lemma_item_inside, lemma_items_size_grows, lemma_tables_size_grows, link, order_byte,
    payload_of, record_bytes, table_bytes, table_off, table_size, tables_bytes, tables_size,
};

verus! {

/// The bytes `s` stand in `buf` at `off`.
#[verifier::opaque]
pub open spec fn region(buf: Seq<u8>, off: int, s: Seq<u8>) -> bool {
    0 <= off && off + s.len() <= buf.len() && buf.subrange(off, off + s.len()) == s
}

/// Where two parts joined stand, each of them stands.
pub proof fn lemma_region_split(buf: Seq<u8>, off: int, a: Seq<u8>, b: Seq<u8>)
    requires
        region(buf, off, a + b),
    ensures
        region(buf, off, a),
        region(buf, off + a.len(), b),
{
    reveal(region);
    let s = a + b;
    let whole = buf.subrange(off, off + s.len());
    assert forall|k: int| 0 <= k < a.len() implies buf.subrange(off, off + a.len())[k] == a[k] by {
        assert(whole[k] == s[k]);
    }
    assert(buf.subrange(off, off + a.len()) =~= a);
    assert forall|k: int| 0 <= k < b.len() implies buf.subrange(
        off + a.len(),
        off + a.len() + b.len(),
    )[k] == b[k] by {
        assert(whole[a.len() + k] == s[a.len() + k]);
    }
    assert(buf.subrange(off + a.len(), off + a.len() + b.len()) =~= b);
}

/// A field that stands in the buffer is read back as it was written.
pub proof fn lemma_region_u32(buf: Seq<u8>, off: int, v: int, big: bool)
    requires
        region(buf, off, u32_bytes(v, big)),
        0 <= v < 4294967296,
    ensures
        u32_at(buf, off, big) == v,
{
    reveal(u32_at);
    reveal(region);
    let s = u32_bytes(v, big);
    let whole = buf.subrange(off, off + 4);
    assert(s.len() == 4);
    assert(whole[0] == buf[off] && whole[1] == buf[off + 1] && whole[2] == buf[off + 2] && whole[3]
        == buf[off + 3]);
    lemma_u32_round_trip(Seq::empty(), v, Seq::empty(), big);
    let t = Seq::<u8>::empty() + s + Seq::<u8>::empty();
    assert(t =~= s);
}

/// The first `n` chain heads take four bytes each.
pub proof fn lemma_heads_len(tables: Seq<TableData>, t: int, n: int, big: bool)
    requires
        0 <= n,
    ensures
        heads_bytes(tables, t, n, big).len() == 4 * n,
    decreases n,
{
    if n > 0 {
        lemma_heads_len(tables, t, n - 1, big);
    }
}

/// An item is written in as many bytes as its size says.
pub proof fn lemma_item_len(tables: Seq<TableData>, t: int, i: int, big: bool)
    ensures
        record_bytes(tables, t, i, big).len() == 28,
        item_bytes(tables, t, i, big).len() == item_size(tables[t].items@[i]),
{
}

/// The first `n` items are written in as many bytes as their sizes say.
pub proof fn lemma_items_len(tables: Seq<TableData>, t: int, n: int, big: bool)
    requires
        0 <= n,
    ensures
        items_bytes(tables, t, n, big).len() == items_size(tables[t].items@, n),
    decreases n,
{
    if n > 0 {
        lemma_items_len(tables, t, n - 1, big);
        lemma_item_len(tables, t, n - 1, big);
    }
}

/// A table is written in as many bytes as its size says.
pub proof fn lemma_table_len(tables: Seq<TableData>, t: int, big: bool)
    ensures
        table_bytes(tables, t, big).len() == table_size(tables[t]),
{
    let n = tables[t].items@.len() as int;
    lemma_heads_len(tables, t, buckets_for(n), big);
    lemma_items_len(tables, t, n, big);
}

/// The first `n` tables are written in as many bytes as their sizes say.
pub proof fn lemma_tables_len(tables: Seq<TableData>, n: int, big: bool)
    requires
        0 <= n,
    ensures
        tables_bytes(tables, n, big).len() == tables_size(tables, n),
    decreases n,
{
    if n > 0 {
        lemma_tables_len(tables, n - 1, big);
        lemma_table_len(tables, n - 1, big);
    }
}

/// Among the first `n` tables written at `off`, table `t` stands at its
/// place.
pub proof fn lemma_table_region(buf: Seq<u8>, off: int, tables: Seq<TableData>, n: int, t: int, big: bool)
    requires
        region(buf, off, tables_bytes(tables, n, big)),
        0 <= t < n,
    ensures
        region(buf, off + tables_size(tables, t), table_bytes(tables, t, big)),
    decreases n,
{
    lemma_region_split(buf, off, tables_bytes(tables, n - 1, big), table_bytes(tables, n - 1, big));
    lemma_tables_len(tables, n - 1, big);
    if t < n - 1 {
        lemma_table_region(buf, off, tables, n - 1, t, big);
    }
}

/// Among the first `n` items of table `t` written at `off`, item `i`
/// stands at its place.
pub proof fn lemma_item_region(
    buf: Seq<u8>,
    off: int,
    tables: Seq<TableData>,
    t: int,
    n: int,
    i: int,
    big: bool,
)
    requires
        region(buf, off, items_bytes(tables, t, n, big)),
        0 <= i < n,
    ensures
        region(buf, off + items_size(tables[t].items@, i), item_bytes(tables, t, i, big)),
    decreases n,
{
    lemma_region_split(buf, off, items_bytes(tables, t, n - 1, big), item_bytes(tables, t, n - 1, big));
    lemma_items_len(tables, t, n - 1, big);
    if i < n - 1 {
        lemma_item_region(buf, off, tables, t, n - 1, i, big);
    }
}

/// Among the first `n` chain heads of table `t` written at `off`, the head
/// of bucket `b` stands at its place.
pub proof fn lemma_head_region(
    buf: Seq<u8>,
    off: int,
    tables: Seq<TableData>,
    t: int,
    n: int,
    b: int,
    big: bool,
)
    requires
        region(buf, off, heads_bytes(tables, t, n, big)),
        0 <= b < n,
    ensures
        region(
            buf,
            off + 4 * b,
            u32_bytes(link(tables, t, first_in_bucket(tables[t].items@, b, 0)), big),
        ),
    decreases n,
{
    lemma_region_split(
        buf,
        off,
        heads_bytes(tables, t, n - 1, big),
        u32_bytes(link(tables, t, first_in_bucket(tables[t].items@, n - 1, 0)), big),
    );
    lemma_heads_len(tables, t, n - 1, big);
    if b < n - 1 {
        lemma_head_region(buf, off, tables, t, n - 1, b, big);
    }
}

/// An arena that can be written: it is sound and fits 32-bit offsets.
pub open spec fn writable(tables: Seq<TableData>, root: int) -> bool {
    &&& arena_ok(tables)
    &&& 0 <= root < tables.len()
    &&& database_size(tables) <= u32::MAX
}

/// The record of item `i` of table `t` stands in `buf` at its offset with
/// the fields that the layout gives it, followed by its key and payload.
pub open spec fn item_at(buf: Seq<u8>, tables: Seq<TableData>, t: int, i: int, big: bool) -> bool {
    let r = item_off(tables, t, i);
    let items = tables[t].items@;
    &&& rec_hash(buf, big, r) == key_hash(items[i].key@)
    &&& rec_key_off(buf, big, r) == r + 28
    &&& rec_key_len(buf, big, r) == items[i].key@.len()
    &&& rec_kind(buf, big, r) == kind_of(items[i])
    &&& rec_data_off(buf, big, r) == data_off(tables, t, i)
    &&& rec_data_len(buf, big, r) == data_len(tables, t, i)
    &&& rec_next(buf, big, r) == link(tables, t, first_in_bucket(items, bucket_of(items, i), i + 1))
    &&& region(buf, r + 28, items[i].key@)
    &&& region(buf, r + 28 + items[i].key@.len(), payload_of(items[i]))
}

/// A hash is a 32-bit number.
pub proof fn lemma_hash_range(key: Seq<u8>)
    ensures
        0 <= key_hash(key) < 4294967296,
{
}

/// A chain link is zero or the offset of an item inside the database.
pub proof fn lemma_link_range(tables: Seq<TableData>, t: int, j: int)
    requires
        0 <= t < tables.len(),
        0 <= j,
    ensures
        0 <= link(tables, t, j) <= database_size(tables),
        j < tables[t].items@.len() ==> link(tables, t, j) == item_off(tables, t, j) && link(
            tables,
            t,
            j,
        ) + item_size(tables[t].items@[j]) <= database_size(tables) && link(tables, t, j) >= 28,
        j >= tables[t].items@.len() ==> link(tables, t, j) == 0,
{
    lemma_tables_size_grows(tables, 0, tables.len() as int);
    if j < tables[t].items@.len() {
        lemma_item_inside(tables, t, j);
        lemma_item_inside(tables, t, j + 1);
    }
}

/// A table lies inside the database, behind the header.
pub proof fn lemma_table_range(tables: Seq<TableData>, t: int)
    requires
        0 <= t < tables.len(),
    ensures
        16 <= table_off(tables, t),
        table_off(tables, t) + table_size(tables[t]) == table_off(tables, t + 1),
        table_off(tables, t + 1) <= database_size(tables),
        table_size(tables[t]) >= items_start(tables[t].items@),
{
    lemma_item_inside(tables, t, 0);
    lemma_items_size_grows(tables[t].items@, 0, tables[t].items@.len() as int);
}

/// In a written database every table stands at its offset.
pub proof fn lemma_written_table(tables: Seq<TableData>, root: int, big: bool, t: int)
    requires
        writable(tables, root),
        0 <= t < tables.len(),
    ensures
        database_bytes(tables, root, big).len() == database_size(tables),
        region(database_bytes(tables, root, big), table_off(tables, t), table_bytes(tables, t, big)),
{
    let buf = database_bytes(tables, root, big);
    let header = header_bytes(table_off(tables, root), table_size(tables[root]), big);
    let body = tables_bytes(tables, tables.len() as int, big);
    assert(header.len() == 16);
    lemma_tables_len(tables, tables.len() as int, big);
    lemma_region_whole(buf);
    lemma_region_split(buf, 0, header, body);
    lemma_table_region(buf, 16, tables, tables.len() as int, t, big);
}

/// In a written database the header holds the magic bytes, the version,
/// the byte order and the root table.
pub proof fn lemma_written_header(tables: Seq<TableData>, root: int, big: bool)
    requires
        writable(tables, root),
    ensures
        database_bytes(tables, root, big).len() >= 16,
        database_bytes(tables, root, big).subrange(0, 4) == magic(),
        database_bytes(tables, root, big)[4] == 1,
        database_bytes(tables, root, big)[5] == order_byte(big),
        u32_at(database_bytes(tables, root, big), 8, big) == table_off(tables, root),
        u32_at(database_bytes(tables, root, big), 12, big) == table_size(tables[root]),
{
    let buf = database_bytes(tables, root, big);
    let off = table_off(tables, root);
    let size = table_size(tables[root]);
    let header = header_bytes(off, size, big);
    let body = tables_bytes(tables, tables.len() as int, big);
    let marks = seq![1u8, order_byte(big), 0u8, 0u8];
    let front = magic() + marks;
    lemma_table_range(tables, root);
    lemma_tables_size_grows(tables, 0, root);
    assert(header.len() == 16);
    lemma_region_whole(buf);
    lemma_region_split(buf, 0, header, body);
    lemma_region_split(buf, 0, front + u32_bytes(off, big), u32_bytes(size, big));
    lemma_region_split(buf, 0, front, u32_bytes(off, big));
    lemma_region_u32(buf, 8, off, big);
    lemma_region_u32(buf, 12, size, big);
    lemma_region_split(buf, 0, magic(), marks);
    reveal(region);
    assert(buf.subrange(4, 8)[0] == buf[4]);
    assert(buf.subrange(4, 8)[1] == buf[5]);
}

/// A buffer stands in itself at its start.
pub proof fn lemma_region_whole(buf: Seq<u8>)
    ensures
        region(buf, 0, buf),
{
    reveal(region);
    assert(buf.subrange(0, buf.len() as int) =~= buf);
}

/// Where a table's counts and chain heads stand, the counts are read
/// back, and the chain heads stand behind them.
pub proof fn lemma_front_fields(buf: Seq<u8>, off: int, nb: int, n: int, heads: Seq<u8>, big: bool)
    requires
        region(buf, off, u32_bytes(nb, big) + u32_bytes(n, big) + heads),
        0 <= nb < 4294967296,
        0 <= n < 4294967296,
    ensures
        u32_at(buf, off, big) == nb,
        u32_at(buf, off + 4, big) == n,
        region(buf, off + 8, heads),
{
    let c1 = u32_bytes(nb, big);
    let c2 = u32_bytes(n, big);
    lemma_region_split(buf, off, c1 + c2, heads);
    lemma_region_split(buf, off, c1, c2);
    lemma_region_u32(buf, off, nb, big);
    lemma_region_u32(buf, off + 4, n, big);
}

/// Where a record with its key and payload stands, its seven fields are
/// read back, and the key and the payload stand behind them.
#[verifier::rlimit(50)]
pub proof fn lemma_record_fields(
    buf: Seq<u8>,
    r: int,
    v: Seq<int>,
    key: Seq<u8>,
    payload: Seq<u8>,
    big: bool,
)
    requires
        v.len() == 7,
        forall|k: int| 0 <= k < 7 ==> 0 <= #[trigger] v[k] < 4294967296,
        region(
            buf,
            r,
            u32_bytes(v[0], big) + u32_bytes(v[1], big) + u32_bytes(v[2], big) + u32_bytes(v[3], big)
                + u32_bytes(v[4], big) + u32_bytes(v[5], big) + u32_bytes(v[6], big) + key + payload,
        ),
    ensures
        forall|k: int| 0 <= k < 7 ==> u32_at(buf, r + 4 * k, big) == #[trigger] v[k],
        region(buf, r + 28, key),
        region(buf, r + 28 + key.len(), payload),
{
    let f1 = u32_bytes(v[0], big);
    let f2 = u32_bytes(v[1], big);
    let f3 = u32_bytes(v[2], big);
    let f4 = u32_bytes(v[3], big);
    let f5 = u32_bytes(v[4], big);
    let f6 = u32_bytes(v[5], big);
    let f7 = u32_bytes(v[6], big);
    lemma_region_split(buf, r, f1 + f2 + f3 + f4 + f5 + f6 + f7 + key, payload);
    lemma_region_split(buf, r, f1 + f2 + f3 + f4 + f5 + f6 + f7, key);
    lemma_region_split(buf, r, f1 + f2 + f3 + f4 + f5 + f6, f7);
    lemma_region_split(buf, r, f1 + f2 + f3 + f4 + f5, f6);
    lemma_region_split(buf, r, f1 + f2 + f3 + f4, f5);
    lemma_region_split(buf, r, f1 + f2 + f3, f4);
    lemma_region_split(buf, r, f1 + f2, f3);
    lemma_region_split(buf, r, f1, f2);
    lemma_region_u32(buf, r, v[0], big);
    lemma_region_u32(buf, r + 4, v[1], big);
    lemma_region_u32(buf, r + 8, v[2], big);
    lemma_region_u32(buf, r + 12, v[3], big);
    lemma_region_u32(buf, r + 16, v[4], big);
    lemma_region_u32(buf, r + 20, v[5], big);
    lemma_region_u32(buf, r + 24, v[6], big);
}

/// In a written database every table starts with its counts, and every
/// chain head points to the first item of its bucket.
#[verifier::rlimit(50)]
pub proof fn lemma_written_head(tables: Seq<TableData>, root: int, big: bool, t: int, b: int)
    requires
        writable(tables, root),
        0 <= t < tables.len(),
        0 <= b < buckets_for(tables[t].items@.len() as int),
    ensures
        table_buckets(database_bytes(tables, root, big), big, table_off(tables, t)) == buckets_for(
            tables[t].items@.len() as int,
        ),
        table_items(database_bytes(tables, root, big), big, table_off(tables, t))
            == tables[t].items@.len(),
        table_head(database_bytes(tables, root, big), big, table_off(tables, t), b) == link(
            tables,
            t,
            first_in_bucket(tables[t].items@, b, 0),
        ),
{
    let buf = database_bytes(tables, root, big);
    let toff = table_off(tables, t);
    let n = tables[t].items@.len() as int;
    let nb = buckets_for(n);
    let heads = heads_bytes(tables, t, nb, big);
    let items = items_bytes(tables, t, n, big);
    lemma_written_table(tables, root, big, t);
    lemma_table_range(tables, t);
    lemma_tables_size_grows(tables, 0, tables.len() as int);
    lemma_region_split(buf, toff, u32_bytes(nb, big) + u32_bytes(n, big) + heads, items);
    lemma_front_fields(buf, toff, nb, n, heads, big);
    lemma_head_region(buf, toff + 8, tables, t, nb, b, big);
    let j = first_in_bucket(tables[t].items@, b, 0);
    lemma_first_in_bucket(tables[t].items@, b, 0);
    lemma_link_range(tables, t, j);
    lemma_region_u32(buf, toff + 8 + 4 * b, link(tables, t, j), big);
}

/// The first item of a bucket at or behind `from` is an item of that
/// bucket, or the number of items, and no item of the bucket comes before
/// it.
pub proof fn lemma_first_in_bucket(items: Seq<crate::arena::ItemData>, b: int, from: int)
    requires
        0 <= from,
    ensures
        from <= first_in_bucket(items, b, from) || first_in_bucket(items, b, from) == items.len(),
        0 <= first_in_bucket(items, b, from) <= items.len(),
        first_in_bucket(items, b, from) < items.len() ==> bucket_of(
            items,
            first_in_bucket(items, b, from),
        ) == b,
        forall|m: int| from <= m < first_in_bucket(items, b, from) ==> bucket_of(items, m) != b,
    decreases items.len() - from,
{
    if from < items.len() && bucket_of(items, from) != b {
        lemma_first_in_bucket(items, b, from + 1);
    }
}

/// The seven fields of the record of item `i` of table `t`.
pub open spec fn record_values(tables: Seq<TableData>, t: int, i: int) -> Seq<int> {
    let items = tables[t].items@;
    seq![
        key_hash(items[i].key@),
        item_off(tables, t, i) + 28,
        items[i].key@.len() as int,
        kind_of(items[i]),
        data_off(tables, t, i),
        data_len(tables, t, i),
        link(tables, t, first_in_bucket(items, bucket_of(items, i), i + 1)),
    ]
}

/// Each field of each record is a 32-bit number.
#[verifier::rlimit(50)]
pub proof fn lemma_record_values_range(tables: Seq<TableData>, root: int, t: int, i: int)
    requires
        writable(tables, root),
        0 <= t < tables.len(),
        0 <= i < tables[t].items@.len(),
    ensures
        record_values(tables, t, i).len() == 7,
        forall|k: int| 0 <= k < 7 ==> 0 <= #[trigger] record_values(tables, t, i)[k] < 4294967296,
{
    let all = tables[t].items@;
    let j = first_in_bucket(all, bucket_of(all, i), i + 1);
    lemma_hash_range(all[i].key@);
    lemma_item_inside(tables, t, i);
    lemma_item_inside(tables, t, i + 1);
    lemma_first_in_bucket(all, bucket_of(all, i), i + 1);
    lemma_link_range(tables, t, j);
    lemma_tables_size_grows(tables, 0, tables.len() as int);
    assert(table_data_ok(tables, t));
    assert(item_data_ok(tables, t, all[i]));
    match all[i].content {
        Content::Table(c) => {
            lemma_table_range(tables, c as int);
        },
        _ => {},
    }
}

/// In a written database every item stands at its offset.
pub proof fn lemma_written_item_bytes(tables: Seq<TableData>, root: int, big: bool, t: int, i: int)
    requires
        writable(tables, root),
        0 <= t < tables.len(),
        0 <= i < tables[t].items@.len(),
    ensures
        region(
            database_bytes(tables, root, big),
            item_off(tables, t, i),
            item_bytes(tables, t, i, big),
        ),
{
    let buf = database_bytes(tables, root, big);
    let toff = table_off(tables, t);
    let n = tables[t].items@.len() as int;
    let nb = buckets_for(n);
    let front = u32_bytes(nb, big) + u32_bytes(n, big) + heads_bytes(tables, t, nb, big);
    lemma_written_table(tables, root, big, t);
    lemma_heads_len(tables, t, nb, big);
    lemma_region_split(buf, toff, front, items_bytes(tables, t, n, big));
    lemma_item_region(buf, toff + 8 + 4 * nb, tables, t, n, i, big);
}

/// In a written database every item stands at its offset, with its fields,
/// its key and its payload.
#[verifier::rlimit(50)]
pub proof fn lemma_written_item(tables: Seq<TableData>, root: int, big: bool, t: int, i: int)
    requires
        writable(tables, root),
        0 <= t < tables.len(),
        0 <= i < tables[t].items@.len(),
    ensures
        item_at(database_bytes(tables, root, big), tables, t, i, big),
{
    let buf = database_bytes(tables, root, big);
    let all = tables[t].items@;
    let r = item_off(tables, t, i);
    let v = record_values(tables, t, i);
    lemma_written_item_bytes(tables, root, big, t, i);
    lemma_record_values_range(tables, root, t, i);
    assert(item_bytes(tables, t, i, big) == u32_bytes(v[0], big) + u32_bytes(v[1], big) + u32_bytes(
        v[2],
        big,
    ) + u32_bytes(v[3], big) + u32_bytes(v[4], big) + u32_bytes(v[5], big) + u32_bytes(v[6], big)
        + all[i].key@ + payload_of(all[i]));
    lemma_record_fields(buf, r, v, all[i].key@, payload_of(all[i]), big);
    assert(u32_at(buf, r + 4 * 0, big) == v[0]);
    assert(u32_at(buf, r + 4 * 1, big) == v[1]);
    assert(u32_at(buf, r + 4 * 2, big) == v[2]);
    assert(u32_at(buf, r + 4 * 3, big) == v[3]);
    assert(u32_at(buf, r + 4 * 4, big) == v[4]);
    assert(u32_at(buf, r + 4 * 5, big) == v[5]);
    assert(u32_at(buf, r + 4 * 6, big) == v[6]);
}

} // verus!
