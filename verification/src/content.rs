//! What the bytes of a database depend on: the keys, the payloads and the
//! nesting of the arena, and nothing else.
use vstd::prelude::*;
use crate::arena::{arena_ok, item_data_ok, table_data_ok, Content, ItemData, TableData};
use crate::format::buckets_for;
use crate::layout::{
    bucket_of, data_len, data_off, database_bytes, first_in_bucket, heads_bytes, item_bytes,
    item_off, items_bytes, items_size, kind_of, link, payload_of, record_bytes, table_bytes,
    table_off, table_size, tables_bytes, tables_size,
};

verus! {

/// Two items are written alike: they have the same key, the same payload
/// and the same nested table.
pub open spec fn same_item(a: ItemData, b: ItemData) -> bool {
    &&& a.key@ == b.key@
    &&& payload_of(a) == payload_of(b)
    &&& kind_of(a) == kind_of(b)
    &&& (a.content matches Content::Table(c) ==> b.content == Content::Table(c))
}

/// Two arenas hold the same content: as many tables, and table by table
/// the same items in the same order.
pub open spec fn same_content(a: Seq<TableData>, b: Seq<TableData>) -> bool {
    &&& a.len() == b.len()
    &&& forall|t: int| 0 <= t < a.len() ==> (#[trigger] a[t]).items@.len() == b[t].items@.len()
    &&& forall|t: int, i: int|
        0 <= t < a.len() && 0 <= i < a[t].items@.len() ==> same_item(
            #[trigger] a[t].items@[i],
            b[t].items@[i],
        )
}

proof fn lemma_same_items_size(a: Seq<TableData>, b: Seq<TableData>, t: int, n: int)
    requires
        same_content(a, b),
        0 <= t < a.len(),
        0 <= n <= a[t].items@.len(),
    ensures
        items_size(a[t].items@, n) == items_size(b[t].items@, n),
    decreases n,
{
    if n > 0 {
        lemma_same_items_size(a, b, t, n - 1);
        assert(same_item(a[t].items@[n - 1], b[t].items@[n - 1]));
    }
}

proof fn lemma_same_tables_size(a: Seq<TableData>, b: Seq<TableData>, n: int)
    requires
        same_content(a, b),
        0 <= n <= a.len(),
    ensures
        tables_size(a, n) == tables_size(b, n),
        n < a.len() ==> table_size(a[n]) == table_size(b[n]),
    decreases n,
{
    if n > 0 {
        lemma_same_tables_size(a, b, n - 1);
        assert(a[n - 1].items@.len() == b[n - 1].items@.len());
        lemma_same_items_size(a, b, n - 1, a[n - 1].items@.len() as int);
    }
    if n < a.len() {
        assert(a[n].items@.len() == b[n].items@.len());
        lemma_same_items_size(a, b, n, a[n].items@.len() as int);
    }
}

proof fn lemma_same_bucket(a: Seq<TableData>, b: Seq<TableData>, t: int, i: int)
    requires
        same_content(a, b),
        0 <= t < a.len(),
        0 <= i < a[t].items@.len(),
    ensures
        bucket_of(a[t].items@, i) == bucket_of(b[t].items@, i),
{
    assert(a[t].items@.len() == b[t].items@.len());
    assert(same_item(a[t].items@[i], b[t].items@[i]));
}

proof fn lemma_same_first(a: Seq<TableData>, b: Seq<TableData>, t: int, bucket: int, from: int)
    requires
        same_content(a, b),
        0 <= t < a.len(),
        0 <= from,
    ensures
        first_in_bucket(a[t].items@, bucket, from) == first_in_bucket(b[t].items@, bucket, from),
        0 <= first_in_bucket(a[t].items@, bucket, from),
    decreases a[t].items@.len() - from,
{
    assert(a[t].items@.len() == b[t].items@.len());
    if from < a[t].items@.len() {
        lemma_same_bucket(a, b, t, from);
        lemma_same_first(a, b, t, bucket, from + 1);
    }
}

proof fn lemma_same_link(a: Seq<TableData>, b: Seq<TableData>, t: int, j: int)
    requires
        same_content(a, b),
        0 <= t < a.len(),
        0 <= j,
    ensures
        link(a, t, j) == link(b, t, j),
        j <= a[t].items@.len() ==> item_off(a, t, j) == item_off(b, t, j),
{
    assert(a[t].items@.len() == b[t].items@.len());
    if j <= a[t].items@.len() {
        lemma_same_tables_size(a, b, t);
        lemma_same_items_size(a, b, t, j);
    }
}

proof fn lemma_same_item_bytes(a: Seq<TableData>, b: Seq<TableData>, t: int, i: int, big: bool)
    requires
        arena_ok(a),
        same_content(a, b),
        0 <= t < a.len(),
        0 <= i < a[t].items@.len(),
    ensures
        item_bytes(a, t, i, big) == item_bytes(b, t, i, big),
{
    assert(a[t].items@.len() == b[t].items@.len());
    assert(same_item(a[t].items@[i], b[t].items@[i]));
    assert(table_data_ok(a, t));
    assert(item_data_ok(a, t, a[t].items@[i]));
    lemma_same_bucket(a, b, t, i);
    lemma_same_first(a, b, t, bucket_of(a[t].items@, i), i + 1);
    lemma_same_link(a, b, t, first_in_bucket(a[t].items@, bucket_of(a[t].items@, i), i + 1));
    lemma_same_link(a, b, t, i);
    match a[t].items@[i].content {
        Content::Table(c) => {
            lemma_same_tables_size(a, b, c as int);
        },
        _ => {},
    }
    assert(data_off(a, t, i) == data_off(b, t, i));
    assert(data_len(a, t, i) == data_len(b, t, i));
    assert(record_bytes(a, t, i, big) == record_bytes(b, t, i, big));
}

proof fn lemma_same_items_bytes(a: Seq<TableData>, b: Seq<TableData>, t: int, n: int, big: bool)
    requires
        arena_ok(a),
        same_content(a, b),
        0 <= t < a.len(),
        0 <= n <= a[t].items@.len(),
    ensures
        items_bytes(a, t, n, big) == items_bytes(b, t, n, big),
    decreases n,
{
    if n > 0 {
        lemma_same_items_bytes(a, b, t, n - 1, big);
        lemma_same_item_bytes(a, b, t, n - 1, big);
    }
}

proof fn lemma_same_heads_bytes(a: Seq<TableData>, b: Seq<TableData>, t: int, n: int, big: bool)
    requires
        same_content(a, b),
        0 <= t < a.len(),
        0 <= n,
    ensures
        heads_bytes(a, t, n, big) == heads_bytes(b, t, n, big),
    decreases n,
{
    if n > 0 {
        lemma_same_heads_bytes(a, b, t, n - 1, big);
        lemma_same_first(a, b, t, n - 1, 0);
        lemma_same_link(a, b, t, first_in_bucket(a[t].items@, n - 1, 0));
    }
}

proof fn lemma_same_tables_bytes(a: Seq<TableData>, b: Seq<TableData>, n: int, big: bool)
    requires
        arena_ok(a),
        same_content(a, b),
        0 <= n <= a.len(),
    ensures
        tables_bytes(a, n, big) == tables_bytes(b, n, big),
    decreases n,
{
    if n > 0 {
        let t = n - 1;
        let count = a[t].items@.len() as int;
        lemma_same_tables_bytes(a, b, t, big);
        assert(a[t].items@.len() == b[t].items@.len());
        lemma_same_heads_bytes(a, b, t, buckets_for(count), big);
        lemma_same_items_bytes(a, b, t, count, big);
        assert(table_bytes(a, t, big) == table_bytes(b, t, big));
    }
}

/// Writing is reproducible: two sound arenas with the same content give
/// the same database, byte for byte, under the same root and byte order.
pub proof fn law_same_content_same_bytes(a: Seq<TableData>, b: Seq<TableData>, root: int, big: bool)
    requires
        arena_ok(a),
        same_content(a, b),
        0 <= root < a.len(),
    ensures
        database_bytes(a, root, big) == database_bytes(b, root, big),
{
    lemma_same_tables_size(a, b, root);
    lemma_same_tables_bytes(a, b, a.len() as int, big);
}

} // verus!
