//! What a reader finds in a written database: every key of every table
//! leads to the content that was bound to it, and no other key leads
//! anywhere.
use vstd::prelude::*;
use crate::arena::{has_key, item_data_ok, table_data_ok, unique_keys, Content, ItemData, TableData};
use crate::encoding::{
    lemma_first_in_bucket, lemma_link_range, lemma_table_range, lemma_written_head,
    lemma_written_item, lemma_written_table, region, writable,
};
use crate::format::{buckets_for, key_hash};
use crate::layout::{
    bucket_of, data_len, data_off, database_bytes, first_in_bucket, item_off, kind_of,
    lemma_item_inside, lemma_items_size_grows, link, table_off, table_size,
};
use crate::reader::{
    bucket_names, chain_names, table_names,
    chain_lookup, rec_content, rec_key, record_ok, table_lookup, table_ok, Lookup,
};

verus! {

/// The first item at or behind `from` that has the key, or the number of
/// items where there is none.
pub open spec fn find_key(items: Seq<ItemData>, key: Seq<u8>, from: int) -> int
    decreases items.len() - from,
{
    if from >= items.len() {
        items.len() as int
    } else if items[from].key@ == key {
        from
    } else {
        find_key(items, key, from + 1)
    }
}

/// What a lookup that ends at item `m` of table `t` gives: the region of
/// its payload or of its nested table, or nothing where `m` is the number
/// of items.
pub open spec fn content_at(tables: Seq<TableData>, t: int, m: int) -> Lookup {
    if m >= tables[t].items@.len() {
        Lookup::Missing
    } else if kind_of(tables[t].items@[m]) == 1 {
        Lookup::Nested { offset: data_off(tables, t, m), size: data_len(tables, t, m) }
    } else {
        Lookup::Value { offset: data_off(tables, t, m), size: data_len(tables, t, m) }
    }
}

/// Items without the key are passed over.
pub proof fn lemma_find_skips(items: Seq<ItemData>, key: Seq<u8>, from: int, to: int)
    requires
        0 <= from <= to <= items.len(),
        forall|m: int| from <= m < to ==> (#[trigger] items[m]).key@ != key,
    ensures
        find_key(items, key, from) == find_key(items, key, to),
    decreases to - from,
{
    if from < to {
        lemma_find_skips(items, key, from + 1, to);
    }
}

/// Where keys are unique, searching for the key of item `i` ends at `i`.
pub proof fn lemma_find_own(items: Seq<ItemData>, i: int)
    requires
        unique_keys(items),
        0 <= i < items.len(),
    ensures
        find_key(items, items[i].key@, 0) == i,
{
    lemma_find_skips(items, items[i].key@, 0, i);
}

/// Where no item has the key, the search ends behind the last item.
pub proof fn lemma_find_none(items: Seq<ItemData>, key: Seq<u8>)
    requires
        !has_key(items, key),
    ensures
        find_key(items, key, 0) == items.len(),
{
    lemma_find_skips(items, key, 0, items.len() as int);
}

/// In a written database every record can be read.
#[verifier::rlimit(50)]
pub proof fn lemma_written_record_ok(tables: Seq<TableData>, root: int, big: bool, t: int, i: int)
    requires
        writable(tables, root),
        0 <= t < tables.len(),
        0 <= i < tables[t].items@.len(),
    ensures
        record_ok(database_bytes(tables, root, big), big, item_off(tables, t, i)),
        rec_key(database_bytes(tables, root, big), big, item_off(tables, t, i))
            == tables[t].items@[i].key@,
        rec_content(database_bytes(tables, root, big), big, item_off(tables, t, i)) == content_at(
            tables,
            t,
            i,
        ),
{
    let buf = database_bytes(tables, root, big);
    let all = tables[t].items@;
    let j = first_in_bucket(all, bucket_of(all, i), i + 1);
    lemma_written_item(tables, root, big, t, i);
    lemma_written_table(tables, root, big, t);
    lemma_item_inside(tables, t, i);
    lemma_item_inside(tables, t, i + 1);
    lemma_first_in_bucket(all, bucket_of(all, i), i + 1);
    lemma_link_range(tables, t, j);
    assert(table_data_ok(tables, t));
    assert(item_data_ok(tables, t, all[i]));
    match all[i].content {
        Content::Table(c) => {
            lemma_table_range(tables, c as int);
        },
        _ => {},
    }
    if j < all.len() {
        lemma_items_size_grows(all, i + 1, j);
    }
    reveal(region);
}

/// In a written database, the chain from an item of the key's bucket on
/// leads to the first item from there on that has the key.
#[verifier::rlimit(50)]
pub proof fn lemma_chain_lookup(
    tables: Seq<TableData>,
    root: int,
    big: bool,
    t: int,
    key: Seq<u8>,
    j: int,
)
    requires
        writable(tables, root),
        0 <= t < tables.len(),
        0 <= j <= tables[t].items@.len(),
        j < tables[t].items@.len() ==> bucket_of(tables[t].items@, j) == key_hash(key) % buckets_for(
            tables[t].items@.len() as int,
        ),
    ensures
        chain_lookup(database_bytes(tables, root, big), big, link(tables, t, j), key_hash(key), key)
            == content_at(tables, t, find_key(tables[t].items@, key, j)),
    decreases tables[t].items@.len() - j,
{
    let buf = database_bytes(tables, root, big);
    let all = tables[t].items@;
    let n = all.len() as int;
    lemma_link_range(tables, t, j);
    if j < n {
        let r = item_off(tables, t, j);
        lemma_written_record_ok(tables, root, big, t, j);
        lemma_written_item(tables, root, big, t, j);
        if all[j].key@ != key {
            let b = bucket_of(all, j);
            let k = first_in_bucket(all, b, j + 1);
            lemma_first_in_bucket(all, b, j + 1);
            lemma_link_range(tables, t, k);
            assert forall|m: int| j + 1 <= m < k implies (#[trigger] all[m]).key@ != key by {
                if all[m].key@ == key {
                    assert(bucket_of(all, m) == b);
                }
            }
            lemma_find_skips(all, key, j + 1, k);
            if k < n {
                lemma_chain_lookup(tables, root, big, t, key, k);
            }
        }
    }
}

/// In a written database, looking a key up in a table leads to the item of
/// that table that has the key, and to nothing where none has it.
#[verifier::rlimit(50)]
pub proof fn lemma_table_lookup(tables: Seq<TableData>, root: int, big: bool, t: int, key: Seq<u8>)
    requires
        writable(tables, root),
        0 <= t < tables.len(),
    ensures
        table_ok(
            database_bytes(tables, root, big),
            big,
            table_off(tables, t),
            table_size(tables[t]),
        ),
        table_lookup(
            database_bytes(tables, root, big),
            big,
            table_off(tables, t),
            table_size(tables[t]),
            key,
        ) == content_at(tables, t, find_key(tables[t].items@, key, 0)),
{
    let buf = database_bytes(tables, root, big);
    let all = tables[t].items@;
    let nb = buckets_for(all.len() as int);
    let b = key_hash(key) % nb;
    let j = first_in_bucket(all, b, 0);
    lemma_written_table(tables, root, big, t);
    lemma_table_range(tables, t);
    lemma_written_head(tables, root, big, t, b);
    lemma_first_in_bucket(all, b, 0);
    assert forall|m: int| 0 <= m < j implies (#[trigger] all[m]).key@ != key by {
        if all[m].key@ == key {
            assert(bucket_of(all, m) == b);
        }
    }
    lemma_find_skips(all, key, 0, j);
    lemma_chain_lookup(tables, root, big, t, key, j);
}

/// The keys of the items at or behind `from` that fall into bucket `b`, in
/// insertion order.
pub open spec fn bucket_keys(items: Seq<ItemData>, b: int, from: int) -> Seq<Seq<u8>>
    decreases items.len() - from,
{
    if from >= items.len() || from < 0 {
        Seq::empty()
    } else if bucket_of(items, from) == b {
        seq![items[from].key@] + bucket_keys(items, b, from + 1)
    } else {
        bucket_keys(items, b, from + 1)
    }
}

/// The keys of a table as its database lists them: bucket by bucket from
/// bucket `b` on, and within a bucket in insertion order.
pub open spec fn keys_by_bucket(items: Seq<ItemData>, b: int) -> Seq<Seq<u8>>
    decreases buckets_for(items.len() as int) - b,
{
    if b >= buckets_for(items.len() as int) {
        Seq::empty()
    } else {
        bucket_keys(items, b, 0) + keys_by_bucket(items, b + 1)
    }
}

/// Items of other buckets add no keys.
pub proof fn lemma_bucket_keys_skip(items: Seq<ItemData>, b: int, from: int, to: int)
    requires
        0 <= from <= to <= items.len(),
        forall|m: int| from <= m < to ==> bucket_of(items, m) != b,
    ensures
        bucket_keys(items, b, from) == bucket_keys(items, b, to),
    decreases to - from,
{
    if from < to {
        lemma_bucket_keys_skip(items, b, from + 1, to);
    }
}

/// In a written database, the chain from an item of bucket `b` on holds
/// the keys of that bucket from that item on.
#[verifier::rlimit(50)]
pub proof fn lemma_chain_names(tables: Seq<TableData>, root: int, big: bool, t: int, b: int, j: int)
    requires
        writable(tables, root),
        0 <= t < tables.len(),
        0 <= j <= tables[t].items@.len(),
        j < tables[t].items@.len() ==> bucket_of(tables[t].items@, j) == b,
    ensures
        chain_names(database_bytes(tables, root, big), big, link(tables, t, j)) == Some(
            bucket_keys(tables[t].items@, b, j),
        ),
    decreases tables[t].items@.len() - j,
{
    let all = tables[t].items@;
    let n = all.len() as int;
    lemma_link_range(tables, t, j);
    if j < n {
        let k = first_in_bucket(all, b, j + 1);
        lemma_written_record_ok(tables, root, big, t, j);
        lemma_written_item(tables, root, big, t, j);
        lemma_first_in_bucket(all, b, j + 1);
        lemma_link_range(tables, t, k);
        lemma_bucket_keys_skip(all, b, j + 1, k);
        if k < n {
            lemma_chain_names(tables, root, big, t, b, k);
        } else {
            assert(seq![all[j].key@] + Seq::<Seq<u8>>::empty() =~= seq![all[j].key@]);
        }
    }
}

/// In a written database, the buckets of a table from `b` on hold the
/// table's keys of those buckets.
pub proof fn lemma_bucket_names(tables: Seq<TableData>, root: int, big: bool, t: int, b: int)
    requires
        writable(tables, root),
        0 <= t < tables.len(),
        0 <= b <= buckets_for(tables[t].items@.len() as int),
    ensures
        bucket_names(database_bytes(tables, root, big), big, table_off(tables, t), b) == Some(
            keys_by_bucket(tables[t].items@, b),
        ),
    decreases buckets_for(tables[t].items@.len() as int) - b,
{
    let all = tables[t].items@;
    let nb = buckets_for(all.len() as int);
    lemma_written_head(tables, root, big, t, 0);
    if b < nb {
        let j = first_in_bucket(all, b, 0);
        lemma_written_head(tables, root, big, t, b);
        lemma_first_in_bucket(all, b, 0);
        lemma_bucket_keys_skip(all, b, 0, j);
        lemma_chain_names(tables, root, big, t, b, j);
        lemma_bucket_names(tables, root, big, t, b + 1);
    }
}

/// In a written database, the names of a table are its keys, bucket by
/// bucket.
pub proof fn lemma_table_names(tables: Seq<TableData>, root: int, big: bool, t: int)
    requires
        writable(tables, root),
        0 <= t < tables.len(),
    ensures
        table_names(
            database_bytes(tables, root, big),
            big,
            table_off(tables, t),
            table_size(tables[t]),
        ) == Some(keys_by_bucket(tables[t].items@, 0)),
{
    lemma_table_lookup(tables, root, big, t, Seq::empty());
    lemma_bucket_names(tables, root, big, t, 0);
}

/// How often `x` occurs in `names`.
pub open spec fn occurrences(names: Seq<Seq<u8>>, x: Seq<u8>) -> int
    decreases names.len(),
{
    if names.len() == 0 {
        0
    } else {
        (if names[0] == x {
            1int
        } else {
            0int
        }) + occurrences(names.subrange(1, names.len() as int), x)
    }
}

/// How many items at or behind `from` have the key `x`.
pub open spec fn key_count(items: Seq<ItemData>, x: Seq<u8>, from: int) -> int
    decreases items.len() - from,
{
    if from >= items.len() || from < 0 {
        0
    } else {
        (if items[from].key@ == x {
            1int
        } else {
            0int
        }) + key_count(items, x, from + 1)
    }
}

/// Occurrences add up over joined lists.
pub proof fn lemma_occurrences_join(a: Seq<Seq<u8>>, b: Seq<Seq<u8>>, x: Seq<u8>)
    ensures
        occurrences(a + b, x) == occurrences(a, x) + occurrences(b, x),
    decreases a.len(),
{
    if a.len() == 0 {
        assert(a + b =~= b);
    } else {
        let rest = a.subrange(1, a.len() as int);
        assert((a + b).subrange(1, (a + b).len() as int) =~= rest + b);
        lemma_occurrences_join(rest, b, x);
    }
}

/// A key occurs among the keys of its own bucket as often as items have
/// it, and among those of another bucket not at all.
pub proof fn lemma_bucket_occurrences(items: Seq<ItemData>, b: int, x: Seq<u8>, from: int)
    requires
        0 <= from <= items.len(),
    ensures
        occurrences(bucket_keys(items, b, from), x) == (if b == key_hash(x) % buckets_for(
            items.len() as int,
        ) {
            key_count(items, x, from)
        } else {
            0
        }),
    decreases items.len() - from,
{
    if from < items.len() {
        lemma_bucket_occurrences(items, b, x, from + 1);
        if bucket_of(items, from) == b {
            let rest = bucket_keys(items, b, from + 1);
            let one = seq![items[from].key@];
            lemma_occurrences_join(one, rest, x);
            assert(one.subrange(1, 1) =~= Seq::<Seq<u8>>::empty());
            assert(occurrences(one, x) == (if items[from].key@ == x {
                1int
            } else {
                0int
            }) + occurrences(one.subrange(1, 1), x));
        }
    }
}

/// A key occurs among the keys of the buckets from `b` on as often as
/// items have it, if its own bucket is among them, and else not at all.
pub proof fn lemma_keys_occurrences(items: Seq<ItemData>, b: int, x: Seq<u8>)
    requires
        0 <= b <= buckets_for(items.len() as int),
    ensures
        occurrences(keys_by_bucket(items, b), x) == (if b <= key_hash(x) % buckets_for(
            items.len() as int,
        ) {
            key_count(items, x, 0)
        } else {
            0
        }),
    decreases buckets_for(items.len() as int) - b,
{
    if b < buckets_for(items.len() as int) {
        lemma_keys_occurrences(items, b + 1, x);
        lemma_bucket_occurrences(items, b, x, 0);
        lemma_occurrences_join(bucket_keys(items, b, 0), keys_by_bucket(items, b + 1), x);
    }
}

/// Behind the last item that has the key, no item counts.
pub proof fn lemma_key_count_none(items: Seq<ItemData>, x: Seq<u8>, from: int)
    requires
        0 <= from <= items.len(),
        forall|m: int| from <= m < items.len() ==> (#[trigger] items[m]).key@ != x,
    ensures
        key_count(items, x, from) == 0,
    decreases items.len() - from,
{
    if from < items.len() {
        lemma_key_count_none(items, x, from + 1);
    }
}

/// Where keys are unique, the key of item `i` counts once.
pub proof fn lemma_key_count_one(items: Seq<ItemData>, i: int, from: int)
    requires
        unique_keys(items),
        0 <= from <= i < items.len(),
    ensures
        key_count(items, items[i].key@, from) == 1,
    decreases i - from,
{
    if from < i {
        lemma_key_count_one(items, i, from + 1);
    } else {
        lemma_key_count_none(items, items[i].key@, i + 1);
    }
}

} // verus!
