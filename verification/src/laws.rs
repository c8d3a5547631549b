//! The laws of the library: what holds between writing a database and
//! reading it.
use vstd::prelude::*;
use crate::arena::{
    BuildError, Content, TableData, TableId, has_key, insert_error, item_data_ok, table_data_ok,
};
use crate::encoding::{
    lemma_first_in_bucket, lemma_link_range, lemma_table_range, lemma_written_head,
    lemma_written_header, lemma_written_item, lemma_written_table, region, writable,
};
use crate::format::buckets_for;
use crate::layout::{
    bucket_of, data_len, data_off, database_bytes, first_in_bucket, items_start, lemma_item_inside,
    lemma_tables_size_grows, link, payload_of, table_off, table_size,
};
use crate::lookup::{
    keys_by_bucket, lemma_key_count_none, lemma_key_count_one, lemma_keys_occurrences,
    lemma_table_names, occurrences,
    lemma_find_none, lemma_find_own, lemma_table_lookup, lemma_written_record_ok,
};
use crate::reader::{
    bucket_names, chain_names, header_big, header_error, header_root, open_error, table_buckets,
    table_head, table_lookup, table_names, table_ok, valid_buckets, valid_chain, valid_table,
    Lookup, ReadError, Table,
};

verus! {

/// In a written database, the chain from item `j` of table `t` on is
/// sound.
#[verifier::rlimit(50)]
pub proof fn lemma_valid_chain(tables: Seq<TableData>, root: int, big: bool, t: int, j: int)
    requires
        writable(tables, root),
        0 <= t < tables.len(),
        0 <= j <= tables[t].items@.len(),
    ensures
        valid_chain(
            database_bytes(tables, root, big),
            big,
            table_off(tables, t) + items_start(tables[t].items@),
            table_off(tables, t) + table_size(tables[t]),
            link(tables, t, j),
        ),
    decreases tables.len() - t, 0int, tables[t].items@.len() - j,
{
    let all = tables[t].items@;
    lemma_link_range(tables, t, j);
    if j < all.len() {
        let k = first_in_bucket(all, bucket_of(all, j), j + 1);
        lemma_written_record_ok(tables, root, big, t, j);
        lemma_written_item(tables, root, big, t, j);
        lemma_written_table(tables, root, big, t);
        lemma_table_range(tables, t);
        lemma_item_inside(tables, t, j);
        lemma_item_inside(tables, t, j + 1);
        lemma_first_in_bucket(all, bucket_of(all, j), j + 1);
        lemma_link_range(tables, t, k);
        assert(table_data_ok(tables, t));
        assert(item_data_ok(tables, t, all[j]));
        match all[j].content {
            Content::Table(c) => {
                lemma_table_range(tables, c as int);
                lemma_tables_size_grows(tables, t + 1, c as int);
                lemma_valid_table(tables, root, big, c as int);
            },
            _ => {},
        }
        if k < all.len() {
            lemma_valid_chain(tables, root, big, t, k);
        }
    }
}

/// In a written database every table can be read, and every chain head
/// of it is zero or lies behind the table's start and inside the buffer.
#[verifier::rlimit(50)]
pub proof fn lemma_written_head_range(tables: Seq<TableData>, root: int, big: bool, t: int, b: int)
    requires
        writable(tables, root),
        0 <= t < tables.len(),
        0 <= b < buckets_for(tables[t].items@.len() as int),
    ensures
        table_ok(
            database_bytes(tables, root, big),
            big,
            table_off(tables, t),
            table_size(tables[t]),
        ),
        table_buckets(database_bytes(tables, root, big), big, table_off(tables, t)) == buckets_for(
            tables[t].items@.len() as int,
        ),
        table_head(database_bytes(tables, root, big), big, table_off(tables, t), b) == link(
            tables,
            t,
            first_in_bucket(tables[t].items@, b, 0),
        ),
        0 <= first_in_bucket(tables[t].items@, b, 0) <= tables[t].items@.len(),
        link(tables, t, first_in_bucket(tables[t].items@, b, 0)) != 0 ==> table_off(tables, t) < link(
            tables,
            t,
            first_in_bucket(tables[t].items@, b, 0),
        ) <= database_bytes(tables, root, big).len(),
{
    let all = tables[t].items@;
    let j = first_in_bucket(all, b, 0);
    lemma_table_lookup(tables, root, big, t, Seq::empty());
    lemma_written_head(tables, root, big, t, b);
    lemma_written_table(tables, root, big, t);
    lemma_first_in_bucket(all, b, 0);
    lemma_link_range(tables, t, j);
    if j < all.len() {
        lemma_item_inside(tables, t, j);
    }
}

/// In a written database, the chains of the buckets of table `t` from `b`
/// on are sound.
#[verifier::rlimit(50)]
pub proof fn lemma_valid_buckets(tables: Seq<TableData>, root: int, big: bool, t: int, b: int)
    requires
        writable(tables, root),
        0 <= t < tables.len(),
        0 <= b <= buckets_for(tables[t].items@.len() as int),
    ensures
        valid_buckets(
            database_bytes(tables, root, big),
            big,
            table_off(tables, t),
            table_size(tables[t]),
            b,
        ),
    decreases tables.len() - t, 1int, buckets_for(tables[t].items@.len() as int) - b,
{
    let all = tables[t].items@;
    let nb = buckets_for(all.len() as int);
    lemma_written_head_range(tables, root, big, t, 0);
    if b < nb {
        lemma_written_head_range(tables, root, big, t, b);
        lemma_valid_chain(tables, root, big, t, first_in_bucket(all, b, 0));
        lemma_valid_buckets(tables, root, big, t, b + 1);
    }
}

/// In a written database every table is sound.
pub proof fn lemma_valid_table(tables: Seq<TableData>, root: int, big: bool, t: int)
    requires
        writable(tables, root),
        0 <= t < tables.len(),
    ensures
        valid_table(
            database_bytes(tables, root, big),
            big,
            table_off(tables, t),
            table_size(tables[t]),
        ),
    decreases tables.len() - t, 2int, 0int,
{
    lemma_table_lookup(tables, root, big, t, Seq::empty());
    lemma_valid_buckets(tables, root, big, t, 0);
}

/// A written database can be opened, trusted or not, and its header gives
/// the byte order it was written in and the region of its root table.
pub proof fn law_written_database_opens(tables: Seq<TableData>, root: int, big: bool, trusted: bool)
    requires
        writable(tables, root),
    ensures
        open_error(database_bytes(tables, root, big), trusted) is None,
        header_big(database_bytes(tables, root, big)) == big,
        header_root(database_bytes(tables, root, big)).offset == table_off(tables, root),
        header_root(database_bytes(tables, root, big)).size == table_size(tables[root]),
{
    lemma_written_header(tables, root, big);
    lemma_table_range(tables, root);
    lemma_tables_size_grows(tables, 0, tables.len() as int);
    lemma_valid_table(tables, root, big, root);
}

/// Round trip: in a written database, looking up the key of an item in
/// its table gives a payload region that holds the item's payload byte for
/// byte, or, for an item bound to a table, the region of that table. A
/// payload of no bytes is found like any other.
pub proof fn law_round_trip(tables: Seq<TableData>, root: int, big: bool, t: int, i: int)
    requires
        writable(tables, root),
        0 <= t < tables.len(),
        0 <= i < tables[t].items@.len(),
    ensures
        match tables[t].items@[i].content {
            Content::Table(c) => table_lookup(
                database_bytes(tables, root, big),
                big,
                table_off(tables, t),
                table_size(tables[t]),
                tables[t].items@[i].key@,
            ) == (Lookup::Nested {
                offset: table_off(tables, c as int),
                size: table_size(tables[c as int]),
            }),
            _ => {
                &&& table_lookup(
                    database_bytes(tables, root, big),
                    big,
                    table_off(tables, t),
                    table_size(tables[t]),
                    tables[t].items@[i].key@,
                ) == (Lookup::Value {
                    offset: data_off(tables, t, i),
                    size: payload_of(tables[t].items@[i]).len() as int,
                })
                &&& database_bytes(tables, root, big).subrange(
                    data_off(tables, t, i),
                    data_off(tables, t, i) + payload_of(tables[t].items@[i]).len(),
                ) == payload_of(tables[t].items@[i])
            },
        },
{
    let all = tables[t].items@;
    assert(table_data_ok(tables, t));
    lemma_find_own(all, i);
    lemma_table_lookup(tables, root, big, t, all[i].key@);
    lemma_written_item(tables, root, big, t, i);
    reveal(region);
}

/// In a written database, a key that no item of a table has is not found
/// in that table. In particular nothing is found in a table without
/// items, and a key of one table is not found in another that lacks it.
pub proof fn law_absent_key(tables: Seq<TableData>, root: int, big: bool, t: int, key: Seq<u8>)
    requires
        writable(tables, root),
        0 <= t < tables.len(),
        !has_key(tables[t].items@, key),
    ensures
        table_lookup(
            database_bytes(tables, root, big),
            big,
            table_off(tables, t),
            table_size(tables[t]),
            key,
        ) == Lookup::Missing,
{
    lemma_find_none(tables[t].items@, key);
    lemma_table_lookup(tables, root, big, t, key);
}

/// The two byte orders give the same lookups: whatever the key, the
/// little-endian and the big-endian database of one arena lead to the same
/// region, and for an item with a payload both hold the same bytes there.
pub proof fn law_byte_order(tables: Seq<TableData>, root: int, t: int, key: Seq<u8>)
    requires
        writable(tables, root),
        0 <= t < tables.len(),
    ensures
        table_lookup(
            database_bytes(tables, root, true),
            true,
            table_off(tables, t),
            table_size(tables[t]),
            key,
        ) == table_lookup(
            database_bytes(tables, root, false),
            false,
            table_off(tables, t),
            table_size(tables[t]),
            key,
        ),
        forall|i: int|
            0 <= i < tables[t].items@.len() && !(tables[t].items@[i].content is Table) ==> (
            #[trigger] data_off(tables, t, i)) >= 0 && database_bytes(tables, root, true).subrange(
                data_off(tables, t, i),
                data_off(tables, t, i) + data_len(tables, t, i),
            ) == database_bytes(tables, root, false).subrange(
                data_off(tables, t, i),
                data_off(tables, t, i) + data_len(tables, t, i),
            ),
{
    lemma_table_lookup(tables, root, true, t, key);
    lemma_table_lookup(tables, root, false, t, key);
    assert forall|i: int|
        0 <= i < tables[t].items@.len() && !(tables[t].items@[i].content is Table) implies (
        #[trigger] data_off(tables, t, i)) >= 0 && database_bytes(tables, root, true).subrange(
        data_off(tables, t, i),
        data_off(tables, t, i) + data_len(tables, t, i),
    ) == database_bytes(tables, root, false).subrange(
        data_off(tables, t, i),
        data_off(tables, t, i) + data_len(tables, t, i),
    ) by {
        lemma_written_item(tables, root, true, t, i);
        lemma_written_item(tables, root, false, t, i);
        lemma_item_inside(tables, t, i);
        reveal(region);
    }
}

/// A table that some chain head of it leaves the buffer is not sound.
pub proof fn law_head_past_end(buf: Seq<u8>, big: bool, toff: int, tsize: int, b: int)
    requires
        table_ok(buf, big, toff, tsize),
        0 <= b < table_buckets(buf, big, toff),
        table_head(buf, big, toff, b) > buf.len(),
    ensures
        !valid_table(buf, big, toff, tsize),
{
    if valid_table(buf, big, toff, tsize) {
        lemma_valid_buckets_from(buf, big, toff, tsize, 0, b);
    }
}

/// Where the buckets from `from` on are sound, so are those from any later
/// one on.
pub proof fn lemma_valid_buckets_from(buf: Seq<u8>, big: bool, toff: int, tsize: int, from: int, b: int)
    requires
        0 <= from <= b,
        valid_buckets(buf, big, toff, tsize, from),
    ensures
        valid_buckets(buf, big, toff, tsize, b),
    decreases b - from,
{
    if from < b && table_ok(buf, big, toff, tsize) && from < table_buckets(buf, big, toff) {
        lemma_valid_buckets_from(buf, big, toff, tsize, from + 1, b);
    }
}

/// A buffer whose header is in order, and whose root table has a chain
/// head that leaves the buffer, is refused as corrupt when it is opened
/// untrusted.
pub proof fn law_untrusted_open_refuses_wild_head(buf: Seq<u8>, b: int)
    requires
        header_error(buf) is None,
        table_ok(buf, header_big(buf), header_root(buf).offset as int, header_root(buf).size as int),
        0 <= b < table_buckets(buf, header_big(buf), header_root(buf).offset as int),
        table_head(buf, header_big(buf), header_root(buf).offset as int, b) > buf.len(),
    ensures
        open_error(buf, false) == Some(ReadError::CorruptStructure),
{
    law_head_past_end(
        buf,
        header_big(buf),
        header_root(buf).offset as int,
        header_root(buf).size as int,
        b,
    );
}

/// In a written database, a table without items has no names.
pub proof fn law_empty_table_has_no_names(tables: Seq<TableData>, root: int, big: bool, t: int)
    requires
        writable(tables, root),
        0 <= t < tables.len(),
        tables[t].items@.len() == 0,
    ensures
        table_names(
            database_bytes(tables, root, big),
            big,
            table_off(tables, t),
            table_size(tables[t]),
        ) == Some(Seq::<Seq<u8>>::empty()),
{
    let buf = database_bytes(tables, root, big);
    lemma_table_lookup(tables, root, big, t, Seq::empty());
    lemma_written_head(tables, root, big, t, 0);
    assert(bucket_names(buf, big, table_off(tables, t), 1) == Some(Seq::<Seq<u8>>::empty()));
    assert(chain_names(buf, big, 0) == Some(Seq::<Seq<u8>>::empty()));
    assert(Seq::<Seq<u8>>::empty() + Seq::<Seq<u8>>::empty() =~= Seq::<Seq<u8>>::empty());
}

/// In a written database, the names of a table are listed bucket by
/// bucket, and each key of the table is among them exactly once, and
/// nothing else is.
pub proof fn law_names_list_each_key_once(
    tables: Seq<TableData>,
    root: int,
    big: bool,
    t: int,
    key: Seq<u8>,
)
    requires
        writable(tables, root),
        0 <= t < tables.len(),
    ensures
        table_names(
            database_bytes(tables, root, big),
            big,
            table_off(tables, t),
            table_size(tables[t]),
        ) == Some(keys_by_bucket(tables[t].items@, 0)),
        occurrences(keys_by_bucket(tables[t].items@, 0), key) == (if has_key(tables[t].items@, key) {
            1int
        } else {
            0int
        }),
{
    let all = tables[t].items@;
    lemma_table_names(tables, root, big, t);
    lemma_keys_occurrences(all, 0, key);
    assert(table_data_ok(tables, t));
    if has_key(all, key) {
        let i = choose|i: int| 0 <= i < all.len() && #[trigger] all[i].key@ == key;
        lemma_key_count_one(all, i, 0);
    } else {
        lemma_key_count_none(all, key, 0);
    }
}

/// A key that a table holds cannot be inserted into that table again.
pub proof fn law_duplicate_key_is_refused(tables: Seq<TableData>, table: TableId, key: Seq<u8>)
    requires
        table.0 < tables.len(),
        has_key(tables[table.0 as int].items@, key),
        key.len() > 0,
    ensures
        insert_error(tables, table, key) == Some(BuildError::DuplicateKey),
{
}

/// Whether a key can be inserted into a table depends on that table
/// alone: a key that the table lacks can be inserted, whichever other
/// tables, nested in it or not, hold the same key.
pub proof fn law_insert_is_per_table(tables: Seq<TableData>, table: TableId, key: Seq<u8>)
    requires
        table.0 < tables.len(),
        !has_key(tables[table.0 as int].items@, key),
        key.len() > 0,
    ensures
        insert_error(tables, table, key) is None,
{
}

} // verus!
