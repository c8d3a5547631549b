//! Building a database in memory: an arena of tables, each a list of items
//! under unique keys, addressed by handles. Tables and items refer to one
//! another by index, so that a link to a parent owns nothing.
use vstd::prelude::*;
use crate::layout::{database_bytes, database_size, write_database};

verus! {

/// Why a construction step was refused.
#[derive(Clone, Copy, Debug, PartialEq, Eq, Structural)]
pub enum BuildError {
    /// The table already holds an item under the key.
    DuplicateKey,
    /// The item already holds content of the other kind.
    ItemAlreadyBound,
    /// The key is empty.
    EmptyKey,
    /// A handle names no table or item of this builder.
    InvalidHandle,
    /// The table to nest was not created after the table that owns the item.
    InvalidNesting,
    /// The database would not fit 32-bit offsets.
    TooLarge,
}

/// Handle of a table of a builder.
#[derive(Clone, Copy, Debug, PartialEq, Eq, Structural)]
pub struct TableId(pub usize);

/// Handle of an item: its table and its place among that table's items.
#[derive(Clone, Copy, Debug, PartialEq, Eq, Structural)]
pub struct ItemId {
    pub table: usize,
    pub index: usize,
}

/// What an item holds.
pub enum Content {
    /// Nothing yet. It is written as a payload of no bytes.
    Unbound,
    /// An opaque payload.
    Value(Vec<u8>),
    /// The nested table with this index in the arena.
    Table(usize),
}

/// One entry of a table.
pub struct ItemData {
    pub key: Vec<u8>,
    pub content: Content,
    /// Construction-time link to another item; it is not written.
    pub parent: Option<ItemId>,
}

/// One table of the arena.
pub struct TableData {
    /// Construction-time link to the table it was created under; it is
    /// not written.
    pub parent: Option<TableId>,
    pub items: Vec<ItemData>,
}

/// Tells whether two byte strings are equal.
pub(crate) fn same_bytes(a: &[u8], b: &[u8]) -> (r: bool)
    ensures
        r == (a@ == b@),
{
    if a.len() != b.len() {
        return false;
    }
    let mut i: usize = 0;
    while i < a.len()
        invariant
            i <= a@.len(),
            a@.len() == b@.len(),
            forall|j: int| 0 <= j < i ==> a@[j] == b@[j],
        decreases a@.len() - i,
    {
        if a[i] != b[i] {
            return false;
        }
        i += 1;
    }
    assert(a@ =~= b@);
    true
}

/// Copies a byte string.
pub(crate) fn copy_bytes(a: &[u8]) -> (r: Vec<u8>)
    ensures
        r@ == a@,
{
    let mut r: Vec<u8> = Vec::new();
    let mut i: usize = 0;
    while i < a.len()
        invariant
            i <= a@.len(),
            r@ == a@.take(i as int),
        decreases a@.len() - i,
    {
        r.push(a[i]);
        assert(r@ =~= a@.take(i + 1));
        i += 1;
    }
    assert(a@.take(i as int) =~= a@);
    r
}

/// Whether `items` holds an item under `key`.
pub open spec fn has_key(items: Seq<ItemData>, key: Seq<u8>) -> bool {
    exists|i: int| 0 <= i < items.len() && #[trigger] items[i].key@ == key
}

/// No two items of `items` share a key.
pub open spec fn unique_keys(items: Seq<ItemData>) -> bool {
    forall|i: int, j: int| 0 <= i < j < items.len() ==> #[trigger] items[i].key@ != #[trigger] items[j].key@
}

/// The tables form a sound arena: keys are unique and not empty within each
/// table, and a nested table comes after the table that holds the item.
pub open spec fn arena_ok(tables: Seq<TableData>) -> bool {
    forall|t: int| 0 <= t < tables.len() ==> #[trigger] table_data_ok(tables, t)
}

pub open spec fn table_data_ok(tables: Seq<TableData>, t: int) -> bool {
    &&& unique_keys(tables[t].items@)
    &&& forall|i: int|
        0 <= i < tables[t].items@.len() ==> #[trigger] item_data_ok(tables, t, tables[t].items@[i])
}

pub open spec fn item_data_ok(tables: Seq<TableData>, t: int, item: ItemData) -> bool {
    &&& item.key@.len() > 0
    &&& (item.content matches Content::Table(c) ==> t < c < tables.len())
}

/// An arena of tables under construction.
pub struct HashTableBuilder {
    tables: Vec<TableData>,
}

impl HashTableBuilder {
    /// The tables of the arena, by index.
    pub closed spec fn tables(&self) -> Seq<TableData> {
        self.tables@
    }

    /// The invariant of a builder.
    pub open spec fn wf(&self) -> bool {
        arena_ok(self.tables())
    }

    /// A builder without tables.
    pub fn new() -> (b: HashTableBuilder)
        ensures
            b.wf(),
            b.tables().len() == 0,
    {
        HashTableBuilder { tables: Vec::new() }
    }

    /// Adds an empty table to the arena and returns its handle. `parent`
    /// is kept as a construction-time link and checked against nothing.
    pub fn new_table(&mut self, parent: Option<TableId>) -> (id: TableId)
        requires
            old(self).wf(),
        ensures
            final(self).wf(),
            id.0 == old(self).tables().len(),
            final(self).tables().len() == old(self).tables().len() + 1,
            forall|t: int|
                0 <= t < old(self).tables().len() ==> final(self).tables()[t] == old(self).tables()[t],
            final(self).tables()[id.0 as int].items@.len() == 0,
            final(self).tables()[id.0 as int].parent == parent,
    {
        let id = TableId(self.tables.len());
        self.tables.push(TableData { parent, items: Vec::new() });
        proof {
            assert forall|t: int| 0 <= t < self.tables@.len() implies #[trigger] table_data_ok(
                self.tables@,
                t,
            ) by {
                if t < old(self).tables@.len() {
                    assert(table_data_ok(old(self).tables@, t));
                    assert forall|i: int| 0 <= i < self.tables@[t].items@.len() implies #[trigger] item_data_ok(
                        self.tables@, t, self.tables@[t].items@[i]) by {
                        assert(item_data_ok(old(self).tables@, t, old(self).tables@[t].items@[i]));
                    }
                }
            }
        }
        id
    }

    /// Number of tables in the arena.
    pub fn table_count(&self) -> (n: usize)
        ensures
            n == self.tables().len(),
    {
        self.tables.len()
    }

    /// Number of items of `table`, or zero where the handle names none.
    pub fn item_count(&self, table: TableId) -> (n: usize)
        ensures
            n == (if table.0 < self.tables().len() {
                self.tables()[table.0 as int].items@.len()
            } else {
                0
            }),
    {
        if table.0 < self.tables.len() {
            self.tables[table.0].items.len()
        } else {
            0
        }
    }

    /// Inserts a new, unbound item under `key` into `table`.
    ///
    /// It is refused in exactly the cases that [`insert_error`] names, and
    /// the arena is then unchanged. Otherwise the item is appended to the
    /// table, and every other item and table stays as it was.
    pub fn insert(&mut self, table: TableId, key: &[u8]) -> (r: Result<ItemId, BuildError>)
        requires
            old(self).wf(),
        ensures
            final(self).wf(),
            match r {
                Ok(id) => {
                    &&& insert_error(old(self).tables(), table, key@) is None
                    &&& id.table == table.0
                    &&& id.index == old(self).tables()[table.0 as int].items@.len()
                    &&& same_except_table(old(self).tables(), final(self).tables(), table.0 as int)
                    &&& final(self).tables()[table.0 as int].items@.len() == id.index + 1
                    &&& same_except_item(
                        old(self).tables()[table.0 as int].items@,
                        final(self).tables()[table.0 as int].items@.take(id.index as int),
                        id.index as int,
                    )
                    &&& final(self).tables()[table.0 as int].items@[id.index as int].key@ == key@
                    &&& final(self).tables()[table.0 as int].items@[id.index as int].content is Unbound
                    &&& final(self).tables()[table.0 as int].items@[id.index as int].parent is None
                },
                Err(e) => insert_error(old(self).tables(), table, key@) == Some(e) && final(self).tables() == old(self).tables(),
            },
    {
        if table.0 >= self.tables.len() {
            return Err(BuildError::InvalidHandle);
        }
        if key.len() == 0 {
            return Err(BuildError::EmptyKey);
        }
        let count: usize = self.tables[table.0].items.len();
        let mut i: usize = 0;
        while i < count
            invariant
                i <= count,
                table.0 < self.tables@.len(),
                count == self.tables@[table.0 as int].items@.len(),
                self.tables@ == old(self).tables@,
                old(self).wf(),
                key@.len() > 0,
                forall|j: int| 0 <= j < i ==> (#[trigger] self.tables@[table.0 as int].items@[j]).key@ != key@,
            decreases count - i,
        {
            if same_bytes(self.tables[table.0].items[i].key.as_slice(), key) {
                return Err(BuildError::DuplicateKey);
            }
            i += 1;
        }
        let item = ItemData { key: copy_bytes(key), content: Content::Unbound, parent: None };
        self.tables[table.0].items.push(item);
        proof {
            let t = table.0 as int;
            let old_tables = old(self).tables@;
            let new_tables = self.tables@;
            assert(same_except_table(old_tables, new_tables, t));
            assert(new_tables[t].items@.take(count as int) =~= old_tables[t].items@);
            assert(table_data_ok(old_tables, t));
            lemma_arena_kept(old_tables, new_tables, t);
        }
        Ok(ItemId { table: table.0, index: count })
    }

    /// Binds `item` to an opaque payload, in place of an earlier payload
    /// if there is one.
    ///
    /// It is refused in exactly the cases that [`set_value_error`] names,
    /// and the arena is then unchanged.
    pub fn set_value(&mut self, item: ItemId, payload: Vec<u8>) -> (r: Result<(), BuildError>)
        requires
            old(self).wf(),
        ensures
            final(self).wf(),
            match r {
                Ok(()) => {
                    &&& set_value_error(old(self).tables(), item) is None
                    &&& same_except_table(old(self).tables(), final(self).tables(), item.table as int)
                    &&& same_except_item(
                        old(self).tables()[item.table as int].items@,
                        final(self).tables()[item.table as int].items@,
                        item.index as int,
                    )
                    &&& final(self).tables()[item.table as int].items@[item.index as int].key
                        == old(self).tables()[item.table as int].items@[item.index as int].key
                    &&& final(self).tables()[item.table as int].items@[item.index as int].parent
                        == old(self).tables()[item.table as int].items@[item.index as int].parent
                    &&& final(self).tables()[item.table as int].items@[item.index as int].content
                        == Content::Value(payload)
                },
                Err(e) => set_value_error(old(self).tables(), item) == Some(e) && final(self).tables() == old(self).tables(),
            },
    {
        if item.table >= self.tables.len() || item.index >= self.tables[item.table].items.len() {
            return Err(BuildError::InvalidHandle);
        }
        if let Content::Table(_) = self.tables[item.table].items[item.index].content {
            return Err(BuildError::ItemAlreadyBound);
        }
        self.tables[item.table].items[item.index].content = Content::Value(payload);
        proof {
            let t = item.table as int;
            assert(table_data_ok(old(self).tables@, t));
            assert(item_data_ok(old(self).tables@, t, old(self).tables@[t].items@[item.index as int]));
            lemma_arena_kept(old(self).tables@, self.tables@, t);
        }
        Ok(())
    }

    /// Binds `item` to the nested table `table`, in place of an earlier
    /// nested table if there is one.
    ///
    /// It is refused in exactly the cases that [`set_table_error`] names,
    /// and the arena is then unchanged.
    pub fn set_table(&mut self, item: ItemId, table: TableId) -> (r: Result<(), BuildError>)
        requires
            old(self).wf(),
        ensures
            final(self).wf(),
            match r {
                Ok(()) => {
                    &&& set_table_error(old(self).tables(), item, table) is None
                    &&& same_except_table(old(self).tables(), final(self).tables(), item.table as int)
                    &&& same_except_item(
                        old(self).tables()[item.table as int].items@,
                        final(self).tables()[item.table as int].items@,
                        item.index as int,
                    )
                    &&& final(self).tables()[item.table as int].items@[item.index as int].key
                        == old(self).tables()[item.table as int].items@[item.index as int].key
                    &&& final(self).tables()[item.table as int].items@[item.index as int].parent
                        == old(self).tables()[item.table as int].items@[item.index as int].parent
                    &&& final(self).tables()[item.table as int].items@[item.index as int].content
                        == Content::Table(table.0)
                },
                Err(e) => set_table_error(old(self).tables(), item, table) == Some(e) && final(self).tables() == old(self).tables(),
            },
    {
        if item.table >= self.tables.len() || item.index >= self.tables[item.table].items.len()
            || table.0 >= self.tables.len() {
            return Err(BuildError::InvalidHandle);
        }
        if let Content::Value(_) = self.tables[item.table].items[item.index].content {
            return Err(BuildError::ItemAlreadyBound);
        }
        if table.0 <= item.table {
            return Err(BuildError::InvalidNesting);
        }
        self.tables[item.table].items[item.index].content = Content::Table(table.0);
        proof {
            let t = item.table as int;
            assert(table_data_ok(old(self).tables@, t));
            assert(item_data_ok(old(self).tables@, t, old(self).tables@[t].items@[item.index as int]));
            lemma_arena_kept(old(self).tables@, self.tables@, t);
        }
        Ok(())
    }

    /// Writes the arena as a database whose root is `root`, with its
    /// integer fields in big-endian order if `big` is set and in
    /// little-endian order otherwise. Every table of the arena is written,
    /// in the order of the handles, whether the root leads to it or not.
    ///
    /// The bytes are [`database_bytes`] exactly. It is refused with
    /// [`BuildError::InvalidHandle`] exactly where `root` names no table, and
    /// else with [`BuildError::TooLarge`] exactly where the database would
    /// take more bytes than a 32-bit offset can address.
    pub fn serialize(&self, root: TableId, big: bool) -> (r: Result<Vec<u8>, BuildError>)
        requires
            self.wf(),
        ensures
            match r {
                Ok(out) => serialize_error(self.tables(), root) is None && out@ == database_bytes(
                    self.tables(),
                    root.0 as int,
                    big,
                ),
                Err(e) => serialize_error(self.tables(), root) == Some(e),
            },
    {
        if root.0 >= self.tables.len() {
            return Err(BuildError::InvalidHandle);
        }
        write_database(&self.tables, root.0, big)
    }

    /// Records `other` as the construction-time parent of `item`. Nothing
    /// that is written depends on it.
    ///
    /// It is refused with [`BuildError::InvalidHandle`] exactly where one of
    /// the two handles names no item, and the arena is then unchanged.
    pub fn set_parent(&mut self, item: ItemId, other: ItemId) -> (r: Result<(), BuildError>)
        requires
            old(self).wf(),
        ensures
            final(self).wf(),
            match r {
                Ok(()) => {
                    &&& item_exists(old(self).tables(), item)
                    &&& item_exists(old(self).tables(), other)
                    &&& same_except_table(old(self).tables(), final(self).tables(), item.table as int)
                    &&& same_except_item(
                        old(self).tables()[item.table as int].items@,
                        final(self).tables()[item.table as int].items@,
                        item.index as int,
                    )
                    &&& final(self).tables()[item.table as int].items@[item.index as int].key
                        == old(self).tables()[item.table as int].items@[item.index as int].key
                    &&& final(self).tables()[item.table as int].items@[item.index as int].content
                        == old(self).tables()[item.table as int].items@[item.index as int].content
                    &&& final(self).tables()[item.table as int].items@[item.index as int].parent
                        == Some(other)
                },
                Err(e) => e == BuildError::InvalidHandle && !(item_exists(old(self).tables(), item)
                    && item_exists(old(self).tables(), other)) && final(self).tables() == old(self).tables(),
            },
    {
        if item.table >= self.tables.len() || item.index >= self.tables[item.table].items.len() {
            return Err(BuildError::InvalidHandle);
        }
        if other.table >= self.tables.len() || other.index >= self.tables[other.table].items.len() {
            return Err(BuildError::InvalidHandle);
        }
        self.tables[item.table].items[item.index].parent = Some(other);
        proof {
            let t = item.table as int;
            assert(table_data_ok(old(self).tables@, t));
            assert(item_data_ok(old(self).tables@, t, old(self).tables@[t].items@[item.index as int]));
            lemma_arena_kept(old(self).tables@, self.tables@, t);
        }
        Ok(())
    }
}

/// Whether `item` names an item of the arena.
pub open spec fn item_exists(tables: Seq<TableData>, item: ItemId) -> bool {
    item.table < tables.len() && item.index < tables[item.table as int].items@.len()
}

/// Why an insertion is refused, if it is.
pub open spec fn insert_error(tables: Seq<TableData>, table: TableId, key: Seq<u8>) -> Option<BuildError> {
    if table.0 >= tables.len() {
        Some(BuildError::InvalidHandle)
    } else if key.len() == 0 {
        Some(BuildError::EmptyKey)
    } else if has_key(tables[table.0 as int].items@, key) {
        Some(BuildError::DuplicateKey)
    } else {
        None
    }
}

/// Why writing the arena is refused, if it is.
pub open spec fn serialize_error(tables: Seq<TableData>, root: TableId) -> Option<BuildError> {
    if root.0 >= tables.len() {
        Some(BuildError::InvalidHandle)
    } else if database_size(tables) > u32::MAX {
        Some(BuildError::TooLarge)
    } else {
        None
    }
}

/// Why binding a payload is refused, if it is.
pub open spec fn set_value_error(tables: Seq<TableData>, item: ItemId) -> Option<BuildError> {
    if !item_exists(tables, item) {
        Some(BuildError::InvalidHandle)
    } else if tables[item.table as int].items@[item.index as int].content is Table {
        Some(BuildError::ItemAlreadyBound)
    } else {
        None
    }
}

/// Why binding a nested table is refused, if it is.
pub open spec fn set_table_error(tables: Seq<TableData>, item: ItemId, table: TableId) -> Option<BuildError> {
    if !item_exists(tables, item) || table.0 >= tables.len() {
        Some(BuildError::InvalidHandle)
    } else if tables[item.table as int].items@[item.index as int].content is Value {
        Some(BuildError::ItemAlreadyBound)
    } else if table.0 <= item.table {
        Some(BuildError::InvalidNesting)
    } else {
        None
    }
}

/// The arena has as many tables as before, and each but `t` is unchanged;
/// table `t` keeps its parent link.
pub open spec fn same_except_table(before: Seq<TableData>, after: Seq<TableData>, t: int) -> bool {
    &&& 0 <= t < before.len()
    &&& after.len() == before.len()
    &&& after[t].parent == before[t].parent
    &&& forall|u: int| 0 <= u < before.len() && u != t ==> after[u] == before[u]
}

/// The table has as many items as before, and each but the one at `i` is
/// unchanged.
pub open spec fn same_except_item(before: Seq<ItemData>, after: Seq<ItemData>, i: int) -> bool {
    &&& after.len() == before.len()
    &&& forall|j: int| 0 <= j < before.len() && j != i ==> after[j] == before[j]
}

/// A change to table `t` that keeps every key, adds only new keys and sound
/// items, keeps the arena sound.
proof fn lemma_arena_kept(before: Seq<TableData>, after: Seq<TableData>, t: int)
    requires
        arena_ok(before),
        same_except_table(before, after, t),
        unique_keys(after[t].items@),
        forall|i: int|
            0 <= i < after[t].items@.len() ==> (i < before[t].items@.len() && (
            #[trigger] after[t].items@[i]) == before[t].items@[i]) || item_data_ok(
                after,
                t,
                after[t].items@[i],
            ),
    ensures
        arena_ok(after),
{
    assert(table_data_ok(before, t));
    assert forall|i: int| 0 <= i < after[t].items@.len() implies #[trigger] item_data_ok(
        after,
        t,
        after[t].items@[i],
    ) by {
        if i < before[t].items@.len() && after[t].items@[i] == before[t].items@[i] {
            assert(item_data_ok(before, t, before[t].items@[i]));
        }
    }
    assert forall|u: int| 0 <= u < after.len() implies #[trigger] table_data_ok(after, u) by {
        if u != t {
            assert(table_data_ok(before, u));
            assert forall|i: int| 0 <= i < after[u].items@.len() implies #[trigger] item_data_ok(
                after,
                u,
                after[u].items@[i],
            ) by {
                assert(item_data_ok(before, u, before[u].items@[i]));
            }
        }
    }
}

} // verus!
