//! A flat database from a list of keys and payloads.
use vstd::prelude::*;
use vstd::string::StringSliceAdditionalSpecFns;
use crate::arena::{arena_ok, copy_bytes, BuildError, HashTableBuilder, TableData};
use crate::content::{law_same_content_same_bytes, same_item};
use crate::encoding::writable;
use crate::format::buckets_for;
use crate::layout::{database_bytes, database_size, items_size, payload_of};

verus! {

/// Why entry `i` cannot be inserted behind the entries before it, if it
/// cannot: its key is empty, or one of them has the same key.
pub open spec fn entry_error(entries: Seq<(Vec<u8>, Vec<u8>)>, i: int) -> Option<BuildError> {
    if entries[i].0@.len() == 0 {
        Some(BuildError::EmptyKey)
    } else if exists|j: int| 0 <= j < i && (#[trigger] entries[j]).0@ == entries[i].0@ {
        Some(BuildError::DuplicateKey)
    } else {
        None
    }
}

/// The error of the first entry at or behind `from` that has one.
pub open spec fn first_error(entries: Seq<(Vec<u8>, Vec<u8>)>, from: int) -> Option<BuildError>
    decreases entries.len() - from,
{
    if from >= entries.len() {
        None
    } else if entry_error(entries, from) is Some {
        entry_error(entries, from)
    } else {
        first_error(entries, from + 1)
    }
}

/// Bytes that the first `n` entries take as items.
pub open spec fn entries_size(entries: Seq<(Vec<u8>, Vec<u8>)>, n: int) -> int
    decreases n,
{
    if n <= 0 {
        0
    } else {
        entries_size(entries, n - 1) + 28 + entries[n - 1].0@.len() + entries[n - 1].1@.len()
    }
}

/// Bytes that the flat database of `entries` takes.
pub open spec fn flat_size(entries: Seq<(Vec<u8>, Vec<u8>)>) -> int {
    24 + 4 * buckets_for(entries.len() as int) + entries_size(entries, entries.len() as int)
}

/// `tables` is one table that holds the first `n` entries, in their order,
/// each as a payload under its key.
pub open spec fn flat_arena(tables: Seq<TableData>, entries: Seq<(Vec<u8>, Vec<u8>)>, n: int) -> bool {
    &&& tables.len() == 1
    &&& tables[0].items@.len() == n
    &&& forall|j: int|
        0 <= j < n ==> {
            &&& (#[trigger] tables[0].items@[j]).key@ == entries[j].0@
            &&& tables[0].items@[j].content is Value
            &&& payload_of(tables[0].items@[j]) == entries[j].1@
        }
}

proof fn lemma_flat_size(tables: Seq<TableData>, entries: Seq<(Vec<u8>, Vec<u8>)>, n: int, k: int)
    requires
        flat_arena(tables, entries, n),
        0 <= k <= n,
    ensures
        items_size(tables[0].items@, k) == entries_size(entries, k),
    decreases k,
{
    if k > 0 {
        lemma_flat_size(tables, entries, n, k - 1);
        assert(tables[0].items@[k - 1].key@ == entries[k - 1].0@);
    }
}

/// The flat database of a list of entries is one: whichever sound arena
/// holds exactly the entries, the bytes are the same.
pub proof fn law_flat_bytes_are_determined(
    a: Seq<TableData>,
    b: Seq<TableData>,
    entries: Seq<(Vec<u8>, Vec<u8>)>,
    big: bool,
)
    requires
        arena_ok(a),
        flat_arena(a, entries, entries.len() as int),
        flat_arena(b, entries, entries.len() as int),
    ensures
        database_bytes(a, 0, big) == database_bytes(b, 0, big),
{
    assert forall|t: int, i: int| 0 <= t < a.len() && 0 <= i < a[t].items@.len() implies same_item(
        #[trigger] a[t].items@[i],
        b[t].items@[i],
    ) by {
        assert(a[0].items@[i].key@ == entries[i].0@);
        assert(b[0].items@[i].key@ == entries[i].0@);
    }
    law_same_content_same_bytes(a, b, 0, big);
}

/// Collects keys with their payloads and writes them as a database of
/// one table.
pub struct Builder {
    table: Vec<(Vec<u8>, Vec<u8>)>,
    byteswap: bool,
}

impl Builder {
    /// The entries collected so far, in the order in which they came.
    pub closed spec fn entries(&self) -> Seq<(Vec<u8>, Vec<u8>)> {
        self.table@
    }

    /// Whether the database is written big-endian instead of little-endian.
    pub closed spec fn swapped(&self) -> bool {
        self.byteswap
    }

    /// A builder without entries, which writes little-endian.
    pub fn new() -> (b: Builder)
        ensures
            b.entries().len() == 0,
            !b.swapped(),
    {
        Builder { table: Vec::new(), byteswap: false }
    }

    /// Sets whether the integer fields are written byte-swapped, that is
    /// big-endian.
    pub fn byteswap(&mut self, byteswap: bool) -> (r: &mut Builder)
        ensures
            r.swapped() == byteswap,
            r.entries() == old(self).entries(),
            *final(self) == *final(r),
    {
        self.byteswap = byteswap;
        self
    }

    /// Adds a payload under a key. Whether the key can stand is decided
    /// when the database is written.
    pub fn item(&mut self, key: &str, value: Vec<u8>) -> (r: &mut Builder)
        ensures
            r.swapped() == old(self).swapped(),
            r.entries().len() == old(self).entries().len() + 1,
            r.entries().drop_last() == old(self).entries(),
            r.entries().last().0@ == key.spec_bytes(),
            r.entries().last().1 == value,
            *final(self) == *final(r),
    {
        self.table.push((copy_bytes(key.as_bytes()), value));
        assert(self.table@.drop_last() =~= old(self).table@);
        self
    }

    /// Writes the entries as a database of one table, in their order: the
    /// database of a sound arena that holds exactly them, so that what is
    /// proved of written databases holds of it.
    ///
    /// It is refused with the error of the first entry that has one, if
    /// there is such an entry, and else with [`BuildError::TooLarge`] exactly
    /// where the database would take more bytes than a 32-bit offset can
    /// address. The builder stays as it is.
    #[verifier::rlimit(50)]
    pub fn write_to_buffer(&mut self) -> (r: Result<Vec<u8>, BuildError>)
        ensures
            final(self).entries() == old(self).entries(),
            final(self).swapped() == old(self).swapped(),
            match r {
                Ok(out) => {
                    &&& first_error(old(self).entries(), 0) is None
                    &&& flat_size(old(self).entries()) <= u32::MAX
                    &&& exists|tables: Seq<TableData>| #[trigger]
                        flat_arena(tables, old(self).entries(), old(self).entries().len() as int)
                            && writable(tables, 0) && out@ == database_bytes(
                            tables,
                            0,
                            old(self).swapped(),
                        )
                },
                Err(e) => first_error(old(self).entries(), 0) == Some(e) || (first_error(
                    old(self).entries(),
                    0,
                ) is None && e == BuildError::TooLarge && flat_size(old(self).entries()) > u32::MAX),
            },
    {
        let mut arena = HashTableBuilder::new();
        let root = arena.new_table(None);
        let mut i: usize = 0;
        while i < self.table.len()
            invariant
                i <= self.table@.len(),
                self.table@ == old(self).table@,
                self.byteswap == old(self).byteswap,
                arena.wf(),
                root.0 == 0,
                flat_arena(arena.tables(), self.table@, i as int),
                first_error(self.table@, 0) == first_error(self.table@, i as int),
            decreases self.table@.len() - i,
        {
            let ghost before = arena.tables();
            let id = match arena.insert(root, self.table[i].0.as_slice()) {
                Ok(id) => id,
                Err(e) => {
                    proof {
                        if e == BuildError::DuplicateKey {
                            let j = choose|j: int|
                                0 <= j < before[0].items@.len() && (#[trigger] before[0].items@[j]).key@
                                    == self.table@[i as int].0@;
                            assert(self.table@[j].0@ == self.table@[i as int].0@);
                        }
                    }
                    return Err(e);
                },
            };
            proof {
                if entry_error(self.table@, i as int) is Some {
                    let j = choose|j: int|
                        0 <= j < i && (#[trigger] self.table@[j]).0@ == self.table@[i as int].0@;
                    assert(before[0].items@[j].key@ == self.table@[j].0@);
                }
            }
            let ghost middle = arena.tables();
            assert(forall|j: int| 0 <= j < i ==> middle[0].items@[j] == middle[0].items@.take(i as int)[j]);
            let payload: Vec<u8> = copy_bytes(self.table[i].1.as_slice());
            match arena.set_value(id, payload) {
                Ok(()) => {},
                Err(e) => {
                    // The item was inserted a moment ago and holds nothing yet.
                    assert(false);
                    return Err(e);
                },
            }
            i += 1;
        }
        let ghost tables = arena.tables();
        proof {
            lemma_flat_size(tables, self.table@, i as int, i as int);
            assert(database_size(tables) == flat_size(self.table@)) by {
                reveal_with_fuel(crate::layout::tables_size, 2);
            }
        }
        match arena.serialize(root, self.byteswap) {
            Ok(out) => Ok(out),
            Err(e) => Err(e),
        }
    }
}

} // verus!
