//! An immutable, write-once key-value database held in one contiguous
//! byte buffer.
//!
//! A database maps byte-string keys to opaque payloads or to nested tables.
//! It is assembled in memory with [`HashTableBuilder`], turned into bytes by
//! [`HashTableBuilder::serialize`], and read back, without deserialising it,
//! through [`Database`]. [`Builder`] is the short way to a database of one
//! table. The module `laws` states what holds between writing and reading.
pub mod arena;
pub mod builder;
pub mod content;
pub mod encoding;
pub mod format;
pub mod laws;
pub mod layout;
pub mod lookup;
pub mod reader;

pub use arena::{BuildError, Content, HashTableBuilder, ItemData, ItemId, TableData, TableId};
pub use format::{bucket_count, hash_key};
pub use builder::Builder;
pub use reader::{Database, ReadError, Table};
