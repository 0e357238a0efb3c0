//! An embedded ordered key-value store in the LSM lineage: the write-ahead log,
//! write batches, the memtable, the sorted table format and version edits.

pub mod checksum;
pub mod coding;
pub mod db;
pub mod key;
pub mod log;
pub mod memtable;
pub mod sstable;
pub mod table;
pub mod version_edit;
pub mod write_batch;

pub use db::{LogWrite, DB};
pub use key::InternalKey;
pub use memtable::MemTable;
pub use sstable::{serialize_to_sstable, table_get};
pub use write_batch::WriteBatch;

use vstd::prelude::*;

verus! {

/// The outcome kinds that the store reports.
#[derive(Debug, Clone, Copy, PartialEq, Eq, Structural)]
pub enum Status {
    NotFound,
    Corruption,
    NotSupported,
    InvalidArgument,
    IOError,
}

/// A stored item: a value, or a tombstone that hides older values of its key.
#[derive(Debug, PartialEq, Eq)]
pub enum ValueItem<T> {
    Deletion,
    Value(T),
}

impl<T> ValueItem<T> {
    /// The item with its value borrowed.
    pub fn as_ref(&self) -> (r: ValueItem<&T>)
        ensures
            match *self {
                ValueItem::Deletion => r == ValueItem::<&T>::Deletion,
                ValueItem::Value(v) => r matches ValueItem::Value(w) && *w == v,
            },
    {
        match self {
            ValueItem::Deletion => ValueItem::Deletion,
            ValueItem::Value(v) => ValueItem::Value(v),
        }
    }
}

/// One operation of a write batch, borrowing its bytes.
#[derive(Debug, PartialEq, Eq)]
pub enum ValueType<'a> {
    Deletion(&'a [u8]),
    Value(&'a [u8], &'a [u8]),
}

impl<'a> ValueType<'a> {
    /// The deletion of `key`.
    pub fn deletion(key: &'a [u8]) -> (r: Self)
        ensures
            r == ValueType::Deletion(key),
    {
        ValueType::Deletion(key)
    }

    /// Writing `value` under `key`.
    pub fn value(key: &'a [u8], value: &'a [u8]) -> (r: Self)
        ensures
            r == ValueType::Value(key, value),
    {
        ValueType::Value(key, value)
    }
}

} // verus!
