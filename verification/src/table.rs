//! Identities and properties of table files.

use vstd::prelude::*;
use crate::codec::CodecId;
use crate::internal_key::{InternalKey, InternalKeyView};
use crate::range_tombstone::RangeTombstoneLike;
use crate::types::{KeyRange, Sequence};

verus! {

pub const TABLE_FILE_EXTENSION: &'static str = "trinet";

/// Identifier of a table file.
#[derive(Debug, Clone, Copy, PartialEq, Eq, Structural, PartialOrd, Ord, Hash)]
pub struct TableId(pub u64);

impl TableId {
    #[must_use]
    pub fn get(self) -> (r: u64)
        ensures
            r == self.0,
    {
        self.0
    }

    /// The following id, or `None` at `u64::MAX`.
    #[must_use]
    pub fn next(self) -> (r: Option<Self>)
        ensures
            match r {
                Some(id) => self.0 < u64::MAX && id.0 == self.0 + 1,
                None => self.0 == u64::MAX,
            },
    {
        match self.0.checked_add(1) {
            Some(value) => Some(TableId(value)),
            None => None,
        }
    }
}

/// Level of a table in the tree; level 0 holds flushed tables.
#[derive(Debug, Clone, Copy, PartialEq, Eq, Structural, PartialOrd, Ord, Hash)]
pub struct TableLevel(pub u32);

impl TableLevel {
    /// Level 0.
    #[must_use]
    pub fn zero() -> (r: Self)
        ensures
            r.0 == 0,
    {
        TableLevel(0)
    }

    #[must_use]
    pub fn get(self) -> (r: u32)
        ensures
            r == self.0,
    {
        self.0
    }

    /// The level below, or `None` at `u32::MAX`.
    #[must_use]
    pub fn next(self) -> (r: Option<Self>)
        ensures
            match r {
                Some(level) => self.0 < u32::MAX && level.0 == self.0 + 1,
                None => self.0 == u32::MAX,
            },
    {
        match self.0.checked_add(1) {
            Some(value) => Some(TableLevel(value)),
            None => None,
        }
    }
}

/// The sections of a table file.
#[derive(Debug, Clone, Copy, PartialEq, Eq, Structural)]
pub enum TableSection {
    DataBlocks,
    RangeTombstones,
    Filters,
    Indexes,
    Properties,
    Footer,
}

/// How much of a blob file a table refers to.
#[derive(Debug, Clone, PartialEq, Eq)]
pub struct TableBlobReference {
    pub file_id: u64,
    pub referenced_bytes: u64,
    pub referenced_record_count: u64,
    pub smallest_internal_key: InternalKey,
    pub largest_internal_key: InternalKey,
}

/// What the manifest records of a table.
#[derive(Debug, Clone, PartialEq, Eq)]
pub struct TableProperties {
    pub id: TableId,
    pub level: TableLevel,
    pub smallest_user_key: Vec<u8>,
    pub largest_user_key: Vec<u8>,
    pub smallest_sequence: Sequence,
    pub largest_sequence: Sequence,
    pub codec: CodecId,
    pub blob_file_ids: Vec<u64>,
    pub blob_references: Vec<TableBlobReference>,
}

impl TableProperties {
    /// Ids of the blob files the table refers to.
    #[must_use]
    pub fn blob_file_ids(&self) -> (r: &[u64])
        ensures
            r@ == self.blob_file_ids@,
    {
        self.blob_file_ids.as_slice()
    }

    /// The table's references into blob files.
    #[must_use]
    pub fn blob_references(&self) -> (r: &[TableBlobReference])
        ensures
            r@ == self.blob_references@,
    {
        self.blob_references.as_slice()
    }
}

/// A range deletion stored in a table.
#[derive(Debug, Clone, PartialEq, Eq)]
pub struct TableRangeTombstone {
    pub range: KeyRange,
    pub sequence: Sequence,
    pub batch_index: u32,
}

impl RangeTombstoneLike for TableRangeTombstone {
    open spec fn spec_range(&self) -> KeyRange {
        self.range
    }

    fn range(&self) -> (r: &KeyRange) {
        &self.range
    }
}

/// File name of a table: `table-`, the id as 20 zero-padded digits, and the
/// table extension.
pub open spec fn table_file_name_spec(table_id: TableId) -> Seq<char> {
    "table-"@ + crate::text::decimal_padded(table_id.0 as nat, 20) + "."@ + TABLE_FILE_EXTENSION@
}

pub fn table_file_name(table_id: TableId) -> (r: String)
    ensures
        r@ == table_file_name_spec(table_id),
{
    let mut name = String::from_str("table-");
    crate::text::push_decimal_padded(&mut name, table_id.get(), 20);
    name.append(".");
    name.append(TABLE_FILE_EXTENSION);
    name
}

/// Path of table `table_id` in the database directory.
#[must_use]
pub fn table_path(db_path: &std::path::Path, table_id: TableId) -> (r: std::path::PathBuf)
    ensures
        r == crate::paths::joined_path(db_path, table_file_name_spec(table_id)),
{
    let name = table_file_name(table_id);
    crate::paths::join_path(db_path, name.as_str())
}

} // verus!
