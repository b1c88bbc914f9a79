//! An embedded, disk-backed columnar data store.
//!
//! Rows are appended into fixed-size pages, updates are recorded as new
//! versions rather than in-place mutations, and a buffer pool mediates access
//! to on-disk pages.  Row addresses (RIDs) are single unsigned integers
//! bit-sliced into (page range, page, slot) fields; each table owns a
//! primary-key index, a sequence of page ranges and the RID allocator.

use vstd::prelude::*;

pub mod bufferpool;
pub mod disk;
pub mod index;
pub mod page;
pub mod rid;
pub mod store;
pub mod table;
pub mod transaction;
pub mod transaction_worker;

verus! {

/// Number of 64-bit cells in one physical page (4096 bytes / 8).
pub const PAGE_SLOTS: usize = 512;

/// Number of base pages eagerly allocated in one page range.
pub const RANGE_PAGE_COUNT: usize = 16;

/// Number of row slots in one page range: `RANGE_PAGE_COUNT * PAGE_SLOTS`.
pub const RANGE_CAPACITY: usize = 8192;

/// Metadata columns that precede the logical columns in every page.
pub const NUM_METADATA_COLUMNS: usize = 4;

/// Metadata column holding the RID of a record's latest version (base
/// records) or of the previous version in the chain (tail records).
pub const METADATA_INDIRECTION: usize = 0;

/// Metadata column holding the record's own RID, or `RID_INVALID` once the
/// record is tombstoned.
pub const METADATA_RID: usize = 1;

/// Metadata column reserved for a write timestamp.
pub const METADATA_TIMESTAMP: usize = 2;

/// Metadata column holding the bitmap of columns written by the version
/// stored in the record.
pub const METADATA_SCHEMA_ENCODING: usize = 3;

/// Sentinel stored in the `METADATA_RID` cell of a deleted (tombstoned)
/// record; no valid RID encodes to it.
pub const RID_INVALID: i64 = -1;

/// First raw value of the tail-RID flavor.  Base RIDs lie below it, tail
/// RIDs at or above it, so the two flavors are never confused.
pub const TAIL_RID_BASE: u64 = 0x2000_0000_0000_0000;

/// Exclusive upper bound on the grid position of either RID flavor, chosen
/// so that every derived page-range/page/slot value fits in `usize` and
/// every raw RID fits in a signed 64-bit metadata cell.
pub const MAX_RID_INDEX: u64 = 0x4000_0000;

} // verus!
