//! A tiny fixed-slot, page-based record store.
//!
//! Records (an id plus two padded text columns) are packed into fixed-size
//! pages at offsets computed from the record's numeric key; pages are
//! materialized on demand from a backing byte store and flushed back when the
//! store is closed.  The surrounding line-oriented command loop lives outside
//! this crate and talks to it through plain values.

use vstd::prelude::*;

pub mod codec;
pub mod command;
pub mod page;
pub mod pager;
pub mod row;
pub mod table;
pub mod text;

verus! {

/// Greatest number of pages a table may hold.
pub const TABLE_MAX_PAGES: usize = 100;

/// Size in bytes of one page.
pub const PAGE_SIZE: usize = 4096;

/// Byte cap of the username column.
pub const COLUMN_USERNAME_SIZE: usize = 32;

/// Byte cap of the email column.
pub const COLUMN_EMAIL_SIZE: usize = 255;

/// Length in bytes of one encoded record: 4 bytes of id plus two
/// length-prefixed columns of 8 + 32 and 8 + 255 bytes.
pub const ROW_SIZE: usize = 307;

} // verus!
