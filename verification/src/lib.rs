//! A small relational database: values and rows, table schemas and a
//! catalog, indexes, a write-ahead log, and a paged storage engine with a
//! page cache, row storage and an on-disk B-tree.
pub mod error;
pub mod types;
pub mod bytes;
pub mod value;
pub mod row;
pub mod text;
pub mod schema;
pub mod hash_index;
pub mod table;
pub mod names;
pub mod catalog;
pub mod executor;
pub mod codec;
pub mod append_log;
pub mod recovery;
pub mod table_codec;
pub mod engine;

use vstd::prelude::*;

verus! {

/// The sum of two numbers, wrapping around on overflow.
pub fn add(left: u64, right: u64) -> (r: u64)
    ensures
        r as int == (left as int + right as int) % 0x1_0000_0000_0000_0000,
{
    left.wrapping_add(right)
}

} // verus!
