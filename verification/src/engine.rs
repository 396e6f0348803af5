//! The paged storage engine: fixed-size pages, a page file, a page cache,
//! row storage in chains of data pages, the on-disk catalog and the indexes.
pub mod page;
pub mod pager;
pub mod buffer_pool;
pub mod wire;
pub mod table_storage;
pub mod row_laws;
pub mod row_order;
pub mod table;
pub mod catalog;
pub mod catalog_codec;
pub mod catalog_laws;
pub mod wal_record;
pub mod key;
pub mod btree_index;
pub mod btree;
pub mod storage;
