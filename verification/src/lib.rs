//! A small embedded document database: a page cache with a write ahead log, a
//! B+ tree stored in pages, and collections of JSON documents with indices.

pub mod attempt;
pub mod btree;
pub mod btree_delete;
pub mod btree_insert;
pub mod btree_model;
pub mod btree_node;
pub mod btree_place;
pub mod btree_print;
pub mod catalog;
pub mod collection;
pub mod cost;
pub mod database;
pub mod documents;
pub mod field_path;
pub mod key_encoding;
pub mod key_order;
pub mod layout;
pub mod metadata;
pub mod needs;
pub mod page_allocator;
pub mod page_cache;
pub mod page_counts;
pub mod query;
pub mod record_array;
pub mod records;
pub mod recovery;
pub mod room;
pub mod scan;
pub mod slots;
pub mod superblock;
pub mod util;
pub mod value;
pub mod vararray;
pub mod wal;
