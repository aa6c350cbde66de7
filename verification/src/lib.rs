//! Bottom-up construction of B-tree tables from strictly sorted streams.
//!
//! A [`WriteTransaction`](sorted_table::WriteTransaction) builds a whole table in one pass: records
//! arrive in key order, fill leaf pages, and the finished leaves are grouped into branch pages
//! level by level, so that only the current leaf and one partial branch group per level are held
//! outside the page store.

pub mod branch_packing;
pub mod btree;
pub mod btree_bulk;
pub mod bulk_laws;
pub mod bulk_model;
pub mod catalog;
pub mod database;
pub mod earlier_pages;
pub mod error;
pub mod layout;
pub mod order;
pub mod packing;
pub mod page;
pub mod search;
pub mod sorted_table;
pub mod stream_laws;
pub mod success;
pub mod text;
pub mod tree;
pub mod types;
pub mod value_laws;

pub use crate::database::Database;
pub use crate::database::ReadOnlyTable;
pub use crate::error::Error;
pub use crate::error::StorageError;
pub use crate::error::TableError;
pub use crate::sorted_table::SortedTableBuilder;
pub use crate::sorted_table::SortedTableOptions;
pub use crate::sorted_table::TableDefinition;
pub use crate::sorted_table::WriteTransaction;
pub use crate::types::Key;
pub use crate::types::Value;
