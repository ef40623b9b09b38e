//! An embedded transactional key/value store: a copy-on-write B-tree, and an
//! atomic commit through a meta page. There is no write-ahead log and no lock
//! manager.

pub mod btree;
pub mod chain;
pub mod check;
pub mod codec;
pub mod freelist;
pub mod growth;
pub mod keys;
pub mod laws;
pub mod overflow;
pub mod pager;
pub mod store;
pub mod tree;
pub mod txn;
pub mod wire;

pub use pager::PageId;
pub use txn::{Environment, ReadTxn, WriteTxn};
