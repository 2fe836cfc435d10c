//! Core of a streaming hash-join operator: rows of nullable scalars with
//! order-preserving and value encodings, an epoch-committed state table,
//! per-key join entries with match degrees, a bounded cache, and the join
//! hash map that composes them.

pub mod join;
pub mod kvlist;
pub mod memcomp;
pub mod numbytes;
pub mod operator;
pub mod row;
pub mod sink;
pub mod state_table;
pub mod temporal;
pub mod types;
pub mod value;
