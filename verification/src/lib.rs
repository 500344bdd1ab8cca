//! The metadata side of a chunked file store: which slices of a chunk are
//! compacted, how their data is moved and deleted, and how metadata changes are
//! committed to a key-value store.

pub mod background;
pub mod buffers;
pub mod compact;
pub mod compact_laws;
pub mod data;
pub mod data_laws;
pub mod error;
pub mod intervals;
pub mod slice;
pub mod text;
pub mod txn;
pub mod txn_laws;
