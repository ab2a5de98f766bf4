//! A typed secondary-indexing layer over an ordered, byte-oriented
//! key-value store.
//!
//! Callers declare logical tables of records and singletons of a single
//! value; the library lays primary records, unique indices and non-unique
//! indices out as compact binary keys in one shared keyspace, keeps them
//! consistent across create/update/delete, and answers point and prefix
//! lookups over them.

pub mod bytes;
pub mod error;
pub mod id;
pub mod index;
pub mod iter;
pub mod keys;
pub mod single;
pub mod store;
pub mod table;

pub use error::Error;
pub use id::Id;
pub use index::IndexValue;
pub use iter::Items;
pub use single::Single;
pub use store::{Batch, Store};
pub use table::{Table, WithId};
