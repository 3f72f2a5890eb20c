//! A typed access layer over a sorted key-value store that is split into
//! namespaces ("column families").
//!
//! The store itself is driven by the caller: every operation here takes what
//! the store handed back, or gives what the store has to be handed, as plain
//! values. What is decided in between (how a point in time becomes a key,
//! which stored values count as a record, which keys leave when a namespace
//! has grown too large, which keys lie in a range of time) is stated in
//! contracts and proved.

pub mod lex;
pub mod utils;
pub mod error;
pub mod column_family;
pub mod table;
pub mod laws;

pub use column_family::{ColumnFamily, Entry, Keyable, Scan};
pub use error::{Fault, StoreError};
