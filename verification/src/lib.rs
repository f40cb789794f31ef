//! An open-addressing hash table with linear probing and growth by rehashing,
//! together with the hashing capability its keys must provide.

pub mod hashable;
pub mod history;
pub mod model;
pub mod layout;
pub mod table;

pub use hashable::Hashable;
pub use table::HashTable;
