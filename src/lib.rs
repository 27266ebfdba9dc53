//! A hash table with separate chaining that grows by doubling its bucket count.
pub mod key;
pub mod laws;
pub mod table;

pub use key::HashKey;
pub use table::Hashmap;
