//! An open-addressing hash table from `u64` keys to `u64` values.
//!
//! Collisions are resolved by linear probing; removal leaves a tombstone
//! behind, and growth doubles the slot array and clears every tombstone.
//! Every operation is verified against a `Map<u64, u64>` view of the table.
pub mod slot;
pub mod probe;
pub mod table;
pub mod laws;
pub mod render;

pub use slot::Elem;
pub use table::OpenAddressing;
