//! A chained hash table: an associative container mapping unique keys to
//! values, with insertion, lookup, removal, membership testing, size query
//! and read-only iteration.
//!
//! Entries live in buckets; a key's bucket is its hash modulo the bucket
//! count. The table doubles its bucket count whenever an insertion finds
//! the load factor above 3/4, rehashing every entry. Iteration order is
//! bucket order and has no semantic meaning; in particular no insertion
//! order is preserved.

pub mod keys;
pub mod laws;
pub mod model;
pub mod table;

pub use keys::TableKey;
pub use table::Iter;
pub use table::LinkedHashMap;
