//! A hash table with separate chaining, and a cursor over its entries.
//!
//! [`HashMap`] maps keys to values. It keeps its entries in an array of
//! buckets, each a chain of entries whose keys hash to that bucket, and doubles
//! the array before the entries exceed three quarters of the buckets. [`Iter`]
//! walks the entries bucket after bucket. A key is any type with [`Key`].
//!
//! The table stands for a `Map` from the views of its keys to its values, and
//! the contracts of its methods say what they do to that map and to the chains.
//! The modules `chain`, `order` and `growth` hold the mathematics of the
//! chains, `laws` what follows for every table.

pub mod chain;
pub mod growth;
pub mod iter;
pub mod key;
pub mod laws;
pub mod map;
pub mod order;

pub use iter::Iter;
pub use key::Key;
pub use map::HashMap;
