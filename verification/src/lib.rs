//! A map from composite keys to values that can also be searched by any
//! single component, a sub-key, of its keys.
//!
//! `MultiKeyMap` keeps two tables: the keys with their values, and an index
//! from each sub-key to the keys that list it. Every operation that changes
//! the first changes the second with it, so that the index is at all times
//! the one that belongs to the keys in the map.
//!
//! - `sub_keys`: how a key gives up its sub-keys, and the key types that
//!   come with the library.
//! - `key_model`: what is asked of a key type.
//! - `index_model`: the index as a function of the set of keys.
//! - `container`: the map and its operations.
//! - `mem_estimate`: estimates of the memory that a table takes.
//! - `tables`: the two methods of `HashMap` that are taken on trust.
//! - `laws`: what holds across several operations.

pub mod container;
pub mod index_model;
pub mod key_model;
pub mod laws;
pub mod mem_estimate;
pub mod sub_keys;
pub mod tables;

pub use container::MultiKeyMap;
pub use key_model::key_type_ok;
pub use sub_keys::SubKeyed;
