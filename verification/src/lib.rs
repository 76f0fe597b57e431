//! A property graph over an ordered key-value store: the encoding of nodes,
//! edges, properties and indexes into the keys of the store, an in-memory
//! cache of the active part of the graph, and the queries over both. The
//! contracts speak of every string through its bytes.

pub mod text;
pub mod codec;
pub mod keys;
pub mod assoc;
pub mod props;
pub mod graph;
pub mod lru;
pub mod schema;
pub mod fields;
pub mod store;
pub mod index;
pub mod groups;
pub mod idset;
pub mod order;
pub mod reads;
pub mod views;
pub mod loader;
pub mod canon;
pub mod means;
pub mod backfill;
pub mod prefixes;
pub mod deletion;
pub mod recovery;
pub mod persist;
pub mod db;
pub mod service;
pub mod active;
pub mod geo;
pub mod query;
pub mod tally;
pub mod seed;
