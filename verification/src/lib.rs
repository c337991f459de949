//! An embeddable property-graph storage layer: nodes, edges and entities
//! on top of an ordered key-value backend, with a query facility for
//! retrieving and traversing the graph.
//!
//! The crate models a property graph — node records with named properties,
//! directed labeled edges with optional payloads, and per-kind entity
//! records that own secondary indexes — over an in-memory partitioned
//! key-value store. Every persisted record uses a fixed binary encoding
//! whose round trip is proved; the storage contract keeps entity
//! registration and index maintenance in step with node writes; the query
//! engine seeds from the most selective predicate and supports an
//! unweighted shortest-path traversal.

pub mod codec;
pub mod data;
pub mod db;
pub mod edge;
pub mod entity;
pub mod id;
pub mod kv;
pub mod node;
pub mod query;
pub mod storage;
pub mod text;
