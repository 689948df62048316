//! Shortest-route search over a small, immutable graph of named points.
//!
//! The graph is a list of nodes, each carrying a unique integer identifier,
//! a human-readable name and an ordered list of directed connections.
//! [`router::find_path`] runs a breadth-first search and reconstructs a
//! fewest-hops route between two node identifiers as a sequence of steps;
//! [`query::handle_route`] validates raw request parameters against the
//! graph before delegating to the search.

pub mod query;
pub mod router;
pub mod store;
pub mod types;
