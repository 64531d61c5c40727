//! Worst-case-optimal multiway joins over sorted adjacency lists.
//!
//! The crate evaluates graph pattern queries one attribute at a time: for
//! every partial row the relation with the fewest candidates proposes the
//! next attribute's values and every other relation filters them.
//!
//! * `graph` holds the read-only graph store and `typedrw` the typed reads
//!   from the bytes of its container;
//! * `ordered`, `search` and `intersect` are the intersection engine for
//!   ascending sequences: the model, the galloping search, and the merge and
//!   gallop strategies;
//! * `extender` states what a relation owes the join and gives the relation
//!   of a graph's edges;
//! * `layer` says what one layer of the join computes, `join` computes it on
//!   batches of prefixes, and `expand` turns its result into the prefixes of
//!   the next layer;
//! * `triangles` counts triangles on a single graph;
//! * `seqs` holds the facts about filtered and mapped sequences that the
//!   proofs of the layer rest on.

pub mod ordered;
pub mod seqs;
pub mod search;
pub mod intersect;
pub mod typedrw;
pub mod graph;
pub mod extender;
pub mod layer;
pub mod join;
pub mod expand;
pub mod triangles;

pub use extender::{GraphRelationExtender, PrefixExtender};
pub use graph::{GraphError, GraphStore};
pub use join::{GenericJoinExt, StreamPrefixExtender, TestExt};
