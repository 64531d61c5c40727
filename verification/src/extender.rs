//! The contract between a relation and the join, and the relation that a
//! graph's edges form.

use vstd::prelude::*;
use vstd::slice::slice_to_vec;
use crate::graph::{sorted_graph, GraphStore};
use crate::intersect::retain_common;
use crate::ordered::{ascending, common};

verus! {

/// A relation seen from the join: for a prefix of bound attributes it tells
/// how many values it would propose for the next attribute, proposes them,
/// and filters the proposals of others.
pub trait PrefixExtender {
    /// The rows that can be extended.
    type Prefix;

    /// The values appended to them.
    type Extension;

    /// The relation's own invariant, which every operation presupposes.
    spec fn valid(&self) -> bool;

    /// Whether the attributes that the relation reads are bound in `prefix`
    /// to values it knows.
    spec fn admits(&self, prefix: Self::Prefix) -> bool;

    /// The values that the relation has for the next attribute of `prefix`.
    spec fn proposals(&self, prefix: Self::Prefix) -> Seq<Self::Extension>;

    /// The count that the relation reports for `prefix`.
    spec fn estimate(&self, prefix: Self::Prefix) -> u64;

    /// The key by which the work on `prefix` is placed.
    spec fn route_key(&self, prefix: Self::Prefix) -> u64;

    /// The order that candidate sequences are kept in.
    spec fn ordered(candidates: Seq<Self::Extension>) -> bool;

    /// A relation that reports no candidate for a prefix has none.
    proof fn lemma_estimate_zero(&self, prefix: Self::Prefix)
        requires
            self.valid(),
            self.admits(prefix),
            self.estimate(prefix) == 0,
        ensures
            self.proposals(prefix).len() == 0,
    ;

    /// Reports how many values the relation would propose for `prefix`.
    fn count(&self, prefix: &Self::Prefix) -> (count: u64)
        requires
            self.valid(),
            self.admits(*prefix),
        ensures
            count == self.estimate(*prefix),
    ;

    /// Materializes the relation's values for the next attribute of `prefix`.
    fn propose(&self, prefix: &Self::Prefix) -> (candidates: Vec<Self::Extension>)
        requires
            self.valid(),
            self.admits(*prefix),
        ensures
            candidates@ == self.proposals(*prefix),
            Self::ordered(candidates@),
    ;

    /// Keeps of `candidates` those that the relation has for `prefix` too, in
    /// the order they came in.
    fn intersect(&self, prefix: &Self::Prefix, candidates: &mut Vec<Self::Extension>)
        requires
            self.valid(),
            self.admits(*prefix),
            Self::ordered(old(candidates)@),
        ensures
            final(candidates)@ == common(old(candidates)@, self.proposals(*prefix)),
            Self::ordered(final(candidates)@),
    ;

    /// The key that places the work on `prefix`: it depends on the relation
    /// and the prefix alone.
    fn route(&self, prefix: &Self::Prefix) -> (key: u64)
        requires
            self.valid(),
            self.admits(*prefix),
        ensures
            key == self.route_key(*prefix),
    ;
}

/// The edges of a graph as a relation: the next attribute of a prefix is a
/// neighbor of the node that the prefix binds at `attribute`.
pub struct GraphRelationExtender<'a> {
    /// The graph whose edges form the relation.
    pub graph: &'a GraphStore,
    /// The position in a prefix of the node whose neighbors are proposed.
    pub attribute: usize,
}

impl<'a> GraphRelationExtender<'a> {
    /// The relation that extends a prefix by the neighbors of the node at
    /// position `attribute`.
    pub fn new(graph: &'a GraphStore, attribute: usize) -> (extender: Self)
        ensures
            extender.graph == graph,
            extender.attribute == attribute,
    {
        GraphRelationExtender { graph, attribute }
    }

    /// The node of `prefix` whose neighbors are proposed.
    pub open spec fn endpoint(&self, prefix: Vec<u32>) -> u32 {
        prefix@[self.attribute as int]
    }
}

impl<'a> PrefixExtender for GraphRelationExtender<'a> {
    type Prefix = Vec<u32>;

    type Extension = u32;

    open spec fn valid(&self) -> bool {
        sorted_graph(self.graph@)
    }

    open spec fn admits(&self, prefix: Vec<u32>) -> bool {
        self.attribute < prefix@.len() && self.endpoint(prefix) < self.graph@.len()
    }

    open spec fn proposals(&self, prefix: Vec<u32>) -> Seq<u32> {
        self.graph@[self.endpoint(prefix) as int]
    }

    open spec fn estimate(&self, prefix: Vec<u32>) -> u64 {
        let degree = self.proposals(prefix).len();
        if degree <= u64::MAX {
            degree as u64
        } else {
            u64::MAX
        }
    }

    open spec fn route_key(&self, prefix: Vec<u32>) -> u64 {
        self.endpoint(prefix) as u64
    }

    open spec fn ordered(candidates: Seq<u32>) -> bool {
        ascending(candidates)
    }

    proof fn lemma_estimate_zero(&self, prefix: Vec<u32>) {
    }

    /// The degree of the endpoint.
    fn count(&self, prefix: &Vec<u32>) -> (count: u64) {
        let node = prefix[self.attribute];
        self.graph.edges(node as usize).len() as u64
    }

    /// The endpoint's neighbor list.
    fn propose(&self, prefix: &Vec<u32>) -> (candidates: Vec<u32>) {
        let node = prefix[self.attribute];
        slice_to_vec(self.graph.edges(node as usize))
    }

    /// Keeps the candidates that are neighbors of the endpoint.
    fn intersect(&self, prefix: &Vec<u32>, candidates: &mut Vec<u32>) {
        let node = prefix[self.attribute];
        let list = self.graph.edges(node as usize);
        retain_common(candidates, list);
    }

    /// The endpoint itself.
    fn route(&self, prefix: &Vec<u32>) -> (key: u64) {
        prefix[self.attribute] as u64
    }
}

} // verus!
