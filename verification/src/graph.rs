//! The graph store: immutable adjacency lists laid end to end in one flat
//! block, found through a table of offsets.
//!
//! A container of `N` nodes is, every integer least significant byte first:
//!
//! * the node count `N`, in 8 bytes;
//! * `N + 1` offsets of 8 bytes each, which count neighbor ids from the
//!   start of the edge block: the neighbors of node `u` lie from
//!   `offsets[u]` up to `offsets[u + 1]`;
//! * the edge block, neighbor ids of 4 bytes each, to the end.
//!
//! The store checks the offsets when it is built.  It never sorts and does
//! not look at the neighbor lists unless asked to: `is_sorted` tells whether
//! they are ascending lists of nodes of the graph, which is what the
//! relations over a graph presuppose.

use vstd::prelude::*;
use crate::ordered::ascending;
use crate::typedrw::{le_u32s, le_u64, le_u64s, read_u32s, read_u64, read_u64s};

verus! {

/// What a graph store refuses.
#[derive(Clone, Copy, Debug, PartialEq, Eq, Structural)]
pub enum GraphError {
    /// A node id at or beyond the node count.
    OutOfRange,
    /// An offset table that decreases somewhere, does not end where the edge
    /// block ends, or does not fit the bytes it was read from.
    CorruptGraph,
}

/// An offset table for a block of `edge_count` neighbor ids: at least one
/// offset, none smaller than the one before it, the last one equal to the
/// size of the block.
pub open spec fn valid_offsets(offsets: Seq<u64>, edge_count: nat) -> bool {
    &&& offsets.len() >= 1
    &&& forall|i: int, j: int| 0 <= i <= j < offsets.len() ==> offsets[i] <= offsets[j]
    &&& offsets[offsets.len() - 1] == edge_count
}

/// The neighbor lists that an offset table cuts out of an edge block: node
/// `u` has the edges from `offsets[u]` up to `offsets[u + 1]`.
pub open spec fn adjacency(offsets: Seq<u64>, edges: Seq<u32>) -> Seq<Seq<u32>> {
    Seq::new(
        (offsets.len() - 1) as nat,
        |u: int| edges.subrange(offsets[u] as int, offsets[u + 1] as int),
    )
}

/// Every neighbor list is ascending without repeats and names nodes of the
/// graph only.
pub open spec fn sorted_graph(lists: Seq<Seq<u32>>) -> bool {
    forall|u: int|
        0 <= u < lists.len() ==> {
            &&& ascending(#[trigger] lists[u])
            &&& forall|i: int| 0 <= i < lists[u].len() ==> lists[u][i] < lists.len()
        }
}

/// The bytes hold a node count, then one offset more than that, then whole
/// 32-bit neighbor ids to the end.
pub open spec fn framed(bytes: Seq<u8>) -> bool {
    &&& bytes.len() >= 8
    &&& 16 + 8 * le_u64(bytes, 0) <= bytes.len()
    &&& (bytes.len() - (16 + 8 * le_u64(bytes, 0))) % 4 == 0
}

/// The offset table of a framed container.
pub open spec fn stored_offsets(bytes: Seq<u8>) -> Seq<u64> {
    le_u64s(bytes, 8, (le_u64(bytes, 0) + 1) as nat)
}

/// The edge block of a framed container.
pub open spec fn stored_edges(bytes: Seq<u8>) -> Seq<u32> {
    let start = 16 + 8 * le_u64(bytes, 0);
    le_u32s(bytes, start, ((bytes.len() - start) / 4) as nat)
}

/// The bytes are a well-formed graph container.
pub open spec fn valid_container(bytes: Seq<u8>) -> bool {
    framed(bytes) && valid_offsets(stored_offsets(bytes), stored_edges(bytes).len())
}

/// A read-only graph: for each node the sequence of its neighbors.
#[derive(Debug)]
pub struct GraphStore {
    offsets: Vec<u64>,
    edges: Vec<u32>,
}

impl View for GraphStore {
    type V = Seq<Seq<u32>>;

    /// The neighbor lists, one per node.
    closed spec fn view(&self) -> Seq<Seq<u32>> {
        adjacency(self.offsets@, self.edges@)
    }
}

impl GraphStore {
    #[verifier::type_invariant]
    spec fn well_formed(&self) -> bool {
        valid_offsets(self.offsets@, self.edges@.len())
    }

    /// Builds a store from an offset table and the edge block it describes.
    pub fn new(offsets: Vec<u64>, edges: Vec<u32>) -> (result: Result<GraphStore, GraphError>)
        ensures
            valid_offsets(offsets@, edges@.len()) ==> result is Ok && result.unwrap()@
                == adjacency(offsets@, edges@),
            !valid_offsets(offsets@, edges@.len()) ==> result == Err::<GraphStore, GraphError>(
                GraphError::CorruptGraph,
            ),
    {
        let n = offsets.len();
        if n == 0 {
            return Err(GraphError::CorruptGraph);
        }
        let mut i: usize = 1;
        while i < n
            invariant
                n == offsets@.len(),
                1 <= i <= n,
                forall|a: int, b: int| 0 <= a <= b < i ==> offsets@[a] <= offsets@[b],
            decreases n - i,
        {
            if offsets[i - 1] > offsets[i] {
                return Err(GraphError::CorruptGraph);
            }
            i = i + 1;
        }
        if offsets[n - 1] != edges.len() as u64 {
            return Err(GraphError::CorruptGraph);
        }
        Ok(GraphStore { offsets, edges })
    }

    /// Reads a store from its container: the node count, the offsets, and
    /// the neighbor ids, each integer least significant byte first.
    pub fn from_bytes(bytes: &[u8]) -> (result: Result<GraphStore, GraphError>)
        ensures
            valid_container(bytes@) ==> result is Ok && result.unwrap()@ == adjacency(
                stored_offsets(bytes@),
                stored_edges(bytes@),
            ),
            !valid_container(bytes@) ==> result == Err::<GraphStore, GraphError>(
                GraphError::CorruptGraph,
            ),
    {
        if bytes.len() < 8 {
            return Err(GraphError::CorruptGraph);
        }
        let nodes = read_u64(bytes, 0);
        let room = (bytes.len() - 8) / 8;
        if nodes >= room as u64 {
            return Err(GraphError::CorruptGraph);
        }
        let entries = nodes as usize + 1;
        let start = 8 + 8 * entries;
        if (bytes.len() - start) % 4 != 0 {
            return Err(GraphError::CorruptGraph);
        }
        let offsets = read_u64s(bytes, 8, entries);
        let edges = read_u32s(bytes, start, (bytes.len() - start) / 4);
        GraphStore::new(offsets, edges)
    }

    /// The number of nodes, as an index bound.
    pub fn nodes(&self) -> (count: usize)
        ensures
            count == self@.len(),
    {
        proof {
            use_type_invariant(self);
        }
        self.offsets.len() - 1
    }

    /// The number of nodes.
    pub fn node_count(&self) -> (count: u64)
        ensures
            count == self@.len(),
    {
        self.nodes() as u64
    }

    /// The neighbors of a node of the graph, as stored: ascending and
    /// without repeats where the graph is sorted.
    pub fn edges(&self, node: usize) -> (list: &[u32])
        requires
            node < self@.len(),
        ensures
            list@ == self@[node as int],
            sorted_graph(self@) ==> ascending(list@),
    {
        proof {
            use_type_invariant(self);
        }
        let last = self.offsets.len() - 1;
        assert(self.offsets@[node as int] <= self.offsets@[node + 1] <= self.offsets@[last as int]
            == self.edges.len());
        let from = self.offsets[node] as usize;
        let to = self.offsets[node + 1] as usize;
        &self.edges.as_slice()[from..to]
    }

    /// The neighbors of node `id`, as stored, or `OutOfRange` where the
    /// graph has no such node; they are ascending and without repeats where
    /// the graph is sorted.
    pub fn neighbors(&self, id: u64) -> (result: Result<&[u32], GraphError>)
        ensures
            id < self@.len() ==> result is Ok && result.unwrap()@ == self@[id as int],
            id >= self@.len() ==> result == Err::<&[u32], GraphError>(GraphError::OutOfRange),
            id < self@.len() && sorted_graph(self@) ==> ascending(result.unwrap()@),
    {
        proof {
            use_type_invariant(self);
        }
        if id >= (self.offsets.len() - 1) as u64 {
            return Err(GraphError::OutOfRange);
        }
        Ok(self.edges(id as usize))
    }

    /// Whether every neighbor list is ascending without repeats and names
    /// nodes of the graph only.
    pub fn is_sorted(&self) -> (sorted: bool)
        ensures
            sorted == sorted_graph(self@),
    {
        proof {
            use_type_invariant(self);
        }
        let nodes = self.offsets.len() - 1;
        let mut u: usize = 0;
        while u < nodes
            invariant
                valid_offsets(self.offsets@, self.edges@.len()),
                nodes == self.offsets@.len() - 1,
                u <= nodes,
                forall|v: int|
                    0 <= v < u ==> {
                        &&& ascending(#[trigger] self@[v])
                        &&& forall|i: int| 0 <= i < self@[v].len() ==> self@[v][i] < self@.len()
                    },
            decreases nodes - u,
        {
            assert(self.offsets@[u as int] <= self.offsets@[u + 1] <= self.offsets@[nodes as int]
                == self.edges.len());
            let from = self.offsets[u] as usize;
            let to = self.offsets[u + 1] as usize;
            let ghost list = self@[u as int];
            let mut k: usize = from;
            while k < to
                invariant
                    valid_offsets(self.offsets@, self.edges@.len()),
                    nodes == self.offsets@.len() - 1,
                    u < nodes,
                    from == self.offsets@[u as int],
                    to == self.offsets@[u + 1],
                    from <= k <= to <= self.edges@.len(),
                    list == self.edges@.subrange(from as int, to as int),
                    list == self@[u as int],
                    forall|i: int, j: int| 0 <= i < j < k - from ==> list[i] < list[j],
                    forall|i: int| 0 <= i < k - from ==> list[i] < nodes,
                decreases to - k,
            {
                let target = self.edges[k];
                if target as u64 >= nodes as u64 {
                    proof {
                        assert(list[k - from] == target);
                        assert(!sorted_graph(self@));
                    }
                    return false;
                }
                if k > from && self.edges[k - 1] >= target {
                    proof {
                        assert(list[k - from] == target);
                        assert(list[k - from - 1] == self.edges@[k - 1]);
                        assert(!ascending(list));
                        assert(!sorted_graph(self@));
                    }
                    return false;
                }
                proof {
                    assert(list[k - from] == target);
                    assert forall|i: int, j: int| 0 <= i < j < k + 1 - from implies list[i]
                        < list[j] by {
                        if j == k - from && i < j - 1 {
                            assert(list[i] < list[j - 1]);
                        }
                    }
                }
                k = k + 1;
            }
            u = u + 1;
        }
        true
    }
}

} // verus!
