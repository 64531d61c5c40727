//! Triangle counting on a single graph: for every edge, the neighbors that
//! its two ends share.  The count is that of the triples `(a, b, c)` with the
//! edges `a -> b`, `a -> c` and `b -> c`, and the candidates that a layer of
//! the join leaves for the edge `a -> b` are the `c` of these triples.

use vstd::prelude::*;
use crate::extender::{GraphRelationExtender, PrefixExtender};
use crate::graph::{sorted_graph, GraphStore};
use crate::intersect::intersect;
use crate::layer::{lemma_survivors_contain, survivors};
use crate::ordered::{
    ascending, common, lemma_ascending_no_duplicates, lemma_ascending_same,
    lemma_common_ascending, lemma_common_contains, lemma_common_symmetric,
};

verus! {

/// The edges `a -> b`, `a -> c` and `b -> c` are in the graph.
pub open spec fn is_triangle(lists: Seq<Seq<u32>>, a: int, b: u32, c: u32) -> bool {
    &&& 0 <= a < lists.len()
    &&& b < lists.len()
    &&& lists[a].contains(b)
    &&& lists[a].contains(c)
    &&& lists[b as int].contains(c)
}

/// The triples `(a, b, c)` with the edges `a -> b`, `a -> c` and `b -> c`.
pub open spec fn triangles(lists: Seq<Seq<u32>>) -> Set<(int, u32, u32)> {
    Set::new(|t: (int, u32, u32)| is_triangle(lists, t.0, t.1, t.2))
}

/// The number of triples `(a, b, c)` with the edges `a -> b`, `a -> c` and
/// `b -> c`.
pub open spec fn triangle_count(lists: Seq<Seq<u32>>) -> nat {
    triangles(lists).len()
}

/// The number of nodes that the `i`-th neighbor of `a` has in common with
/// `a` as neighbors: the triangles on that edge.
pub open spec fn closing(lists: Seq<Seq<u32>>, a: int, i: int) -> nat {
    common(lists[a], lists[lists[a][i] as int]).len()
}

/// The triangles on the first `upto` edges of node `a`.
pub open spec fn around(lists: Seq<Seq<u32>>, a: int, upto: int) -> nat
    decreases upto,
{
    if upto <= 0 {
        0
    } else {
        around(lists, a, upto - 1) + closing(lists, a, upto - 1)
    }
}

/// The triangles on the edges of the first `upto` nodes.
pub open spec fn among(lists: Seq<Seq<u32>>, upto: int) -> nat
    decreases upto,
{
    if upto <= 0 {
        0
    } else {
        among(lists, upto - 1) + around(lists, upto - 1, lists[upto - 1].len() as int)
    }
}

/// The triangles on the `i`-th edge of node `a`.
spec fn on_edge(lists: Seq<Seq<u32>>, a: int, i: int) -> Set<(int, u32, u32)> {
    Set::new(|t: (int, u32, u32)| t.0 == a && t.1 == lists[a][i] && is_triangle(lists, a, t.1, t.2))
}

/// The triangles on the first `upto` edges of node `a`.
spec fn on_edges(lists: Seq<Seq<u32>>, a: int, upto: int) -> Set<(int, u32, u32)> {
    Set::new(
        |t: (int, u32, u32)|
            t.0 == a && is_triangle(lists, a, t.1, t.2) && exists|i: int|
                0 <= i < upto && t.1 == #[trigger] lists[a][i],
    )
}

/// The triangles on the edges of the first `upto` nodes.
spec fn on_nodes(lists: Seq<Seq<u32>>, upto: int) -> Set<(int, u32, u32)> {
    Set::new(|t: (int, u32, u32)| t.0 < upto && is_triangle(lists, t.0, t.1, t.2))
}

/// An edge has as many triangles as its two ends share neighbors.
proof fn lemma_on_edge(lists: Seq<Seq<u32>>, a: int, i: int)
    requires
        sorted_graph(lists),
        0 <= a < lists.len(),
        0 <= i < lists[a].len(),
    ensures
        on_edge(lists, a, i).finite(),
        on_edge(lists, a, i).len() == closing(lists, a, i),
{
    let b = lists[a][i];
    let shared = common(lists[a], lists[b as int]);
    let place = |c: u32| (a, b, c);
    assert(lists[a].contains(b));
    assert forall|t: (int, u32, u32)| on_edge(lists, a, i).contains(t) <==> shared.to_set().map(
        place,
    ).contains(t) by {
        lemma_common_contains(lists[a], lists[b as int], t.2);
        if on_edge(lists, a, i).contains(t) {
            assert(shared.to_set().contains(t.2));
            assert(t == place(t.2));
        }
        if shared.to_set().map(place).contains(t) {
            let c = choose|c: u32| shared.to_set().contains(c) && t == place(c);
            lemma_common_contains(lists[a], lists[b as int], c);
        }
    }
    assert(on_edge(lists, a, i) =~= shared.to_set().map(place));
    lemma_common_ascending(lists[a], lists[b as int]);
    lemma_ascending_no_duplicates(shared);
    shared.unique_seq_to_set();
    vstd::seq_lib::seq_to_set_is_finite(shared);
    assert(vstd::relations::injective_on(place, shared.to_set()));
    vstd::set_lib::lemma_map_size(shared.to_set(), on_edge(lists, a, i), place);
}

/// The first edges of a node have as many triangles as they close.
proof fn lemma_on_edges(lists: Seq<Seq<u32>>, a: int, upto: int)
    requires
        sorted_graph(lists),
        0 <= a < lists.len(),
        0 <= upto <= lists[a].len(),
    ensures
        on_edges(lists, a, upto).finite(),
        on_edges(lists, a, upto).len() == around(lists, a, upto),
    decreases upto,
{
    if upto == 0 {
        assert(on_edges(lists, a, upto) =~= Set::empty());
    } else {
        lemma_on_edges(lists, a, upto - 1);
        lemma_on_edge(lists, a, upto - 1);
        let before = on_edges(lists, a, upto - 1);
        let added = on_edge(lists, a, upto - 1);
        assert forall|t: (int, u32, u32)| on_edges(lists, a, upto).contains(t) <==> (before
            + added).contains(t) by {
            if on_edges(lists, a, upto).contains(t) {
                let i = choose|i: int| 0 <= i < upto && t.1 == #[trigger] lists[a][i];
                if i < upto - 1 {
                    assert(before.contains(t));
                } else {
                    assert(added.contains(t));
                }
            }
            if before.contains(t) {
                let i = choose|i: int| 0 <= i < upto - 1 && t.1 == #[trigger] lists[a][i];
                assert(0 <= i < upto && t.1 == lists[a][i]);
            }
            if added.contains(t) {
                assert(t.1 == lists[a][upto - 1]);
            }
        }
        assert(on_edges(lists, a, upto) =~= before + added);
        assert(before.disjoint(added)) by {
            assert forall|t: (int, u32, u32)| !(before.contains(t) && added.contains(t)) by {
                if before.contains(t) && added.contains(t) {
                    let i = choose|i: int| 0 <= i < upto - 1 && t.1 == #[trigger] lists[a][i];
                    assert(lists[a][i] < lists[a][upto - 1]);
                }
            }
        }
        vstd::set_lib::lemma_set_disjoint_lens(before, added);
        vstd::set::axiom_set_union_finite(before, added);
    }
}

/// The first nodes have as many triangles as their edges close.
proof fn lemma_on_nodes(lists: Seq<Seq<u32>>, upto: int)
    requires
        sorted_graph(lists),
        0 <= upto <= lists.len(),
    ensures
        on_nodes(lists, upto).finite(),
        on_nodes(lists, upto).len() == among(lists, upto),
    decreases upto,
{
    if upto == 0 {
        assert(on_nodes(lists, upto) =~= Set::empty());
    } else {
        let a = upto - 1;
        lemma_on_nodes(lists, a);
        lemma_on_edges(lists, a, lists[a].len() as int);
        let before = on_nodes(lists, a);
        let added = on_edges(lists, a, lists[a].len() as int);
        assert forall|t: (int, u32, u32)| on_nodes(lists, upto).contains(t) <==> (before
            + added).contains(t) by {
            if on_nodes(lists, upto).contains(t) && t.0 == a {
                let i = choose|i: int| 0 <= i < lists[a].len() && lists[a][i] == t.1;
                assert(t.1 == lists[a][i]);
                assert(added.contains(t));
            }
        }
        assert(on_nodes(lists, upto) =~= before + added);
        assert(before.disjoint(added));
        vstd::set_lib::lemma_set_disjoint_lens(before, added);
        vstd::set::axiom_set_union_finite(before, added);
    }
}

/// A graph has finitely many triangles, and counting for every edge the
/// neighbors that its ends share counts them.
pub proof fn lemma_triangle_count(lists: Seq<Seq<u32>>)
    requires
        sorted_graph(lists),
    ensures
        triangles(lists).finite(),
        triangle_count(lists) == among(lists, lists.len() as int),
{
    lemma_on_nodes(lists, lists.len() as int);
    assert(triangles(lists) =~= on_nodes(lists, lists.len() as int));
}

/// For the relations that extend a prefix `[a, b]` by the neighbors of `a`
/// and by those of `b`, the candidates that a layer of the join leaves are
/// the neighbors that `a` and `b` share, whichever of the two proposes: the
/// values `c` that close a triangle on the edge `a -> b`.
pub proof fn lemma_join_closes_triangles(
    from_first: GraphRelationExtender,
    from_second: GraphRelationExtender,
    prefix: Vec<u32>,
    own: int,
)
    requires
        from_first.graph@ == from_second.graph@,
        from_first.attribute == 0,
        from_second.attribute == 1,
        from_first.valid(),
        from_first.admits(prefix),
        from_second.admits(prefix),
        0 <= own < 2,
    ensures
        survivors(seq![from_first, from_second], prefix, own, 2) == common(
            from_first.graph@[prefix@[0] as int],
            from_first.graph@[prefix@[1] as int],
        ),
{
    let relations = seq![from_first, from_second];
    let lists = from_first.graph@;
    let of_first = lists[prefix@[0] as int];
    let of_second = lists[prefix@[1] as int];
    let left = survivors(relations, prefix, own, 2);
    assert(relations[0] == from_first && relations[1] == from_second);
    assert(relations[0].proposals(prefix) == of_first);
    assert(relations[1].proposals(prefix) == of_second);
    assert forall|value: u32| left.contains(value) <==> common(of_first, of_second).contains(
        value,
    ) by {
        lemma_survivors_contain(relations, prefix, own, 2, value);
        lemma_common_contains(of_first, of_second, value);
    }
    assert(ascending(left)) by {
        reveal_with_fuel(survivors, 3);
        if own == 0 {
            lemma_common_ascending(of_first, of_second);
        } else {
            lemma_common_ascending(of_second, of_first);
        }
    }
    lemma_common_ascending(of_first, of_second);
    lemma_ascending_same(left, common(of_first, of_second));
}

/// More edges of a node close no fewer triangles.
proof fn lemma_around_grows(lists: Seq<Seq<u32>>, a: int, upto: int, later: int)
    requires
        upto <= later,
    ensures
        around(lists, a, upto) <= around(lists, a, later),
    decreases later - upto,
{
    if upto < later {
        lemma_around_grows(lists, a, upto, later - 1);
    }
}

/// More nodes close no fewer triangles.
proof fn lemma_among_grows(lists: Seq<Seq<u32>>, upto: int, later: int)
    requires
        upto <= later,
    ensures
        among(lists, upto) <= among(lists, later),
    decreases later - upto,
{
    if upto < later {
        lemma_among_grows(lists, upto, later - 1);
    }
}

/// Counts the triangles of a graph; `None` where the count does not fit 64
/// bits.
pub fn raw_triangles(graph: &GraphStore) -> (count: Option<u64>)
    requires
        sorted_graph(graph@),
    ensures
        count == if triangle_count(graph@) <= u64::MAX {
            Some(triangle_count(graph@) as u64)
        } else {
            None::<u64>
        },
{
    let ghost lists = graph@;
    let nodes = graph.nodes();
    let mut total: u64 = 0;
    let mut a: usize = 0;
    proof {
        lemma_triangle_count(lists);
    }
    while a < nodes
        invariant
            lists == graph@,
            sorted_graph(lists),
            nodes == lists.len(),
            a <= nodes,
            total == among(lists, a as int),
            triangle_count(lists) == among(lists, nodes as int),
        decreases nodes - a,
    {
        let aaa = graph.edges(a);
        let mut i: usize = 0;
        while i < aaa.len()
            invariant
                lists == graph@,
                sorted_graph(lists),
                nodes == lists.len(),
                a < nodes,
                aaa@ == lists[a as int],
                i <= aaa@.len(),
                total == among(lists, a as int) + around(lists, a as int, i as int),
                triangle_count(lists) == among(lists, nodes as int),
            decreases aaa@.len() - i,
        {
            let b = aaa[i];
            let bbb = graph.edges(b as usize);
            let found = if aaa.len() < bbb.len() {
                intersect(aaa, bbb)
            } else {
                proof {
                    lemma_common_symmetric(aaa@, bbb@);
                }
                intersect(bbb, aaa)
            };
            match total.checked_add(found) {
                Some(sum) => {
                    total = sum;
                },
                None => {
                    proof {
                        lemma_around_grows(lists, a as int, i + 1, aaa@.len() as int);
                        lemma_among_grows(lists, a + 1, nodes as int);
                    }
                    return None;
                },
            }
            i = i + 1;
        }
        a = a + 1;
    }
    Some(total)
}

} // verus!
