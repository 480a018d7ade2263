//! Walks along the directed edges of a layout, and the one walk that a path
//! query answers with.
//!
//! A walk is written as the sequence of the edges it takes, each edge by its
//! index in the layout's edge list. The search tries the edges that leave a
//! node from the last in that list to the first, and goes as deep as it can
//! before it tries the next edge. Of all the walks from the start to the goal
//! that visit no node twice, it answers with the one that this order reaches
//! first.

use vstd::prelude::*;
use crate::error::Error;
use crate::graph::{EdgeView, LayoutView};

verus! {

/// The node at which a walk stands after its first `k` edges.
pub open spec fn walk_node(edges: Seq<EdgeView>, start: Seq<char>, walk: Seq<int>, k: int) -> Seq<
    char,
> {
    if k <= 0 {
        start
    } else {
        edges[walk[k - 1]].sink
    }
}

/// The node at which a walk ends.
pub open spec fn walk_end(edges: Seq<EdgeView>, start: Seq<char>, walk: Seq<int>) -> Seq<char> {
    walk_node(edges, start, walk, walk.len() as int)
}

/// All nodes of a walk in the order of the visit, from `start` to its end.
pub open spec fn walk_nodes(edges: Seq<EdgeView>, start: Seq<char>, walk: Seq<int>) -> Seq<
    Seq<char>,
> {
    Seq::new(walk.len() + 1, |k: int| walk_node(edges, start, walk, k))
}

/// `walk` names edges of the list, and each of them leaves the node at which
/// the walk stands when it takes it.
pub open spec fn is_walk(edges: Seq<EdgeView>, start: Seq<char>, walk: Seq<int>) -> bool {
    forall|k: int|
        0 <= k < walk.len() ==> 0 <= (#[trigger] walk[k]) < edges.len() && edges[walk[k]].source
            == walk_node(edges, start, walk, k)
}

/// The walk visits no node twice.
pub open spec fn is_simple(edges: Seq<EdgeView>, start: Seq<char>, walk: Seq<int>) -> bool {
    forall|a: int, b: int|
        0 <= a < b <= walk.len() ==> #[trigger] walk_node(edges, start, walk, a)
            != #[trigger] walk_node(edges, start, walk, b)
}

/// A walk from `start` to `goal` that visits no node twice.
pub open spec fn leads_to(
    edges: Seq<EdgeView>,
    start: Seq<char>,
    goal: Seq<char>,
    walk: Seq<int>,
) -> bool {
    is_walk(edges, start, walk) && is_simple(edges, start, walk) && walk_end(edges, start, walk)
        == goal
}

/// The two walks agree on their first `k` edges, and at the next one `first`
/// takes the edge that stands later in the list.
pub open spec fn parts_at(first: Seq<int>, other: Seq<int>, k: int) -> bool {
    0 <= k < first.len() && k < other.len() && first.take(k) == other.take(k) && first[k]
        > other[k]
}

/// The search comes to `first` before it comes to `other`: where the two
/// part, `first` takes the edge that stands later in the list.
pub open spec fn tried_before(first: Seq<int>, other: Seq<int>) -> bool {
    exists|k: int| parts_at(first, other, k)
}

/// `walk` leads from `start` to `goal` without visiting a node twice, and the
/// search comes to it before it comes to any other such walk.
pub open spec fn is_first_walk(
    edges: Seq<EdgeView>,
    start: Seq<char>,
    goal: Seq<char>,
    walk: Seq<int>,
) -> bool {
    leads_to(edges, start, goal, walk) && forall|other: Seq<int>| #[trigger]
        leads_to(edges, start, goal, other) ==> other == walk || tried_before(walk, other)
}

/// Some edge leads from the node `from` to the node `to`.
pub open spec fn joined(edges: Seq<EdgeView>, from: Seq<char>, to: Seq<char>) -> bool {
    exists|e: int| 0 <= e < edges.len() && (#[trigger] edges[e]).source == from && edges[e].sink == to
}

/// Some walk, of any kind, leads from `start` to `goal`.
pub open spec fn reachable(edges: Seq<EdgeView>, start: Seq<char>, goal: Seq<char>) -> bool {
    exists|walk: Seq<int>| #[trigger]
        is_walk(edges, start, walk) && walk_end(edges, start, walk) == goal
}

/// The walk that the search comes to first, where there is one.
pub open spec fn first_walk(edges: Seq<EdgeView>, start: Seq<char>, goal: Seq<char>) -> Seq<int> {
    choose|walk: Seq<int>| is_first_walk(edges, start, goal, walk)
}

/// What a path query answers on a layout: an error where `start` or `goal`
/// is no node of it, another where no walk leads from the one to the other,
/// and else the nodes of the first walk.
pub open spec fn answer(layout: LayoutView, start: Seq<char>, goal: Seq<char>) -> Result<
    Seq<Seq<char>>,
    Error,
> {
    if !(layout.has_node(start) && layout.has_node(goal)) {
        Err(Error::NodesNotFound)
    } else if !reachable(layout.edges, start, goal) {
        Err(Error::PathNotFound)
    } else {
        Ok(walk_nodes(layout.edges, start, first_walk(layout.edges, start, goal)))
    }
}

/// A query with an end that is no node of the layout is refused, whatever the
/// other end is.
pub proof fn unknown_end_is_refused(layout: LayoutView, start: Seq<char>, goal: Seq<char>)
    requires
        !layout.has_node(start) || !layout.has_node(goal),
    ensures
        answer(layout, start, goal) == Err::<Seq<Seq<char>>, Error>(Error::NodesNotFound),
{
}

/// The answer depends on the nodes and edges alone: two layouts that agree
/// on them answer every query alike. So a layout that is installed twice
/// answers as before, and a search on a snapshot is not touched by what is
/// installed meanwhile.
pub proof fn same_graph_same_answer(
    one: LayoutView,
    two: LayoutView,
    start: Seq<char>,
    goal: Seq<char>,
)
    requires
        one.nodes == two.nodes,
        one.edges == two.edges,
    ensures
        answer(one, start, goal) == answer(two, start, goal),
{
    assert(one.has_node(start) == two.has_node(start));
    assert(one.has_node(goal) == two.has_node(goal));
}

/// The nodes of a walk to the goal that visits no node twice: the first is
/// the start, the last is the goal, each step follows an edge of the list,
/// and no node comes twice.
pub proof fn nodes_form_a_path(
    edges: Seq<EdgeView>,
    start: Seq<char>,
    goal: Seq<char>,
    walk: Seq<int>,
)
    requires
        leads_to(edges, start, goal, walk),
    ensures
        walk_nodes(edges, start, walk).len() == walk.len() + 1,
        walk_nodes(edges, start, walk).first() == start,
        walk_nodes(edges, start, walk).last() == goal,
        walk_nodes(edges, start, walk).no_duplicates(),
        forall|k: int|
            0 <= k < walk.len() ==> joined(
                edges,
                #[trigger] walk_nodes(edges, start, walk)[k],
                walk_nodes(edges, start, walk)[k + 1],
            ),
{
    let nodes = walk_nodes(edges, start, walk);
    assert forall|k: int| 0 <= k < walk.len() implies joined(
        edges,
        #[trigger] nodes[k],
        nodes[k + 1],
    ) by {
        let e = walk[k];
        assert(edges[e].source == nodes[k] && edges[e].sink == nodes[k + 1]);
    }
    assert forall|i: int, j: int| 0 <= i < nodes.len() && 0 <= j < nodes.len() && i
        != j implies nodes[i] != nodes[j] by {
        if i < j {
            assert(walk_node(edges, start, walk, i) != walk_node(edges, start, walk, j));
        } else {
            assert(walk_node(edges, start, walk, j) != walk_node(edges, start, walk, i));
        }
    }
}

/// In a layout whose edges all name nodes, a walk from a node never leaves
/// the nodes: every id on a path that is answered is a node of the layout.
pub proof fn walk_stays_among_nodes(layout: LayoutView, start: Seq<char>, walk: Seq<int>, k: int)
    requires
        layout.endpoints_known(),
        layout.has_node(start),
        is_walk(layout.edges, start, walk),
        0 <= k <= walk.len(),
    ensures
        layout.has_node(walk_node(layout.edges, start, walk, k)),
{
    if k > 0 {
        assert(layout.has_node(layout.edges[walk[k - 1]].sink));
    }
}

/// At most one walk is the first: what [`first_walk`] picks is the only one
/// it could pick.
pub proof fn first_walk_is_unique(
    edges: Seq<EdgeView>,
    start: Seq<char>,
    goal: Seq<char>,
    one: Seq<int>,
    two: Seq<int>,
)
    requires
        is_first_walk(edges, start, goal, one),
        is_first_walk(edges, start, goal, two),
    ensures
        one == two,
{
    if one != two {
        assert(leads_to(edges, start, goal, one));
        assert(leads_to(edges, start, goal, two));
        assert(tried_before(one, two));
        assert(tried_before(two, one));
        let a = choose|k: int| parts_at(one, two, k);
        let b = choose|k: int| parts_at(two, one, k);
        if a < b {
            assert(two.take(b)[a] == one.take(b)[a]);
        } else if b < a {
            assert(one.take(a)[b] == two.take(a)[b]);
        }
    }
}

/// A walk that ends where it started without a step is the first walk from
/// a node to itself: the answer is that node alone.
pub proof fn standing_still_is_first(edges: Seq<EdgeView>, start: Seq<char>)
    ensures
        is_first_walk(edges, start, start, Seq::<int>::empty()),
{
    let none = Seq::<int>::empty();
    assert forall|other: Seq<int>| #[trigger]
        leads_to(edges, start, start, other) implies other == none || tried_before(
        none,
        other,
    ) by {
        if other.len() > 0 {
            assert(walk_node(edges, start, other, 0) != walk_node(
                edges,
                start,
                other,
                other.len() as int,
            ));
        }
        assert(other =~= none);
    }
}

} // verus!
