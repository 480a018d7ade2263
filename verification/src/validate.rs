//! The validation engine: checks a candidate layout against the structural
//! rules, in their fixed order, and names the first one it breaks.

use vstd::prelude::*;
use crate::error::Error;
use crate::graph::{coordinate, count_ends, same_place, EdgeView, LayoutView};
use crate::routes::{InputLayout, InputPosition};

verus! {

/// Folds negative zero into zero.
fn coordinate_of(bits: u32) -> (c: u32)
    ensures
        c == coordinate(bits),
{
    if bits == 0x8000_0000u32 {
        0u32
    } else {
        bits
    }
}

/// Whether two positions coincide.
fn coincide(p: &InputPosition, q: &InputPosition) -> (b: bool)
    ensures
        b == same_place((p.x, p.y), (q.x, q.y)),
{
    coordinate_of(p.x) == coordinate_of(q.x) && coordinate_of(p.y) == coordinate_of(q.y)
}

/// Rule 1: no two nodes share an id.
fn node_ids_are_unique(layout: &InputLayout) -> (b: bool)
    ensures
        b == layout@.node_ids_unique(),
{
    let n: usize = layout.nodes.len();
    let mut i: usize = 0;
    while i < n
        invariant
            n == layout.nodes.len(),
            i <= n,
            forall|a: int, b: int|
                0 <= a < b < n && a < i ==> (#[trigger] layout@.nodes[a]).id != (
                #[trigger] layout@.nodes[b]).id,
        decreases n - i,
    {
        let mut j: usize = i + 1;
        while j < n
            invariant
                n == layout.nodes.len(),
                i < n,
                i < j <= n,
                forall|a: int, b: int|
                    0 <= a < b < n && a < i ==> (#[trigger] layout@.nodes[a]).id != (
                    #[trigger] layout@.nodes[b]).id,
                forall|b: int|
                    i < b < j ==> layout@.nodes[i as int].id != (#[trigger] layout@.nodes[b]).id,
            decreases n - j,
        {
            if layout.nodes[i].id == layout.nodes[j].id {
                assert(layout@.nodes[i as int].id == layout@.nodes[j as int].id);
                return false;
            }
            j += 1;
        }
        i += 1;
    }
    true
}

/// Rule 2: no two nodes lie at the same place.
fn places_are_unique(layout: &InputLayout) -> (b: bool)
    ensures
        b == layout@.places_unique(),
{
    let n: usize = layout.nodes.len();
    let mut i: usize = 0;
    while i < n
        invariant
            n == layout.nodes.len(),
            i <= n,
            forall|a: int, b: int|
                0 <= a < b < n && a < i ==> !same_place(
                    (#[trigger] layout@.nodes[a]).position,
                    (#[trigger] layout@.nodes[b]).position,
                ),
        decreases n - i,
    {
        let mut j: usize = i + 1;
        while j < n
            invariant
                n == layout.nodes.len(),
                i < n,
                i < j <= n,
                forall|a: int, b: int|
                    0 <= a < b < n && a < i ==> !same_place(
                        (#[trigger] layout@.nodes[a]).position,
                        (#[trigger] layout@.nodes[b]).position,
                    ),
                forall|b: int|
                    i < b < j ==> !same_place(
                        layout@.nodes[i as int].position,
                        (#[trigger] layout@.nodes[b]).position,
                    ),
            decreases n - j,
        {
            if coincide(&layout.nodes[i].position, &layout.nodes[j].position) {
                assert(same_place(
                    layout@.nodes[i as int].position,
                    layout@.nodes[j as int].position,
                ));
                return false;
            }
            j += 1;
        }
        i += 1;
    }
    true
}

/// Rule 3: no two edges share an id.
fn edge_ids_are_unique(layout: &InputLayout) -> (b: bool)
    ensures
        b == layout@.edge_ids_unique(),
{
    let n: usize = layout.edges.len();
    let mut i: usize = 0;
    while i < n
        invariant
            n == layout.edges.len(),
            i <= n,
            forall|a: int, b: int|
                0 <= a < b < n && a < i ==> (#[trigger] layout@.edges[a]).id != (
                #[trigger] layout@.edges[b]).id,
        decreases n - i,
    {
        let mut j: usize = i + 1;
        while j < n
            invariant
                n == layout.edges.len(),
                i < n,
                i < j <= n,
                forall|a: int, b: int|
                    0 <= a < b < n && a < i ==> (#[trigger] layout@.edges[a]).id != (
                    #[trigger] layout@.edges[b]).id,
                forall|b: int|
                    i < b < j ==> layout@.edges[i as int].id != (#[trigger] layout@.edges[b]).id,
            decreases n - j,
        {
            if layout.edges[i].id == layout.edges[j].id {
                assert(layout@.edges[i as int].id == layout@.edges[j as int].id);
                return false;
            }
            j += 1;
        }
        i += 1;
    }
    true
}

/// Whether some node of the candidate has the id `id`.
fn names_a_node(layout: &InputLayout, id: &String) -> (b: bool)
    ensures
        b == layout@.has_node(id@),
{
    let n: usize = layout.nodes.len();
    let mut i: usize = 0;
    while i < n
        invariant
            n == layout.nodes.len(),
            i <= n,
            forall|a: int| 0 <= a < i ==> (#[trigger] layout@.nodes[a]).id != id@,
        decreases n - i,
    {
        if layout.nodes[i].id == *id {
            assert(layout@.nodes[i as int].id == id@);
            return true;
        }
        i += 1;
    }
    false
}

/// Rule 4: both ends of every edge name a node.
fn endpoints_are_known(layout: &InputLayout) -> (b: bool)
    ensures
        b == layout@.endpoints_known(),
{
    let n: usize = layout.edges.len();
    let mut e: usize = 0;
    while e < n
        invariant
            n == layout.edges.len(),
            e <= n,
            forall|a: int|
                0 <= a < e ==> layout@.has_node((#[trigger] layout@.edges[a]).source)
                    && layout@.has_node(layout@.edges[a].sink),
        decreases n - e,
    {
        let edge = &layout.edges[e];
        assert(layout@.edges[e as int] == edge@);
        if !(names_a_node(layout, &edge.source) && names_a_node(layout, &edge.sink)) {
            return false;
        }
        e += 1;
    }
    true
}

/// Adding edges never takes an edge end away from a node.
proof fn count_ends_grows(edges: Seq<EdgeView>, k: int, id: Seq<char>)
    requires
        0 <= k <= edges.len(),
    ensures
        count_ends(edges.take(k), id) <= count_ends(edges, id),
    decreases edges.len() - k,
{
    if k == edges.len() {
        assert(edges.take(k) == edges);
    } else {
        count_ends_grows(edges, k + 1, id);
        assert(edges.take(k + 1).drop_last() == edges.take(k));
    }
}

/// Whether at least two edge ends touch the node `id`. Stops counting at two.
fn has_two_ends(layout: &InputLayout, id: &String) -> (b: bool)
    ensures
        b == (layout@.driveways(id@) >= 2),
{
    let n: usize = layout.edges.len();
    let mut count: u8 = 0;
    let mut e: usize = 0;
    while e < n
        invariant
            n == layout.edges.len(),
            e <= n,
            count < 2,
            count == count_ends(layout@.edges.take(e as int), id@),
        decreases n - e,
    {
        let edge = &layout.edges[e];
        proof {
            assert(layout@.edges[e as int] == edge@);
            assert(layout@.edges.take(e + 1).drop_last() == layout@.edges.take(e as int));
            assert(layout@.edges.take(e + 1).last() == edge@);
        }
        if edge.source == *id {
            count += 1;
        }
        if edge.sink == *id {
            count += 1;
        }
        if count >= 2 {
            proof {
                count_ends_grows(layout@.edges, e + 1, id@);
            }
            return true;
        }
        e += 1;
    }
    assert(layout@.edges.take(n as int) == layout@.edges);
    false
}

/// Rule 5: every node that an edge touches has at least two edge ends.
fn driveways_suffice(layout: &InputLayout) -> (b: bool)
    ensures
        b == layout@.enough_driveways(),
{
    let n: usize = layout.edges.len();
    let mut e: usize = 0;
    while e < n
        invariant
            n == layout.edges.len(),
            e <= n,
            forall|a: int|
                0 <= a < e ==> layout@.driveways((#[trigger] layout@.edges[a]).source) >= 2
                    && layout@.driveways(layout@.edges[a].sink) >= 2,
        decreases n - e,
    {
        let edge = &layout.edges[e];
        assert(layout@.edges[e as int] == edge@);
        if !(has_two_ends(layout, &edge.source) && has_two_ends(layout, &edge.sink)) {
            return false;
        }
        e += 1;
    }
    true
}

/// Checks a candidate layout against the rules, in this order: node ids are
/// unique, node positions are unique, edge ids are unique, every edge end
/// names a node, every node that an edge touches has at least two edge ends.
/// Returns the error of the first rule that is broken.
pub fn validate(layout: &InputLayout) -> (r: Result<(), Error>)
    ensures
        r == layout@.verdict(),
{
    if !node_ids_are_unique(layout) {
        return Err(Error::NodesMustBeUnique);
    }
    if !places_are_unique(layout) {
        return Err(Error::NodesMustBeUnique);
    }
    if !edge_ids_are_unique(layout) {
        return Err(Error::EdgesMustBeUnique);
    }
    if !endpoints_are_known(layout) {
        return Err(Error::InvalidNodeInEdge);
    }
    if !driveways_suffice(layout) {
        return Err(Error::NodeNeedsMoreDriveways);
    }
    Ok(())
}

/// Two nodes with one id: the layout is refused for its nodes, whatever its
/// edges are.
pub proof fn shared_node_id_is_refused(layout: LayoutView, i: int, j: int)
    requires
        0 <= i < layout.nodes.len(),
        0 <= j < layout.nodes.len(),
        i != j,
        layout.nodes[i].id == layout.nodes[j].id,
    ensures
        layout.verdict() == Err::<(), Error>(Error::NodesMustBeUnique),
{
    if i < j {
        assert(layout.nodes[i].id == layout.nodes[j].id);
    } else {
        assert(layout.nodes[j].id == layout.nodes[i].id);
    }
}

/// Two nodes at one place: the layout is refused for its nodes, whatever its
/// edges are.
pub proof fn shared_place_is_refused(layout: LayoutView, i: int, j: int)
    requires
        0 <= i < layout.nodes.len(),
        0 <= j < layout.nodes.len(),
        i != j,
        same_place(layout.nodes[i].position, layout.nodes[j].position),
    ensures
        layout.verdict() == Err::<(), Error>(Error::NodesMustBeUnique),
{
    if i < j {
        assert(same_place(layout.nodes[i].position, layout.nodes[j].position));
    } else {
        assert(same_place(layout.nodes[j].position, layout.nodes[i].position));
    }
}

/// Two edges with one id, under nodes that are in order: the layout is refused
/// for its edges.
pub proof fn shared_edge_id_is_refused(layout: LayoutView, i: int, j: int)
    requires
        layout.node_ids_unique(),
        layout.places_unique(),
        0 <= i < layout.edges.len(),
        0 <= j < layout.edges.len(),
        i != j,
        layout.edges[i].id == layout.edges[j].id,
    ensures
        layout.verdict() == Err::<(), Error>(Error::EdgesMustBeUnique),
{
    if i < j {
        assert(layout.edges[i].id == layout.edges[j].id);
    } else {
        assert(layout.edges[j].id == layout.edges[i].id);
    }
}

/// An edge with an end that names no node, where the ids and places before it
/// are in order: the layout is refused for that edge.
pub proof fn unknown_endpoint_is_refused(layout: LayoutView, e: int)
    requires
        layout.node_ids_unique(),
        layout.places_unique(),
        layout.edge_ids_unique(),
        0 <= e < layout.edges.len(),
        !layout.has_node(layout.edges[e].source) || !layout.has_node(layout.edges[e].sink),
    ensures
        layout.verdict() == Err::<(), Error>(Error::InvalidNodeInEdge),
{
    assert(!(layout.has_node(layout.edges[e].source) && layout.has_node(layout.edges[e].sink)));
}

/// A node that an edge touches and that has fewer than two edge ends, where
/// the rules before this one are kept: the layout is refused for its driveways.
pub proof fn lonely_node_is_refused(layout: LayoutView, e: int)
    requires
        layout.node_ids_unique(),
        layout.places_unique(),
        layout.edge_ids_unique(),
        layout.endpoints_known(),
        0 <= e < layout.edges.len(),
        layout.driveways(layout.edges[e].source) < 2 || layout.driveways(layout.edges[e].sink) < 2,
    ensures
        layout.verdict() == Err::<(), Error>(Error::NodeNeedsMoreDriveways),
{
    assert(!(layout.driveways(layout.edges[e].source) >= 2 && layout.driveways(
        layout.edges[e].sink,
    ) >= 2));
}

/// A layout is accepted exactly when it keeps all five rules.
pub proof fn accepted_means_all_rules(layout: LayoutView)
    ensures
        layout.is_valid() <==> (layout.node_ids_unique() && layout.places_unique()
            && layout.edge_ids_unique() && layout.endpoints_known()
            && layout.enough_driveways()),
{
}

} // verus!
