//! The path query engine: a depth-first search with an explicit stack.
//!
//! The search pops the walk that was pushed last. If it ends at the goal, the
//! search is over. If it ends at a node whose edges were pushed before, it is
//! dropped: what lies behind that node has been tried already. Otherwise one
//! frame is pushed for every edge that leaves the node, in the order of the
//! edge list. Every node is worked on once, so the search ends on every
//! layout, with or without cycles.

use vstd::prelude::*;
use crate::error::Error;
use crate::frontier::{
    expanding, fewer_wait, out_degree, out_degree_step, round_begins, round_ends, round_passes,
    round_takes, search_begins, search_finds, search_is_exhausted, search_runs, search_skips,
    settled, still_done, waiting,
};
use crate::graph::{EdgeView, LayoutView};
use crate::model::Layout;
use crate::walk::{
    answer, first_walk, first_walk_is_unique, is_first_walk, is_walk, joined, nodes_form_a_path,
    reachable, walk_end, walk_node, walk_nodes,
};

verus! {

/// The ids that a list of strings holds.
pub open spec fn names(ids: Seq<String>) -> Seq<Seq<char>> {
    ids.map_values(|id: String| id@)
}

/// A query's result as the contracts see it.
pub open spec fn named(r: Result<Vec<String>, Error>) -> Result<Seq<Seq<char>>, Error> {
    match r {
        Ok(path) => Ok(names(path@)),
        Err(e) => Err(e),
    }
}

/// Wherever the goal can be reached, some walk to it is the first: the
/// answer to a query is settled for every layout and every pair of ends.
pub proof fn first_walk_exists(edges: Seq<EdgeView>, start: Seq<char>, goal: Seq<char>)
    requires
        reachable(edges, start, goal),
    ensures
        is_first_walk(edges, start, goal, first_walk(edges, start, goal)),
{
    search_begins(edges, start, goal);
    let found = search_runs(
        edges,
        start,
        goal,
        Seq::<Seq<char>>::empty(),
        seq![Seq::<int>::empty()],
    );
    assert(is_first_walk(edges, start, goal, found->Some_0));
}

/// A path that is answered starts with `start`, ends with `goal`, holds no
/// node twice, and goes from each node to the next along an edge of the
/// layout.
pub proof fn answer_is_a_path(layout: LayoutView, start: Seq<char>, goal: Seq<char>)
    requires
        answer(layout, start, goal) is Ok,
    ensures
        ({
            let path = answer(layout, start, goal)->Ok_0;
            &&& path.len() >= 1
            &&& path.first() == start
            &&& path.last() == goal
            &&& path.no_duplicates()
            &&& forall|k: int|
                0 <= k < path.len() - 1 ==> joined(layout.edges, #[trigger] path[k], path[k + 1])
        }),
{
    first_walk_exists(layout.edges, start, goal);
    nodes_form_a_path(layout.edges, start, goal, first_walk(layout.edges, start, goal));
}

/// A path is answered exactly when both ends are nodes of the layout and
/// some walk leads from the one to the other.
pub proof fn answered_means_reachable(layout: LayoutView, start: Seq<char>, goal: Seq<char>)
    ensures
        answer(layout, start, goal) is Ok <==> (layout.has_node(start) && layout.has_node(goal)
            && reachable(layout.edges, start, goal)),
        answer(layout, start, goal) is Err ==> answer(layout, start, goal)->Err_0
            == Error::NodesNotFound || answer(layout, start, goal)->Err_0 == Error::PathNotFound,
{
}

/// One entry of the search stack: the node to try, and the nodes that led
/// there.
struct Frame {
    node: String,
    path: Vec<String>,
}

/// The nodes of a walk before its end.
spec fn way_there(edges: Seq<EdgeView>, start: Seq<char>, walk: Seq<int>) -> Seq<Seq<char>> {
    Seq::new(walk.len(), |k: int| walk_node(edges, start, walk, k))
}

/// The frame stands for the walk.
spec fn stands_for(edges: Seq<EdgeView>, start: Seq<char>, frame: Frame, walk: Seq<int>) -> bool {
    frame.node@ == walk_end(edges, start, walk) && names(frame.path@) == way_there(
        edges,
        start,
        walk,
    )
}

/// The stack of frames stands for the stack of walks.
spec fn stack_stands_for(
    edges: Seq<EdgeView>,
    start: Seq<char>,
    stack: Seq<Frame>,
    walks: Seq<Seq<int>>,
) -> bool {
    stack.len() == walks.len() && forall|i: int|
        0 <= i < stack.len() ==> stands_for(edges, start, #[trigger] stack[i], walks[i])
}

/// The ids of a list that grew by one are the ids it held and the new one.
proof fn names_of_longer(ids: Seq<String>, id: String)
    ensures
        names(ids.push(id)) == names(ids).push(id@),
{
    assert(names(ids.push(id)) =~= names(ids).push(id@));
}

/// Whether some node of the layout has the id `id`.
fn names_a_node(layout: &Layout, id: &String) -> (b: bool)
    ensures
        b == layout@.has_node(id@),
{
    let n: usize = layout.nodes.len();
    let mut i: usize = 0;
    while i < n
        invariant
            n == layout.nodes.len(),
            i <= n,
            forall|a: int| 0 <= a < i ==> (#[trigger] layout@.nodes[a]).id != id@,
        decreases n - i,
    {
        if layout.nodes[i].id == *id {
            assert(layout@.nodes[i as int].id == id@);
            return true;
        }
        i += 1;
    }
    false
}

/// Whether `id` is among `ids`.
fn is_listed(ids: &Vec<String>, id: &String) -> (b: bool)
    ensures
        b == names(ids@).contains(id@),
{
    let n: usize = ids.len();
    let mut i: usize = 0;
    while i < n
        invariant
            n == ids.len(),
            i <= n,
            forall|a: int| 0 <= a < i ==> (#[trigger] names(ids@)[a]) != id@,
        decreases n - i,
    {
        if ids[i] == *id {
            assert(names(ids@)[i as int] == id@);
            return true;
        }
        i += 1;
    }
    false
}

/// A copy of a list of ids.
fn copy_of(ids: &Vec<String>) -> (copy: Vec<String>)
    ensures
        names(copy@) == names(ids@),
{
    let mut copy: Vec<String> = Vec::new();
    let mut i: usize = 0;
    while i < ids.len()
        invariant
            i <= ids.len(),
            copy.len() == i,
            forall|k: int| 0 <= k < i ==> (#[trigger] copy[k])@ == ids[k]@,
        decreases ids.len() - i,
    {
        copy.push(ids[i].clone());
        i += 1;
    }
    assert(names(copy@) =~= names(ids@));
    copy
}

/// Searches the layout for a path from `start` to `goal` along its directed
/// edges.
///
/// Fails with `NodesNotFound` unless both are nodes of the layout, and with
/// `PathNotFound` where no walk leads from the one to the other. Else the
/// path is the one that a depth-first search comes to first when it tries the
/// edges that leave a node from the last in the edge list to the first: it
/// starts with `start`, ends with `goal`, visits no node twice, and need not
/// be a shortest one.
pub fn find_path(layout: &Layout, start: &str, goal: &str) -> (r: Result<Vec<String>, Error>)
    ensures
        named(r) == answer(layout@, start@, goal@),
{
    let first = start.to_owned();
    let last = goal.to_owned();
    if !(names_a_node(layout, &first) && names_a_node(layout, &last)) {
        return Err(Error::NodesNotFound);
    }
    let ghost edges = layout@.edges;
    let count: usize = layout.edges.len();
    let mut done: Vec<String> = Vec::new();
    let mut stack: Vec<Frame> = Vec::new();
    stack.push(Frame { node: first, path: Vec::new() });
    let ghost mut walks: Seq<Seq<int>> = seq![Seq::<int>::empty()];
    proof {
        search_begins(edges, start@, goal@);
        assert(names(done@) =~= Seq::<Seq<char>>::empty());
        assert(way_there(edges, start@, Seq::<int>::empty()) =~= names(stack[0].path@));
    }
    while stack.len() > 0
        invariant
            edges == layout@.edges,
            count == layout.edges.len(),
            last@ == goal@,
            layout@.has_node(start@) && layout@.has_node(goal@),
            settled(edges, start@, goal@, names(done@), walks),
            stack_stands_for(edges, start@, stack@, walks),
            names(done@).contains(start@) || walks =~= seq![Seq::<int>::empty()],
        decreases waiting(edges, names(done@)) + stack.len(),
    {
        let ghost before = stack@;
        let ghost top = walks.last();
        let frame = stack.pop().unwrap();
        assert(stands_for(edges, start@, before[before.len() - 1], walks[walks.len() - 1]));
        if frame.node == last {
            let mut path = frame.path;
            let ghost way = path@;
            path.push(frame.node);
            proof {
                search_finds(edges, start@, goal@, names(done@), walks);
                names_of_longer(way, frame.node);
                assert(names(path@) =~= walk_nodes(edges, start@, top));
                assert(is_walk(edges, start@, top));
                first_walk_is_unique(
                    edges,
                    start@,
                    goal@,
                    top,
                    first_walk(edges, start@, goal@),
                );
            }
            return Ok(path);
        }
        if is_listed(&done, &frame.node) {
            proof {
                search_skips(edges, start@, goal@, names(done@), walks);
                walks = walks.drop_last();
            }
        } else {
            let ghost base = walks.len() - 1;
            let ghost seen = names(done@);
            proof {
                round_begins(edges, start@, goal@, seen, walks);
                fewer_wait(edges, seen, frame.node@);
                walks = walks.drop_last();
            }
            let mut trail = frame.path;
            let ghost way = trail@;
            let ghost listed = done@;
            trail.push(frame.node.clone());
            done.push(frame.node);
            let node = &done[done.len() - 1];
            proof {
                names_of_longer(way, trail@.last());
                names_of_longer(listed, *node);
                still_done(seen, node@, start@);
                assert(names(trail@) =~= walk_nodes(edges, start@, top));
            }
            assert(edges.take(0) =~= Seq::<EdgeView>::empty());
            let mut e: usize = 0;
            while e < count
                invariant
                    edges == layout@.edges,
                    count == layout.edges.len(),
                    e <= count,
                    node@ == walk_end(edges, start@, top),
                    names(trail@) == walk_nodes(edges, start@, top),
                    expanding(edges, start@, goal@, names(done@), walks, top, e as int, base),
                    stack_stands_for(edges, start@, stack@, walks),
                    stack.len() == base + out_degree(edges.take(e as int), node@),
                decreases count - e,
            {
                let edge = &layout.edges[e];
                assert(edges[e as int] == edge@);
                proof {
                    out_degree_step(edges, e as int, node@);
                }
                if edge.source == *node {
                    let next = Frame { node: edge.sink.clone(), path: copy_of(&trail) };
                    proof {
                        round_takes(
                            edges,
                            start@,
                            goal@,
                            names(done@),
                            walks,
                            top,
                            e as int,
                            base,
                        );
                        assert(way_there(edges, start@, top.push(e as int)) =~= walk_nodes(
                            edges,
                            start@,
                            top,
                        ));
                        assert(stands_for(edges, start@, next, top.push(e as int)));
                        walks = walks.push(top.push(e as int));
                    }
                    stack.push(next);
                } else {
                    proof {
                        round_passes(
                            edges,
                            start@,
                            goal@,
                            names(done@),
                            walks,
                            top,
                            e as int,
                            base,
                        );
                    }
                }
                e += 1;
            }
            proof {
                assert(edges.take(count as int) =~= edges);
                round_ends(edges, start@, goal@, names(done@), walks, top, base);
            }
        }
    }
    proof {
        assert(walks =~= Seq::<Seq<int>>::empty());
        search_is_exhausted(edges, start@, goal@, names(done@));
    }
    Err(Error::PathNotFound)
}

} // verus!
