//! The state of a search in progress, and the facts that hold of it from one
//! step to the next.
//!
//! A search keeps a stack of walks that it has still to try, and the list of
//! nodes whose outgoing edges it has already put on the stack. The walk on
//! top of the stack is tried next. [`settled`] says what is true of the two
//! between steps; while the edges of one node are being put on the stack,
//! [`expanding`] holds. The steps themselves are the lemmas of this file, and
//! [`search_runs`] puts them together into a search that is run in thought.

use vstd::prelude::*;
use crate::graph::EdgeView;
use crate::walk::{
    is_first_walk, is_simple, is_walk, leads_to, parts_at, reachable, tried_before, walk_end,
    walk_node,
};

verus! {

/// `walk` starts with the edges of `head`.
pub open spec fn begins(walk: Seq<int>, head: Seq<int>) -> bool {
    head.len() <= walk.len() && walk.take(head.len() as int) == head
}

/// A walk on the stack is a walk whose nodes before its end are all done
/// and all different.
pub closed spec fn well_kept(
    edges: Seq<EdgeView>,
    start: Seq<char>,
    done: Seq<Seq<char>>,
    walk: Seq<int>,
) -> bool {
    &&& is_walk(edges, start, walk)
    &&& forall|k: int|
        0 <= k < walk.len() ==> done.contains(#[trigger] walk_node(edges, start, walk, k))
    &&& forall|a: int, b: int|
        0 <= a < b < walk.len() ==> #[trigger] walk_node(edges, start, walk, a)
            != #[trigger] walk_node(edges, start, walk, b)
}

/// How a walk lower on the stack relates to one above it: up to its last
/// edge it runs along the upper one, and there it takes an earlier edge.
pub closed spec fn stacked(below: Seq<int>, above: Seq<int>) -> bool {
    &&& 1 <= below.len() <= above.len()
    &&& below.drop_last() == above.take(below.len() - 1)
    &&& below.last() < above[below.len() - 1]
}

/// Some walk on the stack ends with the edge `e`.
pub closed spec fn waits(walks: Seq<Seq<int>>, e: int) -> bool {
    exists|i: int| 0 <= i < walks.len() && (#[trigger] walks[i]).len() >= 1 && walks[i].last() == e
}

/// Some walk on the stack is the beginning of `walk`.
pub closed spec fn covered(walks: Seq<Seq<int>>, walk: Seq<int>) -> bool {
    exists|i: int| 0 <= i < walks.len() && begins(walk, #[trigger] walks[i])
}

/// Every walk on the stack is well kept.
#[verifier::opaque]
pub closed spec fn all_kept(
    edges: Seq<EdgeView>,
    start: Seq<char>,
    done: Seq<Seq<char>>,
    walks: Seq<Seq<int>>,
) -> bool {
    forall|i: int| 0 <= i < walks.len() ==> well_kept(edges, start, done, #[trigger] walks[i])
}

/// Every walk on the stack relates to those above it as [`stacked`] says.
#[verifier::opaque]
pub closed spec fn all_stacked(walks: Seq<Seq<int>>) -> bool {
    forall|i: int, j: int|
        0 <= i < j < walks.len() ==> stacked(#[trigger] walks[i], #[trigger] walks[j])
}

/// Every edge that leaves a done node leads to a done node, or waits on the
/// stack, or belongs to the round in progress and has not had its turn.
#[verifier::opaque]
pub closed spec fn edges_accounted(
    edges: Seq<EdgeView>,
    start: Seq<char>,
    done: Seq<Seq<char>>,
    walks: Seq<Seq<int>>,
    cur: Seq<int>,
    upto: int,
) -> bool {
    forall|e: int|
        0 <= e < edges.len() && done.contains((#[trigger] edges[e]).source) ==> done.contains(
            edges[e].sink,
        ) || waits(walks, e) || (edges[e].source == walk_end(edges, start, cur) && e >= upto)
}

/// Every walk to the goal that visits no node twice begins with a walk on the
/// stack, or continues `cur` by an edge that has not had its turn.
#[verifier::opaque]
pub closed spec fn goal_ahead(
    edges: Seq<EdgeView>,
    start: Seq<char>,
    goal: Seq<char>,
    walks: Seq<Seq<int>>,
    cur: Seq<int>,
    upto: int,
) -> bool {
    forall|q: Seq<int>| #[trigger]
        leads_to(edges, start, goal, q) ==> covered(walks, q) || (begins(q, cur) && q.len()
            > cur.len() && q[cur.len() as int] >= upto)
}

/// What holds of the stack `walks` and of the nodes `done` while the edges
/// that leave the end of `cur` are put on the stack, those before `upto`
/// being on it already. Between two such rounds it holds with `upto` at the
/// end of the edge list.
pub closed spec fn searching(
    edges: Seq<EdgeView>,
    start: Seq<char>,
    goal: Seq<char>,
    done: Seq<Seq<char>>,
    walks: Seq<Seq<int>>,
    cur: Seq<int>,
    upto: int,
) -> bool {
    &&& all_kept(edges, start, done, walks)
    &&& all_stacked(walks)
    &&& !done.contains(goal)
    &&& edges_accounted(edges, start, done, walks, cur, upto)
    &&& goal_ahead(edges, start, goal, walks, cur, upto)
}

/// The state between two rounds.
pub open spec fn settled(
    edges: Seq<EdgeView>,
    start: Seq<char>,
    goal: Seq<char>,
    done: Seq<Seq<char>>,
    walks: Seq<Seq<int>>,
) -> bool {
    searching(edges, start, goal, done, walks, Seq::<int>::empty(), edges.len() as int)
}

/// Within a round: `cur` visits no node twice and all its nodes are done; the
/// first `base` walks were on the stack before the round and lie below `cur`;
/// the others continue `cur` by one edge each, an edge that had its turn.
#[verifier::opaque]
pub closed spec fn round_shape(
    edges: Seq<EdgeView>,
    start: Seq<char>,
    done: Seq<Seq<char>>,
    walks: Seq<Seq<int>>,
    cur: Seq<int>,
    upto: int,
    base: int,
) -> bool {
    &&& is_walk(edges, start, cur)
    &&& is_simple(edges, start, cur)
    &&& forall|k: int|
        0 <= k <= cur.len() ==> done.contains(#[trigger] walk_node(edges, start, cur, k))
    &&& forall|i: int| 0 <= i < base ==> stacked(#[trigger] walks[i], cur)
    &&& forall|i: int|
        base <= i < walks.len() ==> (#[trigger] walks[i]).len() == cur.len() + 1
            && walks[i].drop_last() == cur && walks[i].last() < upto
}

/// The state within a round.
pub closed spec fn expanding(
    edges: Seq<EdgeView>,
    start: Seq<char>,
    goal: Seq<char>,
    done: Seq<Seq<char>>,
    walks: Seq<Seq<int>>,
    cur: Seq<int>,
    upto: int,
    base: int,
) -> bool {
    &&& searching(edges, start, goal, done, walks, cur, upto)
    &&& 0 <= upto <= edges.len()
    &&& 0 <= base <= walks.len()
    &&& round_shape(edges, start, done, walks, cur, upto, base)
}

/// How many edges leave nodes that are not done yet.
pub open spec fn waiting(edges: Seq<EdgeView>, done: Seq<Seq<char>>) -> nat
    decreases edges.len(),
{
    if edges.len() == 0 {
        0
    } else {
        waiting(edges.drop_last(), done) + (if done.contains(edges.last().source) {
            0nat
        } else {
            1nat
        })
    }
}

/// How many edges leave the node `id`.
pub open spec fn out_degree(edges: Seq<EdgeView>, id: Seq<char>) -> nat
    decreases edges.len(),
{
    if edges.len() == 0 {
        0
    } else {
        out_degree(edges.drop_last(), id) + (if edges.last().source == id {
            1nat
        } else {
            0nat
        })
    }
}

/// Where two walks begin alike, they stand at the same nodes.
proof fn same_nodes(
    edges: Seq<EdgeView>,
    start: Seq<char>,
    walk: Seq<int>,
    head: Seq<int>,
    k: int,
)
    requires
        begins(walk, head),
        0 <= k <= head.len(),
    ensures
        walk_node(edges, start, walk, k) == walk_node(edges, start, head, k),
{
    if k > 0 {
        assert(walk.take(head.len() as int)[k - 1] == walk[k - 1]);
    }
}

/// A walk that begins with another of the same length is that walk.
proof fn begins_at_full_length(walk: Seq<int>, head: Seq<int>)
    requires
        begins(walk, head),
        walk.len() == head.len(),
    ensures
        walk == head,
{
    assert(walk.take(head.len() as int) =~= walk);
}

/// A walk that begins with `cur` and goes on by the edge `e` begins with
/// `cur` and `e`.
proof fn begins_one_further(walk: Seq<int>, cur: Seq<int>, e: int)
    requires
        begins(walk, cur),
        walk.len() > cur.len(),
        walk[cur.len() as int] == e,
    ensures
        begins(walk, cur.push(e)),
{
    let next = cur.push(e);
    assert forall|x: int| 0 <= x < next.len() implies walk.take(next.len() as int)[x]
        == next[x] by {
        if x < cur.len() {
            assert(walk.take(cur.len() as int)[x] == cur[x]);
        }
    }
    assert(walk.take(next.len() as int) =~= next);
}

/// A walk that is stacked below `cur` is stacked below every walk that goes
/// on from `cur`.
proof fn stacked_below_longer(below: Seq<int>, cur: Seq<int>, e: int)
    requires
        stacked(below, cur),
    ensures
        stacked(below, cur.push(e)),
{
    let next = cur.push(e);
    assert(below.drop_last() =~= next.take(below.len() - 1)) by {
        assert forall|x: int| 0 <= x < below.len() - 1 implies below.drop_last()[x] == next.take(
            below.len() - 1,
        )[x] by {
            assert(cur.take(below.len() - 1)[x] == cur[x]);
        }
    }
    assert(next[below.len() - 1] == cur[below.len() - 1]);
}

/// Of two walks that go on from `cur` by one edge, the one with the earlier
/// edge is stacked below the other.
proof fn stacked_side_by_side(lower: Seq<int>, cur: Seq<int>, e: int)
    requires
        lower.len() == cur.len() + 1,
        lower.drop_last() == cur,
        lower.last() < e,
    ensures
        stacked(lower, cur.push(e)),
{
    let next = cur.push(e);
    assert(lower.drop_last() =~= next.take(lower.len() - 1));
}

/// Going on by an edge that leaves the end of a walk gives a walk, and the
/// nodes up to that end stay as they were.
proof fn one_edge_further(edges: Seq<EdgeView>, start: Seq<char>, cur: Seq<int>, e: int)
    requires
        is_walk(edges, start, cur),
        0 <= e < edges.len(),
        edges[e].source == walk_end(edges, start, cur),
    ensures
        is_walk(edges, start, cur.push(e)),
        walk_end(edges, start, cur.push(e)) == edges[e].sink,
        forall|k: int|
            0 <= k <= cur.len() ==> #[trigger] walk_node(edges, start, cur.push(e), k)
                == walk_node(edges, start, cur, k),
{
    let next = cur.push(e);
    assert forall|k: int| 0 <= k <= cur.len() implies #[trigger] walk_node(edges, start, next, k)
        == walk_node(edges, start, cur, k) by {
        if k > 0 {
            assert(next[k - 1] == cur[k - 1]);
        }
    }
    assert forall|k: int| 0 <= k < next.len() implies 0 <= (#[trigger] next[k]) < edges.len()
        && edges[next[k]].source == walk_node(edges, start, next, k) by {
        if k < cur.len() {
            assert(next[k] == cur[k]);
            assert(walk_node(edges, start, next, k) == walk_node(edges, start, cur, k));
        } else {
            assert(walk_node(edges, start, next, k) == walk_node(edges, start, cur, k));
        }
    }
}

/// A node stays done when another is added.
pub proof fn still_done(done: Seq<Seq<char>>, one: Seq<char>, id: Seq<char>)
    ensures
        done.push(one).contains(id) <==> (done.contains(id) || id == one),
{
    let more = done.push(one);
    if done.contains(id) {
        let i = choose|i: int| 0 <= i < done.len() && done[i] == id;
        assert(more[i] == id);
    }
    if id == one {
        assert(more[done.len() as int] == id);
    }
    if more.contains(id) {
        let i = choose|i: int| 0 <= i < more.len() && more[i] == id;
        if i < done.len() {
            assert(done[i] == id);
        }
    }
}

/// A walk stays well kept when another node becomes done.
proof fn kept_with_more_done(
    edges: Seq<EdgeView>,
    start: Seq<char>,
    done: Seq<Seq<char>>,
    one: Seq<char>,
    walk: Seq<int>,
)
    requires
        well_kept(edges, start, done, walk),
    ensures
        well_kept(edges, start, done.push(one), walk),
{
    assert forall|k: int| 0 <= k < walk.len() implies done.push(one).contains(
        #[trigger] walk_node(edges, start, walk, k),
    ) by {
        still_done(done, one, walk_node(edges, start, walk, k));
    }
}

/// A walk on the stack whose end is not done visits no node twice.
proof fn kept_walk_is_simple(
    edges: Seq<EdgeView>,
    start: Seq<char>,
    done: Seq<Seq<char>>,
    walk: Seq<int>,
)
    requires
        well_kept(edges, start, done, walk),
        !done.contains(walk_end(edges, start, walk)),
    ensures
        is_simple(edges, start, walk),
{
    assert forall|a: int, b: int| 0 <= a < b <= walk.len() implies #[trigger] walk_node(
        edges,
        start,
        walk,
        a,
    ) != #[trigger] walk_node(edges, start, walk, b) by {
        if b == walk.len() {
            assert(done.contains(walk_node(edges, start, walk, a)));
        }
    }
}

/// Taking the top off the stack leaves the walks below as they were.
proof fn rest_is_kept_and_stacked(
    edges: Seq<EdgeView>,
    start: Seq<char>,
    done: Seq<Seq<char>>,
    walks: Seq<Seq<int>>,
)
    requires
        walks.len() > 0,
        all_kept(edges, start, done, walks),
        all_stacked(walks),
    ensures
        all_kept(edges, start, done, walks.drop_last()),
        all_stacked(walks.drop_last()),
        well_kept(edges, start, done, walks.last()),
        forall|i: int| 0 <= i < walks.len() - 1 ==> stacked(#[trigger] walks[i], walks.last()),
{
    reveal(all_kept);
    reveal(all_stacked);
    let rest = walks.drop_last();
    let last = walks.len() - 1;
    assert(well_kept(edges, start, done, walks[last]));
    assert forall|i: int| 0 <= i < rest.len() implies well_kept(
        edges,
        start,
        done,
        #[trigger] rest[i],
    ) by {
        assert(rest[i] == walks[i]);
    }
    assert forall|i: int, j: int| 0 <= i < j < rest.len() implies stacked(
        #[trigger] rest[i],
        #[trigger] rest[j],
    ) by {
        assert(rest[i] == walks[i]);
        assert(rest[j] == walks[j]);
    }
    assert forall|i: int| 0 <= i < walks.len() - 1 implies stacked(
        #[trigger] walks[i],
        walks.last(),
    ) by {
        assert(stacked(walks[i], walks[last]));
    }
}

/// An edge that waits on a stack and is not the last edge of the top waits
/// on the rest of the stack.
proof fn waits_below(walks: Seq<Seq<int>>, e: int)
    requires
        walks.len() > 0,
        waits(walks, e),
        walks.last().len() == 0 || walks.last().last() != e,
    ensures
        waits(walks.drop_last(), e),
{
    let i = choose|i: int|
        0 <= i < walks.len() && (#[trigger] walks[i]).len() >= 1 && walks[i].last() == e;
    assert(walks.drop_last()[i] == walks[i]);
}

/// What waits or is covered on a stack still is when a walk is put on top.
proof fn more_on_the_stack(walks: Seq<Seq<int>>, next: Seq<int>)
    ensures
        forall|e: int| waits(walks, e) ==> #[trigger] waits(walks.push(next), e),
        forall|q: Seq<int>| covered(walks, q) ==> #[trigger] covered(walks.push(next), q),
        next.len() >= 1 ==> waits(walks.push(next), next.last()),
        forall|q: Seq<int>| begins(q, next) ==> #[trigger] covered(walks.push(next), q),
{
    let grown = walks.push(next);
    let at = walks.len() as int;
    assert forall|e: int| waits(walks, e) implies #[trigger] waits(grown, e) by {
        let i = choose|i: int|
            0 <= i < walks.len() && (#[trigger] walks[i]).len() >= 1 && walks[i].last() == e;
        assert(grown[i] == walks[i]);
    }
    assert forall|q: Seq<int>| covered(walks, q) implies #[trigger] covered(grown, q) by {
        let i = choose|i: int| 0 <= i < walks.len() && begins(q, #[trigger] walks[i]);
        assert(grown[i] == walks[i]);
    }
    if next.len() >= 1 {
        assert(grown[at] == next);
    }
    assert forall|q: Seq<int>| begins(q, next) implies #[trigger] covered(grown, q) by {
        assert(grown[at] == next);
    }
}

/// The search begins with the empty walk on the stack and no node done.
pub proof fn search_begins(edges: Seq<EdgeView>, start: Seq<char>, goal: Seq<char>)
    ensures
        settled(edges, start, goal, Seq::empty(), seq![Seq::<int>::empty()]),
{
    let none = Seq::<int>::empty();
    let done = Seq::<Seq<char>>::empty();
    let walks = seq![none];
    assert(all_kept(edges, start, done, walks)) by {
        reveal(all_kept);
        assert(well_kept(edges, start, done, none));
    }
    assert(all_stacked(walks)) by {
        reveal(all_stacked);
    }
    assert(edges_accounted(edges, start, done, walks, none, edges.len() as int)) by {
        reveal(edges_accounted);
    }
    assert(goal_ahead(edges, start, goal, walks, none, edges.len() as int)) by {
        reveal(goal_ahead);
        assert forall|q: Seq<int>| #[trigger] leads_to(edges, start, goal, q) implies covered(
            walks,
            q,
        ) by {
            assert(q.take(0) =~= none);
            assert(begins(q, walks[0]));
        }
    }
}

/// Between two rounds, every walk to the goal that visits no node twice
/// begins with a walk on the stack.
proof fn goal_is_covered(
    edges: Seq<EdgeView>,
    start: Seq<char>,
    goal: Seq<char>,
    walks: Seq<Seq<int>>,
    cur: Seq<int>,
    q: Seq<int>,
)
    requires
        goal_ahead(edges, start, goal, walks, cur, edges.len() as int),
        leads_to(edges, start, goal, q),
    ensures
        covered(walks, q),
{
    reveal(goal_ahead);
    if !covered(walks, q) {
        assert(q[cur.len() as int] < edges.len());
    }
}

/// The walk on top of the stack ends at the goal: it is the first walk.
pub proof fn search_finds(
    edges: Seq<EdgeView>,
    start: Seq<char>,
    goal: Seq<char>,
    done: Seq<Seq<char>>,
    walks: Seq<Seq<int>>,
)
    requires
        settled(edges, start, goal, done, walks),
        walks.len() > 0,
        walk_end(edges, start, walks.last()) == goal,
    ensures
        is_first_walk(edges, start, goal, walks.last()),
{
    let top = walks.last();
    let last = walks.len() - 1;
    rest_is_kept_and_stacked(edges, start, done, walks);
    kept_walk_is_simple(edges, start, done, top);
    assert forall|q: Seq<int>| #[trigger] leads_to(edges, start, goal, q) implies q == top
        || tried_before(top, q) by {
        goal_is_covered(edges, start, goal, walks, Seq::<int>::empty(), q);
        let i = choose|i: int| 0 <= i < walks.len() && begins(q, #[trigger] walks[i]);
        if i == last {
            if q.len() > top.len() {
                same_nodes(edges, start, q, top, top.len() as int);
                assert(walk_node(edges, start, q, top.len() as int) != walk_node(
                    edges,
                    start,
                    q,
                    q.len() as int,
                ));
            }
            begins_at_full_length(q, top);
        } else {
            let low = walks[i];
            let k = low.len() - 1;
            assert(stacked(walks[i], top));
            assert(top.take(k) =~= q.take(k)) by {
                assert forall|x: int| 0 <= x < k implies top.take(k)[x] == q.take(k)[x] by {
                    assert(low.drop_last()[x] == top.take(k)[x]);
                    assert(q.take(low.len() as int)[x] == low[x]);
                }
            }
            assert(q.take(low.len() as int)[k] == low[k]);
            assert(parts_at(top, q, k));
        }
    }
}

/// Between a done node and one that is not, a walk takes an edge that leaves
/// a done node for one that is not.
proof fn crossing(
    edges: Seq<EdgeView>,
    start: Seq<char>,
    done: Seq<Seq<char>>,
    walk: Seq<int>,
    lo: int,
    hi: int,
) -> (m: int)
    requires
        0 <= lo <= hi <= walk.len(),
        done.contains(walk_node(edges, start, walk, lo)),
        !done.contains(walk_node(edges, start, walk, hi)),
    ensures
        lo < m <= hi,
        done.contains(walk_node(edges, start, walk, m - 1)),
        !done.contains(walk_node(edges, start, walk, m)),
    decreases hi - lo,
{
    if done.contains(walk_node(edges, start, walk, hi - 1)) {
        hi
    } else {
        crossing(edges, start, done, walk, lo, hi - 1)
    }
}

/// No walk that visits no node twice leads to the goal through a walk on top
/// of the stack that ends at a done node.
proof fn no_way_through(
    edges: Seq<EdgeView>,
    start: Seq<char>,
    goal: Seq<char>,
    done: Seq<Seq<char>>,
    walks: Seq<Seq<int>>,
    q: Seq<int>,
)
    requires
        settled(edges, start, goal, done, walks),
        walks.len() > 0,
        done.contains(walk_end(edges, start, walks.last())),
        leads_to(edges, start, goal, q),
    ensures
        !begins(q, walks.last()),
{
    let top = walks.last();
    let last = walks.len() - 1;
    if !begins(q, top) {
        return ;
    }
    rest_is_kept_and_stacked(edges, start, done, walks);
    same_nodes(edges, start, q, top, top.len() as int);
    let m = crossing(edges, start, done, q, top.len() as int, q.len() as int);
    let j = q[m - 1];
    assert(0 <= j < edges.len());
    assert(edges[j].source == walk_node(edges, start, q, m - 1));
    assert(edges[j].sink == walk_node(edges, start, q, m));
    assert(waits(walks, j)) by {
        reveal(edges_accounted);
    }
    let i = choose|i: int|
        0 <= i < walks.len() && (#[trigger] walks[i]).len() >= 1 && walks[i].last() == j;
    if i == last {
        assert(q.take(top.len() as int)[top.len() - 1] == q[top.len() - 1]);
        assert(walk_node(edges, start, q, top.len() as int) == edges[j].sink);
    } else {
        let low = walks[i];
        let k = low.len() - 1;
        assert(stacked(walks[i], top));
        assert(well_kept(edges, start, done, walks[i])) by {
            reveal(all_kept);
        }
        assert(edges[low[k]].source == walk_node(edges, start, low, k));
        if k > 0 {
            assert(low.drop_last()[k - 1] == top.take(k)[k - 1]);
            assert(q.take(top.len() as int)[k - 1] == top[k - 1]);
        }
        assert(walk_node(edges, start, low, k) == walk_node(edges, start, q, k));
        assert(walk_node(edges, start, q, k) != walk_node(edges, start, q, m - 1));
    }
}

/// When the top is dropped because it ends at a done node, every edge is
/// still accounted for.
proof fn accounted_without_top(
    edges: Seq<EdgeView>,
    start: Seq<char>,
    done: Seq<Seq<char>>,
    walks: Seq<Seq<int>>,
)
    requires
        walks.len() > 0,
        edges_accounted(edges, start, done, walks, Seq::<int>::empty(), edges.len() as int),
        done.contains(walk_end(edges, start, walks.last())),
    ensures
        edges_accounted(
            edges,
            start,
            done,
            walks.drop_last(),
            Seq::<int>::empty(),
            edges.len() as int,
        ),
{
    reveal(edges_accounted);
    let rest = walks.drop_last();
    let top = walks.last();
    assert forall|e: int|
        0 <= e < edges.len() && done.contains((#[trigger] edges[e]).source) && !done.contains(
            edges[e].sink,
        ) implies waits(rest, e) by {
        assert(waits(walks, e));
        if top.len() > 0 && top.last() == e {
            assert(walk_end(edges, start, top) == edges[e].sink);
        }
        waits_below(walks, e);
    }
}

/// A walk that a stack covers, but not by its top, is covered by the rest.
proof fn covered_below(walks: Seq<Seq<int>>, q: Seq<int>)
    requires
        walks.len() > 0,
        covered(walks, q),
        !begins(q, walks.last()),
    ensures
        covered(walks.drop_last(), q),
{
    let i = choose|i: int| 0 <= i < walks.len() && begins(q, #[trigger] walks[i]);
    assert(walks.drop_last()[i] == walks[i]);
}

/// The walk on top of the stack ends at a done node: it can be dropped.
pub proof fn search_skips(
    edges: Seq<EdgeView>,
    start: Seq<char>,
    goal: Seq<char>,
    done: Seq<Seq<char>>,
    walks: Seq<Seq<int>>,
)
    requires
        settled(edges, start, goal, done, walks),
        walks.len() > 0,
        done.contains(walk_end(edges, start, walks.last())),
    ensures
        settled(edges, start, goal, done, walks.drop_last()),
{
    let rest = walks.drop_last();
    let none = Seq::<int>::empty();
    rest_is_kept_and_stacked(edges, start, done, walks);
    accounted_without_top(edges, start, done, walks);
    assert(goal_ahead(edges, start, goal, rest, none, edges.len() as int)) by {
        assert forall|q: Seq<int>| #[trigger] leads_to(edges, start, goal, q) implies covered(
            rest,
            q,
        ) by {
            goal_is_covered(edges, start, goal, walks, none, q);
            no_way_through(edges, start, goal, done, walks, q);
            covered_below(walks, q);
        }
        reveal(goal_ahead);
    }
}

/// The walk on top of the stack ends at a node that is neither done nor the
/// goal: the node becomes done and a round begins for its edges.
pub proof fn round_begins(
    edges: Seq<EdgeView>,
    start: Seq<char>,
    goal: Seq<char>,
    done: Seq<Seq<char>>,
    walks: Seq<Seq<int>>,
)
    requires
        settled(edges, start, goal, done, walks),
        walks.len() > 0,
        !done.contains(walk_end(edges, start, walks.last())),
        walk_end(edges, start, walks.last()) != goal,
    ensures
        expanding(
            edges,
            start,
            goal,
            done.push(walk_end(edges, start, walks.last())),
            walks.drop_last(),
            walks.last(),
            0,
            walks.len() - 1,
        ),
{
    let rest = walks.drop_last();
    let top = walks.last();
    let last = walks.len() - 1;
    let node = walk_end(edges, start, top);
    let more = done.push(node);
    let none = Seq::<int>::empty();
    rest_is_kept_and_stacked(edges, start, done, walks);
    kept_walk_is_simple(edges, start, done, top);
    assert forall|id: Seq<char>| #[trigger] more.contains(id) <==> (done.contains(id) || id
        == node) by {
        still_done(done, node, id);
    }
    assert(all_kept(edges, start, more, rest)) by {
        reveal(all_kept);
        assert forall|i: int| 0 <= i < rest.len() implies well_kept(
            edges,
            start,
            more,
            #[trigger] rest[i],
        ) by {
            kept_with_more_done(edges, start, done, node, rest[i]);
        }
    }
    assert(edges_accounted(edges, start, more, rest, top, 0)) by {
        reveal(edges_accounted);
        assert forall|e: int|
            0 <= e < edges.len() && more.contains((#[trigger] edges[e]).source) && edges[e].source
                != node && !more.contains(edges[e].sink) implies waits(rest, e) by {
            assert(waits(walks, e));
            if top.len() > 0 && top.last() == e {
                assert(walk_end(edges, start, top) == edges[e].sink);
            }
            waits_below(walks, e);
        }
    }
    assert(goal_ahead(edges, start, goal, rest, top, 0)) by {
        assert forall|q: Seq<int>| #[trigger] leads_to(edges, start, goal, q) implies covered(
            rest,
            q,
        ) || (begins(q, top) && q.len() > top.len() && q[top.len() as int] >= 0) by {
            goal_is_covered(edges, start, goal, walks, none, q);
            if begins(q, top) {
                if q.len() == top.len() {
                    begins_at_full_length(q, top);
                }
                assert(q[top.len() as int] >= 0);
            } else {
                covered_below(walks, q);
            }
        }
        reveal(goal_ahead);
    }
    assert(round_shape(edges, start, more, rest, top, 0, last)) by {
        reveal(round_shape);
        assert(is_walk(edges, start, top));
        assert forall|k: int| 0 <= k <= top.len() implies more.contains(
            #[trigger] walk_node(edges, start, top, k),
        ) by {
            if k < top.len() {
                assert(done.contains(walk_node(edges, start, top, k)));
            }
        }
        assert forall|i: int| 0 <= i < last implies stacked(#[trigger] rest[i], top) by {
            assert(rest[i] == walks[i]);
        }
    }
}

/// Within a round, the edge `upto` leaves the node that the round is about:
/// the walk that continues by it goes on the stack.
pub proof fn round_takes(
    edges: Seq<EdgeView>,
    start: Seq<char>,
    goal: Seq<char>,
    done: Seq<Seq<char>>,
    walks: Seq<Seq<int>>,
    cur: Seq<int>,
    upto: int,
    base: int,
)
    requires
        expanding(edges, start, goal, done, walks, cur, upto, base),
        upto < edges.len(),
        edges[upto].source == walk_end(edges, start, cur),
    ensures
        expanding(edges, start, goal, done, walks.push(cur.push(upto)), cur, upto + 1, base),
        walk_end(edges, start, cur.push(upto)) == edges[upto].sink,
        forall|k: int|
            0 <= k <= cur.len() ==> #[trigger] walk_node(edges, start, cur.push(upto), k)
                == walk_node(edges, start, cur, k),
{
    let next = cur.push(upto);
    let grown = walks.push(next);
    let at = walks.len() as int;
    assert(is_walk(edges, start, cur)) by {
        reveal(round_shape);
    }
    one_edge_further(edges, start, cur, upto);
    more_on_the_stack(walks, next);
    assert(well_kept(edges, start, done, next)) by {
        reveal(round_shape);
        assert forall|k: int| 0 <= k < next.len() implies done.contains(
            #[trigger] walk_node(edges, start, next, k),
        ) by {
            assert(done.contains(walk_node(edges, start, cur, k)));
        }
        assert forall|a: int, b: int| 0 <= a < b < next.len() implies #[trigger] walk_node(
            edges,
            start,
            next,
            a,
        ) != #[trigger] walk_node(edges, start, next, b) by {
            assert(walk_node(edges, start, cur, a) != walk_node(edges, start, cur, b));
        }
    }
    assert(all_kept(edges, start, done, grown)) by {
        reveal(all_kept);
        assert forall|i: int| 0 <= i < grown.len() implies well_kept(
            edges,
            start,
            done,
            #[trigger] grown[i],
        ) by {
            if i < at {
                assert(grown[i] == walks[i]);
            }
        }
    }
    assert(all_stacked(grown)) by {
        reveal(all_stacked);
        reveal(round_shape);
        assert forall|i: int, j: int| 0 <= i < j < grown.len() implies stacked(
            #[trigger] grown[i],
            #[trigger] grown[j],
        ) by {
            assert(grown[i] == walks[i]);
            if j < at {
                assert(grown[j] == walks[j]);
            } else if i < base {
                stacked_below_longer(walks[i], cur, upto);
            } else {
                stacked_side_by_side(walks[i], cur, upto);
            }
        }
    }
    assert(edges_accounted(edges, start, done, grown, cur, upto + 1)) by {
        reveal(edges_accounted);
        assert(waits(grown, upto));
    }
    assert(goal_ahead(edges, start, goal, grown, cur, upto + 1)) by {
        reveal(goal_ahead);
        assert forall|q: Seq<int>| #[trigger] leads_to(edges, start, goal, q) implies covered(
            grown,
            q,
        ) || (begins(q, cur) && q.len() > cur.len() && q[cur.len() as int] >= upto + 1) by {
            if !covered(walks, q) && q[cur.len() as int] == upto {
                begins_one_further(q, cur, upto);
            }
        }
    }
    assert(round_shape(edges, start, done, grown, cur, upto + 1, base)) by {
        reveal(round_shape);
        assert forall|i: int| 0 <= i < base implies stacked(#[trigger] grown[i], cur) by {
            assert(grown[i] == walks[i]);
        }
        assert forall|i: int| base <= i < grown.len() implies (#[trigger] grown[i]).len()
            == cur.len() + 1 && grown[i].drop_last() == cur && grown[i].last() < upto + 1 by {
            if i < at {
                assert(grown[i] == walks[i]);
            } else {
                assert(next.drop_last() =~= cur);
            }
        }
    }
}

/// Within a round, the edge `upto` leaves another node: nothing changes.
pub proof fn round_passes(
    edges: Seq<EdgeView>,
    start: Seq<char>,
    goal: Seq<char>,
    done: Seq<Seq<char>>,
    walks: Seq<Seq<int>>,
    cur: Seq<int>,
    upto: int,
    base: int,
)
    requires
        expanding(edges, start, goal, done, walks, cur, upto, base),
        upto < edges.len(),
        edges[upto].source != walk_end(edges, start, cur),
    ensures
        expanding(edges, start, goal, done, walks, cur, upto + 1, base),
{
    assert(edges_accounted(edges, start, done, walks, cur, upto + 1)) by {
        reveal(edges_accounted);
    }
    assert(goal_ahead(edges, start, goal, walks, cur, upto + 1)) by {
        reveal(goal_ahead);
        assert forall|q: Seq<int>| #[trigger] leads_to(edges, start, goal, q) implies covered(
            walks,
            q,
        ) || (begins(q, cur) && q.len() > cur.len() && q[cur.len() as int] >= upto + 1) by {
            if !covered(walks, q) {
                same_nodes(edges, start, q, cur, cur.len() as int);
                assert(edges[q[cur.len() as int]].source == walk_node(
                    edges,
                    start,
                    q,
                    cur.len() as int,
                ));
            }
        }
    }
    assert(round_shape(edges, start, done, walks, cur, upto + 1, base)) by {
        reveal(round_shape);
    }
}

/// A round ends when all edges have been looked at.
pub proof fn round_ends(
    edges: Seq<EdgeView>,
    start: Seq<char>,
    goal: Seq<char>,
    done: Seq<Seq<char>>,
    walks: Seq<Seq<int>>,
    cur: Seq<int>,
    base: int,
)
    requires
        expanding(edges, start, goal, done, walks, cur, edges.len() as int, base),
    ensures
        settled(edges, start, goal, done, walks),
{
    let none = Seq::<int>::empty();
    assert(edges_accounted(edges, start, done, walks, none, edges.len() as int)) by {
        reveal(edges_accounted);
    }
    assert(goal_ahead(edges, start, goal, walks, none, edges.len() as int)) by {
        assert forall|q: Seq<int>| #[trigger] leads_to(edges, start, goal, q) implies covered(
            walks,
            q,
        ) by {
            goal_is_covered(edges, start, goal, walks, cur, q);
        }
        reveal(goal_ahead);
    }
}

/// From a set of nodes that no edge leaves, no walk leads out.
proof fn stays_inside(
    edges: Seq<EdgeView>,
    start: Seq<char>,
    done: Seq<Seq<char>>,
    walk: Seq<int>,
    k: int,
)
    requires
        forall|e: int|
            0 <= e < edges.len() && done.contains((#[trigger] edges[e]).source) ==> done.contains(
                edges[e].sink,
            ),
        done.contains(start),
        is_walk(edges, start, walk),
        0 <= k <= walk.len(),
    ensures
        done.contains(walk_node(edges, start, walk, k)),
    decreases k,
{
    if k > 0 {
        stays_inside(edges, start, done, walk, k - 1);
        let e = walk[k - 1];
        assert(edges[e].source == walk_node(edges, start, walk, k - 1));
    }
}

/// The stack is empty: no walk of any kind leads from the start to the goal.
pub proof fn search_is_exhausted(
    edges: Seq<EdgeView>,
    start: Seq<char>,
    goal: Seq<char>,
    done: Seq<Seq<char>>,
)
    requires
        settled(edges, start, goal, done, Seq::empty()),
        done.contains(start),
    ensures
        !reachable(edges, start, goal),
{
    let walks = Seq::<Seq<int>>::empty();
    assert forall|e: int|
        0 <= e < edges.len() && done.contains((#[trigger] edges[e]).source) implies done.contains(
        edges[e].sink,
    ) by {
        reveal(edges_accounted);
        assert(!waits(walks, e));
    }
    assert forall|walk: Seq<int>| #[trigger]
        is_walk(edges, start, walk) implies walk_end(edges, start, walk) != goal by {
        stays_inside(edges, start, done, walk, walk.len() as int);
    }
}

/// Making a node done takes its outgoing edges out of the count of those that
/// wait.
pub proof fn fewer_wait(edges: Seq<EdgeView>, done: Seq<Seq<char>>, id: Seq<char>)
    requires
        !done.contains(id),
    ensures
        waiting(edges, done.push(id)) + out_degree(edges, id) == waiting(edges, done),
    decreases edges.len(),
{
    if edges.len() > 0 {
        fewer_wait(edges.drop_last(), done, id);
        still_done(done, id, edges.last().source);
    }
}

/// One more edge, one more that leaves `id` if it does.
pub proof fn out_degree_step(edges: Seq<EdgeView>, k: int, id: Seq<char>)
    requires
        0 <= k < edges.len(),
    ensures
        out_degree(edges.take(k + 1), id) == out_degree(edges.take(k), id) + (if edges[k].source
            == id {
            1nat
        } else {
            0nat
        }),
{
    assert(edges.take(k + 1).drop_last() =~= edges.take(k));
}

/// A round, run in thought from the edge `upto` to its end.
proof fn round_runs(
    edges: Seq<EdgeView>,
    start: Seq<char>,
    goal: Seq<char>,
    done: Seq<Seq<char>>,
    walks: Seq<Seq<int>>,
    cur: Seq<int>,
    upto: int,
    base: int,
) -> (after: Seq<Seq<int>>)
    requires
        expanding(edges, start, goal, done, walks, cur, upto, base),
        walks.len() == base + out_degree(edges.take(upto), walk_end(edges, start, cur)),
    ensures
        settled(edges, start, goal, done, after),
        after.len() == base + out_degree(edges, walk_end(edges, start, cur)),
    decreases edges.len() - upto,
{
    let node = walk_end(edges, start, cur);
    if upto == edges.len() {
        round_ends(edges, start, goal, done, walks, cur, base);
        assert(edges.take(upto) =~= edges);
        walks
    } else {
        out_degree_step(edges, upto, node);
        if edges[upto].source == node {
            round_takes(edges, start, goal, done, walks, cur, upto, base);
            round_runs(edges, start, goal, done, walks.push(cur.push(upto)), cur, upto + 1, base)
        } else {
            round_passes(edges, start, goal, done, walks, cur, upto, base);
            round_runs(edges, start, goal, done, walks, cur, upto + 1, base)
        }
    }
}

/// The search, run in thought from a state between two rounds: it ends, with
/// the first walk or with the knowledge that the goal cannot be reached.
pub proof fn search_runs(
    edges: Seq<EdgeView>,
    start: Seq<char>,
    goal: Seq<char>,
    done: Seq<Seq<char>>,
    walks: Seq<Seq<int>>,
) -> (found: Option<Seq<int>>)
    requires
        settled(edges, start, goal, done, walks),
        done.contains(start) || walks =~= seq![Seq::<int>::empty()],
    ensures
        match found {
            Some(walk) => is_first_walk(edges, start, goal, walk),
            None => !reachable(edges, start, goal),
        },
    decreases waiting(edges, done) + walks.len(),
{
    if walks.len() == 0 {
        assert(walks =~= Seq::<Seq<int>>::empty());
        search_is_exhausted(edges, start, goal, done);
        None
    } else {
        let top = walks.last();
        let node = walk_end(edges, start, top);
        if node == goal {
            search_finds(edges, start, goal, done, walks);
            Some(top)
        } else if done.contains(node) {
            search_skips(edges, start, goal, done, walks);
            search_runs(edges, start, goal, done, walks.drop_last())
        } else {
            round_begins(edges, start, goal, done, walks);
            fewer_wait(edges, done, node);
            still_done(done, node, start);
            assert(edges.take(0) =~= Seq::<EdgeView>::empty());
            let after = round_runs(
                edges,
                start,
                goal,
                done.push(node),
                walks.drop_last(),
                top,
                0,
                walks.len() - 1,
            );
            search_runs(edges, start, goal, done.push(node), after)
        }
    }
}

} // verus!
