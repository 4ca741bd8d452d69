//! The state of a shortest-route search and what holds of it between any
//! two steps. The search itself is `graph::shortest_path`; here are the
//! invariant and the proof that each step keeps it.

use crate::graph::{Edge, NodeID};
use crate::route::{
    lemma_route_ends, lemma_route_extend, lemma_route_length_bound, lemma_route_shorten,
    route_length, GraphView,
};
use vstd::multiset::Multiset;
use vstd::prelude::*;

verus! {

/// A search in progress. `dist[v]` is the length of the best route to `v`
/// found so far and `prev[v]` the node before `v` on it; `done[v]` says
/// that `v` left the queue and its edges were followed; `wit[v]` is that
/// best route itself, which only the proof keeps.
pub struct SearchState {
    pub dist: Seq<Option<u64>>,
    pub prev: Seq<Option<NodeID>>,
    pub done: Seq<bool>,
    pub wit: Seq<Seq<Edge>>,
    pub queue: Multiset<(u64, usize)>,
}

/// The state that the given parts make up.
pub open spec fn state(
    dist: Seq<Option<u64>>,
    prev: Seq<Option<NodeID>>,
    done: Seq<bool>,
    wit: Seq<Seq<Edge>>,
    queue: Multiset<(u64, usize)>,
) -> SearchState {
    SearchState { dist, prev, done, wit, queue }
}

/// How many nodes are done.
pub open spec fn settled_count(done: Seq<bool>) -> nat
    decreases done.len(),
{
    if done.len() == 0 {
        0
    } else {
        settled_count(done.drop_last()) + if done.last() {
            1nat
        } else {
            0nat
        }
    }
}

/// No more nodes are done than there are nodes.
pub proof fn lemma_settled_count_bound(done: Seq<bool>)
    ensures
        settled_count(done) <= done.len(),
    decreases done.len(),
{
    if done.len() > 0 {
        lemma_settled_count_bound(done.drop_last());
    }
}

/// Marking a node that is not done as done adds one to the count.
pub proof fn lemma_settled_count_grows(done: Seq<bool>, u: int)
    requires
        0 <= u < done.len(),
        !done[u],
    ensures
        settled_count(done.update(u, true)) == settled_count(done) + 1,
    decreases done.len(),
{
    let after = done.update(u, true);
    if u == done.len() - 1 {
        assert(after.drop_last() == done.drop_last());
    } else {
        assert(after.drop_last() == done.drop_last().update(u, true));
        lemma_settled_count_grows(done.drop_last(), u);
    }
}

/// The state before the first step: only the source has a distance, and
/// only the source is queued.
pub open spec fn initial(n: nat, s: NodeID) -> SearchState {
    SearchState {
        dist: Seq::new(n, |v: int| None::<u64>).update(s.0 as int, Some(0u64)),
        prev: Seq::new(n, |v: int| None::<NodeID>),
        done: Seq::new(n, |v: int| false),
        wit: Seq::new(n, |v: int| Seq::<Edge>::empty()),
        queue: Multiset::<(u64, usize)>::empty().insert((0u64, s.0)),
    }
}

/// What holds of a search from `s` between steps.
pub closed spec fn inv(g: GraphView, s: NodeID, st: SearchState) -> bool {
    let n = g.nodes.len() as int;
    &&& g.wf()
    &&& s.0 < n
    &&& st.dist.len() == n
    &&& st.prev.len() == n
    &&& st.done.len() == n
    &&& st.wit.len() == n
    &&& st.dist[s.0 as int] == Some(0u64)
    &&& st.wit[s.0 as int].len() == 0
    // each recorded distance is the length of a route from the source
    &&& forall|v: int|
        0 <= v < n && (#[trigger] st.dist[v]) is Some ==> {
            &&& g.is_route(s, NodeID(v as usize), st.wit[v])
            &&& route_length(st.wit[v]) == st.dist[v].unwrap()
            &&& st.wit[v].len() <= settled_count(st.done)
        }
    // that route is the route to the predecessor, then one edge
    &&& forall|v: int|
        0 <= v < n && (#[trigger] st.dist[v]) is Some && v != s.0 ==> {
            &&& st.prev[v] is Some
            &&& st.prev[v].unwrap().0 < n
            &&& st.done[st.prev[v].unwrap().0 as int]
            &&& st.wit[v].len() > 0
            &&& st.wit[v].last().from_node == st.prev[v].unwrap()
            &&& st.wit[v].drop_last() == st.wit[st.prev[v].unwrap().0 as int]
        }
    &&& forall|v: int| 0 <= v < n && #[trigger] st.done[v] ==> st.dist[v] is Some
    // a node with a distance that is not done is queued with it
    &&& forall|v: int|
        0 <= v < n && (#[trigger] st.dist[v]) is Some && !st.done[v] ==> st.queue.count(
            (st.dist[v].unwrap(), v as usize),
        ) > 0
    // a queued entry names a node whose distance is no larger
    &&& forall|e: (u64, usize)| #[trigger]
        st.queue.count(e) > 0 ==> {
            &&& e.1 < n
            &&& st.dist[e.1 as int] is Some
            &&& st.dist[e.1 as int].unwrap() <= e.0
        }
    // and no node that is done lies farther than a queued entry
    &&& forall|e: (u64, usize), x: int|
        #[trigger] st.queue.count(e) > 0 && 0 <= x < n && #[trigger] st.done[x]
            ==> st.dist[x].unwrap() <= e.0
}

/// Each edge that leaves a node that is done has been followed: its far
/// end has a distance no larger than the way over that edge. Of the node
/// `cur` only the first `upto` edges are claimed.
pub closed spec fn relaxed(g: GraphView, st: SearchState, cur: int, upto: int) -> bool {
    forall|x: int, j: int|
        0 <= x < g.nodes.len() && st.done[x] && 0 <= j < g.adj[x].len() && (x != cur || j < upto)
            ==> {
            let e = #[trigger] g.adj[x][j];
            &&& st.dist[e.to_node.0 as int] is Some
            &&& st.dist[e.to_node.0 as int].unwrap() <= st.dist[x].unwrap() + e.distance
        }
}

/// Every node that is done lies no farther than `m`, and every other node
/// with a distance no nearer.
pub closed spec fn split_at(g: GraphView, st: SearchState, m: int) -> bool {
    &&& forall|v: int|
        0 <= v < g.nodes.len() && #[trigger] st.done[v] ==> st.dist[v] is Some
            && st.dist[v].unwrap() <= m
    &&& forall|v: int|
        0 <= v < g.nodes.len() && !st.done[v] && (#[trigger] st.dist[v]) is Some ==> m
            <= st.dist[v].unwrap()
}

/// The invariant holds of the state before the first step.
pub proof fn lemma_initial(g: GraphView, s: NodeID)
    requires
        g.wf(),
        s.0 < g.nodes.len(),
    ensures
        inv(g, s, initial(g.nodes.len(), s)),
        relaxed(g, initial(g.nodes.len(), s), -1, 0),
        settled_count(initial(g.nodes.len(), s).done) == 0,
{
    broadcast use vstd::multiset::group_multiset_axioms;
    let st = initial(g.nodes.len(), s);
    lemma_all_false_count(g.nodes.len());
    assert(route_length(st.wit[s.0 as int]) == 0);
}

/// Where no node is done the count is 0.
proof fn lemma_all_false_count(n: nat)
    ensures
        settled_count(Seq::new(n, |v: int| false)) == 0,
    decreases n,
{
    if n > 0 {
        assert(Seq::new(n, |v: int| false).drop_last() == Seq::new((n - 1) as nat, |v: int| false));
        lemma_all_false_count((n - 1) as nat);
    }
}

/// No route from the source is shorter than the search allows: a route
/// to a node that is done is no shorter than that node's distance, and a
/// route to any other node no shorter than `m`.
pub proof fn lemma_lower_bound(
    g: GraphView,
    s: NodeID,
    st: SearchState,
    m: int,
    t: NodeID,
    r: Seq<Edge>,
)
    requires
        g.wf(),
        st.dist.len() == g.nodes.len(),
        st.done.len() == g.nodes.len(),
        st.dist[s.0 as int] == Some(0u64),
        relaxed(g, st, -1, 0),
        split_at(g, st, m),
        g.is_route(s, t, r),
    ensures
        t.0 < g.nodes.len(),
        st.done[t.0 as int] ==> st.dist[t.0 as int].unwrap() <= route_length(r),
        !st.done[t.0 as int] ==> m <= route_length(r),
    decreases r.len(),
{
    lemma_route_ends(g, s, t, r);
    if r.len() == 0 {
        assert(st.dist[s.0 as int] is Some);
    } else {
        let e = r.last();
        let x = e.from_node.0 as int;
        lemma_route_shorten(g, s, t, r);
        lemma_lower_bound(g, s, st, m, e.from_node, r.drop_last());
        let j = choose|j: int| 0 <= j < g.adj[x].len() && g.adj[x][j] == e;
        assert(g.adj[x][j] == e);
        if st.done[x] {
            assert(st.dist[t.0 as int] is Some);
            assert(st.dist[t.0 as int].unwrap() <= st.dist[x].unwrap() + e.distance);
        } else {
            if st.done[t.0 as int] {
                assert(st.dist[t.0 as int].unwrap() <= m);
            }
        }
    }
}

/// The entry that leaves the queue, if its node is not done, carries that
/// node's distance, and the route recorded for the node is a shortest one.
pub proof fn lemma_fresh_is_shortest(g: GraphView, s: NodeID, st: SearchState, top: (u64, usize))
    requires
        inv(g, s, st),
        relaxed(g, st, -1, 0),
        st.queue.count(top) > 0,
        forall|e: (u64, usize)| st.queue.count(e) > 0 ==> top.0 <= e.0,
        !st.done[top.1 as int],
    ensures
        st.dist[top.1 as int] == Some(top.0),
        split_at(g, st, top.0 as int),
        g.is_shortest(s, NodeID(top.1), st.wit[top.1 as int]),
        route_length(st.wit[top.1 as int]) == top.0,
{
    let u = top.1 as int;
    assert(st.dist[u] is Some);
    assert(st.queue.count((st.dist[u].unwrap(), u as usize)) > 0);
    assert(split_at(g, st, top.0 as int)) by {
        assert forall|v: int|
            0 <= v < g.nodes.len() && !st.done[v] && (#[trigger] st.dist[v]) is Some implies top.0
            <= st.dist[v].unwrap() by {
            assert(st.queue.count((st.dist[v].unwrap(), v as usize)) > 0);
        }
    }
    assert forall|other: Seq<Edge>| #[trigger]
        g.is_route(s, NodeID(top.1), other) implies route_length(st.wit[u]) <= route_length(
        other,
    ) by {
        lemma_lower_bound(g, s, st, top.0 as int, NodeID(top.1), other);
    }
}

/// Dropping an entry whose node is done changes nothing that matters.
pub proof fn lemma_drop_stale(g: GraphView, s: NodeID, st: SearchState, top: (u64, usize))
    requires
        inv(g, s, st),
        relaxed(g, st, -1, 0),
        st.queue.count(top) > 0,
        st.done[top.1 as int],
    ensures
        inv(g, s, SearchState { queue: st.queue.remove(top), ..st }),
        relaxed(g, SearchState { queue: st.queue.remove(top), ..st }, -1, 0),
        st.queue.remove(top).len() < st.queue.len(),
{
    broadcast use vstd::multiset::group_multiset_axioms;
    let st2 = SearchState { queue: st.queue.remove(top), ..st };
    assert forall|e: (u64, usize)| #[trigger] st2.queue.count(e) > 0 implies st.queue.count(e)
        > 0 by {}
    assert forall|v: int|
        0 <= v < g.nodes.len() && (#[trigger] st2.dist[v]) is Some
            && !st2.done[v] implies st2.queue.count((st2.dist[v].unwrap(), v as usize)) > 0 by {
        assert(st.queue.count((st.dist[v].unwrap(), v as usize)) > 0);
        assert((st.dist[v].unwrap(), v as usize) != top);
    }
}

/// Marking the node of the least entry as done keeps the invariant; none
/// of its edges counts as followed yet.
pub proof fn lemma_settle(g: GraphView, s: NodeID, st: SearchState, top: (u64, usize))
    requires
        inv(g, s, st),
        relaxed(g, st, -1, 0),
        st.queue.count(top) > 0,
        forall|e: (u64, usize)| st.queue.count(e) > 0 ==> top.0 <= e.0,
        !st.done[top.1 as int],
    ensures
        ({
            let st2 = SearchState {
                done: st.done.update(top.1 as int, true),
                queue: st.queue.remove(top),
                ..st
            };
            &&& inv(g, s, st2)
            &&& relaxed(g, st2, top.1 as int, 0)
            &&& split_at(g, st2, top.0 as int)
            &&& st2.dist[top.1 as int] == Some(top.0)
            &&& settled_count(st2.done) == settled_count(st.done) + 1
            &&& settled_count(st2.done) <= g.nodes.len()
            &&& st2.wit[top.1 as int].len() < settled_count(st2.done)
        }),
{
    broadcast use vstd::multiset::group_multiset_axioms;
    let u = top.1 as int;
    let st2 = SearchState { done: st.done.update(u, true), queue: st.queue.remove(top), ..st };
    lemma_fresh_is_shortest(g, s, st, top);
    lemma_settled_count_grows(st.done, u);
    lemma_settled_count_bound(st2.done);
    assert forall|e: (u64, usize)| #[trigger] st2.queue.count(e) > 0 implies st.queue.count(e)
        > 0 by {}
    assert forall|v: int|
        0 <= v < g.nodes.len() && (#[trigger] st2.dist[v]) is Some
            && !st2.done[v] implies st2.queue.count((st2.dist[v].unwrap(), v as usize)) > 0 by {
        assert(st.queue.count((st.dist[v].unwrap(), v as usize)) > 0);
        assert((st.dist[v].unwrap(), v as usize) != top);
    }
    assert forall|e: (u64, usize), x: int|
        #[trigger] st2.queue.count(e) > 0 && 0 <= x < g.nodes.len() && #[trigger] st2.done[x]
        implies st2.dist[x].unwrap() <= e.0 by {
        assert(st.queue.count(e) > 0);
        if x != u {
            assert(st.done[x]);
        }
    }
    assert forall|v: int| 0 <= v < g.nodes.len() && #[trigger] st2.done[v] implies st2.dist[v]
        is Some && st2.dist[v].unwrap() <= top.0 by {
        if v != u {
            assert(st.done[v]);
        }
    }
    assert forall|v: int|
        0 <= v < g.nodes.len() && (#[trigger] st2.dist[v]) is Some && v != s.0
        implies st2.done[st2.prev[v].unwrap().0 as int] by {
        assert(st.done[st.prev[v].unwrap().0 as int]);
    }
    assert forall|x: int, j: int|
        0 <= x < g.nodes.len() && st2.done[x] && 0 <= j < g.adj[x].len() && (x != u || j < 0)
        implies ({
            let e = #[trigger] g.adj[x][j];
            &&& st2.dist[e.to_node.0 as int] is Some
            &&& st2.dist[e.to_node.0 as int].unwrap() <= st2.dist[x].unwrap() + e.distance
        }) by {
        assert(st.done[x]);
    }
}

/// The way over an edge that leaves a node that is done fits 64 bits.
pub proof fn lemma_candidate_fits(g: GraphView, s: NodeID, st: SearchState, u: int, e: Edge)
    requires
        inv(g, s, st),
        0 <= u < g.nodes.len(),
        st.dist[u] is Some,
        st.wit[u].len() < settled_count(st.done),
    ensures
        st.dist[u].unwrap() + e.distance <= u64::MAX,
{
    lemma_route_length_bound(st.wit[u]);
    lemma_settled_count_bound(st.done);
    let len = st.wit[u].len() as int;
    let big = u32::MAX as int;
    assert(len + 1 <= big);
    assert(len * big + big <= big * big) by (nonlinear_arith)
        requires
            len + 1 <= big,
            big >= 0,
    ;
}

/// An edge whose far end already lies no farther than the way over the
/// edge counts as followed.
pub proof fn lemma_relax_keep(g: GraphView, st: SearchState, u: int, k: int)
    requires
        g.wf(),
        relaxed(g, st, u, k),
        0 <= u < g.nodes.len(),
        0 <= k < g.adj[u].len(),
        st.dist[g.adj[u][k].to_node.0 as int] is Some,
        st.dist[g.adj[u][k].to_node.0 as int].unwrap() <= st.dist[u].unwrap()
            + g.adj[u][k].distance,
    ensures
        relaxed(g, st, u, k + 1),
{
}

/// Recording a shorter way to the far end of an edge, and queueing it,
/// keeps the invariant, and the edge counts as followed.
pub proof fn lemma_relax_improve(g: GraphView, s: NodeID, st: SearchState, u: int, k: int)
    requires
        inv(g, s, st),
        relaxed(g, st, u, k),
        0 <= u < g.nodes.len(),
        st.done[u],
        split_at(g, st, st.dist[u].unwrap() as int),
        st.wit[u].len() < settled_count(st.done),
        0 <= k < g.adj[u].len(),
        st.dist[u].unwrap() + g.adj[u][k].distance <= u64::MAX,
        st.dist[g.adj[u][k].to_node.0 as int] matches Some(old) ==> st.dist[u].unwrap()
            + g.adj[u][k].distance < old,
    ensures
        ({
            let e = g.adj[u][k];
            let v = e.to_node.0 as int;
            let cand = (st.dist[u].unwrap() + e.distance) as u64;
            let st2 = SearchState {
                dist: st.dist.update(v, Some(cand)),
                prev: st.prev.update(v, Some(NodeID(u as usize))),
                wit: st.wit.update(v, st.wit[u].push(e)),
                queue: st.queue.insert((cand, v as usize)),
                ..st
            };
            &&& v != u
            &&& !st.done[v]
            &&& inv(g, s, st2)
            &&& relaxed(g, st2, u, k + 1)
            &&& split_at(g, st2, st.dist[u].unwrap() as int)
        }),
{
    broadcast use vstd::multiset::group_multiset_axioms;
    let n = g.nodes.len() as int;
    let e = g.adj[u][k];
    let v = e.to_node.0 as int;
    let du = st.dist[u].unwrap();
    let cand = (du + e.distance) as u64;
    let st2 = SearchState {
        dist: st.dist.update(v, Some(cand)),
        prev: st.prev.update(v, Some(NodeID(u as usize))),
        wit: st.wit.update(v, st.wit[u].push(e)),
        queue: st.queue.insert((cand, v as usize)),
        ..st
    };
    assert(e.from_node.0 == u && v < n);
    assert(!st.done[v]) by {
        if st.done[v] {
            assert(st.dist[v] is Some && st.dist[v].unwrap() <= du);
        }
    }
    assert(v != s.0);
    assert(st.dist[u] is Some);
    assert(g.has_edge(e)) by {
        assert(g.adj[u][k] == e);
    }
    assert(e.from_node == NodeID(u as usize));
    lemma_route_extend(g, s, st.wit[u], e);
    assert(st.wit[u].push(e).drop_last() == st.wit[u]);
    assert(e.to_node == NodeID(v as usize));

    assert forall|w: int| 0 <= w < n && (#[trigger] st2.dist[w]) is Some implies {
        &&& g.is_route(s, NodeID(w as usize), st2.wit[w])
        &&& route_length(st2.wit[w]) == st2.dist[w].unwrap()
        &&& st2.wit[w].len() <= settled_count(st2.done)
    } by {
        if w != v {
            assert(st.dist[w] is Some);
        }
    }
    assert forall|w: int| 0 <= w < n && (#[trigger] st2.dist[w]) is Some && w != s.0 implies {
        &&& st2.prev[w] is Some
        &&& st2.prev[w].unwrap().0 < n
        &&& st2.done[st2.prev[w].unwrap().0 as int]
        &&& st2.wit[w].len() > 0
        &&& st2.wit[w].last().from_node == st2.prev[w].unwrap()
        &&& st2.wit[w].drop_last() == st2.wit[st2.prev[w].unwrap().0 as int]
    } by {
        if w != v {
            assert(st.dist[w] is Some);
            assert(st.prev[w].unwrap().0 != v);
        }
    }
    assert forall|w: int| 0 <= w < n && #[trigger] st2.done[w] implies st2.dist[w] is Some by {
        assert(st.done[w]);
    }
    assert forall|w: int|
        0 <= w < n && (#[trigger] st2.dist[w]) is Some && !st2.done[w] implies st2.queue.count(
        (st2.dist[w].unwrap(), w as usize),
    ) > 0 by {
        if w != v {
            assert(st.dist[w] is Some);
            assert(st.queue.count((st.dist[w].unwrap(), w as usize)) > 0);
        }
    }
    assert forall|q: (u64, usize)| #[trigger] st2.queue.count(q) > 0 implies {
        &&& q.1 < n
        &&& st2.dist[q.1 as int] is Some
        &&& st2.dist[q.1 as int].unwrap() <= q.0
    } by {
        if q != (cand, v as usize) {
            assert(st.queue.count(q) > 0);
        }
    }
    assert forall|q: (u64, usize), x: int|
        #[trigger] st2.queue.count(q) > 0 && 0 <= x < n && #[trigger] st2.done[x]
        implies st2.dist[x].unwrap() <= q.0 by {
        assert(st.done[x]);
        if q != (cand, v as usize) {
            assert(st.queue.count(q) > 0);
        }
    }
    assert forall|x: int, j: int|
        0 <= x < n && st2.done[x] && 0 <= j < g.adj[x].len() && (x != u || j < k + 1) implies ({
            let f = #[trigger] g.adj[x][j];
            &&& st2.dist[f.to_node.0 as int] is Some
            &&& st2.dist[f.to_node.0 as int].unwrap() <= st2.dist[x].unwrap() + f.distance
        }) by {
        let f = g.adj[x][j];
        assert(st.done[x]);
        if x == u && j == k {
        } else {
            assert(st.dist[f.to_node.0 as int] is Some);
        }
    }
    assert forall|w: int| 0 <= w < n && #[trigger] st2.done[w] implies st2.dist[w] is Some
        && st2.dist[w].unwrap() <= du by {
        assert(st.done[w]);
    }
    assert forall|w: int| 0 <= w < n && !st2.done[w] && (#[trigger] st2.dist[w]) is Some implies du
        <= st2.dist[w].unwrap() by {
        if w != v {
            assert(st.dist[w] is Some);
        }
    }
}

/// With nothing left in the queue, a node that is not done cannot be
/// reached from the source.
pub proof fn lemma_exhausted(g: GraphView, s: NodeID, st: SearchState, t: NodeID)
    requires
        inv(g, s, st),
        relaxed(g, st, -1, 0),
        st.queue.len() == 0,
        t.0 < g.nodes.len() ==> !st.done[t.0 as int],
    ensures
        !g.connected(s, t),
{
    broadcast use vstd::multiset::group_multiset_axioms;
    if g.connected(s, t) {
        let r = choose|r: Seq<Edge>| g.is_route(s, t, r);
        let m = route_length(r) + u64::MAX + 1;
        assert forall|v: int|
            0 <= v < g.nodes.len() && !st.done[v] && (#[trigger] st.dist[v]) is Some implies m
            <= st.dist[v].unwrap() by {
            assert(st.queue.count((st.dist[v].unwrap(), v as usize)) > 0);
        }
        assert(split_at(g, st, m));
        lemma_lower_bound(g, s, st, m, t, r);
    }
}

/// The sequences of a search are as long as the graph has nodes, and the
/// source lies at distance 0 by the empty route.
pub proof fn lemma_shape(g: GraphView, s: NodeID, st: SearchState)
    requires
        inv(g, s, st),
    ensures
        st.dist.len() == g.nodes.len(),
        st.prev.len() == g.nodes.len(),
        st.done.len() == g.nodes.len(),
        st.wit.len() == g.nodes.len(),
        st.dist[s.0 as int] == Some(0u64),
        st.wit[s.0 as int].len() == 0,
{
}

/// A queued entry names a node of the graph.
pub proof fn lemma_queued_node(g: GraphView, s: NodeID, st: SearchState, e: (u64, usize))
    requires
        inv(g, s, st),
        st.queue.count(e) > 0,
    ensures
        e.1 < g.nodes.len(),
{
}

/// Once every edge of the node last done has been followed, every edge of
/// every node that is done has.
pub proof fn lemma_relaxed_all(g: GraphView, st: SearchState, u: int)
    requires
        0 <= u < g.adj.len(),
        relaxed(g, st, u, g.adj[u].len() as int),
    ensures
        relaxed(g, st, -1, 0),
{
}

/// A node with a distance, other than the source, has a predecessor with
/// a distance, and its recorded route is the predecessor's, then one edge
/// that ends at the node.
pub proof fn lemma_step_back(g: GraphView, s: NodeID, st: SearchState, v: int)
    requires
        inv(g, s, st),
        0 <= v < g.nodes.len(),
        st.dist[v] is Some,
        v != s.0,
    ensures
        st.prev[v] is Some,
        st.prev[v].unwrap().0 < g.nodes.len(),
        st.dist[st.prev[v].unwrap().0 as int] is Some,
        st.wit[v].len() > 0,
        st.wit[v].last().to_node == NodeID(v as usize),
        st.wit[v].drop_last() == st.wit[st.prev[v].unwrap().0 as int],
{
    assert(g.is_route(s, NodeID(v as usize), st.wit[v]));
    assert(st.done[st.prev[v].unwrap().0 as int]);
}

} // verus!
