//! A* search over the graph, with path reconstruction from predecessor links.
use crate::graph::{Graph, Point};
use vstd::prelude::*;
use vstd::set_lib::{lemma_int_range, lemma_len_subset, set_int_range};

verus! {

/// Cost of a node that has not been reached.
pub const UNREACHED: u128 = 340282366920938463463374607431768211455;

/// Largest edge weight.
pub const MAX_WEIGHT: u128 = 4294967295;

/// A route through the graph as arena indices, with the weight of each leg.
pub struct Route {
    pub nodes: Vec<usize>,
    pub legs: Vec<u32>,
    pub cost: u128,
}

/// Sum of the leg weights.
pub open spec fn leg_sum(legs: Seq<u32>) -> nat
    decreases legs.len(),
{
    if legs.len() == 0 {
        0
    } else {
        (legs[0] + leg_sum(legs.subrange(1, legs.len() as int))) as nat
    }
}

/// `path` walks edges of `graph` whose weights are `legs`.
pub open spec fn is_route(graph: &Graph, path: Seq<usize>, legs: Seq<u32>) -> bool {
    &&& path.len() == legs.len() + 1
    &&& forall|i: int| 0 <= i < path.len() ==> #[trigger] path[i] < graph.nodes@.len()
    &&& forall|i: int|
        0 <= i < legs.len() ==> #[trigger] graph.has_edge(path[i] as int, path[i + 1] as int, legs[i])
}

/// Some route leads from arena index `s` to arena index `t`.
pub open spec fn reachable(graph: &Graph, s: int, t: int) -> bool {
    exists|path: Seq<usize>, legs: Seq<u32>|
        #[trigger] is_route(graph, path, legs) && path[0] == s && path.last() == t
}

/// A route links its first node to its last: the goal of a search is
/// reachable whenever a route to it is returned, so a start and a goal in
/// different components get no route.
pub proof fn lemma_route_reaches(graph: &Graph, path: Seq<usize>, legs: Seq<u32>)
    requires
        is_route(graph, path, legs),
    ensures
        reachable(graph, path[0] as int, path.last() as int),
{
    assert(is_route(graph, path, legs) && path[0] == path[0] && path.last() == path.last());
}

/// An open-set entry: estimated total cost, cost so far, the estimate of the
/// remaining cost, the node's identifier and its arena index.
#[derive(Clone, Copy)]
struct Entry {
    f: u128,
    g: u128,
    h: u32,
    id: usize,
    node: usize,
}

/// Order of the open set: by estimate, then cost so far, then node identifier.
spec fn entry_le(a: Entry, b: Entry) -> bool {
    a.f < b.f || (a.f == b.f && (a.g < b.g || (a.g == b.g && a.id <= b.id)))
}

spec fn sum_costs(g: Seq<u128>) -> nat
    decreases g.len(),
{
    if g.len() == 0 {
        0
    } else {
        (g[0] + sum_costs(g.subrange(1, g.len() as int))) as nat
    }
}

proof fn lemma_sum_update(g: Seq<u128>, i: int, x: u128)
    requires
        0 <= i < g.len(),
    ensures
        sum_costs(g.update(i, x)) + g[i] == sum_costs(g) + x,
    decreases g.len(),
{
    let h = g.update(i, x);
    if i > 0 {
        lemma_sum_update(g.subrange(1, g.len() as int), i - 1, x);
        assert(h.subrange(1, h.len() as int) =~= g.subrange(1, g.len() as int).update(i - 1, x));
    } else {
        assert(h.subrange(1, h.len() as int) =~= g.subrange(1, g.len() as int));
    }
}

proof fn lemma_leg_sum_prepend(legs: Seq<u32>, w: u32)
    ensures
        leg_sum(legs.insert(0, w)) == w + leg_sum(legs),
{
    let l = legs.insert(0, w);
    assert(l.subrange(1, l.len() as int) =~= legs);
}

/// Each entry's estimate is its cost so far plus a value of `dist` from its
/// node to `target`.
spec fn estimated<F: Fn(Point, Point) -> u32>(graph: &Graph, open: Seq<Entry>, dist: F, target: Point) -> bool {
    forall|j: int|
        0 <= j < open.len() ==> (#[trigger] open[j]).f == open[j].g + open[j].h && dist.ensures(
            (graph.nodes@[open[j].node as int].position, target),
            open[j].h,
        )
}

/// No value of `dist` from a node to `target` exceeds the cost of a route from
/// that node to `goal` plus a value of `dist` from `goal` to `target`.
pub open spec fn admissible<F: Fn(Point, Point) -> u32>(graph: &Graph, dist: F, goal: int, target: Point) -> bool {
    forall|path: Seq<usize>, legs: Seq<u32>, hv: u32, hg: u32|
        #[trigger] is_route(graph, path, legs) && path.last() == goal && #[trigger] dist.ensures(
            (graph.nodes@[path[0] as int].position, target),
            hv,
        ) && #[trigger] dist.ensures((graph.nodes@[goal].position, target), hg) ==> hv <= leg_sum(legs) + hg
}

proof fn lemma_leg_sum_split(legs: Seq<u32>, m: int)
    requires
        0 <= m <= legs.len(),
    ensures
        leg_sum(legs) == leg_sum(legs.subrange(0, m)) + leg_sum(legs.subrange(m, legs.len() as int)),
    decreases m,
{
    if m == 0 {
        assert(legs.subrange(0, legs.len() as int) =~= legs);
        assert(leg_sum(legs.subrange(0, 0)) == 0);
    } else {
        let tail = legs.subrange(1, legs.len() as int);
        lemma_leg_sum_split(tail, m - 1);
        let pre = legs.subrange(0, m);
        assert(pre.subrange(1, pre.len() as int) =~= tail.subrange(0, m - 1));
        assert(tail.subrange(m - 1, tail.len() as int) =~= legs.subrange(m, legs.len() as int));
    }
}

/// While the goal has not been taken from the open set, every route from the
/// start to the goal passes a node that is queued at a cost no greater than
/// that of the route up to it.
proof fn lemma_queued_on_route(
    graph: &Graph,
    start: int,
    goal: int,
    g: Seq<u128>,
    came: Seq<Option<(usize, u32)>>,
    stamp: Seq<nat>,
    clock: nat,
    reached: Set<int>,
    open: Seq<Entry>,
    path: Seq<usize>,
    legs: Seq<u32>,
    i: int,
) -> (m: int)
    requires
        graph.wf(),
        search_inv(graph, start, goal, g, came, stamp, clock, reached, open, -1),
        is_route(graph, path, legs),
        path.last() == goal,
        0 <= i <= legs.len(),
        g[path[i] as int] != UNREACHED,
        g[path[i] as int] <= leg_sum(legs.subrange(0, i)),
    ensures
        i <= m <= legs.len(),
        has_entry(open, path[m] as int, g[path[m] as int]),
        g[path[m] as int] <= leg_sum(legs.subrange(0, m)),
    decreases legs.len() - i,
{
    let n = graph.nodes@.len() as int;
    let u = path[i] as int;
    assert(path[i] < n);
    if has_entry(open, u, g[u]) {
        i
    } else {
        assert(settled(graph, g, u));
        assert(path[legs.len() as int] == goal);
        assert(i < legs.len());
        lemma_reached_bound(reached, n);
        assert(graph.has_edge(path[i] as int, path[i + 1] as int, legs[i]));
        let k = choose|k: int|
            0 <= k < graph.edges(u).len() && #[trigger] graph.edges(u)[k] == (legs[i], path[i + 1]);
        assert(g[graph.edges(u)[k].1 as int] <= g[u] + graph.edges(u)[k].0);
        assert(g[u] <= reached.len() * MAX_WEIGHT);
        assert(reached.len() * MAX_WEIGHT <= n * MAX_WEIGHT);
        assert(graph.nodes.len() == n);
        lemma_leg_sum_split(legs.subrange(0, i + 1), i);
        assert(legs.subrange(0, i + 1).subrange(0, i) =~= legs.subrange(0, i));
        assert(legs.subrange(0, i + 1).subrange(i, i + 1) =~= seq![legs[i]]);
        assert(leg_sum(seq![legs[i]]) == legs[i]) by {
            let one = seq![legs[i]];
            assert(one.subrange(1, 1) =~= Seq::<u32>::empty());
            assert(leg_sum(one.subrange(1, 1)) == 0);
        }
        lemma_queued_on_route(graph, start, goal, g, came, stamp, clock, reached, open, path, legs, i + 1)
    }
}

/// When the least entry of the open set is for the goal, its cost so far is
/// no greater than the cost of any route from the start to the goal, given
/// an admissible estimate.
proof fn lemma_goal_optimal<F: Fn(Point, Point) -> u32>(
    graph: &Graph,
    start: int,
    goal: int,
    g: Seq<u128>,
    came: Seq<Option<(usize, u32)>>,
    stamp: Seq<nat>,
    clock: nat,
    reached: Set<int>,
    open: Seq<Entry>,
    dist: F,
    target: Point,
    best: int,
    path: Seq<usize>,
    legs: Seq<u32>,
)
    requires
        graph.wf(),
        search_inv(graph, start, goal, g, came, stamp, clock, reached, open, -1),
        estimated(graph, open, dist, target),
        admissible(graph, dist, goal, target),
        0 <= best < open.len(),
        open[best].node == goal,
        forall|j: int| 0 <= j < open.len() ==> entry_le(open[best], #[trigger] open[j]),
        is_route(graph, path, legs),
        path[0] == start,
        path.last() == goal,
    ensures
        open[best].g <= leg_sum(legs),
{
    assert(leg_sum(legs.subrange(0, 0)) == 0);
    let m = lemma_queued_on_route(graph, start, goal, g, came, stamp, clock, reached, open, path, legs, 0);
    let p = path[m] as int;
    let j = choose|j: int| 0 <= j < open.len() && #[trigger] open[j].node == p && open[j].g == g[p];
    assert(entry_le(open[best], open[j]));
    let sp = path.subrange(m, path.len() as int);
    let sl = legs.subrange(m, legs.len() as int);
    assert forall|i: int| 0 <= i < sl.len() implies #[trigger] graph.has_edge(sp[i] as int, sp[i + 1] as int, sl[i]) by {
        assert(graph.has_edge(path[m + i] as int, path[(m + i) + 1] as int, legs[m + i]));
    }
    assert forall|i: int| 0 <= i < sp.len() implies #[trigger] sp[i] < graph.nodes@.len() by {
        assert(path[m + i] < graph.nodes@.len());
    }
    assert(is_route(graph, sp, sl));
    assert(sp.last() == goal);
    assert(dist.ensures((graph.nodes@[sp[0] as int].position, target), open[j].h));
    assert(dist.ensures((graph.nodes@[goal].position, target), open[best].h));
    assert(open[j].h <= leg_sum(sl) + open[best].h);
    lemma_leg_sum_split(legs, m);
}

spec fn has_entry(open: Seq<Entry>, v: int, gv: u128) -> bool {
    exists|j: int| 0 <= j < open.len() && #[trigger] open[j].node == v && open[j].g == gv
}

/// Every edge out of `u` has been relaxed.
spec fn settled(graph: &Graph, g: Seq<u128>, u: int) -> bool {
    forall|k: int|
        0 <= k < graph.edges(u).len() ==> g[#[trigger] graph.edges(u)[k].1 as int] <= g[u]
            + graph.edges(u)[k].0
}

/// Node `a` comes before node `b` in (cost, time of last improvement) order.
spec fn key_lt(g: Seq<u128>, stamp: Seq<nat>, a: int, b: int) -> bool {
    g[a] < g[b] || (g[a] == g[b] && stamp[a] < stamp[b])
}

/// The predecessor link of `v` is an edge, and following it strictly lowers
/// (cost, time of last improvement) in lexicographic order.
spec fn link_ok(graph: &Graph, g: Seq<u128>, stamp: Seq<nat>, came: Seq<Option<(usize, u32)>>, v: int) -> bool {
    came[v] is Some ==> {
        let (p, w) = came[v]->0;
        &&& p < graph.nodes@.len()
        &&& graph.has_edge(p as int, v, w)
        &&& g[p as int] != UNREACHED
        &&& (g[p as int] + w < g[v] || (g[p as int] + w == g[v] && stamp[p as int] < stamp[v]))
    }
}

/// The search state, except that node `skip` may be neither queued nor settled.
spec fn search_inv(
    graph: &Graph,
    start: int,
    goal: int,
    g: Seq<u128>,
    came: Seq<Option<(usize, u32)>>,
    stamp: Seq<nat>,
    clock: nat,
    reached: Set<int>,
    open: Seq<Entry>,
    skip: int,
) -> bool {
    let n = graph.nodes@.len();
    &&& g.len() == n && came.len() == n && stamp.len() == n
    &&& 0 <= start < n && 0 <= goal < n
    &&& g[start] == 0 && came[start] is None
    &&& reached.subset_of(set_int_range(0, n as int))
    &&& reached.finite()
    &&& forall|v: int| 0 <= v < n ==> (#[trigger] g[v] != UNREACHED <==> reached.contains(v))
    &&& forall|v: int| 0 <= v < n && #[trigger] g[v] != UNREACHED ==> g[v] <= reached.len() * MAX_WEIGHT
    &&& forall|v: int| 0 <= v < n && v != start && #[trigger] g[v] != UNREACHED ==> came[v] is Some
    &&& forall|v: int| 0 <= v < n ==> #[trigger] link_ok(graph, g, stamp, came, v)
    &&& forall|v: int| 0 <= v < n ==> #[trigger] stamp[v] < clock
    &&& forall|j: int|
        0 <= j < open.len() ==> (#[trigger] open[j]).node < n && g[open[j].node as int] <= open[j].g
            && open[j].g != UNREACHED
    &&& forall|v: int|
        0 <= v < n && v != skip && #[trigger] g[v] != UNREACHED ==> has_entry(open, v, g[v]) || (v
            != goal && settled(graph, g, v))
}

proof fn lemma_reached_bound(reached: Set<int>, n: int)
    requires
        n >= 0,
        reached.subset_of(set_int_range(0, n)),
    ensures
        reached.finite(),
        reached.len() <= n,
{
    lemma_int_range(0, n);
    lemma_len_subset(reached, set_int_range(0, n));
}

/// With an empty open set, the reached nodes are closed under edges, so each
/// node of a route from the start is reached.
proof fn lemma_route_reached(
    graph: &Graph,
    start: int,
    goal: int,
    g: Seq<u128>,
    came: Seq<Option<(usize, u32)>>,
    stamp: Seq<nat>,
    clock: nat,
    reached: Set<int>,
    open: Seq<Entry>,
    path: Seq<usize>,
    legs: Seq<u32>,
    i: int,
)
    requires
        graph.wf(),
        search_inv(graph, start, goal, g, came, stamp, clock, reached, open, -1),
        open.len() == 0,
        is_route(graph, path, legs),
        path[0] == start,
        0 <= i <= legs.len(),
    ensures
        g[path[i] as int] != UNREACHED,
    decreases i,
{
    let n = graph.nodes@.len() as int;
    if i > 0 {
        lemma_route_reached(graph, start, goal, g, came, stamp, clock, reached, open, path, legs, i - 1);
        lemma_reached_bound(reached, n);
        let u = path[i - 1] as int;
        assert(path[i - 1] < n);
        assert(!has_entry(open, u, g[u]));
        assert(settled(graph, g, u));
        assert(graph.has_edge(path[i - 1] as int, path[(i - 1) + 1] as int, legs[i - 1]));
        let k = choose|k: int|
            0 <= k < graph.edges(u).len() && #[trigger] graph.edges(u)[k] == (legs[i - 1], path[i]);
        assert(g[graph.edges(u)[k].1 as int] <= g[u] + graph.edges(u)[k].0);
        assert(g[u] <= reached.len() * MAX_WEIGHT);
        assert(reached.len() * MAX_WEIGHT <= n * MAX_WEIGHT);
        assert(graph.nodes.len() == n);
    }
}

/// With an empty open set the goal cannot be reached from the start.
proof fn lemma_exhausted(
    graph: &Graph,
    start: int,
    goal: int,
    g: Seq<u128>,
    came: Seq<Option<(usize, u32)>>,
    stamp: Seq<nat>,
    clock: nat,
    reached: Set<int>,
    open: Seq<Entry>,
)
    requires
        graph.wf(),
        search_inv(graph, start, goal, g, came, stamp, clock, reached, open, -1),
        open.len() == 0,
    ensures
        !reachable(graph, start, goal),
{
    if reachable(graph, start, goal) {
        let (path, legs) = choose|path: Seq<usize>, legs: Seq<u32>|
            #[trigger] is_route(graph, path, legs) && path[0] == start && path.last() == goal;
        lemma_route_reached(graph, start, goal, g, came, stamp, clock, reached, open, path, legs, legs.len() as int);
        assert(path[legs.len() as int] == goal);
        assert(!has_entry(open, goal, g[goal]));
    }
}

/// Index of the least entry of a non-empty open set.
fn pick_min(open: &Vec<Entry>) -> (r: usize)
    requires
        open@.len() > 0,
    ensures
        r < open@.len(),
        forall|j: int| 0 <= j < open@.len() ==> entry_le(open@[r as int], #[trigger] open@[j]),
{
    let mut best: usize = 0;
    let mut i: usize = 1;
    while i < open.len()
        invariant
            0 <= best < i <= open@.len(),
            forall|j: int| 0 <= j < i ==> entry_le(open@[best as int], #[trigger] open@[j]),
        decreases open@.len() - i,
    {
        let a = open[i];
        let b = open[best];
        if a.f < b.f || (a.f == b.f && (a.g < b.g || (a.g == b.g && a.id < b.id))) {
            best = i;
        }
        i = i + 1;
    }
    best
}

proof fn lemma_remove_entry(open: Seq<Entry>, i: int, v: int, gv: u128)
    requires
        0 <= i < open.len(),
        has_entry(open, v, gv),
        !(open[i].node == v && open[i].g == gv),
    ensures
        has_entry(open.remove(i), v, gv),
{
    let j = choose|j: int| 0 <= j < open.len() && #[trigger] open[j].node == v && open[j].g == gv;
    let r = open.remove(i);
    if j < i {
        assert(r[j].node == v && r[j].g == gv);
    } else {
        assert(r[j - 1].node == v && r[j - 1].g == gv);
    }
}

proof fn lemma_push_entry(open: Seq<Entry>, e: Entry, v: int, gv: u128)
    requires
        has_entry(open, v, gv),
    ensures
        has_entry(open.push(e), v, gv),
{
    let j = choose|j: int| 0 <= j < open.len() && #[trigger] open[j].node == v && open[j].g == gv;
    assert(open.push(e)[j].node == v && open.push(e)[j].g == gv);
}

/// Follows predecessor links back from `goal` to `start`.
fn reconstruct_path(
    graph: &Graph,
    came: &Vec<Option<(usize, u32)>>,
    g: &Vec<u128>,
    start: usize,
    goal: usize,
    Ghost(stamp): Ghost<Seq<nat>>,
) -> (r: Route)
    requires
        graph.wf(),
        g@.len() == graph.nodes@.len(),
        came@.len() == graph.nodes@.len(),
        stamp.len() == graph.nodes@.len(),
        start < graph.nodes@.len(),
        goal < graph.nodes@.len(),
        g@[goal as int] != UNREACHED,
        g@[start as int] == 0,
        forall|v: int| 0 <= v < graph.nodes@.len() ==> #[trigger] link_ok(graph, g@, stamp, came@, v),
        forall|v: int|
            0 <= v < graph.nodes@.len() && v != start && #[trigger] g@[v] != UNREACHED ==> came@[v] is Some,
    ensures
        r.cost <= g@[goal as int],
        came@[r.nodes@[0] as int] is None,
        forall|i: int|
            0 <= i < r.legs@.len() ==> came@[#[trigger] r.nodes@[i + 1] as int] == Some((r.nodes@[i], r.legs@[i])),
        forall|i: int, j: int| 0 <= i < j < r.nodes@.len() ==> r.nodes@[i] != r.nodes@[j],
        came@[goal as int] is None ==> r.nodes@ == seq![goal],
        is_route(graph, r.nodes@, r.legs@),
        r.nodes@[0] == start,
        r.nodes@.last() == goal,
        r.cost == leg_sum(r.legs@),
{
    let mut nodes: Vec<usize> = Vec::new();
    nodes.push(goal);
    let mut legs: Vec<u32> = Vec::new();
    let mut cost: u128 = 0;
    let mut node: usize = goal;
    loop
        invariant
            graph.wf(),
            g@.len() == graph.nodes@.len(),
            came@.len() == graph.nodes@.len(),
            stamp.len() == graph.nodes@.len(),
            forall|v: int| 0 <= v < graph.nodes@.len() ==> #[trigger] link_ok(graph, g@, stamp, came@, v),
            forall|v: int|
                0 <= v < graph.nodes@.len() && v != start && #[trigger] g@[v] != UNREACHED ==> came@[v] is Some,
            node < graph.nodes@.len(),
            g@[node as int] != UNREACHED,
            g@[goal as int] != UNREACHED,
            g@[start as int] == 0,
            is_route(graph, nodes@, legs@),
            nodes@[0] == node,
            nodes@.last() == goal,
            cost == leg_sum(legs@),
            cost + g@[node as int] <= g@[goal as int],
            forall|i: int|
                0 <= i < legs@.len() ==> came@[#[trigger] nodes@[i + 1] as int] == Some((nodes@[i], legs@[i])),
            forall|i: int, j: int|
                0 <= i < j < nodes@.len() ==> #[trigger] key_lt(g@, stamp, nodes@[i] as int, nodes@[j] as int),
        ensures
            node == start,
            came@[node as int] is None,
            cost + g@[node as int] <= g@[goal as int],
            is_route(graph, nodes@, legs@),
            nodes@[0] == node,
            nodes@.last() == goal,
            cost == leg_sum(legs@),
        decreases g@[node as int], stamp[node as int],
    {
        match came[node] {
            None => {
                assert(g@[node as int] != UNREACHED);
                assert(node == start);
                break;
            },
            Some(link) => {
                let (p, w) = link;
                assert(link_ok(graph, g@, stamp, came@, node as int));
                let ghost old_nodes = nodes@;
                let ghost old_legs = legs@;
                proof {
                    lemma_leg_sum_prepend(legs@, w);
                }
                nodes.insert(0, p);
                legs.insert(0, w);
                cost = cost + w as u128;
                node = p;
                assert forall|i: int| 0 <= i < legs@.len() implies #[trigger] graph.has_edge(
                    nodes@[i] as int,
                    nodes@[i + 1] as int,
                    legs@[i],
                ) by {
                    if i > 0 {
                        assert(graph.has_edge(old_nodes[i - 1] as int, old_nodes[(i - 1) + 1] as int, old_legs[i - 1]));
                    }
                }
                assert(nodes@.last() == old_nodes.last());
                assert forall|i: int| 0 <= i < legs@.len() implies came@[#[trigger] nodes@[i + 1] as int] == Some(
                    (nodes@[i], legs@[i]),
                ) by {
                    if i > 0 {
                        assert(nodes@[i + 1] == old_nodes[(i - 1) + 1]);
                    }
                }
                assert forall|i: int, j: int| 0 <= i < j < nodes@.len() implies #[trigger] key_lt(
                    g@,
                    stamp,
                    nodes@[i] as int,
                    nodes@[j] as int,
                ) by {
                    assert(key_lt(g@, stamp, p as int, old_nodes[0] as int));
                    if i > 0 {
                        assert(key_lt(g@, stamp, old_nodes[i - 1] as int, old_nodes[j - 1] as int));
                    } else if j > 1 {
                        assert(key_lt(g@, stamp, old_nodes[0] as int, old_nodes[j - 1] as int));
                    }
                }
            },
        }
    }
    proof {
        if came@[goal as int] is None && legs@.len() > 0 {
            let last = (legs@.len() - 1) as int;
            assert(came@[nodes@[last + 1] as int] == Some((nodes@[last], legs@[last])));
            assert(nodes@[last + 1] == goal);
        }
        if came@[goal as int] is None {
            assert(nodes@ =~= seq![goal]);
        }
        assert forall|i: int, j: int| 0 <= i < j < nodes@.len() implies nodes@[i] != nodes@[j] by {
            assert(key_lt(g@, stamp, nodes@[i] as int, nodes@[j] as int));
        }
    }
    Route { nodes, legs, cost }
}

/// A* search from arena index `start` to arena index `goal`. The estimate
/// of a node is `dist` from its position to `target`. Returns a route exactly
/// when one exists; its cost is the sum of its legs, and no route costs less
/// when the estimate is admissible.
pub fn search<F: Fn(Point, Point) -> u32>(
    graph: &Graph,
    start: usize,
    goal: usize,
    target: Point,
    dist: &F,
) -> (r: Option<Route>)
    requires
        graph.wf(),
        start < graph.nodes@.len(),
        goal < graph.nodes@.len(),
        forall|a: Point, b: Point| dist.requires((a, b)),
    ensures
        match r {
            Some(route) => is_route(graph, route.nodes@, route.legs@) && route.nodes@[0] == start
                && route.nodes@.last() == goal && route.cost == leg_sum(route.legs@),
            None => !reachable(graph, start as int, goal as int),
        },
        r is None <==> !reachable(graph, start as int, goal as int),
        r matches Some(route) ==> forall|i: int, j: int|
            0 <= i < j < route.nodes@.len() ==> route.nodes@[i] != route.nodes@[j],
        r matches Some(route) ==> (start == goal ==> route.nodes@ == seq![start]),
        r matches Some(route) ==> (admissible(graph, *dist, goal as int, target) ==> shortest(
            graph,
            route.nodes@,
            route.legs@,
        )),
{
    let n = graph.nodes.len();
    let mut g: Vec<u128> = Vec::new();
    let mut came: Vec<Option<(usize, u32)>> = Vec::new();
    let mut i: usize = 0;
    while i < n
        invariant
            i <= n,
            g@.len() == i,
            came@.len() == i,
            forall|v: int| 0 <= v < i ==> #[trigger] g@[v] == UNREACHED,
            forall|v: int| 0 <= v < i ==> #[trigger] came@[v] is None,
        decreases n - i,
    {
        g.push(UNREACHED);
        came.push(None);
        i = i + 1;
    }
    g.set(start, 0);
    let ghost mut stamp: Seq<nat> = Seq::new(n as nat, |v: int| 0nat);
    let ghost mut clock: nat = 1;
    let ghost mut reached: Set<int> = Set::empty().insert(start as int);
    let h0 = dist(graph.nodes[start].position, target);
    let mut open: Vec<Entry> = Vec::new();
    open.push(Entry { f: h0 as u128, g: 0, h: h0, id: graph.nodes[start].id, node: start });
    proof {
        assert(reached.subset_of(set_int_range(0, n as int)));
        assert(forall|v: int| 0 <= v < n ==> (#[trigger] g@[v] != UNREACHED <==> v == start));
        assert(open@[0].node == start as int && open@[0].g == 0);
        assert(has_entry(open@, start as int, 0));
        assert(reached.len() == 1);
        assert forall|v: int| 0 <= v < n implies #[trigger] link_ok(graph, g@, stamp, came@, v) by {
            assert(came@[v] is None);
        }
        assert(forall|v: int| 0 <= v < n ==> #[trigger] stamp[v] < clock);
        assert(forall|v: int|
            0 <= v < n && v != -1 && #[trigger] g@[v] != UNREACHED ==> has_entry(open@, v, g@[v]));
    }
    loop
        invariant
            graph.wf(),
            n == graph.nodes@.len(),
            forall|a: Point, b: Point| dist.requires((a, b)),
            search_inv(graph, start as int, goal as int, g@, came@, stamp, clock, reached, open@, -1),
            estimated(graph, open@, *dist, target),
        decreases 2 * sum_costs(g@) + open@.len(),
    {
        if open.len() == 0 {
            proof {
                lemma_exhausted(graph, start as int, goal as int, g@, came@, stamp, clock, reached, open@);
            }
            return None;
        }
        let best = pick_min(&open);
        let ghost before = open@;
        let e = open.remove(best);
        if e.node == goal {
            let route = reconstruct_path(graph, &came, &g, start, goal, Ghost(stamp));
            proof {
                lemma_route_reaches(graph, route.nodes@, route.legs@);
                if admissible(graph, *dist, goal as int, target) {
                    assert forall|path: Seq<usize>, legs: Seq<u32>|
                        #[trigger] is_route(graph, path, legs) && path[0] == start && path.last() == goal implies route.cost
                            <= leg_sum(legs) by {
                        lemma_goal_optimal(
                            graph,
                            start as int,
                            goal as int,
                            g@,
                            came@,
                            stamp,
                            clock,
                            reached,
                            before,
                            *dist,
                            target,
                            best as int,
                            path,
                            legs,
                        );
                    }
                }
            }
            return Some(route);
        }
        let u = e.node;
        let gu = g[u];
        let ghost skip: int = if e.g == gu { u as int } else { -1 };
        proof {
            assert forall|j: int| 0 <= j < open@.len() implies (#[trigger] open@[j]).f == open@[j].g + open@[j].h
                && dist.ensures((graph.nodes@[open@[j].node as int].position, target), open@[j].h) by {
                if j < best {
                    assert(open@[j] == before[j]);
                } else {
                    assert(open@[j] == before[j + 1]);
                }
            }
            assert forall|v: int|
                0 <= v < n && v != skip && #[trigger] g@[v] != UNREACHED implies has_entry(open@, v, g@[v]) || (v
                    != goal && settled(graph, g@, v)) by {
                if has_entry(before, v, g@[v]) {
                    lemma_remove_entry(before, best as int, v, g@[v]);
                }
            }
        }
        if e.g == gu {
            let ghost bound = 2 * sum_costs(g@) + open@.len();
            let edges_len = graph.nodes[u].connected.len();
            let mut k: usize = 0;
            while k < edges_len
                invariant
                    graph.wf(),
                    n == graph.nodes@.len(),
                    forall|a: Point, b: Point| dist.requires((a, b)),
                    search_inv(graph, start as int, goal as int, g@, came@, stamp, clock, reached, open@, u as int),
                    estimated(graph, open@, *dist, target),
                    u < n,
                    u != goal,
                    g@[u as int] == gu,
                    gu != UNREACHED,
                    edges_len == graph.edges(u as int).len(),
                    k <= edges_len,
                    forall|k2: int|
                        0 <= k2 < k ==> g@[#[trigger] graph.edges(u as int)[k2].1 as int] <= gu
                            + graph.edges(u as int)[k2].0,
                    2 * sum_costs(g@) + open@.len() <= bound,
                decreases edges_len - k,
            {
                let (w, v) = graph.nodes[u].connected[k];
                assert(graph.edges(u as int)[k as int] == (w, v));
                proof {
                    lemma_reached_bound(reached, n as int);
                }
                let tentative = gu + w as u128;
                if tentative < g[v] {
                    let h = dist(graph.nodes[v].position, target);
                    let ghost g0 = g@;
                    let ghost came0 = came@;
                    let ghost stamp0 = stamp;
                    let ghost open0 = open@;
                    let ghost reached0 = reached;
                    proof {
                        lemma_sum_update(g@, v as int, tentative);
                    }
                    g.set(v, tentative);
                    came.set(v, Some((u, w)));
                    let entry = Entry { f: tentative + h as u128, g: tentative, h, id: graph.nodes[v].id, node: v };
                    open.push(entry);
                    proof {
                        stamp = stamp.update(v as int, clock);
                        clock = clock + 1;
                        reached = reached.insert(v as int);
                        assert(graph.has_edge(u as int, v as int, w));
                        assert(open@[open@.len() - 1] == entry);
                        assert forall|x: int| 0 <= x < n implies #[trigger] link_ok(graph, g@, stamp, came@, x) by {
                            assert(link_ok(graph, g0, stamp0, came0, x));
                        }
                        assert forall|x: int|
                            0 <= x < n && x != u && #[trigger] g@[x] != UNREACHED implies has_entry(open@, x, g@[x])
                                || (x != goal && settled(graph, g@, x)) by {
                            if x == v {
                                assert(open@[open@.len() - 1].node == x);
                            } else if has_entry(open0, x, g0[x]) {
                                lemma_push_entry(open0, entry, x, g0[x]);
                            } else {
                                assert(settled(graph, g0, x));
                                assert forall|k3: int| 0 <= k3 < graph.edges(x).len() implies g@[
                                    #[trigger] graph.edges(x)[k3].1 as int] <= g@[x] + graph.edges(x)[k3].0 by {
                                    assert(g0[graph.edges(x)[k3].1 as int] <= g0[x] + graph.edges(x)[k3].0);
                                }
                            }
                        }
                        assert(forall|x: int| 0 <= x < n && x != v ==> g@[x] == g0[x]);
                        assert(forall|j: int| 0 <= j < open0.len() ==> open@[j] == open0[j]);
                        assert forall|j: int| 0 <= j < open@.len() implies (#[trigger] open@[j]).f == open@[j].g
                            + open@[j].h && dist.ensures((graph.nodes@[open@[j].node as int].position, target), open@[j].h) by {
                            if j < open0.len() {
                                assert(open@[j] == open0[j]);
                            }
                        }
                    }
                }
                k = k + 1;
            }
        }
    }
}

/// Why a query could not be answered.
#[derive(Clone, Copy, Debug, PartialEq, Eq, Structural)]
pub enum RouteError {
    /// The graph has no node to resolve a query point to.
    EmptyGraph,
}

/// No route between the ends of `path` costs less than `legs`.
pub open spec fn shortest(graph: &Graph, path: Seq<usize>, legs: Seq<u32>) -> bool {
    forall|p: Seq<usize>, l: Seq<u32>|
        #[trigger] is_route(graph, p, l) && p[0] == path[0] && p.last() == path.last() ==> leg_sum(legs)
            <= leg_sum(l)
}

/// Positions of the nodes along `path`.
pub open spec fn route_points(graph: &Graph, path: Seq<usize>) -> Seq<Point> {
    Seq::new(path.len(), |i: int| graph.nodes@[path[i] as int].position)
}

/// Positions of the nodes along a route.
pub fn points_of(graph: &Graph, route: &Route) -> (r: Vec<Point>)
    requires
        forall|i: int| 0 <= i < route.nodes@.len() ==> #[trigger] route.nodes@[i] < graph.nodes@.len(),
    ensures
        r@ == route_points(graph, route.nodes@),
{
    let mut r: Vec<Point> = Vec::new();
    let mut i: usize = 0;
    while i < route.nodes.len()
        invariant
            forall|i: int| 0 <= i < route.nodes@.len() ==> #[trigger] route.nodes@[i] < graph.nodes@.len(),
            i <= route.nodes@.len(),
            r@ =~= route_points(graph, route.nodes@.subrange(0, i as int)),
        decreases route.nodes@.len() - i,
    {
        r.push(graph.nodes[route.nodes[i]].position);
        i = i + 1;
        assert(r@ =~= route_points(graph, route.nodes@.subrange(0, i as int)));
    }
    assert(route.nodes@.subrange(0, i as int) =~= route.nodes@);
    r
}

/// Route between two query points: each is resolved to its nearest node, and
/// A* runs between the two nodes. The route starts at the resolved start
/// node's position and ends at the resolved goal node's position.
pub fn a_star<F: Fn(Point, Point) -> u32>(graph: &Graph, start: Point, goal: Point, dist: &F) -> (r: Result<
    Option<Vec<Point>>,
    RouteError,
>)
    requires
        graph.wf(),
        forall|a: Point, b: Point| dist.requires((a, b)),
    ensures
        r is Err <==> graph.nodes@.len() == 0,
        r is Err ==> r->Err_0 == RouteError::EmptyGraph,
        r matches Ok(Some(pts)) ==> exists|path: Seq<usize>, legs: Seq<u32>|
            #[trigger] is_route(graph, path, legs) && graph.nearest_under(*dist, start, path[0] as int)
                && graph.nearest_under(*dist, goal, path.last() as int) && pts@ == route_points(graph, path)
                && (forall|i: int, j: int| 0 <= i < j < path.len() ==> path[i] != path[j]) && (path[0]
                == path.last() ==> path.len() == 1) && (admissible(graph, *dist, path.last() as int, goal)
                ==> shortest(graph, path, legs)),
        r matches Ok(None) ==> exists|s: int, t: int|
            graph.nearest_under(*dist, start, s) && graph.nearest_under(*dist, goal, t) && !#[trigger] reachable(
                graph,
                s,
                t,
            ),
{
    let s = match graph.find_nearest(start, dist) {
        Some(s) => s,
        None => {
            return Err(RouteError::EmptyGraph);
        },
    };
    let t = match graph.find_nearest(goal, dist) {
        Some(t) => t,
        None => {
            return Err(RouteError::EmptyGraph);
        },
    };
    assert(graph.nearest_under(*dist, start, s as int));
    assert(graph.nearest_under(*dist, goal, t as int));
    match search(graph, s, t, goal, dist) {
        Some(route) => {
            let pts = points_of(graph, &route);
            assert(is_route(graph, route.nodes@, route.legs@));
            assert(admissible(graph, *dist, t as int, goal) ==> shortest(graph, route.nodes@, route.legs@));
            assert(route.nodes@[0] == route.nodes@.last() ==> route.nodes@.len() == 1) by {
                if route.nodes@.len() > 1 {
                    assert(route.nodes@[0] != route.nodes@[route.nodes@.len() - 1]);
                }
            }
            Ok(Some(pts))
        },
        None => {
            assert(!reachable(graph, s as int, t as int));
            Ok(None)
        },
    }
}

} // verus!
