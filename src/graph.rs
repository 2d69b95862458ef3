//! The spatial graph: an arena of nodes keyed by their source identifier.
use std::collections::HashMap;
use vstd::prelude::*;

verus! {

broadcast use vstd::std_specs::hash::group_hash_axioms;

/// A geographic position; both coordinates are in units of 1e-7 degree.
#[derive(Clone, Copy, Debug, PartialEq, Eq, Structural)]
pub struct Point {
    pub lat: i64,
    pub lon: i64,
}

/// A graph node: its source identifier, its position and its outgoing edges.
pub struct Node {
    pub id: usize,
    pub position: Point,
    /// Outgoing edges as (weight in centimetres, arena index of the neighbour).
    pub connected: Vec<(u32, usize)>,
}

/// Directed weighted graph. `nodes` is an arena; `index` maps a node's
/// source identifier to its place in the arena.
pub struct Graph {
    pub nodes: Vec<Node>,
    pub index: HashMap<usize, usize>,
}

/// Node `i` is nearest among all nodes by the distances `ds`, the lowest
/// identifier winning among equal distances.
pub open spec fn is_nearest(nodes: Seq<Node>, ds: Seq<u32>, i: int) -> bool {
    &&& 0 <= i < nodes.len()
    &&& forall|j: int|
        0 <= j < nodes.len() ==> ds[i] < #[trigger] ds[j] || (ds[i] == ds[j] && nodes[i].id
            <= nodes[j].id)
}

impl Graph {
    /// The arena and the identifier map agree, and every edge points into the arena.
    pub open spec fn wf(&self) -> bool {
        &&& forall|i: int|
            0 <= i < self.nodes@.len() ==> #[trigger] self.index@.contains_key(self.nodes@[i].id)
                && self.index@[self.nodes@[i].id] == i
        &&& forall|id: usize| #[trigger]
            self.index@.contains_key(id) ==> self.index@[id] < self.nodes@.len()
                && self.nodes@[self.index@[id] as int].id == id
        &&& forall|i: int, k: int|
            0 <= i < self.nodes@.len() && 0 <= k < self.nodes@[i].connected@.len()
                ==> #[trigger] self.nodes@[i].connected@[k].1 < self.nodes@.len()
    }

    pub open spec fn contains(&self, id: usize) -> bool {
        self.index@.contains_key(id)
    }

    /// Arena index of the node with identifier `id`.
    pub open spec fn slot(&self, id: usize) -> int {
        self.index@[id] as int
    }

    /// Outgoing edges of the node at arena index `u`.
    pub open spec fn edges(&self, u: int) -> Seq<(u32, usize)> {
        self.nodes@[u].connected@
    }

    /// There is an edge `u -> v` of weight `w`.
    pub open spec fn has_edge(&self, u: int, v: int, w: u32) -> bool {
        &&& 0 <= u < self.nodes@.len()
        &&& exists|k: int| 0 <= k < self.edges(u).len() && #[trigger] self.edges(u)[k] == (w, v as usize)
    }

    /// `later` has the nodes, identifiers and positions of `self`, and each node's
    /// edges in `later` extend its edges in `self`.
    pub open spec fn grows_into(&self, later: &Graph) -> bool {
        &&& later.nodes@.len() == self.nodes@.len()
        &&& later.index@ == self.index@
        &&& forall|x: int|
            0 <= x < self.nodes@.len() ==> (#[trigger] later.nodes@[x]).id == self.nodes@[x].id
                && later.nodes@[x].position == self.nodes@[x].position && self.edges(x).len()
                <= later.edges(x).len() && self.edges(x) == later.edges(x).subrange(
                0,
                self.edges(x).len() as int,
            )
    }

    /// Every edge weight is a value the metric `dist` gives for its endpoints.
    pub open spec fn weighted_by<F: Fn(Point, Point) -> u32>(&self, dist: F) -> bool {
        forall|i: int, k: int|
            0 <= i < self.nodes@.len() && 0 <= k < self.edges(i).len() ==> dist.ensures(
                (self.nodes@[i].position, self.nodes@[self.edges(i)[k].1 as int].position),
                #[trigger] self.edges(i)[k].0,
            )
    }

    /// Node `i` is nearest to `q` for some distances that `dist` gives from `q`
    /// to every node.
    pub open spec fn nearest_under<F: Fn(Point, Point) -> u32>(&self, dist: F, q: Point, i: int) -> bool {
        exists|ds: Seq<u32>|
            ds.len() == self.nodes@.len() && (forall|j: int|
                0 <= j < ds.len() ==> dist.ensures((q, self.nodes@[j].position), #[trigger] ds[j]))
                && is_nearest(self.nodes@, ds, i)
    }

    /// An empty graph.
    pub fn new() -> (r: Graph)
        ensures
            r.wf(),
            r.nodes@.len() == 0,
            r.index@ == Map::<usize, usize>::empty(),
    {
        Graph { nodes: Vec::new(), index: HashMap::new() }
    }

    /// Inserts a node without edges. A node with the same identifier is replaced
    /// in place: it keeps its arena index and loses its outgoing edges.
    pub fn add_node(&mut self, id: usize, latitude: i64, longitude: i64)
        requires
            old(self).wf(),
        ensures
            final(self).wf(),
            final(self).contains(id),
            final(self).index@.dom() == old(self).index@.dom().insert(id),
            old(self).contains(id) ==> final(self).nodes@.len() == old(self).nodes@.len()
                && final(self).index@ == old(self).index@,
            !old(self).contains(id) ==> final(self).nodes@.len() == old(self).nodes@.len() + 1
                && final(self).slot(id) == old(self).nodes@.len(),
            final(self).nodes@[final(self).slot(id)].id == id,
            final(self).nodes@[final(self).slot(id)].position == (Point { lat: latitude, lon: longitude }),
            final(self).edges(final(self).slot(id)).len() == 0,
            forall|k: usize| #[trigger]
                old(self).index@.contains_key(k) ==> final(self).index@[k] == old(self).index@[k],
            forall|i: int|
                0 <= i < old(self).nodes@.len() && i != final(self).slot(id) ==> #[trigger] final(self).nodes@[i]
                    == old(self).nodes@[i],
    {
        let position = Point { lat: latitude, lon: longitude };
        let node = Node { id, position, connected: Vec::new() };
        match self.index.get(&id) {
            Some(j) => {
                let j = *j;
                self.nodes.set(j, node);
            },
            None => {
                let j = self.nodes.len();
                self.nodes.push(node);
                self.index.insert(id, j);
                assert(self.index@.dom() =~= old(self).index@.dom().insert(id));
            },
        }
    }
    /// Appends the directed edge `cur_id -> next_id`, weighted by `dist` on the
    /// two positions, when both identifiers are in the graph; otherwise nothing changes.
    pub fn add_connection<F: Fn(Point, Point) -> u32>(&mut self, cur_id: usize, next_id: usize, dist: &F)
        requires
            old(self).wf(),
            forall|a: Point, b: Point| dist.requires((a, b)),
        ensures
            final(self).wf(),
            final(self).index@ == old(self).index@,
            final(self).nodes@.len() == old(self).nodes@.len(),
            !(old(self).contains(cur_id) && old(self).contains(next_id)) ==> final(self).nodes@
                == old(self).nodes@,
            old(self).contains(cur_id) && old(self).contains(next_id) ==> {
                let u = old(self).slot(cur_id);
                let v = old(self).slot(next_id);
                let e = final(self).edges(u).last();
                &&& forall|i: int|
                    0 <= i < old(self).nodes@.len() && i != u ==> #[trigger] final(self).nodes@[i]
                        == old(self).nodes@[i]
                &&& final(self).nodes@[u].id == old(self).nodes@[u].id
                &&& final(self).nodes@[u].position == old(self).nodes@[u].position
                &&& final(self).edges(u) == old(self).edges(u).push(e)
                &&& e.1 == v
                &&& dist.ensures((old(self).nodes@[u].position, old(self).nodes@[v].position), e.0)
            },
    {
        match self.index.get(&cur_id) {
            Some(u) => {
                let u = *u;
                match self.index.get(&next_id) {
                    Some(v) => {
                        let v = *v;
                        let w = dist(self.nodes[u].position, self.nodes[v].position);
                        self.nodes[u].connected.push((w, v));
                        assert(forall|i: int, k: int|
                            0 <= i < self.nodes@.len() && 0 <= k < self.nodes@[i].connected@.len()
                                && i != u ==> self.nodes@[i].connected@[k] == old(self).nodes@[i].connected@[k]);
                    },
                    None => {},
                }
            },
            None => {},
        }
    }

    /// The node with identifier `id`, if any.
    pub fn get_node(&self, id: usize) -> (r: Option<&Node>)
        requires
            self.wf(),
        ensures
            r is Some <==> self.contains(id),
            r is Some ==> *r->0 == self.nodes@[self.slot(id)],
    {
        match self.index.get(&id) {
            Some(j) => Some(&self.nodes[*j]),
            None => None,
        }
    }

    /// The outgoing edges of the node with identifier `id`, if any.
    pub fn get_neighbors(&self, id: usize) -> (r: Option<&Vec<(u32, usize)>>)
        requires
            self.wf(),
        ensures
            r is Some <==> self.contains(id),
            r is Some ==> r->0@ == self.edges(self.slot(id)),
    {
        match self.index.get(&id) {
            Some(j) => Some(&self.nodes[*j].connected),
            None => None,
        }
    }

    /// Picks the nearest node given the distance of every node to the query:
    /// the smallest distance, and among equal distances the lowest identifier.
    /// `None` exactly when the graph is empty.
    pub fn nearest_of(&self, ds: &Vec<u32>) -> (r: Option<usize>)
        requires
            ds@.len() == self.nodes@.len(),
        ensures
            r is None <==> self.nodes@.len() == 0,
            r is Some ==> is_nearest(self.nodes@, ds@, r->0 as int),
    {
        if self.nodes.len() == 0 {
            return None;
        }
        let mut best: usize = 0;
        let mut i: usize = 1;
        while i < self.nodes.len()
            invariant
                ds@.len() == self.nodes@.len(),
                0 <= best < i <= self.nodes@.len(),
                forall|j: int|
                    0 <= j < i ==> ds@[best as int] < #[trigger] ds@[j] || (ds@[best as int] == ds@[j]
                        && self.nodes@[best as int].id <= self.nodes@[j].id),
            decreases self.nodes@.len() - i,
        {
            if ds[i] < ds[best] || (ds[i] == ds[best] && self.nodes[i].id < self.nodes[best].id) {
                best = i;
            }
            i = i + 1;
        }
        Some(best)
    }

    /// Arena index of the node nearest to `target` under the metric `dist`, the
    /// lowest identifier winning a tie; `None` exactly when the graph is empty.
    pub fn find_nearest<F: Fn(Point, Point) -> u32>(&self, target: Point, dist: &F) -> (r: Option<usize>)
        requires
            forall|a: Point, b: Point| dist.requires((a, b)),
        ensures
            r is None <==> self.nodes@.len() == 0,
            r is Some ==> self.nearest_under(*dist, target, r->0 as int),
    {
        let mut ds: Vec<u32> = Vec::new();
        let mut i: usize = 0;
        while i < self.nodes.len()
            invariant
                i <= self.nodes@.len(),
                ds@.len() == i,
                forall|a: Point, b: Point| dist.requires((a, b)),
                forall|j: int| 0 <= j < i ==> dist.ensures((target, self.nodes@[j].position), #[trigger] ds@[j]),
            decreases self.nodes@.len() - i,
        {
            let d = dist(target, self.nodes[i].position);
            ds.push(d);
            i = i + 1;
        }
        let r = self.nearest_of(&ds);
        proof {
            if r is Some {
                assert(ds@.len() == self.nodes@.len());
            }
        }
        r
    }
}

/// Querying at the position of a node resolves to a node at that very
/// position, when `dist` is zero from a point to itself and positive between
/// distinct points; the queried node itself when no other node shares its
/// position.
pub proof fn lemma_nearest_at_node<F: Fn(Point, Point) -> u32>(graph: &Graph, dist: F, i: int, r: int)
    requires
        0 <= i < graph.nodes@.len(),
        graph.nearest_under(dist, graph.nodes@[i].position, r),
        forall|p: Point, d: u32| #[trigger] dist.ensures((p, p), d) ==> d == 0,
        forall|p: Point, q: Point, d: u32| p != q && #[trigger] dist.ensures((p, q), d) ==> d > 0,
    ensures
        graph.nodes@[r].position == graph.nodes@[i].position,
        (forall|j: int|
            0 <= j < graph.nodes@.len() && j != i ==> #[trigger] graph.nodes@[j].position != graph.nodes@[i].position)
            ==> r == i,
{
    let q = graph.nodes@[i].position;
    let ds = choose|ds: Seq<u32>|
        ds.len() == graph.nodes@.len() && (forall|j: int|
            0 <= j < ds.len() ==> dist.ensures((q, graph.nodes@[j].position), #[trigger] ds[j]))
            && is_nearest(graph.nodes@, ds, r);
    assert(dist.ensures((q, graph.nodes@[i].position), ds[i]));
    assert(ds[i] == 0);
    assert(ds[r] <= ds[i]);
    assert(dist.ensures((q, graph.nodes@[r].position), ds[r]));
}

} // verus!
