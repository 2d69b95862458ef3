//! Building the graph from the records of an extract: a first pass over the
//! node records, then a second over the ways.
use crate::graph::{Graph, Point};
use crate::numbers::{coordinate_value, id_value, parse_coordinate, parse_id};
use vstd::prelude::*;

verus! {

/// The attributes of a node element, as text.
pub struct NodeRecord {
    pub id: Option<String>,
    pub lat: Option<String>,
    pub lon: Option<String>,
}

/// The `ref` attributes of a way's node references, in order.
pub struct WayRecord {
    pub refs: Vec<Option<String>>,
}

/// Why an extract could not be read; indices count node records or ways.
#[derive(Clone, Copy, Debug, PartialEq, Eq, Structural)]
pub enum ParseError {
    /// The document is not well-formed.
    Document,
    /// A node record lacks `id`, `lat` or `lon`, or one of them does not parse.
    Node(usize),
    /// A way has no node reference.
    EmptyWay(usize),
    /// A node reference of a way lacks `ref`, or it does not parse.
    Reference(usize),
}

pub open spec fn text_id(t: Option<String>) -> Option<usize> {
    match t {
        Some(s) => id_value(s@),
        None => None,
    }
}

pub open spec fn text_coordinate(t: Option<String>) -> Option<i64> {
    match t {
        Some(s) => coordinate_value(s@),
        None => None,
    }
}

pub open spec fn node_ok(r: NodeRecord) -> bool {
    text_id(r.id) is Some && text_coordinate(r.lat) is Some && text_coordinate(r.lon) is Some
}

pub open spec fn record_id(r: NodeRecord) -> usize {
    text_id(r.id)->0
}

pub open spec fn record_point(r: NodeRecord) -> Point {
    Point { lat: text_coordinate(r.lat)->0, lon: text_coordinate(r.lon)->0 }
}

pub open spec fn way_ok(w: Seq<Option<String>>) -> bool {
    w.len() > 0 && forall|k: int| 0 <= k < w.len() ==> #[trigger] text_id(w[k]) is Some
}

/// The reference lists of the ways.
pub open spec fn way_refs(ways: Seq<WayRecord>) -> Seq<Seq<Option<String>>> {
    Seq::new(ways.len(), |i: int| ways[i].refs@)
}

/// `e` is the error of the first bad node record.
pub open spec fn nodes_failure(nodes: Seq<NodeRecord>, e: ParseError) -> bool {
    match e {
        ParseError::Node(i) => i < nodes.len() && !node_ok(nodes[i as int]) && forall|j: int|
            0 <= j < i ==> #[trigger] node_ok(nodes[j]),
        _ => false,
    }
}

/// Arena indices that the consecutive pairs of `refs` add, in order, to the
/// edges of the node with identifier `x`: one for each pair starting at `x`
/// whose two identifiers are both keys of `index`.
pub open spec fn way_targets(refs: Seq<Option<String>>, index: Map<usize, usize>, x: usize) -> Seq<usize>
    decreases refs.len(),
{
    if refs.len() < 2 {
        Seq::empty()
    } else {
        let prev = way_targets(refs.drop_last(), index, x);
        let a = text_id(refs[refs.len() - 2])->0;
        let b = text_id(refs[refs.len() - 1])->0;
        if a == x && index.contains_key(a) && index.contains_key(b) {
            prev.push(index[b])
        } else {
            prev
        }
    }
}

/// A reference to an identifier without a node adds no edge: neither the pair
/// that ends at it nor the pair that starts at it, so the references around
/// it are not joined either.
pub proof fn lemma_dangling_reference(
    refs: Seq<Option<String>>,
    index: Map<usize, usize>,
    x: usize,
    d: Option<String>,
    v: Option<String>,
)
    requires
        text_id(d) is Some,
        !index.contains_key(text_id(d)->0),
    ensures
        way_targets(refs.push(d), index, x) == way_targets(refs, index, x),
        way_targets(refs.push(d).push(v), index, x) == way_targets(refs, index, x),
{
    let r1 = refs.push(d);
    let r2 = r1.push(v);
    assert(r1.drop_last() =~= refs);
    assert(r2.drop_last() =~= r1);
    assert(r1[r1.len() - 1] == d);
    assert(way_targets(r1, index, x) == way_targets(refs, index, x));
    assert(r2[r2.len() - 2] == d);
    assert(way_targets(r2, index, x) == way_targets(r1, index, x));
}

/// `way_targets` over all the ways, in order.
pub open spec fn all_targets(ways: Seq<Seq<Option<String>>>, index: Map<usize, usize>, x: usize) -> Seq<usize>
    decreases ways.len(),
{
    if ways.len() == 0 {
        Seq::empty()
    } else {
        all_targets(ways.drop_last(), index, x) + way_targets(ways.last(), index, x)
    }
}

/// Targets of the edges of the node at arena index `u`, in order.
pub open spec fn edge_targets(g: &Graph, u: int) -> Seq<usize> {
    g.edges(u).map_values(|e: (u32, usize)| e.1)
}

/// `g` holds one node per identifier of `nodes`, at the position of the last
/// record with that identifier; the edges of each node are, in order of ways
/// and of references, one for each pair of consecutive references that starts
/// at it and whose two nodes are present.
pub open spec fn built_from(g: &Graph, nodes: Seq<NodeRecord>, ways: Seq<Seq<Option<String>>>) -> bool {
    &&& g.wf()
    &&& forall|j: int| 0 <= j < nodes.len() ==> #[trigger] g.contains(record_id(nodes[j]))
    &&& forall|id: usize|
        #[trigger] g.contains(id) ==> exists|j: int| 0 <= j < nodes.len() && #[trigger] record_id(nodes[j]) == id
    &&& forall|j: int|
        0 <= j < nodes.len() && #[trigger] last_with_id(nodes, j) ==> g.nodes@[g.slot(record_id(nodes[j]))].position
            == record_point(nodes[j])
    &&& forall|x: int|
        0 <= x < g.nodes@.len() ==> #[trigger] edge_targets(g, x) == all_targets(ways, g.index@, g.nodes@[x].id)
}

/// `e` is the error of the first way that is empty or holds a bad reference.
pub open spec fn ways_failure(ways: Seq<Seq<Option<String>>>, e: ParseError) -> bool {
    match e {
        ParseError::EmptyWay(i) => i < ways.len() && ways[i as int].len() == 0 && forall|j: int|
            0 <= j < i ==> #[trigger] way_ok(ways[j]),
        ParseError::Reference(i) => i < ways.len() && ways[i as int].len() > 0 && !way_ok(ways[i as int])
            && forall|j: int| 0 <= j < i ==> #[trigger] way_ok(ways[j]),
        _ => false,
    }
}

pub open spec fn nodes_ok(nodes: Seq<NodeRecord>) -> bool {
    forall|j: int| 0 <= j < nodes.len() ==> #[trigger] node_ok(nodes[j])
}

pub open spec fn ways_ok(ways: Seq<Seq<Option<String>>>) -> bool {
    forall|j: int| 0 <= j < ways.len() ==> #[trigger] way_ok(ways[j])
}

/// Record `j` is the last record with its identifier.
pub open spec fn last_with_id(nodes: Seq<NodeRecord>, j: int) -> bool {
    last_before(nodes, j, nodes.len() as int)
}

/// No record after `j` and before `end` has the identifier of record `j`.
pub open spec fn last_before(nodes: Seq<NodeRecord>, j: int, end: int) -> bool {
    forall|q: int| j < q < end ==> #[trigger] record_id(nodes[q]) != record_id(nodes[j])
}

proof fn lemma_grows_trans(g1: &Graph, g2: &Graph, g3: &Graph)
    requires
        g1.grows_into(g2),
        g2.grows_into(g3),
    ensures
        g1.grows_into(g3),
{
    assert forall|x: int| 0 <= x < g1.nodes@.len() implies (#[trigger] g3.nodes@[x]).id == g1.nodes@[x].id
        && g3.nodes@[x].position == g1.nodes@[x].position && g1.edges(x).len() <= g3.edges(x).len()
        && g1.edges(x) == g3.edges(x).subrange(0, g1.edges(x).len() as int) by {
        assert(g2.nodes@[x].id == g1.nodes@[x].id);
        assert(g3.nodes@[x].id == g2.nodes@[x].id);
        assert(g1.edges(x) =~= g3.edges(x).subrange(0, g1.edges(x).len() as int));
    }
}

/// Second pass: for each way, an edge for each pair of consecutive references
/// whose nodes are both in the graph; other pairs are passed over.
fn add_ways<F: Fn(Point, Point) -> u32>(graph: &mut Graph, ways: &Vec<WayRecord>, dist: &F) -> (r: Result<
    (),
    ParseError,
>)
    requires
        old(graph).wf(),
        forall|x: int| 0 <= x < old(graph).nodes@.len() ==> #[trigger] old(graph).edges(x).len() == 0,
        forall|a: Point, b: Point| dist.requires((a, b)),
    ensures
        r is Ok <==> ways_ok(way_refs(ways@)),
        r matches Err(e) ==> ways_failure(way_refs(ways@), e),
        r is Ok ==> {
            &&& final(graph).wf()
            &&& old(graph).grows_into(final(graph))
            &&& final(graph).weighted_by(*dist)
            &&& forall|x: int|
                0 <= x < final(graph).nodes@.len() ==> #[trigger] edge_targets(final(graph), x) == all_targets(
                    way_refs(ways@),
                    final(graph).index@,
                    final(graph).nodes@[x].id,
                )
        },
{
    let ghost g0 = *graph;
    let ghost ws = way_refs(ways@);
    let ghost idx = g0.index@;
    assert forall|x: int| 0 <= x < g0.nodes@.len() implies (#[trigger] g0.nodes@[x]).id == g0.nodes@[x].id
        && g0.nodes@[x].position == g0.nodes@[x].position && g0.edges(x).len() <= g0.edges(x).len()
        && g0.edges(x) == g0.edges(x).subrange(0, g0.edges(x).len() as int) by {
        assert(g0.edges(x) =~= g0.edges(x).subrange(0, g0.edges(x).len() as int));
    }
    assert forall|x: int| 0 <= x < graph.nodes@.len() implies #[trigger] edge_targets(graph, x) == all_targets(
        ws.subrange(0, 0),
        idx,
        graph.nodes@[x].id,
    ) by {
        assert(edge_targets(graph, x) =~= Seq::<usize>::empty());
    }
    let mut w: usize = 0;
    while w < ways.len()
        invariant
            w <= ways@.len(),
            ws == way_refs(ways@),
            idx == g0.index@,
            forall|a: Point, b: Point| dist.requires((a, b)),
            forall|q: int| 0 <= q < w ==> #[trigger] way_ok(ws[q]),
            graph.wf(),
            g0.grows_into(graph),
            graph.weighted_by(*dist),
            forall|x: int|
                0 <= x < graph.nodes@.len() ==> #[trigger] edge_targets(graph, x) == all_targets(
                    ws.subrange(0, w as int),
                    idx,
                    graph.nodes@[x].id,
                ),
        decreases ways@.len() - w,
    {
        let refs = &ways[w].refs;
        assert(refs@ == ws[w as int]);
        if refs.len() == 0 {
            assert(!way_ok(ws[w as int]));
            return Err(ParseError::EmptyWay(w));
        }
        let mut cur = match read_id(&refs[0]) {
            Some(v) => v,
            None => {
                assert(!way_ok(ws[w as int]));
                return Err(ParseError::Reference(w));
            },
        };
        assert forall|x: int| 0 <= x < graph.nodes@.len() implies #[trigger] edge_targets(graph, x) == all_targets(
            ws.subrange(0, w as int),
            idx,
            graph.nodes@[x].id,
        ) + way_targets(refs@.subrange(0, 1), idx, graph.nodes@[x].id) by {
            assert(way_targets(refs@.subrange(0, 1), idx, graph.nodes@[x].id) =~= Seq::<usize>::empty());
            assert(all_targets(ws.subrange(0, w as int), idx, graph.nodes@[x].id) + Seq::<usize>::empty()
                =~= all_targets(ws.subrange(0, w as int), idx, graph.nodes@[x].id));
        }
        let mut k: usize = 1;
        while k < refs.len()
            invariant
                w < ways@.len(),
                ws == way_refs(ways@),
                idx == g0.index@,
                refs@ == ws[w as int],
                1 <= k <= refs@.len(),
                forall|kk: int| 0 <= kk < k ==> #[trigger] text_id(refs@[kk]) is Some,
                text_id(refs@[k - 1]) == Some(cur),
                forall|a: Point, b: Point| dist.requires((a, b)),
                forall|q: int| 0 <= q < w ==> #[trigger] way_ok(ws[q]),
                graph.wf(),
                g0.grows_into(graph),
                graph.weighted_by(*dist),
                forall|x: int|
                    0 <= x < graph.nodes@.len() ==> #[trigger] edge_targets(graph, x) == all_targets(
                        ws.subrange(0, w as int),
                        idx,
                        graph.nodes@[x].id,
                    ) + way_targets(refs@.subrange(0, k as int), idx, graph.nodes@[x].id),
            decreases refs@.len() - k,
        {
            let next = match read_id(&refs[k]) {
                Some(v) => v,
                None => {
                    assert(!way_ok(ws[w as int]));
                    return Err(ParseError::Reference(w));
                },
            };
            let ghost before = *graph;
            graph.add_connection(cur, next, dist);
            proof {
                let both = before.contains(cur) && before.contains(next);
                let u = before.slot(cur);
                assert(before.grows_into(graph)) by {
                    assert forall|x: int| 0 <= x < before.nodes@.len() implies (#[trigger] graph.nodes@[x]).id
                        == before.nodes@[x].id && graph.nodes@[x].position == before.nodes@[x].position
                        && before.edges(x).len() <= graph.edges(x).len() && before.edges(x)
                        == graph.edges(x).subrange(0, before.edges(x).len() as int) by {
                        if both && x == u {
                            assert(before.edges(x) =~= graph.edges(x).subrange(0, before.edges(x).len() as int));
                        } else {
                            assert(graph.nodes@[x] == before.nodes@[x]);
                            assert(before.edges(x) =~= graph.edges(x).subrange(0, before.edges(x).len() as int));
                        }
                    }
                }
                lemma_grows_trans(&g0, &before, graph);
                assert forall|x: int, e: int|
                    0 <= x < graph.nodes@.len() && 0 <= e < graph.edges(x).len() implies dist.ensures(
                    (graph.nodes@[x].position, graph.nodes@[graph.edges(x)[e].1 as int].position),
                    #[trigger] graph.edges(x)[e].0,
                ) by {
                    if e < before.edges(x).len() {
                        assert(graph.edges(x)[e] == before.edges(x)[e]);
                        assert(dist.ensures(
                            (before.nodes@[x].position, before.nodes@[before.edges(x)[e].1 as int].position),
                            before.edges(x)[e].0,
                        ));
                        assert(graph.nodes@[before.edges(x)[e].1 as int].position == before.nodes@[before.edges(
                            x,
                        )[e].1 as int].position);
                    }
                }
                let pre = refs@.subrange(0, k as int);
                let post = refs@.subrange(0, k + 1);
                assert(post.drop_last() =~= pre);
                assert(post[post.len() - 2] == refs@[k - 1]);
                assert(post[post.len() - 1] == refs@[k as int]);
                assert forall|x: int| 0 <= x < graph.nodes@.len() implies #[trigger] edge_targets(graph, x)
                    == all_targets(ws.subrange(0, w as int), idx, graph.nodes@[x].id) + way_targets(
                    post,
                    idx,
                    graph.nodes@[x].id,
                ) by {
                    let id = graph.nodes@[x].id;
                    let at = all_targets(ws.subrange(0, w as int), idx, id);
                    assert(edge_targets(&before, x) == at + way_targets(pre, idx, id));
                    assert(before.nodes@[x].id == id);
                    if both && x == u {
                        assert(id == cur);
                        let e = graph.edges(u).last();
                        assert(graph.edges(u) == before.edges(u).push(e));
                        assert(edge_targets(graph, x) =~= edge_targets(&before, x).push(e.1));
                        assert(way_targets(post, idx, id) == way_targets(pre, idx, id).push(idx[next]));
                        assert(at + way_targets(pre, idx, id).push(idx[next]) =~= (at + way_targets(pre, idx, id)).push(
                            idx[next],
                        ));
                    } else {
                        assert(graph.nodes@[x] == before.nodes@[x]);
                        assert(edge_targets(graph, x) =~= edge_targets(&before, x));
                        if both {
                            assert(id != cur);
                        }
                        assert(way_targets(post, idx, id) == way_targets(pre, idx, id));
                    }
                }
            }
            cur = next;
            k = k + 1;
        }
        proof {
            assert(refs@.subrange(0, k as int) =~= ws[w as int]);
            let nw = ws.subrange(0, w + 1);
            assert(nw.drop_last() =~= ws.subrange(0, w as int));
            assert(nw.last() == ws[w as int]);
            assert forall|x: int| 0 <= x < graph.nodes@.len() implies #[trigger] edge_targets(graph, x)
                == all_targets(nw, idx, graph.nodes@[x].id) by {
                assert(edge_targets(graph, x) == all_targets(ws.subrange(0, w as int), idx, graph.nodes@[x].id)
                    + way_targets(refs@.subrange(0, k as int), idx, graph.nodes@[x].id));
            }
        }
        assert(way_ok(ws[w as int]));
        w = w + 1;
    }
    assert(ws.subrange(0, w as int) =~= ws);
    Ok(())
}

fn read_id(t: &Option<String>) -> (r: Option<usize>)
    ensures
        r == text_id(*t),
{
    match t {
        Some(s) => parse_id(s.as_str()),
        None => None,
    }
}

fn read_coordinate(t: &Option<String>) -> (r: Option<i64>)
    ensures
        r == text_coordinate(*t),
{
    match t {
        Some(s) => parse_coordinate(s.as_str()),
        None => None,
    }
}

/// First pass: one node per record, a later record replacing an earlier one
/// with the same identifier.
fn add_nodes(nodes: &Vec<NodeRecord>) -> (r: Result<Graph, ParseError>)
    ensures
        r is Ok <==> nodes_ok(nodes@),
        r matches Err(e) ==> e matches ParseError::Node(i) && i < nodes@.len() && !node_ok(nodes@[i as int])
            && forall|j: int| 0 <= j < i ==> #[trigger] node_ok(nodes@[j]),
        r matches Ok(g) ==> {
            &&& g.wf()
            &&& forall|x: int| 0 <= x < g.nodes@.len() ==> #[trigger] g.edges(x).len() == 0
            &&& forall|j: int| 0 <= j < nodes@.len() ==> #[trigger] g.contains(record_id(nodes@[j]))
            &&& forall|id: usize|
                #[trigger] g.contains(id) ==> exists|j: int| 0 <= j < nodes@.len() && #[trigger] record_id(nodes@[j]) == id
            &&& forall|j: int|
                0 <= j < nodes@.len() && #[trigger] last_with_id(nodes@, j) ==> g.nodes@[g.slot(
                    record_id(nodes@[j]),
                )].position == record_point(nodes@[j])
        },
{
    let mut graph = Graph::new();
    let mut i: usize = 0;
    while i < nodes.len()
        invariant
            i <= nodes@.len(),
            graph.wf(),
            forall|j: int| 0 <= j < i ==> #[trigger] node_ok(nodes@[j]),
            forall|x: int| 0 <= x < graph.nodes@.len() ==> #[trigger] graph.edges(x).len() == 0,
            forall|j: int| 0 <= j < i ==> #[trigger] graph.contains(record_id(nodes@[j])),
            forall|id: usize|
                #[trigger] graph.contains(id) ==> exists|j: int| 0 <= j < i && #[trigger] record_id(nodes@[j]) == id,
            forall|j: int|
                0 <= j < i && #[trigger] last_before(nodes@, j, i as int) ==> graph.nodes@[graph.slot(
                    record_id(nodes@[j]),
                )].position == record_point(nodes@[j]),
        decreases nodes@.len() - i,
    {
        let rec = &nodes[i];
        let id = match read_id(&rec.id) {
            Some(v) => v,
            None => {
                assert(!node_ok(nodes@[i as int]));
                return Err(ParseError::Node(i));
            },
        };
        let lat = match read_coordinate(&rec.lat) {
            Some(v) => v,
            None => {
                assert(!node_ok(nodes@[i as int]));
                return Err(ParseError::Node(i));
            },
        };
        let lon = match read_coordinate(&rec.lon) {
            Some(v) => v,
            None => {
                assert(!node_ok(nodes@[i as int]));
                return Err(ParseError::Node(i));
            },
        };
        let ghost before = graph;
        graph.add_node(id, lat, lon);
        proof {
            assert(record_id(nodes@[i as int]) == id);
            assert forall|j: int| 0 <= j < i + 1 implies #[trigger] graph.contains(record_id(nodes@[j])) by {
                if j < i {
                    assert(before.contains(record_id(nodes@[j])));
                    assert(graph.index@.dom().contains(record_id(nodes@[j])));
                }
            }
            assert forall|x: int| 0 <= x < graph.nodes@.len() implies #[trigger] graph.edges(x).len() == 0 by {
                if x != graph.slot(id) {
                    assert(x < before.nodes@.len());
                    assert(graph.nodes@[x] == before.nodes@[x]);
                    assert(before.edges(x).len() == 0);
                }
            }
            assert forall|k: usize| #[trigger] graph.contains(k) implies exists|j: int|
                0 <= j < i + 1 && #[trigger] record_id(nodes@[j]) == k by {
                if k == id {
                    assert(record_id(nodes@[i as int]) == k);
                } else {
                    assert(before.contains(k));
                }
            }
            assert forall|j: int|
                0 <= j < i + 1 && #[trigger] last_before(nodes@, j, i + 1) implies graph.nodes@[graph.slot(
                    record_id(nodes@[j]),
                )].position == record_point(nodes@[j]) by {
                if j < i {
                    assert(last_before(nodes@, j, i as int));
                    let k = record_id(nodes@[j]);
                    assert(record_id(nodes@[i as int]) != k);
                    assert(before.contains(k));
                    assert(graph.slot(k) != graph.slot(id));
                    assert(graph.nodes@[graph.slot(k)] == before.nodes@[before.slot(k)]);
                }
            }
        }
        i = i + 1;
    }
    Ok(graph)
}

/// Builds the graph from the node records and the ways of an extract. Fails
/// on the first bad node record; when all are good, on the first way that is
/// empty or holds a bad reference. A reference to an identifier without a
/// node only loses the edges that would touch it.
pub fn build_graph<F: Fn(Point, Point) -> u32>(
    nodes: &Vec<NodeRecord>,
    ways: &Vec<WayRecord>,
    dist: &F,
) -> (r: Result<Graph, ParseError>)
    requires
        forall|a: Point, b: Point| dist.requires((a, b)),
    ensures
        r is Ok <==> nodes_ok(nodes@) && ways_ok(way_refs(ways@)),
        r matches Err(e) ==> nodes_failure(nodes@, e) || (nodes_ok(nodes@) && ways_failure(way_refs(ways@), e)),
        r matches Ok(g) ==> built_from(&g, nodes@, way_refs(ways@)) && g.weighted_by(*dist),
{
    let mut graph = match add_nodes(nodes) {
        Ok(g) => g,
        Err(e) => {
            return Err(e);
        },
    };
    let ghost g1 = graph;
    match add_ways(&mut graph, ways, dist) {
        Ok(()) => {},
        Err(e) => {
            return Err(e);
        },
    }
    proof {
        assert forall|id: usize| #[trigger] graph.contains(id) implies exists|j: int|
            0 <= j < nodes@.len() && #[trigger] record_id(nodes@[j]) == id by {
            assert(g1.contains(id));
        }
        assert forall|j: int| 0 <= j < nodes@.len() && #[trigger] last_with_id(nodes@, j) implies graph.nodes@[graph.slot(
            record_id(nodes@[j]),
        )].position == record_point(nodes@[j]) by {
            assert(g1.contains(record_id(nodes@[j])));
            assert(graph.nodes@[g1.slot(record_id(nodes@[j]))].position == g1.nodes@[g1.slot(record_id(nodes@[j]))].position);
        }
        assert forall|j: int| 0 <= j < nodes@.len() implies #[trigger] graph.contains(record_id(nodes@[j])) by {
            assert(g1.contains(record_id(nodes@[j])));
        }
    }
    Ok(graph)
}

} // verus!
