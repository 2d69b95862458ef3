//! Reading an extract document: minidom parses the XML into a tree of plain
//! values, from which the node records and ways are taken.
use crate::graph::{Graph, Point};
use crate::ingest::{build_graph, built_from, nodes_ok, way_refs, ways_ok, NodeRecord, ParseError, WayRecord};
use crate::numbers::chars_of;
use vstd::prelude::*;

verus! {

#[verifier::external_type_specification]
#[verifier::external_body]
pub struct ExElement(minidom::Element);

#[verifier::external_type_specification]
#[verifier::external_body]
pub struct ExError(minidom::Error);

/// An XML element: its local name, the values of the looked-up attributes
/// (in the order of the keys asked for), and its child elements.
pub struct XmlNode {
    pub name: String,
    pub values: Vec<Option<String>>,
    pub children: Vec<XmlNode>,
}

/// What `str::replace` returns for `s`, `from` and `to`.
pub uninterp spec fn replaced(s: Seq<char>, from: Seq<char>, to: Seq<char>) -> Seq<char>;

/// The tree that minidom reads from `text`, with the attributes `keys` looked
/// up on each element; `None` when minidom rejects the text.
pub uninterp spec fn xml_tree(text: Seq<char>, keys: Seq<Seq<char>>) -> Option<XmlNode>;

/// Relies on `str::replace`: each occurrence of `from` in `s` becomes `to`.
#[verifier::external_body]
fn replace_text(s: &str, from: &str, to: &str) -> (r: String)
    ensures
        r@ == replaced(s@, from@, to@),
{
    s.replace(from, to)
}

/// Relies on minidom's `FromStr` for `Element`, which parses a whole document
/// into its root element, and on `element_tree` to copy that element out.
#[verifier::external_body]
fn parse_tree(text: &str, keys: &Vec<String>) -> (r: Result<XmlNode, minidom::Error>)
    ensures
        r is Ok <==> xml_tree(text@, keys@.map_values(|k: String| k@)) is Some,
        r matches Ok(t) ==> t == xml_tree(text@, keys@.map_values(|k: String| k@))->0,
{
    text.parse::<minidom::Element>().map(|e| element_tree(&e, keys))
}

/// Relies on `minidom::Element::name`, `attr` and `children`: copies an element
/// and its descendants, looking up the attributes `keys` (without namespace).
#[verifier::external_body]
fn element_tree(e: &minidom::Element, keys: &Vec<String>) -> XmlNode {
    XmlNode {
        name: e.name().to_string(),
        values: keys.iter().map(|k| e.attr(k.as_str()).map(|v| v.to_string())).collect(),
        children: e.children().map(|c| element_tree(c, keys)).collect(),
    }
}

/// Attribute names that an extract's elements are read with.
pub open spec fn extract_keys() -> Seq<Seq<char>> {
    seq!["id"@, "lat"@, "lon"@, "ref"@]
}

/// The `k`-th looked-up attribute of an element; `None` past the end.
pub open spec fn value_at(values: Seq<Option<String>>, k: int) -> Option<String> {
    if 0 <= k < values.len() {
        values[k]
    } else {
        None
    }
}

/// Node records of the elements named `node` among `cs`, in order.
pub open spec fn node_records(cs: Seq<XmlNode>) -> Seq<NodeRecord>
    decreases cs.len(),
{
    if cs.len() == 0 {
        Seq::empty()
    } else {
        let rest = node_records(cs.drop_last());
        let c = cs.last();
        if c.name@ == "node"@ {
            rest.push(
                NodeRecord {
                    id: value_at(c.values@, 0),
                    lat: value_at(c.values@, 1),
                    lon: value_at(c.values@, 2),
                },
            )
        } else {
            rest
        }
    }
}

/// The `ref` attributes of the elements named `nd` among `cs`, in order.
pub open spec fn nd_refs(cs: Seq<XmlNode>) -> Seq<Option<String>>
    decreases cs.len(),
{
    if cs.len() == 0 {
        Seq::empty()
    } else {
        let rest = nd_refs(cs.drop_last());
        if cs.last().name@ == "nd"@ {
            rest.push(value_at(cs.last().values@, 3))
        } else {
            rest
        }
    }
}

/// The reference lists of the elements named `way` among `cs`, in order.
pub open spec fn way_lists(cs: Seq<XmlNode>) -> Seq<Seq<Option<String>>>
    decreases cs.len(),
{
    if cs.len() == 0 {
        Seq::empty()
    } else {
        let rest = way_lists(cs.drop_last());
        if cs.last().name@ == "way"@ {
            rest.push(nd_refs(cs.last().children@))
        } else {
            rest
        }
    }
}

/// The text that is handed to the XML reader: the root element given a
/// namespace, which minidom asks for.
pub open spec fn namespaced(data: Seq<char>) -> Seq<char> {
    replaced(data, "<osm"@, "<osm xmlns=\"arbitrary\""@)
}

/// `s` holds exactly the characters of `lit`.
pub fn text_is(s: &String, lit: &str) -> (r: bool)
    ensures
        r == (s@ == lit@),
{
    let a = chars_of(s.as_str());
    let b = chars_of(lit);
    if a.len() != b.len() {
        return false;
    }
    let mut i: usize = 0;
    while i < a.len()
        invariant
            a@ == s@,
            b@ == lit@,
            a@.len() == b@.len(),
            i <= a@.len(),
            forall|j: int| 0 <= j < i ==> a@[j] == b@[j],
        decreases a@.len() - i,
    {
        if a[i] != b[i] {
            return false;
        }
        i = i + 1;
    }
    assert(a@ =~= b@);
    true
}

fn copy_text(t: &Option<String>) -> (r: Option<String>)
    ensures
        r == *t,
{
    match t {
        Some(s) => Some(s.clone()),
        None => None,
    }
}

fn value_of(values: &Vec<Option<String>>, k: usize) -> (r: Option<String>)
    ensures
        r == value_at(values@, k as int),
{
    if k < values.len() {
        copy_text(&values[k])
    } else {
        None
    }
}

/// The `ref` attributes of the `nd` elements among `cs`.
fn read_refs(cs: &Vec<XmlNode>) -> (r: Vec<Option<String>>)
    ensures
        r@ == nd_refs(cs@),
{
    let mut refs: Vec<Option<String>> = Vec::new();
    let mut k: usize = 0;
    while k < cs.len()
        invariant
            k <= cs@.len(),
            refs@ == nd_refs(cs@.subrange(0, k as int)),
        decreases cs@.len() - k,
    {
        let ghost pre = cs@.subrange(0, k as int);
        assert(cs@.subrange(0, k + 1).drop_last() =~= pre);
        if text_is(&cs[k].name, "nd") {
            refs.push(value_of(&cs[k].values, 3));
        }
        k = k + 1;
    }
    assert(cs@.subrange(0, k as int) =~= cs@);
    refs
}

/// The node records of the `node` children of `root`, and the ways of its `way`
/// children, each with the `ref` attributes of its `nd` children.
fn read_records(root: &XmlNode) -> (r: (Vec<NodeRecord>, Vec<WayRecord>))
    ensures
        r.0@ == node_records(root.children@),
        way_refs(r.1@) == way_lists(root.children@),
{
    let children = &root.children;
    let mut nodes: Vec<NodeRecord> = Vec::new();
    let mut ways: Vec<WayRecord> = Vec::new();
    let mut i: usize = 0;
    while i < children.len()
        invariant
            i <= children@.len(),
            nodes@ == node_records(children@.subrange(0, i as int)),
            way_refs(ways@) == way_lists(children@.subrange(0, i as int)),
        decreases children@.len() - i,
    {
        let ghost pre = children@.subrange(0, i as int);
        assert(children@.subrange(0, i + 1).drop_last() =~= pre);
        let child = &children[i];
        if text_is(&child.name, "node") {
            let rec = NodeRecord {
                id: value_of(&child.values, 0),
                lat: value_of(&child.values, 1),
                lon: value_of(&child.values, 2),
            };
            nodes.push(rec);
            proof {
                reveal_strlit("node");
                reveal_strlit("way");
                assert("node"@ != "way"@) by {
                    assert("node"@[0] != "way"@[0]);
                }
            }
        } else if text_is(&child.name, "way") {
            let refs = read_refs(&child.children);
            let ghost before = ways@;
            ways.push(WayRecord { refs });
            assert(way_refs(ways@) =~= way_refs(before).push(nd_refs(child.children@)));
        }
        i = i + 1;
    }
    assert(children@.subrange(0, i as int) =~= children@);
    (nodes, ways)
}

/// Reads an OpenStreetMap-style extract and builds its graph, weighting each
/// edge with `dist`. The root element is given a namespace first. A document
/// that minidom rejects gives `ParseError::Document`; otherwise the result is
/// what `build_graph` gives for the document's `node` records and `way` lists.
pub fn parse_xml<F: Fn(Point, Point) -> u32>(data: &str, dist: &F) -> (r: Result<Graph, ParseError>)
    requires
        forall|a: Point, b: Point| dist.requires((a, b)),
    ensures
        xml_tree(namespaced(data@), extract_keys()) is None ==> r == Err::<Graph, ParseError>(ParseError::Document),
        xml_tree(namespaced(data@), extract_keys()) matches Some(t) ==> {
            let nodes = node_records(t.children@);
            let ways = way_lists(t.children@);
            &&& (r is Ok <==> nodes_ok(nodes) && ways_ok(ways))
            &&& (r matches Ok(g) ==> built_from(&g, nodes, ways) && g.weighted_by(*dist))
        },
{
    let text = replace_text(data, "<osm", "<osm xmlns=\"arbitrary\"");
    let mut keys: Vec<String> = Vec::new();
    keys.push("id".to_owned());
    keys.push("lat".to_owned());
    keys.push("lon".to_owned());
    keys.push("ref".to_owned());
    assert(keys@.map_values(|k: String| k@) =~= extract_keys());
    let root = match parse_tree(text.as_str(), &keys) {
        Ok(t) => t,
        Err(_) => {
            return Err(ParseError::Document);
        },
    };
    let (nodes, ways) = read_records(&root);
    build_graph(&nodes, &ways, dist)
}

} // verus!
