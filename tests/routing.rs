use osm_route::document::{parse_xml, text_is};
use osm_route::graph::{Graph, Point};
use osm_route::ingest::{build_graph, NodeRecord, ParseError, WayRecord};
use osm_route::numbers::{parse_coordinate, parse_id};
use osm_route::pathfinding::{a_star, points_of, search, RouteError};

/// Manhattan distance in coordinate units: small test coordinates keep it in range.
fn manhattan(a: Point, b: Point) -> u32 {
    ((a.lat - b.lat).abs() + (a.lon - b.lon).abs()) as u32
}

/// Great-circle distance in centimetres on a sphere of radius 6371 km.
fn haversine_cm(a: Point, b: Point) -> u32 {
    let to_rad = |u: i64| (u as f64 / 1e7).to_radians();
    let (lat1, lon1, lat2, lon2) = (to_rad(a.lat), to_rad(a.lon), to_rad(b.lat), to_rad(b.lon));
    let h = ((lat2 - lat1) / 2.0).sin().powi(2)
        + lat1.cos() * lat2.cos() * ((lon2 - lon1) / 2.0).sin().powi(2);
    let c = 2.0 * h.sqrt().atan2((1.0 - h).sqrt());
    (6371.0 * c * 1000.0 * 100.0).round() as u32
}

fn p(lat: i64, lon: i64) -> Point {
    Point { lat, lon }
}

fn node(id: &str, lat: &str, lon: &str) -> NodeRecord {
    NodeRecord { id: Some(id.to_string()), lat: Some(lat.to_string()), lon: Some(lon.to_string()) }
}

fn way(refs: &[&str]) -> WayRecord {
    WayRecord { refs: refs.iter().map(|r| Some(r.to_string())).collect() }
}

fn graph_of(nodes: Vec<NodeRecord>, ways: Vec<WayRecord>) -> Graph {
    match build_graph(&nodes, &ways, &manhattan) {
        Ok(g) => g,
        Err(e) => panic!("unexpected error {:?}", e),
    }
}

fn targets(g: &Graph, id: usize) -> Vec<usize> {
    g.get_neighbors(id).unwrap().iter().map(|&(_, v)| g.nodes[v].id).collect()
}

const CHAIN: &str = r#"<?xml version="1.0" encoding="UTF-8"?>
<osm version="0.6">
  <node id="1" lat="45.6408383" lon="-111.0372238"/>
  <node id="2" lat="45.6440000" lon="-111.0375000"/>
  <node id="3" lat="45.6480019" lon="-111.0377540"/>
  <way id="10">
    <nd ref="1"/>
    <nd ref="2"/>
    <tag k="highway" v="residential"/>
    <nd ref="3"/>
  </way>
</osm>"#;

#[test]
fn test_1() {
    let graph = parse_xml(CHAIN, &haversine_cm).unwrap();
    let start = Point { lat: 456408383, lon: -1110372238 };
    let goal = Point { lat: 456480019, lon: -1110377540 };
    let path = a_star(&graph, start, goal, &haversine_cm);
    match path {
        Ok(Some(p)) => {
            for point in &p {
                println!("lat: {}, lon: {}", point.lat, point.lon);
            }
            assert_eq!(p.first(), Some(&start));
            assert_eq!(p.last(), Some(&goal));
        }
        Ok(None) => println!("No path found"),
        Err(e) => panic!("unexpected error {:?}", e),
    }
}

#[test]
fn parses_identifiers() {
    assert_eq!(parse_id("0"), Some(0));
    assert_eq!(parse_id("123456789"), Some(123456789));
    assert_eq!(parse_id("+7"), Some(7));
    assert_eq!(parse_id("18446744073709551615"), Some(usize::MAX));
    assert_eq!(parse_id("18446744073709551616"), None);
    assert_eq!(parse_id("-7"), None);
    assert_eq!(parse_id(""), None);
    assert_eq!(parse_id("+"), None);
    assert_eq!(parse_id("12a"), None);
}

#[test]
fn parses_coordinates() {
    assert_eq!(parse_coordinate("45.6408383"), Some(456408383));
    assert_eq!(parse_coordinate("-111.0372238"), Some(-1110372238));
    assert_eq!(parse_coordinate("+1.5"), Some(15000000));
    assert_eq!(parse_coordinate("90"), Some(900000000));
    assert_eq!(parse_coordinate("0.123456789"), Some(1234567));
    assert_eq!(parse_coordinate(".5"), Some(5000000));
    assert_eq!(parse_coordinate("5."), Some(50000000));
    assert_eq!(parse_coordinate("1000000000"), Some(10000000000000000));
    assert_eq!(parse_coordinate("1000000001"), None);
    assert_eq!(parse_coordinate("."), None);
    assert_eq!(parse_coordinate("-"), None);
    assert_eq!(parse_coordinate(""), None);
    assert_eq!(parse_coordinate("1.2.3"), None);
    assert_eq!(parse_coordinate("1e5"), None);
}

#[test]
fn compares_text() {
    assert!(text_is(&"node".to_string(), "node"));
    assert!(!text_is(&"nodes".to_string(), "node"));
    assert!(!text_is(&"way".to_string(), "nd"));
}

#[test]
fn reads_document_without_namespace() {
    let g = parse_xml(CHAIN, &manhattan).unwrap();
    assert_eq!(g.nodes.len(), 3);
    assert_eq!(g.get_node(1).unwrap().position, p(456408383, -1110372238));
    assert_eq!(targets(&g, 1), vec![2]);
    assert_eq!(targets(&g, 2), vec![3]);
    assert_eq!(targets(&g, 3), Vec::<usize>::new());
    let w = g.get_neighbors(1).unwrap()[0].0;
    assert_eq!(w, manhattan(p(456408383, -1110372238), p(456440000, -1110375000)));
}

#[test]
fn unreadable_document_is_an_error() {
    assert_eq!(parse_xml("<osm><node id=\"1\"", &manhattan).err(), Some(ParseError::Document));
}

#[test]
fn document_with_bad_node_is_an_error() {
    let text = "<osm><node id=\"1\" lat=\"1.0\" lon=\"2.0\"/><node id=\"2\" lat=\"x\" lon=\"2.0\"/></osm>";
    assert_eq!(parse_xml(text, &manhattan).err(), Some(ParseError::Node(1)));
}

#[test]
fn missing_attribute_is_fatal() {
    let nodes = vec![
        node("1", "0", "0"),
        NodeRecord { id: Some("2".to_string()), lat: None, lon: Some("1".to_string()) },
        NodeRecord { id: None, lat: Some("1".to_string()), lon: Some("1".to_string()) },
    ];
    let r = build_graph(&nodes, &vec![], &manhattan);
    assert_eq!(r.err(), Some(ParseError::Node(1)));
}

#[test]
fn empty_way_is_fatal() {
    let nodes = vec![node("1", "0", "0"), node("2", "0", "1")];
    let ways = vec![way(&["1", "2"]), way(&[])];
    assert_eq!(build_graph(&nodes, &ways, &manhattan).err(), Some(ParseError::EmptyWay(1)));
}

#[test]
fn bad_reference_is_fatal() {
    let nodes = vec![node("1", "0", "0"), node("2", "0", "1")];
    let ways = vec![way(&["1", "two"])];
    assert_eq!(build_graph(&nodes, &ways, &manhattan).err(), Some(ParseError::Reference(0)));
    let ways = vec![WayRecord { refs: vec![Some("1".to_string()), None] }];
    assert_eq!(build_graph(&nodes, &ways, &manhattan).err(), Some(ParseError::Reference(0)));
}

#[test]
fn node_errors_come_before_way_errors() {
    let nodes = vec![node("1", "0", "zero")];
    let ways = vec![way(&[])];
    assert_eq!(build_graph(&nodes, &ways, &manhattan).err(), Some(ParseError::Node(0)));
}

#[test]
fn single_reference_way_adds_no_edge() {
    let g = graph_of(vec![node("1", "0", "0")], vec![way(&["1"])]);
    assert_eq!(targets(&g, 1), Vec::<usize>::new());
}

#[test]
fn later_record_replaces_earlier() {
    let g = graph_of(vec![node("4", "1", "1"), node("5", "0", "0"), node("4", "2", "3")], vec![]);
    assert_eq!(g.nodes.len(), 2);
    assert_eq!(g.get_node(4).unwrap().position, p(20000000, 30000000));
}

#[test]
fn dangling_reference_drops_only_its_edges() {
    let nodes = vec![node("1", "0", "0"), node("2", "0", "1"), node("3", "0", "2")];
    let ways = vec![way(&["1", "2", "999", "3", "1"])];
    let g = graph_of(nodes, ways);
    assert_eq!(targets(&g, 1), vec![2]);
    assert_eq!(targets(&g, 2), Vec::<usize>::new());
    assert_eq!(targets(&g, 3), vec![1]);
    assert!(g.get_node(999).is_none());
}

#[test]
fn edges_are_directed() {
    let g = graph_of(vec![node("1", "0", "0"), node("2", "0", "1")], vec![way(&["1", "2"])]);
    assert_eq!(targets(&g, 1), vec![2]);
    assert_eq!(targets(&g, 2), Vec::<usize>::new());
}

#[test]
fn single_edge_route() {
    let g = graph_of(vec![node("1", "0", "0"), node("2", "0", "0.0000030")], vec![way(&["1", "2"])]);
    let a = g.index[&1];
    let b = g.index[&2];
    let route = search(&g, a, b, p(0, 30), &manhattan).unwrap();
    assert_eq!(route.nodes, vec![a, b]);
    assert_eq!(route.legs, vec![30]);
    assert_eq!(route.cost, 30);
    let points = a_star(&g, p(0, 0), p(0, 30), &manhattan).unwrap().unwrap();
    assert_eq!(points, vec![p(0, 0), p(0, 30)]);
    assert_eq!(a_star(&g, p(0, 30), p(0, 0), &manhattan), Ok(None));
}

#[test]
fn disconnected_components_have_no_route() {
    let nodes = vec![node("1", "0", "0"), node("2", "0", "0.000001"), node("3", "1", "0"), node("4", "1", "0.000001")];
    let g = graph_of(nodes, vec![way(&["1", "2", "1"]), way(&["3", "4", "3"])]);
    assert_eq!(a_star(&g, p(0, 0), p(10000000, 10), &manhattan), Ok(None));
    assert!(search(&g, g.index[&1], g.index[&4], p(10000000, 10), &manhattan).is_none());
}

#[test]
fn chain_route_through_middle() {
    let nodes = vec![node("1", "0", "0"), node("2", "0", "0.0000100"), node("3", "0.0000050", "0.0000100")];
    let g = graph_of(nodes, vec![way(&["1", "2", "3"])]);
    let points = a_star(&g, p(1, -2), p(52, 101), &manhattan).unwrap().unwrap();
    assert_eq!(points, vec![p(0, 0), p(0, 100), p(50, 100)]);
    let route = search(&g, g.index[&1], g.index[&3], p(50, 100), &manhattan).unwrap();
    assert_eq!(route.legs, vec![100, 50]);
    assert_eq!(route.cost, 150);
    assert_eq!(points_of(&g, &route), points);
}

#[test]
fn route_cost_is_sum_of_legs() {
    let nodes = vec![
        node("1", "0", "0"),
        node("2", "0", "0.0000010"),
        node("3", "0", "0.0000020"),
        node("4", "0", "0.0000100"),
    ];
    let ways = vec![way(&["1", "2", "3", "4"]), way(&["1", "4"])];
    let g = graph_of(nodes, ways);
    let route = search(&g, g.index[&1], g.index[&4], p(0, 100), &manhattan).unwrap();
    let sum: u128 = route.legs.iter().map(|&w| w as u128).sum();
    assert_eq!(route.cost, sum);
    assert_eq!(route.cost, 100);
    for i in 0..route.legs.len() {
        let from = &g.nodes[route.nodes[i]];
        assert!(from.connected.contains(&(route.legs[i], route.nodes[i + 1])));
    }
}

#[test]
fn search_prefers_cheaper_route() {
    let nodes = vec![node("1", "0", "0"), node("2", "0.0000100", "0"), node("3", "0", "0.0000010"), node("4", "0.0000010", "0.0000010")];
    let ways = vec![way(&["1", "2", "4"]), way(&["1", "3", "4"])];
    let g = graph_of(nodes, ways);
    let route = search(&g, g.index[&1], g.index[&4], p(10, 10), &manhattan).unwrap();
    assert_eq!(route.cost, 20);
    assert_eq!(route.nodes, vec![g.index[&1], g.index[&3], g.index[&4]]);
}

#[test]
fn nearest_is_exact_at_node_position() {
    let g = graph_of(vec![node("7", "1", "1"), node("8", "2", "2"), node("9", "3", "3")], vec![]);
    let i = g.find_nearest(p(20000000, 20000000), &manhattan).unwrap();
    assert_eq!(g.nodes[i].id, 8);
    let i = g.find_nearest(p(29000000, 29000000), &manhattan).unwrap();
    assert_eq!(g.nodes[i].id, 9);
}

#[test]
fn nearest_tie_goes_to_lowest_id() {
    let g = graph_of(vec![node("5", "0", "0.0000010"), node("3", "0", "-0.0000010"), node("4", "0", "0.0000020")], vec![]);
    let i = g.find_nearest(p(0, 0), &manhattan).unwrap();
    assert_eq!(g.nodes[i].id, 3);
    assert_eq!(g.nearest_of(&vec![4, 4, 1]), Some(2));
    assert_eq!(g.nearest_of(&vec![4, 4, 5]), Some(1));
}

#[test]
fn empty_graph_is_a_resolution_error() {
    let g = Graph::new();
    assert_eq!(g.find_nearest(p(0, 0), &manhattan), None);
    assert_eq!(g.nearest_of(&vec![]), None);
    assert_eq!(a_star(&g, p(0, 0), p(1, 1), &manhattan), Err(RouteError::EmptyGraph));
}

#[test]
fn graph_building_by_hand() {
    let mut g = Graph::new();
    g.add_node(10, 0, 0);
    g.add_node(11, 0, 40);
    g.add_connection(10, 11, &manhattan);
    g.add_connection(10, 12, &manhattan);
    assert_eq!(g.get_neighbors(10).unwrap(), &vec![(40, g.index[&11])]);
    assert!(g.get_node(12).is_none());
    g.add_node(10, 5, 5);
    assert_eq!(g.get_neighbors(10).unwrap().len(), 0);
    assert_eq!(g.get_node(10).unwrap().position, p(5, 5));
}

#[test]
fn haversine_weights_edges() {
    let text = "<osm><node id=\"1\" lat=\"0\" lon=\"0\"/><node id=\"2\" lat=\"0\" lon=\"90\"/><way><nd ref=\"1\"/><nd ref=\"2\"/></way></osm>";
    let g = parse_xml(text, &haversine_cm).unwrap();
    let w = g.get_neighbors(1).unwrap()[0].0 as i64;
    assert!((w - 1_000_754_300).abs() < 100_000);
}

fn graph_text(text: &str) -> Graph {
    match parse_xml(text, &haversine_cm) {
        Ok(g) => g,
        Err(e) => panic!("unexpected error {:?}", e),
    }
}

fn summary(g: &Graph) -> Vec<(usize, Point, Vec<usize>)> {
    let mut ids: Vec<usize> = g.nodes.iter().map(|n| n.id).collect();
    ids.sort();
    ids.iter()
        .map(|&id| (id, g.get_node(id).unwrap().position, targets(g, id)))
        .collect()
}

#[test]
fn document_dangling_reference_keeps_other_edges() {
    let g = graph_text("<osm><node id='1' lat='0' lon='0'/><node id='2' lat='0' lon='1'/><node id='3' lat='0' lon='2'/><way><nd ref='1'/><nd ref='99'/><nd ref='2'/><nd ref='3'/></way></osm>");
    assert_eq!(g.nodes.len(), 3);
    assert!(g.get_node(99).is_none());
    assert_eq!(targets(&g, 1), Vec::<usize>::new());
    assert_eq!(targets(&g, 2), vec![3]);
    assert_eq!(targets(&g, 3), Vec::<usize>::new());
    let w = g.get_neighbors(2).unwrap()[0].0 as i64;
    assert!((w - 11_119_493).abs() <= 1);
}

#[test]
fn document_quarter_circle_edge_is_directed() {
    let g = graph_text("<osm><node id='1' lat='0' lon='0'/><node id='2' lat='0' lon='90'/><way><nd ref='1'/><nd ref='2'/></way></osm>");
    assert_eq!(targets(&g, 1), vec![2]);
    assert_eq!(targets(&g, 2), Vec::<usize>::new());
    let w = g.get_neighbors(1).unwrap()[0].0 as i64;
    assert!((w - 1_000_754_340).abs() <= 100);
}

#[test]
fn document_order_of_nodes_and_ways_does_not_matter() {
    let a = graph_text("<osm><node id='1' lat='0' lon='0'/><node id='2' lat='0' lon='1'/><way><nd ref='1'/><nd ref='2'/></way></osm>");
    let b = graph_text("<osm><way><nd ref='1'/><nd ref='2'/></way><node id='2' lat='0' lon='1'/><node id='1' lat='0' lon='0'/></osm>");
    assert_eq!(summary(&a), summary(&b));
}

#[test]
fn document_one_entry_way_adds_nothing() {
    let a = graph_text("<osm><node id='1' lat='0' lon='0'/><node id='2' lat='0' lon='1'/><way><nd ref='1'/><nd ref='2'/></way></osm>");
    let b = graph_text("<osm><node id='1' lat='0' lon='0'/><node id='2' lat='0' lon='1'/><way><nd ref='1'/><nd ref='2'/></way><way><nd ref='1'/></way></osm>");
    assert_eq!(summary(&a), summary(&b));
}

#[test]
fn edges_follow_document_order() {
    let g = graph_text("<osm><node id='1' lat='0' lon='0'/><node id='2' lat='0' lon='1'/><node id='3' lat='1' lon='0'/><way><nd ref='1'/><nd ref='2'/></way><way><nd ref='1'/><nd ref='3'/><nd ref='1'/><nd ref='2'/></way></osm>");
    assert_eq!(targets(&g, 1), vec![2, 3, 2]);
    assert_eq!(targets(&g, 3), vec![1]);
}

#[test]
fn document_way_without_references_is_fatal() {
    let r = parse_xml("<osm><node id='1' lat='0' lon='0'/><way><tag k='a' v='b'/></way></osm>", &manhattan);
    assert_eq!(r.err(), Some(ParseError::EmptyWay(0)));
}

#[test]
fn same_start_and_goal_is_a_single_point() {
    let g = graph_of(vec![node("1", "0", "0"), node("2", "0", "0.000001")], vec![way(&["1", "2", "1"])]);
    assert_eq!(a_star(&g, p(1, 1), p(-1, 2), &manhattan), Ok(Some(vec![p(0, 0)])));
    let route = search(&g, g.index[&2], g.index[&2], p(0, 10), &manhattan).unwrap();
    assert_eq!(route.nodes, vec![g.index[&2]]);
    assert_eq!(route.cost, 0);
}
