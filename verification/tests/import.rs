use myroute::{
    build_turn_restrictions, direction, is_drivable_way, is_traffic_signal, parse_lanes,
    plan_edges, road_class, shared_node_flags, sorted_node_ids, traffic_signal_applies,
    tally_ways, way_pieces, DijkstraRouter, Edge, EdgeId, ImportReport, Member, MemberKind, Node, NodeId,
    Relation, RoadGraph, Tags, TravelTimeCost,
};

fn tags(values: &[(&str, &str)]) -> Tags {
    Tags {
        entries: values
            .iter()
            .map(|(key, value)| (key.to_string(), value.to_string()))
            .collect(),
    }
}

struct OsmNode {
    id: i64,
    lat: f64,
    lon: f64,
    tags: Tags,
}

struct OsmWay {
    id: i64,
    nodes: Vec<i64>,
    tags: Tags,
}

fn objects(nodes: &[(i64, f64, f64, bool)]) -> Vec<OsmNode> {
    nodes
        .iter()
        .map(|&(id, lat, lon, signal)| OsmNode {
            id,
            lat,
            lon,
            tags: if signal {
                tags(&[("highway", "traffic_signals")])
            } else {
                tags(&[])
            },
        })
        .collect()
}

fn way(id: i64, nodes: &[i64], tags: Tags) -> OsmWay {
    OsmWay { id, nodes: nodes.to_vec(), tags }
}

/// A restriction from way 10 over `via` onto way 20.
fn relation(id: i64, restriction: &str, via: Member, extra: &[(&str, &str)]) -> Relation {
    let mut entries = vec![("type", "restriction"), ("restriction", restriction)];
    entries.extend_from_slice(extra);
    Relation {
        id,
        tags: tags(&entries),
        members: vec![
            Member { kind: MemberKind::Way, id: 10, role: "from".to_string() },
            via,
            Member { kind: MemberKind::Way, id: 20, role: "to".to_string() },
        ],
    }
}

fn via_node(id: i64) -> Member {
    Member { kind: MemberKind::Node, id, role: "via".to_string() }
}

fn via_way(id: i64) -> Member {
    Member { kind: MemberKind::Way, id, role: "via".to_string() }
}

/// The graph with the coordinates of each edge's shape, in the edge's direction.
struct Built {
    graph: RoadGraph,
    shapes: Vec<Vec<(f64, f64)>>,
}

fn node<'a>(nodes: &'a [OsmNode], id: i64) -> &'a OsmNode {
    nodes.iter().find(|node| node.id == id).expect("fixture node")
}

/// Runs the library's import steps on an in-memory extract: which ways are roads, where
/// they split, how the pieces are numbered and directed, and which restrictions apply.
fn build_with(
    nodes: &[OsmNode],
    ways: &[OsmWay],
    relations: &[Relation],
    report: &mut ImportReport,
) -> Built {
    let roads: Vec<&OsmWay> = ways.iter().filter(|way| is_drivable_way(&way.tags)).collect();
    let way_nodes: Vec<Vec<i64>> = roads.iter().map(|way| way.nodes.clone()).collect();
    let shared = shared_node_flags(&way_nodes);
    let mut segments: Vec<(&OsmWay, Vec<i64>)> = Vec::new();
    let mut kept_counts = Vec::new();
    for (index, way) in roads.iter().enumerate() {
        if way.nodes.len() < 2 {
            kept_counts.push(0);
            continue;
        }
        let routing: Vec<bool> = way
            .nodes
            .iter()
            .enumerate()
            .map(|(position, &id)| shared[index][position] || is_traffic_signal(&node(nodes, id).tags))
            .collect();
        let mut kept = 0;
        for piece in way_pieces(&way.nodes, &routing) {
            let ids: Vec<i64> = piece.iter().map(|&position| way.nodes[position]).collect();
            if ids.first() != ids.last() {
                segments.push((way, ids));
                kept += 1;
            }
        }
        kept_counts.push(kept);
    }
    tally_ways(&kept_counts, report);
    let endpoints: Vec<i64> = segments
        .iter()
        .flat_map(|(_, ids)| [ids[0], ids[ids.len() - 1]])
        .collect();
    let node_ids = sorted_node_ids(&endpoints);
    let ends: Vec<(i64, i64)> = segments.iter().map(|(_, ids)| (ids[0], ids[ids.len() - 1])).collect();
    let directions: Vec<_> = segments.iter().map(|(way, _)| direction(&way.tags)).collect();
    let plan = plan_edges(&ends, &directions, &node_ids);
    let mut edges = Vec::new();
    let mut shapes = Vec::new();
    for planned in &plan {
        let (way, ids) = &segments[planned.segment];
        let mut shape_ids = ids.clone();
        if planned.reversed {
            shape_ids.reverse();
        }
        let mut edge = Edge::new(
            planned.id,
            planned.from,
            planned.to,
            road_class(&way.tags).expect("roads have a class"),
        );
        edge.lanes = way.tags.tag("lanes").and_then(parse_lanes);
        edge.name = way
            .tags
            .tag("name")
            .filter(|name| !name.trim().is_empty())
            .map(str::to_owned);
        edge.source_way_id = Some(way.id);
        let end = shape_ids[shape_ids.len() - 1];
        edge.traffic_signal_at_end = traffic_signal_applies(&node(nodes, end).tags, planned.reversed);
        edge.signal_controlled_at_end = edge.traffic_signal_at_end;
        shapes.push(
            shape_ids
                .iter()
                .map(|&id| (node(nodes, id).lat, node(nodes, id).lon))
                .collect(),
        );
        edges.push(edge);
    }
    let graph_nodes: Vec<Node> = (0..node_ids.len()).map(|i| Node::new(NodeId(i as u32))).collect();
    report.retained_nodes = graph_nodes.len();
    report.created_edges = edges.len();
    let restrictions = build_turn_restrictions(relations, &node_ids, &edges, report);
    report.created_turn_restrictions = restrictions.len();
    let graph = RoadGraph::with_turn_restrictions(graph_nodes, edges, restrictions).unwrap();
    Built { graph, shapes }
}

fn build(nodes: &[OsmNode], ways: &[OsmWay]) -> Built {
    build_with(nodes, ways, &[], &mut ImportReport::default())
}

fn assert_no_self_loops(graph: &RoadGraph) {
    assert!(graph.edges().iter().all(|edge| edge.from != edge.to));
}

fn assert_route(graph: &RoadGraph, origin: NodeId, destination: NodeId) {
    let times = vec![Ok::<u64, &str>(1); graph.edge_count()];
    let table = TravelTimeCost.cost_table(graph, &times).unwrap();
    DijkstraRouter
        .route_with_cost_model(graph, origin, destination, &table)
        .unwrap();
}

#[test]
fn keeps_curve_points_in_bidirectional_edge_shapes() {
    let nodes = objects(&[
        (1, 40.0, -74.0, false),
        (2, 40.001, -73.999, false),
        (3, 40.002, -74.0, false),
    ]);
    let ways = vec![way(
        10,
        &[1, 2, 3],
        tags(&[
            ("highway", "primary"),
            ("maxspeed", "25 mph"),
            ("lanes", "2"),
            ("name", "Arc Road"),
        ]),
    )];
    let built = build(&nodes, &ways);
    let graph = &built.graph;
    assert_eq!(graph.node_count(), 2);
    assert_eq!(graph.edge_count(), 2);
    assert_eq!(built.shapes[0].len(), 3);
    assert_eq!(
        built.shapes[1],
        built.shapes[0].iter().rev().copied().collect::<Vec<_>>()
    );
    assert_eq!(graph.edges()[0].name.as_deref(), Some("Arc Road"));
    assert_eq!(graph.edges()[0].lanes, Some(2));
    assert_eq!(graph.edges()[0].source_way_id, Some(10));
}

#[test]
fn reverse_oneway_reverses_endpoints_and_shape() {
    let nodes = objects(&[
        (1, 40.0, -74.0, false),
        (2, 40.001, -74.0, false),
        (3, 40.002, -74.0, false),
    ]);
    let ways = vec![way(10, &[1, 2, 3], tags(&[("highway", "primary"), ("oneway", "-1")]))];
    let built = build(&nodes, &ways);
    let edge = &built.graph.edges()[0];
    assert_eq!((edge.from, edge.to), (NodeId(1), NodeId(0)));
    assert!((built.shapes[0][0].0 - 40.002).abs() < 1e-10);
    assert_eq!(built.shapes[0][2].0, 40.0);
}

#[test]
fn signal_node_splits_way_and_marks_incoming_edges() {
    let nodes = objects(&[
        (1, 40.0, -74.0, false),
        (2, 40.001, -74.0, true),
        (3, 40.002, -74.0, false),
    ]);
    let ways = vec![way(10, &[1, 2, 3], tags(&[("highway", "secondary")]))];
    let graph = build(&nodes, &ways).graph;
    assert_eq!(graph.node_count(), 3);
    assert_eq!(graph.edge_count(), 4);
    assert_eq!(
        graph
            .edges()
            .iter()
            .filter(|edge| edge.traffic_signal_at_end)
            .count(),
        2
    );
    assert!(graph.edges()[0].traffic_signal_at_end);
    assert!(graph.edges()[3].traffic_signal_at_end);
}

#[test]
fn directional_signal_marks_only_the_matching_approach() {
    for (signal_direction, expected_edge) in [("forward", 0), ("backward", 3)] {
        let mut nodes = objects(&[
            (1, 40.0, -74.0, false),
            (2, 40.001, -74.0, true),
            (3, 40.002, -74.0, false),
        ]);
        nodes[1]
            .tags
            .entries
            .push(("traffic_signals:direction".to_string(), signal_direction.to_string()));
        let ways = vec![way(10, &[1, 2, 3], tags(&[("highway", "secondary")]))];
        let graph = build(&nodes, &ways).graph;
        let signaled: Vec<u32> = graph
            .edges()
            .iter()
            .filter(|edge| edge.traffic_signal_at_end)
            .map(|edge| edge.id.0)
            .collect();
        assert_eq!(signaled, vec![expected_edge]);
    }
}

#[test]
fn imports_no_and_only_via_node_restrictions() {
    let nodes = objects(&[
        (1, 39.999, -74.0, false),
        (2, 40.0, -74.0, false),
        (3, 40.001, -74.0, false),
        (4, 40.0, -74.001, false),
    ]);
    let ways = vec![
        way(10, &[1, 2], tags(&[("highway", "primary")])),
        way(20, &[2, 3], tags(&[("highway", "primary")])),
        way(30, &[2, 4], tags(&[("highway", "primary")])),
    ];

    let mut report = ImportReport::default();
    let no_graph = build_with(
        &nodes,
        &ways,
        &[relation(100, "no_straight_on", via_node(2), &[])],
        &mut report,
    )
    .graph;
    assert_eq!(report.applied_restriction_relations, 1);
    assert_eq!(report.created_turn_restrictions, 1);
    assert!(!no_graph.transition_allowed(EdgeId(0), EdgeId(2)).unwrap());
    assert!(no_graph.transition_allowed(EdgeId(0), EdgeId(4)).unwrap());

    let only_graph = build_with(
        &nodes,
        &ways,
        &[relation(101, "only_straight_on", via_node(2), &[])],
        &mut ImportReport::default(),
    )
    .graph;
    assert!(only_graph.transition_allowed(EdgeId(0), EdgeId(2)).unwrap());
    assert!(!only_graph.transition_allowed(EdgeId(0), EdgeId(4)).unwrap());
}

#[test]
fn reports_exempt_and_unsupported_restrictions() {
    let nodes = objects(&[
        (1, 39.999, -74.0, false),
        (2, 40.0, -74.0, false),
        (3, 40.001, -74.0, false),
    ]);
    let ways = vec![
        way(10, &[1, 2], tags(&[("highway", "primary")])),
        way(20, &[2, 3], tags(&[("highway", "primary")])),
    ];
    let relations = vec![
        relation(100, "no_straight_on", via_node(2), &[("except", "motorcar")]),
        relation(101, "no_straight_on", via_way(30), &[]),
    ];
    let mut report = ImportReport::default();
    let graph = build_with(&nodes, &ways, &relations, &mut report).graph;
    assert_eq!(report.exempt_restriction_relations, 1);
    assert_eq!(report.unsupported_restriction_relations, 1);
    assert!(graph.turn_restrictions().is_empty());
}

#[test]
fn shared_node_splits_retained_ways() {
    let nodes = objects(&[
        (1, 40.0, -74.0, false),
        (2, 40.001, -74.0, false),
        (3, 40.002, -74.0, false),
        (4, 40.001, -73.999, false),
    ]);
    let ways = vec![
        way(10, &[1, 2, 3], tags(&[("highway", "primary")])),
        way(20, &[2, 4], tags(&[("highway", "residential")])),
    ];
    let built = build(&nodes, &ways);
    assert_eq!(built.graph.node_count(), 4);
    assert_eq!(built.graph.edge_count(), 6);
    assert!(built.shapes.iter().all(|shape| shape.len() == 2));
}

#[test]
fn closed_way_without_natural_boundaries_uses_synthetic_vertices() {
    let nodes = objects(&[
        (1, 40.0, -74.0, false),
        (2, 40.001, -73.999, false),
        (3, 40.0, -73.998, false),
    ]);
    let ways = vec![way(10, &[1, 2, 3, 1], tags(&[("highway", "primary")]))];
    let graph = build(&nodes, &ways).graph;
    assert_eq!(graph.node_count(), 2);
    assert_eq!(graph.edge_count(), 4);
    assert_no_self_loops(&graph);
    assert_route(&graph, NodeId(0), NodeId(1));
    assert_route(&graph, NodeId(1), NodeId(0));
}

#[test]
fn closed_way_with_one_natural_boundary_remains_connected() {
    let nodes = objects(&[
        (1, 40.0, -74.0, false),
        (2, 40.001, -73.999, false),
        (3, 40.0, -73.998, false),
        (4, 39.999, -74.0, false),
    ]);
    let ways = vec![
        way(10, &[1, 2, 3, 1], tags(&[("highway", "primary")])),
        way(20, &[1, 4], tags(&[("highway", "residential")])),
    ];
    let graph = build(&nodes, &ways).graph;
    assert_no_self_loops(&graph);
    assert_route(&graph, NodeId(2), NodeId(1));
    assert_route(&graph, NodeId(1), NodeId(2));
}

#[test]
fn closed_way_with_two_natural_boundaries_connects_branches() {
    let nodes = objects(&[
        (1, 40.0, -74.0, false),
        (2, 40.001, -73.999, false),
        (3, 40.0, -73.998, true),
        (4, 39.999, -74.0, false),
        (5, 39.999, -73.998, false),
    ]);
    let ways = vec![
        way(10, &[1, 2, 3, 1], tags(&[("highway", "primary")])),
        way(20, &[1, 4], tags(&[("highway", "residential")])),
        way(30, &[3, 5], tags(&[("highway", "residential")])),
    ];
    let graph = build(&nodes, &ways).graph;
    assert_no_self_loops(&graph);
    assert_route(&graph, NodeId(2), NodeId(3));
    assert_route(&graph, NodeId(3), NodeId(2));
}

#[test]
fn counts_invalid_and_retained_ways() {
    let nodes = objects(&[(1, 40.0, -74.0, false), (2, 40.001, -74.0, false)]);
    let ways = vec![
        way(10, &[1], tags(&[("highway", "primary")])),
        way(20, &[1, 2], tags(&[("highway", "primary")])),
    ];
    let mut report = ImportReport::default();
    build_with(&nodes, &ways, &[], &mut report);
    assert_eq!(report.invalid_ways, 1);
    assert_eq!(report.retained_ways, 1);
}

#[test]
fn ways_with_no_kept_piece_are_invalid() {
    let mut report = ImportReport::default();
    report.invalid_ways = 2;
    tally_ways(&[0, 3, 1, 0, 0], &mut report);
    assert_eq!(report.retained_ways, 2);
    assert_eq!(report.invalid_ways, 5);
    assert_eq!(report.created_edges, 0);
}
