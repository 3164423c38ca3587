use myroute::{
    access_denied, build_turn_restrictions, closed_segments, count_directed_edges, direction,
    farthest_distinct_index, is_drivable_way, is_traffic_signal, is_turn_restriction_relation,
    motorcar_is_exempt, open_segments, parse_lanes, parse_turn_restriction, position_of,
    ring_walk, road_class, shared_node_flags, sorted_node_ids, traffic_signal_applies,
    check_capacity, Direction, Edge, EdgeId, Error, IdKind, ImportReport, Member, MemberKind,
    NodeId, ParsedRestriction, Relation, RestrictionMode, RestrictionParse, RoadClass, Tags,
    TurnRestriction, way_pieces, plan_edges, PlannedEdge,
};

fn tags(values: &[(&str, &str)]) -> Tags {
    Tags {
        entries: values
            .iter()
            .map(|(key, value)| (key.to_string(), value.to_string()))
            .collect(),
    }
}

#[test]
fn tag_helpers_classify_and_filter_roads() {
    assert_eq!(
        road_class(&tags(&[("highway", "motorway_link")])),
        Some(RoadClass::Motorway)
    );
    assert_eq!(
        road_class(&tags(&[("highway", "living_street")])),
        Some(RoadClass::Other)
    );
    assert_eq!(road_class(&tags(&[("highway", "footway")])), None);

    let specific_override = tags(&[
        ("highway", "service"),
        ("access", "private"),
        ("motorcar", "yes"),
    ]);
    assert!(!access_denied(&specific_override));
    assert!(is_drivable_way(&specific_override));
    assert!(!is_drivable_way(&tags(&[
        ("highway", "primary"),
        ("motor_vehicle", "no")
    ])));
}

#[test]
fn parses_speed_and_lanes_conservatively() {
    assert_eq!(parse_lanes("3"), Some(3));
    assert_eq!(parse_lanes("2;1"), None);
    assert_eq!(parse_lanes("0"), None);
}

#[test]
fn interprets_oneway_and_roundabout_direction() {
    assert_eq!(direction(&tags(&[("oneway", "yes")])), Direction::Forward);
    assert_eq!(direction(&tags(&[("oneway", "-1")])), Direction::Reverse);
    assert_eq!(
        direction(&tags(&[("junction", "roundabout")])),
        Direction::Forward
    );
    assert_eq!(
        direction(&tags(&[("junction", "roundabout"), ("oneway", "no")])),
        Direction::Both
    );
}

#[test]
fn lane_counts_follow_u8_parsing() {
    assert_eq!(parse_lanes(" 2 "), Some(2));
    assert_eq!(parse_lanes("+4"), Some(4));
    assert_eq!(parse_lanes("007"), Some(7));
    assert_eq!(parse_lanes("255"), Some(255));
    assert_eq!(parse_lanes("256"), None);
    assert_eq!(parse_lanes("-1"), None);
    assert_eq!(parse_lanes("+"), None);
    assert_eq!(parse_lanes(""), None);
    assert_eq!(parse_lanes("two"), None);
    assert_eq!(parse_lanes("\u{3000}5\t"), Some(5));
}

#[test]
fn road_classes_ignore_ascii_case_and_access_follows_specificity() {
    assert_eq!(road_class(&tags(&[("highway", "Trunk_Link")])), Some(RoadClass::Trunk));
    assert_eq!(road_class(&tags(&[("highway", "RESIDENTIAL")])), Some(RoadClass::Residential));
    assert_eq!(road_class(&tags(&[("highway", "unclassified")])), Some(RoadClass::Other));
    assert_eq!(road_class(&tags(&[("name", "Main Street")])), None);
    assert!(access_denied(&tags(&[("access", "No")])));
    assert!(access_denied(&tags(&[("vehicle", "private"), ("access", "yes")])));
    assert!(!access_denied(&tags(&[("motor_vehicle", "yes"), ("vehicle", "no")])));
    assert!(!access_denied(&tags(&[("access", "destination")])));
    assert!(is_turn_restriction_relation(&tags(&[("type", "Restriction")])));
    assert!(!is_turn_restriction_relation(&tags(&[("type", "route")])));
}

#[test]
fn oneway_values_are_trimmed_and_case_insensitive() {
    assert_eq!(direction(&tags(&[("oneway", " TRUE ")])), Direction::Forward);
    assert_eq!(direction(&tags(&[("oneway", "1")])), Direction::Forward);
    assert_eq!(direction(&tags(&[("oneway", "Reverse")])), Direction::Reverse);
    assert_eq!(direction(&tags(&[("oneway", "0")])), Direction::Both);
    assert_eq!(
        direction(&tags(&[("oneway", "alternating"), ("junction", "roundabout")])),
        Direction::Forward
    );
    assert_eq!(direction(&tags(&[("oneway", "alternating")])), Direction::Both);
    assert_eq!(direction(&tags(&[])), Direction::Both);
}

#[test]
fn signal_direction_limits_the_approach() {
    let plain = tags(&[("highway", "traffic_signals")]);
    assert!(is_traffic_signal(&plain));
    assert!(traffic_signal_applies(&plain, false));
    assert!(traffic_signal_applies(&plain, true));
    let forward = tags(&[("highway", "traffic_signals"), ("traffic_signals:direction", " Forward")]);
    assert!(traffic_signal_applies(&forward, false));
    assert!(!traffic_signal_applies(&forward, true));
    let backward = tags(&[("highway", "traffic_signals"), ("traffic_signals:direction", "backward")]);
    assert!(!traffic_signal_applies(&backward, false));
    assert!(traffic_signal_applies(&backward, true));
    let stop = tags(&[("highway", "stop")]);
    assert!(!is_traffic_signal(&stop));
    assert!(!traffic_signal_applies(&stop, false));
}

#[test]
fn except_values_split_on_separators() {
    assert!(motorcar_is_exempt("motorcar"));
    assert!(motorcar_is_exempt("bicycle; motor_vehicle"));
    assert!(motorcar_is_exempt("psv,vehicle"));
    assert!(!motorcar_is_exempt("bicycle;psv"));
    assert!(!motorcar_is_exempt("Motorcar"));
    assert!(!motorcar_is_exempt("motorcars"));
    assert!(!motorcar_is_exempt(""));
}

fn member(kind: MemberKind, id: i64, role: &str) -> Member {
    Member { kind, id, role: role.to_string() }
}

fn relation(id: i64, values: &[(&str, &str)], via: Member) -> Relation {
    let mut entries = vec![("type", "restriction")];
    entries.extend_from_slice(values);
    Relation {
        id,
        tags: tags(&entries),
        members: vec![
            member(MemberKind::Way, 100, "from"),
            via,
            member(MemberKind::Way, 101, "to"),
        ],
    }
}

fn way_edge(id: u32, from: u32, to: u32, way: i64) -> Edge {
    let mut edge = Edge::new(EdgeId(id), NodeId(from), NodeId(to), RoadClass::Primary);
    edge.source_way_id = Some(way);
    edge
}

/// Way 100 runs between OSM nodes 10 and 20, way 101 between 20 and 30; both two-way.
fn crossing_edges() -> Vec<Edge> {
    vec![
        way_edge(0, 0, 1, 100),
        way_edge(1, 1, 0, 100),
        way_edge(2, 1, 2, 101),
        way_edge(3, 2, 1, 101),
    ]
}

#[test]
fn parses_restriction_relations() {
    let via = member(MemberKind::Node, 20, "via");
    assert_eq!(
        parse_turn_restriction(&relation(1, &[("restriction", " No_Left_Turn ")], via.clone())),
        RestrictionParse::Apply(ParsedRestriction {
            mode: RestrictionMode::No,
            from: 100,
            via: 20,
            to: 101,
            same_way_u_turn: false,
        })
    );
    assert_eq!(
        parse_turn_restriction(&relation(
            2,
            &[("restriction:motorcar", "only_straight_on"), ("restriction", "no_left_turn")],
            via.clone()
        )),
        RestrictionParse::Apply(ParsedRestriction {
            mode: RestrictionMode::Only,
            from: 100,
            via: 20,
            to: 101,
            same_way_u_turn: false,
        })
    );
    assert_eq!(
        parse_turn_restriction(&relation(3, &[("restriction", "give_way")], via.clone())),
        RestrictionParse::Unsupported
    );
    assert_eq!(
        parse_turn_restriction(&relation(4, &[("type", "restriction")], via.clone())),
        RestrictionParse::Unsupported
    );
    assert_eq!(
        parse_turn_restriction(&relation(
            5,
            &[("restriction", "no_straight_on"), ("except", "bicycle;motorcar")],
            via.clone()
        )),
        RestrictionParse::Exempt
    );
    assert_eq!(
        parse_turn_restriction(&relation(
            6,
            &[("restriction", "no_straight_on")],
            member(MemberKind::Way, 20, "via")
        )),
        RestrictionParse::Unsupported
    );
    let mut u_turn = relation(7, &[("restriction", "no_u_turn")], via);
    u_turn.members[2] = member(MemberKind::Way, 100, "TO");
    assert_eq!(
        parse_turn_restriction(&u_turn),
        RestrictionParse::Apply(ParsedRestriction {
            mode: RestrictionMode::No,
            from: 100,
            via: 20,
            to: 100,
            same_way_u_turn: true,
        })
    );
}

#[test]
fn builds_no_and_only_restrictions_at_via_nodes() {
    let node_ids = vec![10, 20, 30];
    let edges = crossing_edges();
    let via = member(MemberKind::Node, 20, "via");
    let relations = vec![
        relation(1, &[("restriction", "no_straight_on")], via.clone()),
        relation(2, &[("restriction", "only_straight_on")], via.clone()),
        relation(3, &[("restriction", "no_straight_on")], via.clone()),
    ];
    let mut report = ImportReport::default();
    let restrictions = build_turn_restrictions(&relations, &node_ids, &edges, &mut report);
    assert_eq!(
        restrictions,
        vec![
            TurnRestriction::new(EdgeId(0), EdgeId(1)),
            TurnRestriction::new(EdgeId(0), EdgeId(2)),
        ]
    );
    assert_eq!(report.applied_restriction_relations, 3);
    assert_eq!(report.unsupported_restriction_relations, 0);
    assert_eq!(report.exempt_restriction_relations, 0);
}

#[test]
fn reports_exempt_and_unsupported_relations() {
    let node_ids = vec![10, 20, 30];
    let edges = crossing_edges();
    let relations = vec![
        relation(
            1,
            &[("restriction", "no_straight_on"), ("except", "motorcar")],
            member(MemberKind::Node, 20, "via"),
        ),
        relation(2, &[("restriction", "no_straight_on")], member(MemberKind::Node, 99, "via")),
        relation(3, &[("restriction", "no_straight_on")], member(MemberKind::Node, 30, "via")),
        relation(4, &[("restriction", "maybe")], member(MemberKind::Node, 20, "via")),
        Relation { id: 5, tags: tags(&[("type", "route")]), members: Vec::new() },
    ];
    let mut report = ImportReport::default();
    let restrictions = build_turn_restrictions(&relations, &node_ids, &edges, &mut report);
    assert!(restrictions.is_empty());
    assert_eq!(report.exempt_restriction_relations, 1);
    assert_eq!(report.unsupported_restriction_relations, 3);
    assert_eq!(report.applied_restriction_relations, 0);
    assert_eq!(report.parsed_relations, 0);
}

#[test]
fn same_way_u_turn_forbids_only_the_reversal() {
    let node_ids = vec![10, 20, 30];
    let edges = crossing_edges();
    let mut rel = relation(1, &[("restriction", "no_u_turn")], member(MemberKind::Node, 20, "via"));
    rel.members[2] = member(MemberKind::Way, 100, "to");
    let mut report = ImportReport::default();
    let restrictions = build_turn_restrictions(&[rel], &node_ids, &edges, &mut report);
    assert_eq!(restrictions, vec![TurnRestriction::new(EdgeId(0), EdgeId(1))]);
}

#[test]
fn shared_nodes_are_those_on_two_ways() {
    let ways = vec![vec![1, 2, 3, 2], vec![3, 4], vec![5], vec![5, 6], vec![7, 5]];
    let flags = shared_node_flags(&ways);
    assert_eq!(flags[0], vec![false, false, true, false]);
    assert_eq!(flags[1], vec![true, false]);
    assert_eq!(flags[2], vec![true]);
    assert_eq!(flags[3], vec![true, false]);
    assert_eq!(flags[4], vec![false, true]);
}

#[test]
fn open_ways_split_at_routing_nodes() {
    let nodes = vec![1, 2, 3, 4, 5];
    assert_eq!(
        open_segments(&nodes, &[false, false, true, false, false]),
        vec![(0, 2), (2, 4)]
    );
    assert_eq!(open_segments(&nodes, &[false; 5]), vec![(0, 4)]);
    assert_eq!(open_segments(&[1, 2, 1], &[false, true, false]), vec![(0, 1), (1, 2)]);
    assert_eq!(open_segments(&[1, 2, 1], &[false, false, false]), Vec::<(usize, usize)>::new());
}

#[test]
fn closed_ring_pieces_cut_at_the_farthest_distinct_node() {
    let ring = vec![1, 2, 3];
    let pieces = closed_segments(&ring, &[false, false, false]);
    assert_eq!(pieces, vec![(0, 1), (1, 0)]);
    assert_eq!(ring_walk(0, 1, 3), vec![0, 1]);
    assert_eq!(ring_walk(1, 0, 3), vec![1, 2, 0]);
    assert_eq!(farthest_distinct_index(&ring, 0), Some(1));
    assert_eq!(farthest_distinct_index(&[4, 4, 4], 1), None);
    assert_eq!(farthest_distinct_index(&[1, 2, 3, 4, 5], 0), Some(2));
}

#[test]
fn closed_ways_split_at_first_occurrences_of_routing_nodes() {
    let ring = vec![1, 2, 3, 4];
    assert_eq!(
        closed_segments(&ring, &[true, false, true, false]),
        vec![(0, 2), (2, 0)]
    );
    assert_eq!(
        closed_segments(&ring, &[false, true, false, false]),
        vec![(1, 3), (3, 1)]
    );
    assert_eq!(
        closed_segments(&[1, 2, 1, 3], &[true, false, true, false]),
        vec![(0, 1), (1, 0)]
    );
    assert_eq!(closed_segments(&[7], &[false]), Vec::<(usize, usize)>::new());
    assert_eq!(closed_segments(&[], &[]), Vec::<(usize, usize)>::new());
}

#[test]
fn node_ids_are_numbered_in_increasing_order() {
    assert_eq!(sorted_node_ids(&vec![30, -5, 10, 30, 10]), vec![-5, 10, 30]);
    assert_eq!(sorted_node_ids(&vec![i64::MAX, i64::MIN]), vec![i64::MIN, i64::MAX]);
    assert_eq!(position_of(&[-5, 10, 30], 10), Some(1));
    assert_eq!(position_of(&[-5, 10, 30], 11), None);
}

#[test]
fn counts_directed_edges_and_capacity() {
    assert_eq!(
        count_directed_edges(&[Direction::Both, Direction::Forward, Direction::Reverse]),
        Ok(4)
    );
    assert_eq!(count_directed_edges(&[]), Ok(0));
    assert_eq!(check_capacity(IdKind::Nodes, 5), Ok(()));
    assert_eq!(
        check_capacity(IdKind::Edges, (1usize << 32) + 1),
        Err(Error::IdCapacity { kind: IdKind::Edges, count: (1usize << 32) + 1 })
    );
}

#[test]
fn way_pieces_list_node_positions() {
    assert_eq!(
        way_pieces(&[1, 2, 3, 1], &[false, false, false, false]),
        vec![vec![0, 1], vec![1, 2, 0]]
    );
    assert_eq!(
        way_pieces(&[1, 2, 3], &[false, true, false]),
        vec![vec![0, 1], vec![1, 2]]
    );
    assert_eq!(way_pieces(&[1, 2, 3], &[false, false, false]), vec![vec![0, 1, 2]]);
    assert_eq!(way_pieces(&[4, 4], &[false, false]), Vec::<Vec<usize>>::new());
}

#[test]
fn plans_two_way_and_one_way_edges_in_segment_order() {
    let node_ids = vec![-5, 3, 10, 42];
    let ends = vec![(3, 10), (42, -5), (10, 42)];
    let directions = vec![Direction::Both, Direction::Reverse, Direction::Forward];
    let plan = plan_edges(&ends, &directions, &node_ids);
    let edge = |id: u32, segment: usize, reversed: bool, from: u32, to: u32| PlannedEdge {
        id: EdgeId(id),
        segment,
        reversed,
        from: NodeId(from),
        to: NodeId(to),
    };
    assert_eq!(
        plan,
        vec![
            edge(0, 0, false, 1, 2),
            edge(1, 0, true, 2, 1),
            edge(2, 1, true, 0, 3),
            edge(3, 2, false, 2, 3),
        ]
    );
    assert_eq!(count_directed_edges(&directions), Ok(plan.len()));
}

#[test]
fn plans_nothing_for_no_segments() {
    assert!(plan_edges(&[], &[], &[1, 2]).is_empty());
}
