use myroute::{
    applicable_penalties, check_route, join_shapes, tally_transitions, Edge, EdgeId, Error,
    Maneuver, Node, NodeId, PenaltyChoice, RoadClass, RoadGraph, RouteDefect, TransitionFacts,
    TurnRestriction,
};

fn facts(maneuver: Option<Maneuver>, signal_controlled: bool, traffic_signal: bool, u_turn_like: bool) -> TransitionFacts {
    TransitionFacts { maneuver, signal_controlled, traffic_signal, u_turn_like }
}

#[test]
fn signalized_left_avoids_extra_left_penalty() {
    let signalized = applicable_penalties(&facts(Some(Maneuver::Left), true, true, false));
    assert_eq!(
        signalized,
        PenaltyChoice { traffic_signal: true, turn: true, left_turn: false, u_turn: false }
    );
    let unsignalized = applicable_penalties(&facts(Some(Maneuver::Left), false, false, false));
    assert_eq!(
        unsignalized,
        PenaltyChoice { traffic_signal: false, turn: true, left_turn: true, u_turn: false }
    );
}

#[test]
fn u_turn_like_movements_pay_only_the_u_turn_penalty() {
    let u = applicable_penalties(&facts(Some(Maneuver::Left), false, false, true));
    assert_eq!(u, PenaltyChoice { traffic_signal: false, turn: false, left_turn: false, u_turn: true });
    let first_edge = applicable_penalties(&facts(None, false, false, false));
    assert_eq!(
        first_edge,
        PenaltyChoice { traffic_signal: false, turn: false, left_turn: false, u_turn: false }
    );
    let straight = applicable_penalties(&facts(Some(Maneuver::Straight), false, true, false));
    assert_eq!(
        straight,
        PenaltyChoice { traffic_signal: true, turn: false, left_turn: false, u_turn: false }
    );
    let right = applicable_penalties(&facts(Some(Maneuver::Right), false, false, false));
    assert!(right.turn && !right.left_turn);
}

#[test]
fn tallies_turns_and_signals() {
    let route = vec![
        facts(None, false, false, false),
        facts(Some(Maneuver::Left), true, true, false),
        facts(Some(Maneuver::Left), false, false, false),
        facts(Some(Maneuver::Right), false, true, false),
        facts(Some(Maneuver::UTurn), false, false, true),
        facts(Some(Maneuver::Left), false, false, true),
        facts(Some(Maneuver::Straight), true, false, false),
    ];
    let counts = tally_transitions(&route);
    assert_eq!(counts.traffic_signal_count, 2);
    assert_eq!(counts.left_turn_count, 2);
    assert_eq!(counts.signalized_left_turn_count, 1);
    assert_eq!(counts.unsignalized_left_turn_count, 1);
    assert_eq!(counts.right_turn_count, 1);
    assert_eq!(counts.u_turn_count, 2);
    assert_eq!(tally_transitions(&[]).left_turn_count, 0);
}

fn graph() -> RoadGraph {
    let nodes = (0..3).map(|id| Node::new(NodeId(id))).collect();
    let edges = vec![
        Edge::new(EdgeId(0), NodeId(0), NodeId(1), RoadClass::Primary),
        Edge::new(EdgeId(1), NodeId(1), NodeId(2), RoadClass::Primary),
        Edge::new(EdgeId(2), NodeId(1), NodeId(0), RoadClass::Primary),
    ];
    RoadGraph::with_turn_restrictions(nodes, edges, vec![TurnRestriction::new(EdgeId(0), EdgeId(1))])
        .unwrap()
}

#[test]
fn rejects_noncontiguous_edges() {
    let graph = graph();
    assert_eq!(
        check_route(&graph, &[EdgeId(1), EdgeId(0)], false),
        Err(Error::InvalidRoute(RouteDefect::NotContiguous))
    );
}

#[test]
fn route_checks_report_the_first_defect() {
    let graph = graph();
    assert_eq!(check_route(&graph, &[], true), Ok(()));
    assert_eq!(check_route(&graph, &[EdgeId(0), EdgeId(1)], false), Ok(()));
    assert_eq!(
        check_route(&graph, &[EdgeId(0), EdgeId(1)], true),
        Err(Error::ProhibitedTransition { from: EdgeId(0), to: EdgeId(1) })
    );
    assert_eq!(
        check_route(&graph, &[EdgeId(0), EdgeId(2)], true),
        Err(Error::ProhibitedTransition { from: EdgeId(0), to: EdgeId(2) })
    );
    assert_eq!(
        check_route(&graph, &[EdgeId(2), EdgeId(9), EdgeId(1)], true),
        Err(Error::InvalidRoute(RouteDefect::MissingEdge))
    );
    assert_eq!(
        check_route(&graph, &[EdgeId(0), EdgeId(2), EdgeId(1)], false),
        Err(Error::InvalidRoute(RouteDefect::NotContiguous))
    );
}

#[test]
fn joins_edge_shapes_without_repeating_joints() {
    let shapes = vec![vec![(0, 0), (0, 1)], vec![(0, 1), (1, 1), (1, 2)], vec![(1, 2), (2, 2)]];
    assert_eq!(
        join_shapes(&shapes),
        vec![(0, 0), (0, 1), (1, 1), (1, 2), (2, 2)]
    );
    let none: Vec<Vec<u8>> = Vec::new();
    assert!(join_shapes(&none).is_empty());
}
