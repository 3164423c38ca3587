use myroute::{
    validate_capacity, Edge, EdgeId, Error, IdKind, Node, NodeId, RoadClass, RoadGraph,
    RouteDefect, TurnRestriction,
};

fn nodes(count: u32) -> Vec<Node> {
    (0..count).map(|id| Node::new(NodeId(id))).collect()
}

fn edge(id: u32, from: u32, to: u32) -> Edge {
    Edge::new(EdgeId(id), NodeId(from), NodeId(to), RoadClass::Residential)
}

#[test]
fn rejects_non_dense_and_invalid_graph_data() {
    let invalid_nodes = vec![Node::new(NodeId(1))];
    assert!(matches!(
        RoadGraph::new(invalid_nodes, vec![edge(0, 0, 0)]),
        Err(Error::NonDenseNodeId { .. })
    ));

    assert!(matches!(
        RoadGraph::new(nodes(2), vec![edge(0, 0, 2)]),
        Err(Error::MissingNode { .. })
    ));
}

#[test]
fn fills_direct_edge_geometry_and_adjacency() {
    let graph = RoadGraph::new(nodes(2), vec![edge(0, 0, 1)]).unwrap();
    assert_eq!(graph.outgoing(NodeId(0)).unwrap(), &[EdgeId(0)]);
    assert!(graph.outgoing(NodeId(1)).unwrap().is_empty());
}

#[test]
fn validates_and_indexes_turn_restrictions() {
    let graph = RoadGraph::with_turn_restrictions(
        nodes(3),
        vec![edge(0, 0, 1), edge(1, 1, 2)],
        vec![TurnRestriction::new(EdgeId(0), EdgeId(1))],
    )
    .unwrap();
    assert!(!graph.transition_allowed(EdgeId(0), EdgeId(1)).unwrap());
    assert_eq!(graph.turn_restrictions().len(), 1);

    let error = RoadGraph::with_turn_restrictions(
        nodes(3),
        vec![edge(0, 0, 1), edge(1, 0, 2)],
        vec![TurnRestriction::new(EdgeId(0), EdgeId(1))],
    )
    .unwrap_err();
    assert!(matches!(error, Error::InvalidTurnRestriction { .. }));
}

#[test]
fn rejects_immediate_reverse_transition() {
    let graph = RoadGraph::new(nodes(2), vec![edge(0, 0, 1), edge(1, 1, 0)]).unwrap();
    assert!(!graph.transition_allowed(EdgeId(0), EdgeId(1)).unwrap());
}

#[test]
fn reports_the_first_structural_fault() {
    assert_eq!(RoadGraph::new(nodes(2), Vec::new()).unwrap_err(), Error::EmptyGraph);
    assert_eq!(
        RoadGraph::new(nodes(2), vec![edge(1, 0, 1)]).unwrap_err(),
        Error::NonDenseEdgeId { expected: 0, actual: 1 }
    );
    assert_eq!(
        RoadGraph::new(nodes(2), vec![edge(0, 5, 7)]).unwrap_err(),
        Error::MissingNode { edge: EdgeId(0), node: NodeId(5) }
    );
    let mut laned = edge(0, 0, 1);
    laned.lanes = Some(0);
    assert_eq!(
        RoadGraph::new(nodes(2), vec![laned]).unwrap_err(),
        Error::InvalidLanes { edge: EdgeId(0) }
    );
    assert_eq!(
        RoadGraph::new(vec![Node::new(NodeId(0)), Node::new(NodeId(3))], vec![edge(0, 0, 1)])
            .unwrap_err(),
        Error::NonDenseNodeId { expected: 1, actual: 3 }
    );
}

#[test]
fn restrictions_are_deduplicated_sorted_and_checked_in_order() {
    let graph = RoadGraph::with_turn_restrictions(
        nodes(3),
        vec![edge(0, 0, 1), edge(1, 1, 2), edge(2, 1, 0), edge(3, 2, 1)],
        vec![
            TurnRestriction::new(EdgeId(3), EdgeId(2)),
            TurnRestriction::new(EdgeId(0), EdgeId(1)),
            TurnRestriction::new(EdgeId(3), EdgeId(2)),
        ],
    )
    .unwrap();
    assert_eq!(
        graph.turn_restrictions(),
        &[
            TurnRestriction::new(EdgeId(0), EdgeId(1)),
            TurnRestriction::new(EdgeId(3), EdgeId(2))
        ]
    );
    assert!(!graph.transition_allowed(EdgeId(3), EdgeId(2)).unwrap());
    assert!(graph.transition_allowed(EdgeId(0), EdgeId(2)).is_ok());
    assert!(!graph.transition_allowed(EdgeId(0), EdgeId(2)).unwrap());

    let error = RoadGraph::with_turn_restrictions(
        nodes(3),
        vec![edge(0, 0, 1), edge(1, 1, 2)],
        vec![
            TurnRestriction::new(EdgeId(9), EdgeId(0)),
            TurnRestriction::new(EdgeId(1), EdgeId(0)),
        ],
    )
    .unwrap_err();
    assert_eq!(error, Error::InvalidTurnRestriction { from: EdgeId(1), to: EdgeId(0) });

    let error = RoadGraph::with_turn_restrictions(
        nodes(3),
        vec![edge(0, 0, 1), edge(1, 1, 2)],
        vec![TurnRestriction::new(EdgeId(0), EdgeId(4))],
    )
    .unwrap_err();
    assert_eq!(error, Error::MissingRestrictionEdge(EdgeId(4)));
}

#[test]
fn transition_checks_report_missing_and_disjoint_edges() {
    let graph = RoadGraph::new(nodes(3), vec![edge(0, 0, 1), edge(1, 1, 2)]).unwrap();
    assert!(graph.transition_allowed(EdgeId(0), EdgeId(1)).unwrap());
    assert_eq!(
        graph.transition_allowed(EdgeId(1), EdgeId(0)),
        Err(Error::InvalidRoute(RouteDefect::NotContiguous))
    );
    assert_eq!(
        graph.transition_allowed(EdgeId(0), EdgeId(7)),
        Err(Error::InvalidRoute(RouteDefect::MissingEdge))
    );
    assert_eq!(graph.outgoing(NodeId(3)), Err(Error::NodeNotFound(NodeId(3))));
}

#[test]
fn accessors_and_routable_nodes() {
    let graph = RoadGraph::new(nodes(3), vec![edge(0, 0, 1)]).unwrap();
    assert_eq!(graph.node_count(), 3);
    assert_eq!(graph.edge_count(), 1);
    assert!(graph.is_routable(NodeId(0)));
    assert!(graph.is_routable(NodeId(1)));
    assert!(!graph.is_routable(NodeId(2)));
    assert!(!graph.is_routable(NodeId(9)));
    assert_eq!(graph.node(NodeId(2)).unwrap().id, NodeId(2));
    assert!(graph.node(NodeId(3)).is_none());
    assert_eq!(graph.edge(EdgeId(0)).unwrap().to, NodeId(1));
    assert!(graph.edge(EdgeId(1)).is_none());
    let (n, e) = graph.into_parts();
    assert_eq!(n.len(), 3);
    assert_eq!(e.len(), 1);
}

#[test]
fn identifier_capacity_is_u32() {
    assert_eq!(validate_capacity(IdKind::Nodes, 1 << 32), Ok(()));
    assert_eq!(
        validate_capacity(IdKind::Edges, (1usize << 32) + 1),
        Err(Error::IdCapacity { kind: IdKind::Edges, count: (1usize << 32) + 1 })
    );
    assert_eq!(NodeId(7).index(), 7);
    assert_eq!(EdgeId::from(3).index(), 3);
    assert!(RoadClass::Trunk.is_highway());
    assert!(!RoadClass::Primary.is_highway());
    assert!(RoadClass::Service.is_minor());
    assert!(!RoadClass::Tertiary.is_minor());
}
