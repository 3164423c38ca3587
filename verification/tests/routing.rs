use myroute::{
    reconstruct_path, CostTable, DijkstraRouter, Edge, EdgeId, Error, Node, NodeId,
    RoadClass, RoadGraph, RouteDefect, SearchError, TravelTimeCost, TurnRestriction,
};

fn nodes(count: u32) -> Vec<Node> {
    (0..count).map(|id| Node::new(NodeId(id))).collect()
}

fn edge(id: u32, from: u32, to: u32) -> Edge {
    Edge::new(EdgeId(id), NodeId(from), NodeId(to), RoadClass::Primary)
}

/// The error a test cost model gives for a move it cannot price.
type Fault = &'static str;

fn times_table(graph: &RoadGraph, times: &[u64]) -> CostTable<Fault> {
    let times: Vec<Result<u64, Fault>> = times.iter().map(|t| Ok(*t)).collect();
    TravelTimeCost.cost_table(graph, &times).unwrap()
}

fn route(
    graph: &RoadGraph,
    table: &CostTable<Fault>,
    from: u32,
    to: u32,
) -> Result<Vec<EdgeId>, SearchError<Fault>> {
    DijkstraRouter.route_with_cost_model(graph, NodeId(from), NodeId(to), table)
}

#[test]
fn parallel_edge_ties_are_deterministic() {
    let graph = RoadGraph::new(nodes(2), vec![edge(0, 0, 1), edge(1, 0, 1)]).unwrap();
    let table = times_table(&graph, &[100, 100]);
    for _ in 0..10 {
        assert_eq!(route(&graph, &table, 0, 1).unwrap(), vec![EdgeId(0)]);
    }
}

#[test]
fn handles_cycles_and_same_node_routes() {
    let graph =
        RoadGraph::new(nodes(3), vec![edge(0, 0, 1), edge(1, 1, 0), edge(2, 1, 2)]).unwrap();
    let table = times_table(&graph, &[100, 100, 100]);
    assert_eq!(route(&graph, &table, 0, 2).unwrap(), vec![EdgeId(0), EdgeId(2)]);
    assert!(route(&graph, &table, 0, 0).unwrap().is_empty());
}

#[test]
fn respects_direction_and_reports_unreachable() {
    let graph = RoadGraph::new(nodes(3), vec![edge(0, 0, 1)]).unwrap();
    let table = times_table(&graph, &[100]);
    assert_eq!(
        route(&graph, &table, 1, 0),
        Err(SearchError::Route(Error::NoRoute { origin: NodeId(1), destination: NodeId(0) }))
    );
    assert_eq!(
        route(&graph, &table, 0, 2),
        Err(SearchError::Route(Error::NoRoute { origin: NodeId(0), destination: NodeId(2) }))
    );
    assert_eq!(route(&graph, &table, 0, 1).unwrap(), vec![EdgeId(0)]);
}

#[test]
fn turn_restrictions_force_a_detour() {
    let graph = RoadGraph::with_turn_restrictions(
        nodes(4),
        vec![edge(0, 0, 1), edge(1, 1, 2), edge(2, 1, 3), edge(3, 3, 2)],
        vec![TurnRestriction::new(EdgeId(0), EdgeId(1))],
    )
    .unwrap();
    let table = times_table(&graph, &[100, 100, 110, 110]);
    assert_eq!(
        route(&graph, &table, 0, 2).unwrap(),
        vec![EdgeId(0), EdgeId(2), EdgeId(3)]
    );
}

#[test]
fn u_turns_are_never_taken() {
    let graph = RoadGraph::new(
        nodes(3),
        vec![edge(0, 0, 1), edge(1, 1, 0), edge(2, 0, 2)],
    )
    .unwrap();
    let table = times_table(&graph, &[1, 1, 1]);
    assert_eq!(route(&graph, &table, 0, 2).unwrap(), vec![EdgeId(2)]);
    let graph = RoadGraph::new(nodes(2), vec![edge(0, 0, 1), edge(1, 1, 0)]).unwrap();
    let table = times_table(&graph, &[1, 1]);
    assert_eq!(route(&graph, &table, 0, 1).unwrap(), vec![EdgeId(0)]);
}

#[test]
fn turn_costs_depend_on_the_incoming_edge() {
    // Two ways from node 0 to node 4: through node 1 or through node 2, both ending on a
    // transition whose cost the table gives per incoming edge.
    let graph = RoadGraph::new(
        nodes(5),
        vec![edge(0, 0, 1), edge(1, 1, 4), edge(2, 0, 2), edge(3, 2, 4)],
    )
    .unwrap();
    let cheap = CostTable {
        start: vec![Ok(100), Ok(100), Ok(105), Ok(105)],
        turns: vec![vec![Ok(100)], vec![], vec![Ok(105)], vec![]],
    };
    assert_eq!(route(&graph, &cheap, 0, 4).unwrap(), vec![EdgeId(0), EdgeId(1)]);
    let penalized = CostTable {
        start: vec![Ok(100), Ok(100), Ok(105), Ok(105)],
        turns: vec![vec![Ok(120)], vec![], vec![Ok(105)], vec![]],
    };
    assert_eq!(route(&graph, &penalized, 0, 4).unwrap(), vec![EdgeId(2), EdgeId(3)]);
}

#[test]
fn reports_bad_requests_and_costs() {
    let graph = RoadGraph::new(nodes(3), vec![edge(0, 0, 1), edge(1, 1, 2)]).unwrap();
    let table = times_table(&graph, &[5, 5]);
    assert_eq!(route(&graph, &table, 7, 1), Err(SearchError::Route(Error::NodeNotFound(NodeId(7)))));
    assert_eq!(route(&graph, &table, 0, 9), Err(SearchError::Route(Error::NodeNotFound(NodeId(9)))));
    let short = CostTable { start: vec![Ok(1)], turns: vec![vec![]] };
    assert_eq!(route(&graph, &short, 0, 2), Err(SearchError::Route(Error::CostTableMismatch)));
    let unknown = CostTable {
        start: vec![Ok(1), Ok(1)],
        turns: vec![vec![Err("turn 0 to 1")], vec![]],
    };
    assert_eq!(route(&graph, &unknown, 0, 2), Err(SearchError::Cost("turn 0 to 1")));
    let unknown_start = CostTable {
        start: vec![Err("start 0"), Ok(1)],
        turns: vec![vec![Ok(1)], vec![]],
    };
    assert_eq!(route(&graph, &unknown_start, 0, 2), Err(SearchError::Cost("start 0")));
    let unreached = CostTable {
        start: vec![Ok(1), Err("start 1")],
        turns: vec![vec![Ok(1)], vec![]],
    };
    assert_eq!(route(&graph, &unreached, 0, 2).unwrap(), vec![EdgeId(0), EdgeId(1)]);
    let huge = CostTable {
        start: vec![Ok(u64::MAX), Ok(1)],
        turns: vec![vec![Ok(1)], vec![]],
    };
    assert_eq!(route(&graph, &huge, 0, 2), Err(SearchError::Route(Error::CostOverflow)));
    assert_eq!(
        TravelTimeCost.cost_table::<Fault>(&graph, &[Ok(1)]).map(|_| ()),
        Err(Error::CostTableMismatch)
    );
}

#[test]
fn travel_time_table_ignores_the_previous_edge() {
    let graph = RoadGraph::new(
        nodes(3),
        vec![edge(0, 0, 1), edge(1, 1, 2), edge(2, 1, 0), edge(3, 2, 1)],
    )
    .unwrap();
    let table = TravelTimeCost
        .cost_table::<Fault>(&graph, &[Ok(10), Ok(20), Ok(30), Err("edge 3")])
        .unwrap();
    assert_eq!(table.start, vec![Ok(10), Ok(20), Ok(30), Err("edge 3")]);
    assert_eq!(table.turns[0], vec![Ok(20), Ok(30)]);
    assert_eq!(table.turns[1], vec![Err("edge 3")]);
    assert_eq!(table.turns[3], vec![Ok(20), Ok(30)]);
    assert!(table.fits_graph(&graph));
}

#[test]
fn cheapest_route_beats_fewer_edges() {
    let graph = RoadGraph::new(
        nodes(4),
        vec![edge(0, 0, 3), edge(1, 0, 1), edge(2, 1, 2), edge(3, 2, 3)],
    )
    .unwrap();
    let table = times_table(&graph, &[31, 10, 10, 10]);
    assert_eq!(
        route(&graph, &table, 0, 3).unwrap(),
        vec![EdgeId(1), EdgeId(2), EdgeId(3)]
    );
    let table = times_table(&graph, &[30, 10, 10, 10]);
    assert_eq!(route(&graph, &table, 0, 3).unwrap(), vec![EdgeId(0)]);
}

#[test]
fn predecessor_links_rebuild_the_route() {
    let links = vec![None, Some(0), Some(1), Some(2)];
    assert_eq!(
        reconstruct_path(3, &links).unwrap(),
        vec![EdgeId(0), EdgeId(1), EdgeId(2)]
    );
    assert_eq!(reconstruct_path(0, &links).unwrap(), Vec::<EdgeId>::new());
    let broken = vec![None, None, Some(1)];
    assert_eq!(
        reconstruct_path(2, &broken),
        Err(Error::InvalidRoute(RouteDefect::BrokenPredecessorChain))
    );
}

#[test]
fn equal_cost_routes_take_the_lower_states_throughout() {
    let graph = RoadGraph::new(nodes(3), vec![edge(0, 0, 1), edge(1, 0, 1), edge(2, 1, 2)]).unwrap();
    let table = times_table(&graph, &[7, 7, 3]);
    assert_eq!(route(&graph, &table, 0, 2).unwrap(), vec![EdgeId(0), EdgeId(2)]);
    let graph = RoadGraph::new(
        nodes(4),
        vec![edge(0, 0, 2), edge(1, 0, 1), edge(2, 2, 3), edge(3, 1, 3)],
    )
    .unwrap();
    let table = times_table(&graph, &[5, 5, 5, 5]);
    assert_eq!(route(&graph, &table, 0, 3).unwrap(), vec![EdgeId(0), EdgeId(2)]);
}
