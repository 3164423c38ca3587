//! Verified core of MyRoute: road-graph topology, turn restrictions,
//! shortest-path search over integer transition costs, OpenStreetMap tag
//! interpretation and way segmentation, and small text utilities.

mod error;
mod graph;
mod graph_file;
mod ids;
pub mod laws;
mod location;
mod import;
mod paths;
mod queue;
mod report_text;
mod restrictions;
mod route;
mod routing;
mod segments;
mod sorted_set;
mod tags;
mod text;

pub use error::{Error, IdKind, RouteDefect, SearchError};
pub use graph::{validate_capacity, Edge, Node, RoadGraph};
pub use graph_file::{
    check_trailing_data, validate_graph_size, validate_header, GraphFileError, GraphHeader,
    GRAPH_MAGIC, GRAPH_SCHEMA_VERSION, MAX_GRAPH_FILE_SIZE_BYTES,
};
pub use ids::{EdgeId, Maneuver, NodeId, RoadClass, TurnRestriction};
pub use import::{shared_node_flags, tally_ways, ImportReport};
pub use location::{parse_location_text, split_coordinates, LocationError};
pub use paths::{default_graph_path, plan_graph_path, GraphPathPlan};
pub use report_text::{escape_script_data, push_count_change};
pub use restrictions::{
    build_turn_restrictions, parse_turn_restriction, position_of, Member, MemberKind,
    ParsedRestriction, Relation, RestrictionMode, RestrictionParse,
};
pub use route::{
    applicable_penalties, check_route, join_shapes, tally_transitions, PenaltyChoice,
    TransitionFacts, TravelTimeCost, TurnCounts,
};
pub use routing::{reconstruct_path, CostTable, DijkstraRouter};
pub use segments::{
    check_capacity, closed_segments, count_directed_edges, farthest_distinct_index,
    open_segments, plan_edges, ring_walk, sorted_node_ids, way_pieces, PlannedEdge,
};
pub use tags::{
    access_denied, direction, is_drivable_way, is_traffic_signal, is_turn_restriction_relation,
    motorcar_is_exempt, parse_lanes, road_class, traffic_signal_applies, Direction, Tags,
};
