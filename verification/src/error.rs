use vstd::prelude::*;

use crate::ids::{EdgeId, NodeId};

verus! {

/// Which kind of identifier ran out of `u32` range.
#[derive(Clone, Copy, Debug, PartialEq, Eq, Structural)]
pub enum IdKind {
    Nodes,
    Edges,
}

/// Why a sequence of edges is not a usable route.
#[derive(Clone, Copy, Debug, PartialEq, Eq, Structural)]
pub enum RouteDefect {
    /// An edge identifier is not in the graph.
    MissingEdge,
    /// An edge does not start where the previous edge ends.
    NotContiguous,
    /// Shortest-path bookkeeping does not lead back to the origin.
    BrokenPredecessorChain,
}

/// Errors of graph construction and route search.
#[derive(Clone, Copy, Debug, PartialEq, Eq, Structural)]
pub enum Error {
    NonDenseNodeId { expected: u32, actual: u32 },
    NonDenseEdgeId { expected: u32, actual: u32 },
    IdCapacity { kind: IdKind, count: usize },
    MissingNode { edge: EdgeId, node: NodeId },
    /// An edge declares zero lanes.
    InvalidLanes { edge: EdgeId },
    MissingRestrictionEdge(EdgeId),
    InvalidTurnRestriction { from: EdgeId, to: EdgeId },
    EmptyGraph,
    NodeNotFound(NodeId),
    NoRoute { origin: NodeId, destination: NodeId },
    InvalidRoute(RouteDefect),
    ProhibitedTransition { from: EdgeId, to: EdgeId },
    /// A route cost exceeds the range of `u64`.
    CostOverflow,
    /// A cost table does not have one entry per possible transition of the graph.
    CostTableMismatch,
}

/// Why a route search gave no route: a fault of the graph, the request or the search
/// itself, or the error that the cost model gave for a move the search examined.
#[derive(Clone, Debug, PartialEq, Eq)]
pub enum SearchError<E> {
    Route(Error),
    Cost(E),
}

} // verus!
