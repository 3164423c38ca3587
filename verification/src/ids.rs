use vstd::prelude::*;

verus! {

/// Dense identifier of a graph node; node `NodeId(i)` is stored at index `i`.
#[derive(Clone, Copy, Debug, PartialEq, Eq, Structural, Hash, PartialOrd, Ord)]
pub struct NodeId(pub u32);

impl NodeId {
    /// The index of this node in the graph's node list.
    pub fn index(self) -> (r: usize)
        ensures
            r == self.0,
    {
        self.0 as usize
    }
}

impl From<u32> for NodeId {
    fn from(value: u32) -> (r: Self) {
        NodeId(value)
    }
}

impl vstd::std_specs::convert::FromSpecImpl<u32> for NodeId {
    open spec fn obeys_from_spec() -> bool {
        true
    }

    open spec fn from_spec(v: u32) -> Self {
        NodeId(v)
    }
}

/// Dense identifier of a directed graph edge; edge `EdgeId(i)` is stored at index `i`.
#[derive(Clone, Copy, Debug, PartialEq, Eq, Structural, Hash, PartialOrd, Ord)]
pub struct EdgeId(pub u32);

impl EdgeId {
    /// The index of this edge in the graph's edge list.
    pub fn index(self) -> (r: usize)
        ensures
            r == self.0,
    {
        self.0 as usize
    }
}

impl From<u32> for EdgeId {
    fn from(value: u32) -> (r: Self) {
        EdgeId(value)
    }
}

impl vstd::std_specs::convert::FromSpecImpl<u32> for EdgeId {
    open spec fn obeys_from_spec() -> bool {
        true
    }

    open spec fn from_spec(v: u32) -> Self {
        EdgeId(v)
    }
}

/// Functional road classes retained from OpenStreetMap.
#[derive(Clone, Copy, Debug, PartialEq, Eq, Structural, Hash)]
pub enum RoadClass {
    Motorway,
    Trunk,
    Primary,
    Secondary,
    Tertiary,
    Residential,
    Service,
    Other,
}

impl RoadClass {
    pub open spec fn spec_is_highway(self) -> bool {
        self is Motorway || self is Trunk
    }

    pub open spec fn spec_is_minor(self) -> bool {
        self is Residential || self is Service || self is Other
    }

    /// Motorways and trunk roads count as highway travel.
    pub fn is_highway(self) -> (r: bool)
        ensures
            r == self.spec_is_highway(),
    {
        matches!(self, RoadClass::Motorway | RoadClass::Trunk)
    }

    /// Residential, service and other small roads count as minor roads.
    pub fn is_minor(self) -> (r: bool)
        ensures
            r == self.spec_is_minor(),
    {
        matches!(self, RoadClass::Residential | RoadClass::Service | RoadClass::Other)
    }
}

/// The kind of turn made between two consecutive edges.
#[derive(Clone, Copy, Debug, PartialEq, Eq, Structural, Hash)]
pub enum Maneuver {
    Straight,
    Left,
    Right,
    UTurn,
}

/// A forbidden transition from one edge directly onto another.
#[derive(Clone, Copy, Debug, PartialEq, Eq, Structural, Hash, PartialOrd, Ord)]
pub struct TurnRestriction {
    pub from: EdgeId,
    pub to: EdgeId,
}

impl TurnRestriction {
    pub fn new(from: EdgeId, to: EdgeId) -> (r: Self)
        ensures
            r.from == from,
            r.to == to,
    {
        TurnRestriction { from, to }
    }

    /// Lexicographic order on `(from, to)`, the order in which a graph stores its restrictions.
    pub open spec fn precedes(self, other: Self) -> bool {
        self.from.0 < other.from.0 || (self.from.0 == other.from.0 && self.to.0 < other.to.0)
    }
}

} // verus!
