//! The road graph: dense nodes and directed edges, per-node adjacency and
//! forbidden transitions between consecutive edges.

use vstd::prelude::*;

use crate::error::{Error, IdKind, RouteDefect};
use crate::ids::{EdgeId, NodeId, RoadClass, TurnRestriction};
use crate::sorted_set::{sorted_contains, sorted_unique, strictly_increasing};

verus! {

/// A graph node. Its position is kept by the caller alongside the graph.
#[derive(Clone, Copy, Debug, PartialEq, Eq, Structural)]
pub struct Node {
    pub id: NodeId,
}

impl Node {
    pub fn new(id: NodeId) -> (r: Self)
        ensures
            r.id == id,
    {
        Node { id }
    }
}

/// A directed road edge with the attributes that routing decisions read.
#[derive(Clone, Debug, PartialEq)]
pub struct Edge {
    pub id: EdgeId,
    pub from: NodeId,
    pub to: NodeId,
    pub road_class: RoadClass,
    pub lanes: Option<u8>,
    pub name: Option<String>,
    pub source_way_id: Option<i64>,
    pub traffic_signal_at_end: bool,
    pub signal_controlled_at_end: bool,
}

impl Edge {
    pub fn new(id: EdgeId, from: NodeId, to: NodeId, road_class: RoadClass) -> (r: Self)
        ensures
            r.id == id,
            r.from == from,
            r.to == to,
            r.road_class == road_class,
            r.lanes is None,
            r.name is None,
            r.source_way_id is None,
            !r.traffic_signal_at_end,
            !r.signal_controlled_at_end,
    {
        Edge {
            id,
            from,
            to,
            road_class,
            lanes: None,
            name: None,
            source_way_id: None,
            traffic_signal_at_end: false,
            signal_controlled_at_end: false,
        }
    }
}

/// Number of distinct `u32` identifiers.
pub open spec fn id_limit() -> int {
    0x1_0000_0000
}

/// The position of a restriction in the lexicographic `(from, to)` order.
pub open spec fn restriction_key(r: TurnRestriction) -> int {
    r.from.0 * 0x1_0000_0000 + r.to.0
}

pub open spec fn capacity_fault(kind: IdKind, count: int) -> Option<Error> {
    if count > id_limit() {
        Some(Error::IdCapacity { kind, count: count as usize })
    } else {
        None
    }
}

pub open spec fn node_fault(node: Node, i: int) -> Option<Error> {
    if node.id.0 != i {
        Some(Error::NonDenseNodeId { expected: i as u32, actual: node.id.0 })
    } else {
        None
    }
}

pub open spec fn edge_fault(edge: Edge, i: int, node_count: int) -> Option<Error> {
    if edge.id.0 != i {
        Some(Error::NonDenseEdgeId { expected: i as u32, actual: edge.id.0 })
    } else if edge.from.0 >= node_count {
        Some(Error::MissingNode { edge: edge.id, node: edge.from })
    } else if edge.to.0 >= node_count {
        Some(Error::MissingNode { edge: edge.id, node: edge.to })
    } else if edge.lanes == Some(0u8) {
        Some(Error::InvalidLanes { edge: edge.id })
    } else {
        None
    }
}

pub open spec fn restriction_fault(edges: Seq<Edge>, r: TurnRestriction) -> Option<Error> {
    if r.from.0 >= edges.len() {
        Some(Error::MissingRestrictionEdge(r.from))
    } else if r.to.0 >= edges.len() {
        Some(Error::MissingRestrictionEdge(r.to))
    } else if edges[r.from.0 as int].to != edges[r.to.0 as int].from {
        Some(Error::InvalidTurnRestriction { from: r.from, to: r.to })
    } else {
        None
    }
}

/// The first fault of a sequence of per-item checks, checked in order.
pub open spec fn first_fault(faults: Seq<Option<Error>>) -> Option<Error>
    decreases faults.len(),
{
    if faults.len() == 0 {
        None
    } else {
        match first_fault(faults.drop_last()) {
            Some(e) => Some(e),
            None => faults.last(),
        }
    }
}

pub open spec fn node_faults(nodes: Seq<Node>) -> Seq<Option<Error>> {
    Seq::new(nodes.len(), |i: int| node_fault(nodes[i], i))
}

pub open spec fn edge_faults(edges: Seq<Edge>, node_count: int) -> Seq<Option<Error>> {
    Seq::new(edges.len(), |i: int| edge_fault(edges[i], i, node_count))
}

/// The first problem with the nodes and edges of a graph, in the order they are checked:
/// identifier capacity, dense node identifiers, presence of edges, then each edge in turn.
pub open spec fn structure_fault(nodes: Seq<Node>, edges: Seq<Edge>) -> Option<Error> {
    if capacity_fault(IdKind::Nodes, nodes.len() as int) is Some {
        capacity_fault(IdKind::Nodes, nodes.len() as int)
    } else if capacity_fault(IdKind::Edges, edges.len() as int) is Some {
        capacity_fault(IdKind::Edges, edges.len() as int)
    } else if first_fault(node_faults(nodes)) is Some {
        first_fault(node_faults(nodes))
    } else if edges.len() == 0 {
        Some(Error::EmptyGraph)
    } else {
        first_fault(edge_faults(edges, nodes.len() as int))
    }
}

/// `s` lists exactly the edges leaving node `u`, in increasing identifier order.
pub open spec fn lists_outgoing(s: Seq<EdgeId>, edges: Seq<Edge>, u: int) -> bool {
    &&& forall|i: int, j: int| 0 <= i < j < s.len() ==> s[i].0 < s[j].0
    &&& forall|k: int|
        0 <= k < s.len() ==> s[k].0 < edges.len() && edges[s[k].0 as int].from.0 == u
    &&& forall|e: int|
        0 <= e < edges.len() && edges[e].from.0 == u ==> exists|k: int|
            0 <= k < s.len() && s[k].0 == e
}

/// Whether a node is an endpoint of some edge.
pub open spec fn touches_edge(edges: Seq<Edge>, u: int) -> bool {
    exists|e: int| 0 <= e < edges.len() && (edges[e].from.0 == u || edges[e].to.0 == u)
}

#[derive(Clone, Debug)]
pub struct RoadGraph {
    nodes: Vec<Node>,
    edges: Vec<Edge>,
    turn_restrictions: Vec<TurnRestriction>,
    outgoing: Vec<Vec<EdgeId>>,
    forbidden_outgoing: Vec<Vec<u64>>,
    routable: Vec<bool>,
}

impl RoadGraph {
    pub closed spec fn spec_nodes(&self) -> Seq<Node> {
        self.nodes@
    }

    pub closed spec fn spec_edges(&self) -> Seq<Edge> {
        self.edges@
    }

    pub closed spec fn spec_restrictions(&self) -> Seq<TurnRestriction> {
        self.turn_restrictions@
    }

    pub closed spec fn spec_outgoing(&self) -> Seq<Seq<EdgeId>> {
        Seq::new(self.outgoing@.len(), |i: int| self.outgoing@[i]@)
    }

    pub closed spec fn spec_forbidden(&self) -> Seq<Seq<u64>> {
        Seq::new(self.forbidden_outgoing@.len(), |i: int| self.forbidden_outgoing@[i]@)
    }

    pub closed spec fn spec_routable(&self) -> Seq<bool> {
        self.routable@
    }

    pub open spec fn node_count_spec(&self) -> int {
        self.spec_nodes().len() as int
    }

    pub open spec fn edge_count_spec(&self) -> int {
        self.spec_edges().len() as int
    }

    /// Whether the graph forbids moving from `p` directly onto `n`.
    pub open spec fn restricted(&self, p: int, n: int) -> bool {
        exists|k: int|
            0 <= k < self.spec_restrictions().len() && self.spec_restrictions()[k].from.0 == p
                && self.spec_restrictions()[k].to.0 == n
    }

    /// Moving from edge `p` onto edge `n` (which starts where `p` ends) is allowed when it
    /// does not immediately reverse `p` and no turn restriction forbids it.
    pub open spec fn spec_transition_allowed(&self, p: int, n: int) -> bool {
        self.spec_edges()[p].from != self.spec_edges()[n].to && !self.restricted(p, n)
    }

    /// The graph's invariant.
    pub open spec fn wf(&self) -> bool {
        let nodes = self.spec_nodes();
        let edges = self.spec_edges();
        let rs = self.spec_restrictions();
        &&& nodes.len() <= id_limit()
        &&& 1 <= edges.len() <= id_limit()
        &&& forall|i: int| 0 <= i < nodes.len() ==> (#[trigger] nodes[i]).id.0 == i
        &&& forall|i: int|
            0 <= i < edges.len() ==> (#[trigger] edges[i]).id.0 == i && edges[i].from.0
                < nodes.len() && edges[i].to.0 < nodes.len() && edges[i].lanes != Some(0u8)
        &&& self.spec_outgoing().len() == nodes.len()
        &&& forall|u: int|
            0 <= u < nodes.len() ==> lists_outgoing(#[trigger] self.spec_outgoing()[u], edges, u)
        &&& forall|i: int, j: int|
            0 <= i < j < rs.len() ==> restriction_key(rs[i]) < restriction_key(rs[j])
        &&& forall|i: int| 0 <= i < rs.len() ==> restriction_fault(edges, #[trigger] rs[i]) is None
        &&& self.spec_forbidden().len() == edges.len()
        &&& forall|p: int|
            0 <= p < edges.len() ==> strictly_increasing(#[trigger] self.spec_forbidden()[p])
        &&& forall|p: int, t: u64|
            0 <= p < edges.len() ==> (#[trigger] self.spec_forbidden()[p].contains(t)
                <==> self.restricted(p, t as int))
        &&& self.spec_routable().len() == nodes.len()
        &&& forall|u: int|
            0 <= u < nodes.len() ==> (#[trigger] self.spec_routable()[u] <==> touches_edge(
                edges,
                u,
            ))
    }
}

proof fn lemma_first_fault_step(faults: Seq<Option<Error>>, i: int)
    requires
        0 <= i < faults.len(),
        first_fault(faults.take(i)) is None,
    ensures
        first_fault(faults.take(i + 1)) == faults[i],
{
    assert(faults.take(i + 1).drop_last() == faults.take(i));
}

proof fn lemma_first_fault_all(faults: Seq<Option<Error>>)
    ensures
        faults.take(faults.len() as int) == faults,
{
    assert(faults.take(faults.len() as int) =~= faults);
}


proof fn lemma_first_fault_prefix(faults: Seq<Option<Error>>, i: int)
    requires
        0 <= i <= faults.len(),
        first_fault(faults.take(i)) is Some,
    ensures
        first_fault(faults) == first_fault(faults.take(i)),
    decreases faults.len() - i,
{
    if i < faults.len() {
        let j = faults.len() - 1;
        assert(faults.take(i) == faults.drop_last().take(i));
        lemma_first_fault_prefix(faults.drop_last(), i);
    }
    else {
        assert(faults.take(i) == faults);
    }
}

pub fn validate_capacity(kind: IdKind, count: usize) -> (r: Result<(), Error>)
    ensures
        r is Ok <==> capacity_fault(kind, count as int) is None,
        r matches Err(e) ==> capacity_fault(kind, count as int) == Some(e),
{
    if count as u64 > 0xffff_ffffu64 + 1 {
        Err(Error::IdCapacity { kind, count })
    } else {
        Ok(())
    }
}


/// Checks the nodes and edges and builds the adjacency lists and the endpoint flags.
fn index_structure(nodes: &Vec<Node>, edges: &Vec<Edge>) -> (r: Result<
    (Vec<Vec<EdgeId>>, Vec<bool>),
    Error,
>)
    ensures
        match structure_fault(nodes@, edges@) {
            Some(e) => r == Err::<(Vec<Vec<EdgeId>>, Vec<bool>), Error>(e),
            None => r matches Ok((out, routable)) && out@.len() == nodes@.len() && (forall|u: int|
                0 <= u < nodes@.len() ==> lists_outgoing(#[trigger] out@[u]@, edges@, u))
                && routable@.len() == nodes@.len() && (forall|u: int|
                0 <= u < nodes@.len() ==> (#[trigger] routable@[u] <==> touches_edge(edges@, u))),
        },
{
    validate_capacity(IdKind::Nodes, nodes.len())?;
    validate_capacity(IdKind::Edges, edges.len())?;
    let n = nodes.len();
    let ghost nf = node_faults(nodes@);
    let mut i: usize = 0;
    while i < n
        invariant
            n == nodes@.len() <= id_limit(),
            edges@.len() <= id_limit(),
            nf == node_faults(nodes@),
            i <= n,
            first_fault(nf.take(i as int)) is None,
        decreases n - i,
    {
        proof {
            lemma_first_fault_step(nf, i as int);
        }
        let expected = i as u32;
        if nodes[i].id.0 != expected {
            proof {
                lemma_first_fault_prefix(nf, i as int + 1);
            }
            return Err(Error::NonDenseNodeId { expected, actual: nodes[i].id.0 });
        }
        i = i + 1;
    }
    proof {
        lemma_first_fault_all(nf);
    }
    if edges.len() == 0 {
        return Err(Error::EmptyGraph);
    }
    let mut outgoing: Vec<Vec<EdgeId>> = Vec::new();
    let mut routable: Vec<bool> = Vec::new();
    let mut u: usize = 0;
    while u < n
        invariant
            n == nodes@.len(),
            u <= n,
            outgoing@.len() == u,
            routable@.len() == u,
            forall|v: int| 0 <= v < u ==> (#[trigger] outgoing@[v])@.len() == 0,
            forall|v: int| 0 <= v < u ==> !(#[trigger] routable@[v]),
        decreases n - u,
    {
        outgoing.push(Vec::new());
        routable.push(false);
        u = u + 1;
    }
    let m = edges.len();
    let ghost ef = edge_faults(edges@, n as int);
    let mut j: usize = 0;
    while j < m
        invariant
            n == nodes@.len() <= id_limit(),
            m == edges@.len() <= id_limit(),
            ef == edge_faults(edges@, n as int),
            first_fault(node_faults(nodes@)) is None,
            j <= m,
            first_fault(ef.take(j as int)) is None,
            outgoing@.len() == n,
            routable@.len() == n,
            forall|v: int|
                0 <= v < n ==> lists_outgoing(#[trigger] outgoing@[v]@, edges@.take(j as int), v),
            forall|v: int|
                0 <= v < n ==> (#[trigger] routable@[v] <==> touches_edge(
                    edges@.take(j as int),
                    v,
                )),
        decreases m - j,
    {
        proof {
            lemma_first_fault_step(ef, j as int);
        }
        let expected = j as u32;
        let edge = &edges[j];
        if edge.id.0 != expected {
            proof {
                lemma_first_fault_all(ef);
                lemma_first_fault_prefix(ef, j as int + 1);
            }
            return Err(Error::NonDenseEdgeId { expected, actual: edge.id.0 });
        }
        if edge.from.0 as usize >= n {
            proof {
                lemma_first_fault_all(ef);
                lemma_first_fault_prefix(ef, j as int + 1);
            }
            return Err(Error::MissingNode { edge: edge.id, node: edge.from });
        }
        if edge.to.0 as usize >= n {
            proof {
                lemma_first_fault_all(ef);
                lemma_first_fault_prefix(ef, j as int + 1);
            }
            return Err(Error::MissingNode { edge: edge.id, node: edge.to });
        }
        if let Some(lanes) = edge.lanes {
            if lanes == 0 {
                proof {
                    lemma_first_fault_all(ef);
                    lemma_first_fault_prefix(ef, j as int + 1);
                }
                return Err(Error::InvalidLanes { edge: edge.id });
            }
        }
        let f = edge.from.0 as usize;
        let t = edge.to.0 as usize;
        let ghost old_out = outgoing@;
        let ghost old_routable = routable@;
        outgoing[f].push(edge.id);
        routable.set(f, true);
        routable.set(t, true);
        proof {
            let pre = edges@.take(j as int);
            let post = edges@.take(j as int + 1);
            assert(post == pre.push(edges@[j as int]));
            assert forall|v: int|
                0 <= v < n implies lists_outgoing(#[trigger] outgoing@[v]@, post, v) by {
                let s = outgoing@[v]@;
                let s0 = old_out[v]@;
                assert(lists_outgoing(s0, pre, v));
                if v == f {
                    assert(s == s0.push(EdgeId(j as u32)));
                    assert forall|e: int| 0 <= e < post.len() && post[e].from.0 == v implies exists|
                        k: int,
                    | 0 <= k < s.len() && s[k].0 == e by {
                        if e < j {
                            assert(pre[e] == post[e]);
                            let k = choose|k: int| 0 <= k < s0.len() && s0[k].0 == e;
                            assert(s[k] == s0[k]);
                        } else {
                            assert(s[s0.len() as int].0 == e);
                        }
                    }
                    assert forall|k: int| 0 <= k < s.len() implies s[k].0 < post.len()
                        && post[s[k].0 as int].from.0 == v by {
                        if k < s0.len() {
                            assert(pre[s0[k].0 as int] == post[s0[k].0 as int]);
                        }
                    }
                } else {
                    assert(s == s0);
                    assert forall|e: int| 0 <= e < post.len() && post[e].from.0 == v implies exists|
                        k: int,
                    | 0 <= k < s.len() && s[k].0 == e by {
                        assert(pre[e] == post[e]);
                    }
                    assert forall|k: int| 0 <= k < s.len() implies s[k].0 < post.len()
                        && post[s[k].0 as int].from.0 == v by {
                        assert(pre[s0[k].0 as int] == post[s0[k].0 as int]);
                    }
                }
            }
            assert forall|v: int|
                0 <= v < n implies (#[trigger] routable@[v] <==> touches_edge(post, v)) by {
                if touches_edge(pre, v) {
                    let e = choose|e: int|
                        0 <= e < pre.len() && (pre[e].from.0 == v || pre[e].to.0 == v);
                    assert(post[e] == pre[e]);
                }
                if v == f || v == t {
                    assert(post[j as int] == edges@[j as int]);
                }
                if touches_edge(post, v) && v != f && v != t {
                    let e = choose|e: int|
                        0 <= e < post.len() && (post[e].from.0 == v || post[e].to.0 == v);
                    assert(e < j);
                    assert(post[e] == pre[e]);
                }
            }
        }
        j = j + 1;
    }
    proof {
        lemma_first_fault_all(ef);
        assert(edges@.take(m as int) == edges@);
    }
    Ok((outgoing, routable))
}


pub(crate) proof fn lemma_restriction_key(r: TurnRestriction)
    ensures
        0 <= restriction_key(r) < 0x1_0000_0000_0000_0000,
        restriction_key(r) / 0x1_0000_0000 == r.from.0,
        restriction_key(r) % 0x1_0000_0000 == r.to.0,
{
    let a = r.from.0 as int;
    let b = r.to.0 as int;
    assert(0 <= a * 0x1_0000_0000 + b < 0x1_0000_0000_0000_0000) by (nonlinear_arith)
        requires
            0 <= a < 0x1_0000_0000,
            0 <= b < 0x1_0000_0000,
    ;
    vstd::arithmetic::div_mod::lemma_fundamental_div_mod_converse(
        a * 0x1_0000_0000 + b,
        0x1_0000_0000,
        a,
        b,
    );
}

/// The restriction whose key is `key`.
pub(crate) fn restriction_from_key(key: u64) -> (r: TurnRestriction)
    ensures
        restriction_key(r) == key,
{
    let from = (key / 0x1_0000_0000u64) as u32;
    let to = (key % 0x1_0000_0000u64) as u32;
    let r = TurnRestriction::new(EdgeId(from), EdgeId(to));
    proof {
        lemma_restriction_key(r);
        vstd::arithmetic::div_mod::lemma_fundamental_div_mod(key as int, 0x1_0000_0000);
    }
    r
}

/// The key of a restriction as a machine integer.
pub(crate) fn restriction_key_of(r: TurnRestriction) -> (k: u64)
    ensures
        k == restriction_key(r),
{
    proof {
        lemma_restriction_key(r);
    }
    r.from.0 as u64 * 0x1_0000_0000u64 + r.to.0 as u64
}

pub(crate) proof fn lemma_restriction_key_order(x: TurnRestriction, y: TurnRestriction)
    ensures
        restriction_key(x) < restriction_key(y) <==> (x.from.0 < y.from.0 || (x.from.0
            == y.from.0 && x.to.0 < y.to.0)),
        restriction_key(x) == restriction_key(y) <==> x == y,
{
    let a = x.from.0 as int;
    let b = x.to.0 as int;
    let c = y.from.0 as int;
    let d = y.to.0 as int;
    assert(a * 0x1_0000_0000 + b < c * 0x1_0000_0000 + d <==> (a < c || (a == c && b < d)))
        by (nonlinear_arith)
        requires
            0 <= b < 0x1_0000_0000,
            0 <= d < 0x1_0000_0000,
    ;
    assert(a * 0x1_0000_0000 + b == c * 0x1_0000_0000 + d <==> (a == c && b == d))
        by (nonlinear_arith)
        requires
            0 <= b < 0x1_0000_0000,
            0 <= d < 0x1_0000_0000,
    ;
}

/// Sorts and deduplicates the turn restrictions, checks each against the edges in sorted
/// order, and lists the forbidden successors of every edge.
fn index_restrictions(edges: &Vec<Edge>, restrictions: &Vec<TurnRestriction>) -> (r: Result<
    (Vec<TurnRestriction>, Vec<Vec<u64>>),
    Error,
>)
    ensures
        r matches Ok((rs, fb)) ==> {
            &&& forall|i: int, j: int|
                0 <= i < j < rs@.len() ==> restriction_key(rs@[i]) < restriction_key(rs@[j])
            &&& forall|x: TurnRestriction| rs@.contains(x) <==> restrictions@.contains(x)
            &&& forall|i: int| 0 <= i < rs@.len() ==> restriction_fault(edges@, #[trigger] rs@[i]) is None
            &&& fb@.len() == edges@.len()
            &&& forall|p: int| 0 <= p < edges@.len() ==> strictly_increasing(#[trigger] fb@[p]@)
            &&& forall|p: int, t: u64|
                0 <= p < edges@.len() ==> (#[trigger] fb@[p]@.contains(t) <==> exists|k: int|
                    0 <= k < rs@.len() && rs@[k].from.0 == p && rs@[k].to.0 == t)
        },
        r matches Err(e) ==> exists|q: TurnRestriction|
            #[trigger] restrictions@.contains(q) && restriction_fault(edges@, q) == Some(e) && (
            forall|p: TurnRestriction|
                restrictions@.contains(p) && restriction_key(p) < restriction_key(q)
                    ==> restriction_fault(edges@, p) is None),
{
    let mut keys: Vec<u64> = Vec::new();
    let mut i: usize = 0;
    while i < restrictions.len()
        invariant
            i <= restrictions@.len(),
            keys@.len() == i,
            forall|k: int| 0 <= k < i ==> keys@[k] == restriction_key(#[trigger] restrictions@[k]),
        decreases restrictions@.len() - i,
    {
        let r = restrictions[i];
        proof {
            lemma_restriction_key(r);
        }
        keys.push(r.from.0 as u64 * 0x1_0000_0000u64 + r.to.0 as u64);
        i = i + 1;
    }
    let sorted = sorted_unique(&keys);
    let m = edges.len();
    let mut fb: Vec<Vec<u64>> = Vec::new();
    let mut p: usize = 0;
    while p < m
        invariant
            m == edges@.len(),
            p <= m,
            fb@.len() == p,
            forall|q: int| 0 <= q < p ==> (#[trigger] fb@[q])@.len() == 0,
        decreases m - p,
    {
        fb.push(Vec::new());
        p = p + 1;
    }
    let mut rs: Vec<TurnRestriction> = Vec::new();
    let mut i: usize = 0;
    while i < sorted.len()
        invariant
            m == edges@.len(),
            i <= sorted@.len(),
            strictly_increasing(sorted@),
            forall|x: u64| sorted@.contains(x) <==> keys@.contains(x),
            keys@.len() == restrictions@.len(),
            forall|k: int|
                0 <= k < keys@.len() ==> keys@[k] == restriction_key(#[trigger] restrictions@[k]),
            rs@.len() == i,
            forall|k: int|
                0 <= k < i ==> restriction_key(#[trigger] rs@[k]) == sorted@[k] as int,
            forall|k: int| 0 <= k < i ==> restriction_fault(edges@, #[trigger] rs@[k]) is None,
            fb@.len() == m,
            forall|q: int| 0 <= q < m ==> strictly_increasing(#[trigger] fb@[q]@),
            forall|q: int, t: u64|
                0 <= q < m ==> (#[trigger] fb@[q]@.contains(t) <==> exists|k: int|
                    0 <= k < i && rs@[k].from.0 == q && rs@[k].to.0 == t),
        decreases sorted@.len() - i,
    {
        let key = sorted[i];
        let from = (key / 0x1_0000_0000u64) as u32;
        let to = (key % 0x1_0000_0000u64) as u32;
        let r = TurnRestriction::new(EdgeId(from), EdgeId(to));
        let ghost q = choose|k: int| 0 <= k < keys@.len() && keys@[k] == key;
        proof {
            assert(sorted@.contains(key));
            assert(keys@.contains(key));
            lemma_restriction_key(r);
            lemma_restriction_key(restrictions@[q]);
            lemma_restriction_key_order(r, restrictions@[q]);
            assert(restrictions@[q] == r);
            assert(restrictions@.contains(r));
            assert forall|x: TurnRestriction|
                restrictions@.contains(x) && restriction_key(x) < restriction_key(r)
                    implies restriction_fault(edges@, x) is None by {
                let kx = choose|kx: int| 0 <= kx < restrictions@.len() && restrictions@[kx] == x;
                assert(keys@[kx] == restriction_key(x));
                assert(keys@.contains(keys@[kx]));
                assert(sorted@.contains(keys@[kx]));
                let ks = choose|ks: int| 0 <= ks < sorted@.len() && sorted@[ks] == keys@[kx];
                assert(ks < i);
                lemma_restriction_key(rs@[ks]);
                lemma_restriction_key_order(rs@[ks], x);
                assert(rs@[ks] == x);
            }
        }
        if from as usize >= m {
            return Err(Error::MissingRestrictionEdge(EdgeId(from)));
        }
        if to as usize >= m {
            return Err(Error::MissingRestrictionEdge(EdgeId(to)));
        }
        if edges[from as usize].to != edges[to as usize].from {
            return Err(Error::InvalidTurnRestriction { from: EdgeId(from), to: EdgeId(to) });
        }
        let ghost old_fb = fb@;
        let ghost old_rs = rs@;
        fb[from as usize].push(to as u64);
        rs.push(r);
        proof {
            assert forall|qq: int| 0 <= qq < m implies strictly_increasing(#[trigger] fb@[qq]@) by {
                if qq == from {
                    let s0 = old_fb[qq]@;
                    assert(fb@[qq]@ == s0.push(to as u64));
                    assert forall|a: int| 0 <= a < s0.len() implies s0[a] < to as u64 by {
                        assert(s0.contains(s0[a]));
                        let k = choose|k: int|
                            0 <= k < i && old_rs[k].from.0 == qq && old_rs[k].to.0 == s0[a];
                        assert(sorted@[k] < sorted@[i as int]);
                        lemma_restriction_key_order(old_rs[k], r);
                    }
                } else {
                    assert(fb@[qq] == old_fb[qq]);
                }
            }
            assert forall|qq: int, t: u64|
                0 <= qq < m implies (#[trigger] fb@[qq]@.contains(t) <==> exists|k: int|
                    0 <= k < i + 1 && rs@[k].from.0 == qq && rs@[k].to.0 == t) by {
                if qq == from {
                    let s0 = old_fb[qq]@;
                    assert(fb@[qq]@ == s0.push(to as u64));
                    if fb@[qq]@.contains(t) {
                        if t == to as u64 {
                            assert(rs@[i as int] == r);
                        } else {
                            let a = choose|a: int| 0 <= a < fb@[qq]@.len() && fb@[qq]@[a] == t;
                            assert(s0[a] == t);
                            assert(s0.contains(t));
                            let k = choose|k: int|
                                0 <= k < i && old_rs[k].from.0 == qq && old_rs[k].to.0 == t;
                            assert(rs@[k] == old_rs[k]);
                        }
                    }
                    if exists|k: int| 0 <= k < i + 1 && rs@[k].from.0 == qq && rs@[k].to.0 == t {
                        let k = choose|k: int|
                            0 <= k < i + 1 && rs@[k].from.0 == qq && rs@[k].to.0 == t;
                        if k == i {
                            assert(fb@[qq]@[s0.len() as int] == t);
                        } else {
                            assert(rs@[k] == old_rs[k]);
                            assert(s0.contains(t));
                            let a = choose|a: int| 0 <= a < s0.len() && s0[a] == t;
                            assert(fb@[qq]@[a] == t);
                        }
                    }
                } else {
                    assert(fb@[qq] == old_fb[qq]);
                    if exists|k: int| 0 <= k < i + 1 && rs@[k].from.0 == qq && rs@[k].to.0 == t {
                        let k = choose|k: int|
                            0 <= k < i + 1 && rs@[k].from.0 == qq && rs@[k].to.0 == t;
                        assert(k != i);
                        assert(rs@[k] == old_rs[k]);
                    }
                    if old_fb[qq]@.contains(t) {
                        let k = choose|k: int|
                            0 <= k < i && old_rs[k].from.0 == qq && old_rs[k].to.0 == t;
                        assert(rs@[k] == old_rs[k]);
                    }
                }
            }
        }
        i = i + 1;
    }
    proof {
        assert forall|i1: int, j1: int|
            0 <= i1 < j1 < rs@.len() implies restriction_key(rs@[i1]) < restriction_key(
            rs@[j1],
        ) by {}
        assert forall|x: TurnRestriction| rs@.contains(x) <==> restrictions@.contains(x) by {
            if rs@.contains(x) {
                let k = choose|k: int| 0 <= k < rs@.len() && rs@[k] == x;
                assert(sorted@.contains(sorted@[k]));
                assert(keys@.contains(sorted@[k]));
                let kk = choose|kk: int| 0 <= kk < keys@.len() && keys@[kk] == sorted@[k];
                lemma_restriction_key_order(restrictions@[kk], x);
            }
            if restrictions@.contains(x) {
                let kk = choose|kk: int| 0 <= kk < restrictions@.len() && restrictions@[kk] == x;
                assert(keys@.contains(keys@[kk]));
                assert(sorted@.contains(keys@[kk]));
                let k = choose|k: int| 0 <= k < sorted@.len() && sorted@[k] == keys@[kk];
                lemma_restriction_key_order(rs@[k], x);
            }
        }
    }
    Ok((rs, fb))
}


proof fn lemma_no_first_fault(faults: Seq<Option<Error>>)
    requires
        first_fault(faults) is None,
    ensures
        forall|i: int| 0 <= i < faults.len() ==> #[trigger] faults[i] is None,
    decreases faults.len(),
{
    if faults.len() > 0 {
        lemma_no_first_fault(faults.drop_last());
        assert forall|i: int| 0 <= i < faults.len() implies #[trigger] faults[i] is None by {
            if i < faults.len() - 1 {
                assert(faults.drop_last()[i] == faults[i]);
            }
        }
    }
}

impl RoadGraph {
    /// Builds a graph without turn restrictions.
    pub fn new(nodes: Vec<Node>, edges: Vec<Edge>) -> (r: Result<RoadGraph, Error>)
        ensures
            structure_fault(nodes@, edges@) matches Some(e) ==> r == Err::<RoadGraph, Error>(e),
            structure_fault(nodes@, edges@) is None ==> (r matches Ok(g) && g.wf()
                && g.spec_nodes() == nodes@ && g.spec_edges() == edges@
                && g.spec_restrictions().len() == 0),
    {
        let r = Self::with_turn_restrictions(nodes, edges, Vec::new());
        proof {
            if let Ok(g) = &r {
                if g.spec_restrictions().len() > 0 {
                    assert(g.spec_restrictions().contains(g.spec_restrictions()[0]));
                }
            }
        }
        r
    }

    /// Validates nodes, edges and turn restrictions and indexes them for routing.
    ///
    /// Nodes and edges are checked first, in the order given by `structure_fault`; then the
    /// distinct restrictions are checked in increasing `(from, to)` order, and the first one
    /// that names a missing edge or joins edges that do not meet is reported.
    pub fn with_turn_restrictions(
        nodes: Vec<Node>,
        edges: Vec<Edge>,
        turn_restrictions: Vec<TurnRestriction>,
    ) -> (r: Result<RoadGraph, Error>)
        ensures
            structure_fault(nodes@, edges@) matches Some(e) ==> r == Err::<RoadGraph, Error>(e),
            structure_fault(nodes@, edges@) is None ==> {
                &&& r is Ok <==> forall|q: TurnRestriction|
                    #[trigger] turn_restrictions@.contains(q) ==> restriction_fault(edges@, q) is None
                &&& r matches Err(e) ==> exists|q: TurnRestriction|
                    #[trigger] turn_restrictions@.contains(q) && restriction_fault(edges@, q) == Some(e)
                        && (forall|p: TurnRestriction|
                        turn_restrictions@.contains(p) && restriction_key(p) < restriction_key(q)
                            ==> restriction_fault(edges@, p) is None)
                &&& r matches Ok(g) ==> {
                    &&& g.wf()
                    &&& g.spec_nodes() == nodes@
                    &&& g.spec_edges() == edges@
                    &&& forall|x: TurnRestriction|
                        g.spec_restrictions().contains(x) <==> turn_restrictions@.contains(x)
                }
            },
    {
        let (outgoing, routable) = index_structure(&nodes, &edges)?;
        proof {
            lemma_no_first_fault(node_faults(nodes@));
            lemma_no_first_fault(edge_faults(edges@, nodes@.len() as int));
            assert forall|i: int| 0 <= i < nodes@.len() implies (#[trigger] nodes@[i]).id.0 == i by {
                assert(node_faults(nodes@)[i] is None);
            }
            assert forall|i: int| 0 <= i < edges@.len() implies (#[trigger] edges@[i]).id.0 == i
                && edges@[i].from.0 < nodes@.len() && edges@[i].to.0 < nodes@.len()
                && edges@[i].lanes != Some(0u8) by {
                assert(edge_faults(edges@, nodes@.len() as int)[i] is None);
            }
        }
        let (rs, fb) = match index_restrictions(&edges, &turn_restrictions) {
            Ok(v) => v,
            Err(e) => {
                proof {
                    let q = choose|q: TurnRestriction|
                        #[trigger] turn_restrictions@.contains(q) && restriction_fault(edges@, q)
                            == Some(e) && (forall|p: TurnRestriction|
                            turn_restrictions@.contains(p) && restriction_key(p)
                                < restriction_key(q) ==> restriction_fault(edges@, p) is None);
                    assert(turn_restrictions@.contains(q));
                }
                return Err(e);
            },
        };
        let g = RoadGraph {
            nodes,
            edges,
            turn_restrictions: rs,
            outgoing,
            forbidden_outgoing: fb,
            routable,
        };
        proof {
            assert(g.spec_outgoing().len() == g.spec_nodes().len());
            assert forall|u: int| 0 <= u < g.spec_nodes().len() implies lists_outgoing(
                #[trigger] g.spec_outgoing()[u],
                g.spec_edges(),
                u,
            ) by {
                assert(g.spec_outgoing()[u] == g.outgoing@[u]@);
            }
            assert forall|p: int| 0 <= p < g.spec_edges().len() implies strictly_increasing(
                #[trigger] g.spec_forbidden()[p],
            ) by {
                assert(g.spec_forbidden()[p] == g.forbidden_outgoing@[p]@);
            }
            assert forall|p: int, t: u64| 0 <= p < g.spec_edges().len() implies (
            #[trigger] g.spec_forbidden()[p].contains(t) <==> g.restricted(p, t as int)) by {
                assert(g.spec_forbidden()[p] == g.forbidden_outgoing@[p]@);
            }
            assert forall|q: TurnRestriction| #[trigger]
                turn_restrictions@.contains(q) implies restriction_fault(g.spec_edges(), q) is None by {
                assert(g.spec_restrictions().contains(q));
                let k = choose|k: int|
                    0 <= k < g.spec_restrictions().len() && g.spec_restrictions()[k] == q;
                assert(restriction_fault(g.spec_edges(), g.spec_restrictions()[k]) is None);
            }
        }
        Ok(g)
    }

    pub fn nodes(&self) -> (r: &[Node])
        ensures
            r@ == self.spec_nodes(),
    {
        self.nodes.as_slice()
    }

    pub fn edges(&self) -> (r: &[Edge])
        ensures
            r@ == self.spec_edges(),
    {
        self.edges.as_slice()
    }

    pub fn node(&self, id: NodeId) -> (r: Option<&Node>)
        ensures
            id.0 < self.spec_nodes().len() ==> r == Some(&self.spec_nodes()[id.0 as int]),
            id.0 >= self.spec_nodes().len() ==> r is None,
    {
        if (id.0 as usize) < self.nodes.len() {
            Some(&self.nodes[id.0 as usize])
        } else {
            None
        }
    }

    pub fn edge(&self, id: EdgeId) -> (r: Option<&Edge>)
        ensures
            id.0 < self.spec_edges().len() ==> r == Some(&self.spec_edges()[id.0 as int]),
            id.0 >= self.spec_edges().len() ==> r is None,
    {
        if (id.0 as usize) < self.edges.len() {
            Some(&self.edges[id.0 as usize])
        } else {
            None
        }
    }

    /// The distinct turn restrictions in increasing `(from, to)` order.
    pub fn turn_restrictions(&self) -> (r: &[TurnRestriction])
        ensures
            r@ == self.spec_restrictions(),
    {
        self.turn_restrictions.as_slice()
    }

    /// Whether the route may continue from edge `previous` directly onto edge `next`.
    pub fn transition_allowed(&self, previous: EdgeId, next: EdgeId) -> (r: Result<bool, Error>)
        requires
            self.wf(),
        ensures
            (previous.0 >= self.edge_count_spec() || next.0 >= self.edge_count_spec()) ==> r
                == Err::<bool, Error>(Error::InvalidRoute(RouteDefect::MissingEdge)),
            previous.0 < self.edge_count_spec() && next.0 < self.edge_count_spec()
                && self.spec_edges()[previous.0 as int].to != self.spec_edges()[next.0 as int].from
                ==> r == Err::<bool, Error>(Error::InvalidRoute(RouteDefect::NotContiguous)),
            previous.0 < self.edge_count_spec() && next.0 < self.edge_count_spec()
                && self.spec_edges()[previous.0 as int].to == self.spec_edges()[next.0 as int].from
                ==> r == Ok::<bool, Error>(
                self.spec_transition_allowed(previous.0 as int, next.0 as int),
            ),
    {
        let p = previous.0 as usize;
        let n = next.0 as usize;
        if p >= self.edges.len() || n >= self.edges.len() {
            return Err(Error::InvalidRoute(RouteDefect::MissingEdge));
        }
        let previous_edge = &self.edges[p];
        let next_edge = &self.edges[n];
        if previous_edge.to != next_edge.from {
            return Err(Error::InvalidRoute(RouteDefect::NotContiguous));
        }
        proof {
            assert(self.spec_forbidden()[p as int] == self.forbidden_outgoing@[p as int]@);
            assert(strictly_increasing(self.spec_forbidden()[p as int]));
        }
        let forbidden = sorted_contains(self.forbidden_outgoing[p].as_slice(), n as u64);
        Ok(previous_edge.from != next_edge.to && !forbidden)
    }

    /// The edges leaving a node, in increasing identifier order.
    pub fn outgoing(&self, id: NodeId) -> (r: Result<&[EdgeId], Error>)
        requires
            self.wf(),
        ensures
            id.0 < self.node_count_spec() ==> (r matches Ok(s) && s@ == self.spec_outgoing()[
                id.0 as int]),
            id.0 >= self.node_count_spec() ==> r == Err::<&[EdgeId], Error>(Error::NodeNotFound(id)),
    {
        if (id.0 as usize) < self.outgoing.len() {
            proof {
                assert(self.spec_outgoing()[id.0 as int] == self.outgoing@[id.0 as int]@);
            }
            Ok(self.outgoing[id.0 as usize].as_slice())
        } else {
            Err(Error::NodeNotFound(id))
        }
    }

    /// Whether a node is the endpoint of at least one edge, and so a candidate for snapping.
    pub fn is_routable(&self, id: NodeId) -> (r: bool)
        requires
            self.wf(),
        ensures
            r == (id.0 < self.node_count_spec() && touches_edge(self.spec_edges(), id.0 as int)),
    {
        (id.0 as usize) < self.routable.len() && self.routable[id.0 as usize]
    }

    pub fn node_count(&self) -> (r: usize)
        ensures
            r == self.node_count_spec(),
    {
        self.nodes.len()
    }

    pub fn edge_count(&self) -> (r: usize)
        ensures
            r == self.edge_count_spec(),
    {
        self.edges.len()
    }

    pub fn into_parts(self) -> (r: (Vec<Node>, Vec<Edge>))
        ensures
            r.0@ == self.spec_nodes(),
            r.1@ == self.spec_edges(),
    {
        (self.nodes, self.edges)
    }

    pub fn into_parts_with_turn_restrictions(self) -> (r: (Vec<Node>, Vec<Edge>, Vec<TurnRestriction>))
        ensures
            r.0@ == self.spec_nodes(),
            r.1@ == self.spec_edges(),
            r.2@ == self.spec_restrictions(),
    {
        (self.nodes, self.edges, self.turn_restrictions)
    }
}

} // verus!
