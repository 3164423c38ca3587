//! What is decided about a route once its edges are known: whether the edges form a
//! drivable route, which preference penalties each transition incurs, the turn counts of
//! the route, its joined geometry, and the cost table of the travel-time cost model.

use vstd::prelude::*;

use crate::error::{Error, RouteDefect};
use crate::graph::{first_fault, RoadGraph};
use crate::ids::{EdgeId, Maneuver};
use crate::routing::{copy_entry, same_entry, CostTable};

verus! {

/// What is known about one transition of a route, as the cost model sees it.
#[derive(Clone, Copy, Debug, PartialEq, Eq, Structural)]
pub struct TransitionFacts {
    /// The turn made onto the edge, when there is a previous edge.
    pub maneuver: Option<Maneuver>,
    /// The previous edge ends at a signal-controlled intersection.
    pub signal_controlled: bool,
    /// The previous edge ends at a traffic signal.
    pub traffic_signal: bool,
    /// The movement reverses direction, at the junction or along the edge.
    pub u_turn_like: bool,
}

/// Which of the preference penalties a transition incurs.
#[derive(Clone, Copy, Debug, PartialEq, Eq, Structural)]
pub struct PenaltyChoice {
    pub traffic_signal: bool,
    pub turn: bool,
    pub left_turn: bool,
    pub u_turn: bool,
}

/// The penalties of a transition: the signal penalty at a traffic signal; a U-turn-like
/// movement pays the U-turn penalty and no turn penalty; otherwise a left or right turn
/// pays the turn penalty, and a left turn that no signal controls pays the left-turn
/// penalty as well.
pub open spec fn spec_penalties(f: TransitionFacts) -> PenaltyChoice {
    PenaltyChoice {
        traffic_signal: f.traffic_signal,
        turn: !f.u_turn_like && (f.maneuver == Some(Maneuver::Left) || f.maneuver == Some(
            Maneuver::Right,
        )),
        left_turn: !f.u_turn_like && f.maneuver == Some(Maneuver::Left) && !f.signal_controlled,
        u_turn: f.u_turn_like,
    }
}

/// The penalties a transition incurs.
pub fn applicable_penalties(f: &TransitionFacts) -> (r: PenaltyChoice)
    ensures
        r == spec_penalties(*f),
{
    let is_left = match f.maneuver {
        Some(Maneuver::Left) => true,
        _ => false,
    };
    let is_right = match f.maneuver {
        Some(Maneuver::Right) => true,
        _ => false,
    };
    PenaltyChoice {
        traffic_signal: f.traffic_signal,
        turn: !f.u_turn_like && (is_left || is_right),
        left_turn: !f.u_turn_like && is_left && !f.signal_controlled,
        u_turn: f.u_turn_like,
    }
}

/// Turn and signal counts of a route.
#[derive(Clone, Copy, Debug, PartialEq, Eq, Structural)]
pub struct TurnCounts {
    pub traffic_signal_count: usize,
    pub left_turn_count: usize,
    pub right_turn_count: usize,
    pub u_turn_count: usize,
    pub signalized_left_turn_count: usize,
    pub unsignalized_left_turn_count: usize,
}

/// A transition counted as a left turn: a left maneuver that is not U-turn-like.
pub open spec fn counts_as_left(f: TransitionFacts) -> bool {
    !f.u_turn_like && f.maneuver == Some(Maneuver::Left)
}

/// A transition counted as a right turn.
pub open spec fn counts_as_right(f: TransitionFacts) -> bool {
    !f.u_turn_like && f.maneuver == Some(Maneuver::Right)
}

/// How many of `facts` satisfy `p`.
pub open spec fn count_where(facts: Seq<TransitionFacts>, p: spec_fn(TransitionFacts) -> bool) -> nat
    decreases facts.len(),
{
    if facts.len() == 0 {
        0
    } else {
        count_where(facts.drop_last(), p) + if p(facts.last()) {
            1nat
        } else {
            0nat
        }
    }
}

proof fn lemma_count_where_bound(facts: Seq<TransitionFacts>, p: spec_fn(TransitionFacts) -> bool)
    ensures
        count_where(facts, p) <= facts.len(),
    decreases facts.len(),
{
    if facts.len() > 0 {
        lemma_count_where_bound(facts.drop_last(), p);
    }
}

/// The counts of a route's transitions: traffic signals passed, left turns (split by
/// whether a signal controls them), right turns, and U-turn-like movements.
pub fn tally_transitions(facts: &[TransitionFacts]) -> (r: TurnCounts)
    ensures
        r.traffic_signal_count == count_where(facts@, |f: TransitionFacts| f.traffic_signal),
        r.u_turn_count == count_where(facts@, |f: TransitionFacts| f.u_turn_like),
        r.left_turn_count == count_where(facts@, |f: TransitionFacts| counts_as_left(f)),
        r.right_turn_count == count_where(facts@, |f: TransitionFacts| counts_as_right(f)),
        r.signalized_left_turn_count == count_where(
            facts@,
            |f: TransitionFacts| counts_as_left(f) && f.signal_controlled,
        ),
        r.unsignalized_left_turn_count == count_where(
            facts@,
            |f: TransitionFacts| counts_as_left(f) && !f.signal_controlled,
        ),
{
    let ghost p_signal = |f: TransitionFacts| f.traffic_signal;
    let ghost p_u = |f: TransitionFacts| f.u_turn_like;
    let ghost p_left = |f: TransitionFacts| counts_as_left(f);
    let ghost p_right = |f: TransitionFacts| counts_as_right(f);
    let ghost p_sl = |f: TransitionFacts| counts_as_left(f) && f.signal_controlled;
    let ghost p_ul = |f: TransitionFacts| counts_as_left(f) && !f.signal_controlled;
    let mut c = TurnCounts {
        traffic_signal_count: 0,
        left_turn_count: 0,
        right_turn_count: 0,
        u_turn_count: 0,
        signalized_left_turn_count: 0,
        unsignalized_left_turn_count: 0,
    };
    let mut i: usize = 0;
    while i < facts.len()
        invariant
            i <= facts@.len(),
            p_signal == (|f: TransitionFacts| f.traffic_signal),
            p_u == (|f: TransitionFacts| f.u_turn_like),
            p_left == (|f: TransitionFacts| counts_as_left(f)),
            p_right == (|f: TransitionFacts| counts_as_right(f)),
            p_sl == (|f: TransitionFacts| counts_as_left(f) && f.signal_controlled),
            p_ul == (|f: TransitionFacts| counts_as_left(f) && !f.signal_controlled),
            c.traffic_signal_count == count_where(facts@.subrange(0, i as int), p_signal),
            c.u_turn_count == count_where(facts@.subrange(0, i as int), p_u),
            c.left_turn_count == count_where(facts@.subrange(0, i as int), p_left),
            c.right_turn_count == count_where(facts@.subrange(0, i as int), p_right),
            c.signalized_left_turn_count == count_where(facts@.subrange(0, i as int), p_sl),
            c.unsignalized_left_turn_count == count_where(facts@.subrange(0, i as int), p_ul),
        decreases facts@.len() - i,
    {
        let f = facts[i];
        let ghost pre = facts@.subrange(0, i as int);
        proof {
            let s = facts@.subrange(0, i + 1);
            assert(s.drop_last() =~= pre);
            assert(s.last() == f);
            lemma_count_where_bound(pre, p_signal);
            lemma_count_where_bound(pre, p_u);
            lemma_count_where_bound(pre, p_left);
            lemma_count_where_bound(pre, p_right);
            lemma_count_where_bound(pre, p_sl);
            lemma_count_where_bound(pre, p_ul);
        }
        if f.traffic_signal {
            c.traffic_signal_count = c.traffic_signal_count + 1;
        }
        if f.u_turn_like {
            c.u_turn_count = c.u_turn_count + 1;
        } else {
            match f.maneuver {
                Some(Maneuver::Left) => {
                    c.left_turn_count = c.left_turn_count + 1;
                    if f.signal_controlled {
                        c.signalized_left_turn_count = c.signalized_left_turn_count + 1;
                    } else {
                        c.unsignalized_left_turn_count = c.unsignalized_left_turn_count + 1;
                    }
                },
                Some(Maneuver::Right) => {
                    c.right_turn_count = c.right_turn_count + 1;
                },
                _ => {},
            }
        }
        i = i + 1;
    }
    proof {
        assert(facts@.subrange(0, i as int) =~= facts@);
    }
    c
}

/// What is wrong at position `i` of an edge sequence, if anything: an unknown edge, an
/// edge that does not start where the previous one ends, or (when `turns` is set) a
/// transition that the graph does not allow.
pub open spec fn route_defect_at(g: &RoadGraph, edges: Seq<EdgeId>, i: int, turns: bool) -> Option<
    Error,
> {
    if edges[i].0 >= g.edge_count_spec() {
        Some(Error::InvalidRoute(RouteDefect::MissingEdge))
    } else if i > 0 && g.spec_edges()[edges[i - 1].0 as int].to != g.spec_edges()[edges[i].0 as int].from {
        Some(Error::InvalidRoute(RouteDefect::NotContiguous))
    } else if turns && i > 0 && !g.spec_transition_allowed(edges[i - 1].0 as int, edges[i].0 as int) {
        Some(Error::ProhibitedTransition { from: edges[i - 1], to: edges[i] })
    } else {
        None
    }
}

pub open spec fn route_defects(g: &RoadGraph, edges: Seq<EdgeId>, turns: bool) -> Seq<Option<Error>> {
    Seq::new(edges.len(), |i: int| route_defect_at(g, edges, i, turns))
}

/// Checks a sequence of edges in order and reports its first defect; with `turns` set,
/// prohibited transitions count as defects too.
pub fn check_route(graph: &RoadGraph, edges: &[EdgeId], turns: bool) -> (r: Result<(), Error>)
    requires
        graph.wf(),
    ensures
        match first_fault(route_defects(graph, edges@, turns)) {
            Some(e) => r == Err::<(), Error>(e),
            None => r is Ok,
        },
{
    let m = graph.edge_count();
    let mut i: usize = 0;
    while i < edges.len()
        invariant
            graph.wf(),
            m == graph.edge_count_spec(),
            i <= edges@.len(),
            first_fault(route_defects(graph, edges@, turns).subrange(0, i as int)) is None,
            forall|k: int| 0 <= k < i ==> edges@[k].0 < m,
        decreases edges@.len() - i,
    {
        let e = edges[i];
        let defect: Option<Error> = if e.0 as usize >= m {
            Some(Error::InvalidRoute(RouteDefect::MissingEdge))
        } else if i > 0 && graph.edges()[edges[i - 1].0 as usize].to != graph.edges()[e.0 as usize].from {
            Some(Error::InvalidRoute(RouteDefect::NotContiguous))
        } else if turns && i > 0 {
            match graph.transition_allowed(edges[i - 1], e) {
                Ok(true) => None,
                Ok(false) => Some(Error::ProhibitedTransition { from: edges[i - 1], to: e }),
                Err(err) => Some(err),
            }
        } else {
            None
        };
        proof {
            let all = route_defects(graph, edges@, turns);
            let s = all.subrange(0, i + 1);
            assert(s.drop_last() =~= all.subrange(0, i as int));
            assert(s.last() == route_defect_at(graph, edges@, i as int, turns));
            assert(defect == route_defect_at(graph, edges@, i as int, turns));
        }
        match defect {
            Some(err) => {
                proof {
                    lemma_first_fault_prefix(route_defects(graph, edges@, turns), i + 1);
                }
                return Err(err);
            },
            None => {},
        }
        i = i + 1;
    }
    proof {
        assert(route_defects(graph, edges@, turns).subrange(0, i as int) =~= route_defects(
            graph,
            edges@,
            turns,
        ));
    }
    Ok(())
}

/// A fault among the first `k` checks is the first fault of all of them.
proof fn lemma_first_fault_prefix(faults: Seq<Option<Error>>, k: int)
    requires
        0 <= k <= faults.len(),
        first_fault(faults.subrange(0, k)) is Some,
    ensures
        first_fault(faults) == first_fault(faults.subrange(0, k)),
    decreases faults.len() - k,
{
    if k < faults.len() {
        let s = faults.subrange(0, k + 1);
        assert(s.drop_last() =~= faults.subrange(0, k));
        assert(first_fault(s) == first_fault(faults.subrange(0, k)));
        lemma_first_fault_prefix(faults, k + 1);
    } else {
        assert(faults.subrange(0, k) =~= faults);
    }
}

/// The points of consecutive edge shapes joined into one line: the first nonempty
/// accumulation takes a whole shape, and each later shape leaves out its first point,
/// which repeats the end of the shape before it.
pub open spec fn joined<T>(shapes: Seq<Seq<T>>) -> Seq<T>
    decreases shapes.len(),
{
    if shapes.len() == 0 {
        Seq::empty()
    } else {
        let acc = joined(shapes.drop_last());
        if acc.len() == 0 {
            shapes.last()
        } else {
            acc + shapes.last().drop_first()
        }
    }
}

/// Joins the shapes of a route's edges into the route's line.
pub fn join_shapes<T: Copy>(shapes: &Vec<Vec<T>>) -> (r: Vec<T>)
    requires
        forall|i: int| 0 <= i < shapes@.len() ==> (#[trigger] shapes@[i])@.len() > 0,
    ensures
        r@ == joined(Seq::new(shapes@.len(), |i: int| shapes@[i]@)),
{
    let ghost all = Seq::new(shapes@.len(), |i: int| shapes@[i]@);
    let mut r: Vec<T> = Vec::new();
    let mut i: usize = 0;
    while i < shapes.len()
        invariant
            all == Seq::new(shapes@.len(), |i: int| shapes@[i]@),
            forall|k: int| 0 <= k < shapes@.len() ==> (#[trigger] shapes@[k])@.len() > 0,
            i <= shapes@.len(),
            r@ == joined(all.subrange(0, i as int)),
        decreases shapes@.len() - i,
    {
        let shape = &shapes[i];
        proof {
            let s = all.subrange(0, i + 1);
            assert(s.drop_last() =~= all.subrange(0, i as int));
            assert(s.last() == shape@);
        }
        let start: usize = if r.len() == 0 {
            0
        } else {
            1
        };
        let ghost before = r@;
        let mut j: usize = start;
        while j < shape.len()
            invariant
                start <= j <= shape@.len(),
                r@ == before + shape@.subrange(start as int, j as int),
            decreases shape@.len() - j,
        {
            r.push(shape[j]);
            proof {
                assert(shape@.subrange(start as int, j + 1) =~= shape@.subrange(
                    start as int,
                    j as int,
                ).push(shape@[j as int]));
            }
            j = j + 1;
        }
        proof {
            if start == 0 {
                assert(shape@.subrange(0, shape@.len() as int) =~= shape@);
            } else {
                assert(shape@.subrange(1, shape@.len() as int) =~= shape@.drop_first());
            }
        }
        i = i + 1;
    }
    proof {
        assert(all.subrange(0, i as int) =~= all);
    }
    r
}

/// The travel-time cost model: a move costs the travel time of the edge entered, whatever
/// edge came before.
#[derive(Clone, Copy, Debug, Default)]
pub struct TravelTimeCost;

impl TravelTimeCost {
    /// The cost table of the graph's moves when entering edge `e` costs `edge_times[e]`; an
    /// error given for an edge stands for every move onto it.
    pub fn cost_table<E: Clone>(&self, graph: &RoadGraph, edge_times: &[Result<u64, E>]) -> (r:
        Result<CostTable<E>, Error>)
        requires
            graph.wf(),
        ensures
            edge_times@.len() != graph.edge_count_spec() ==> r == Err::<CostTable<E>, Error>(
                Error::CostTableMismatch,
            ),
            edge_times@.len() == graph.edge_count_spec() ==> (r matches Ok(t) && {
                &&& t.fits(graph)
                &&& forall|e: int|
                    0 <= e < graph.edge_count_spec() ==> same_entry(
                        edge_times@[e],
                        #[trigger] t.start@[e],
                    )
                &&& forall|p: int, k: int|
                    0 <= p < graph.edge_count_spec() && 0 <= k < t.turns@[p]@.len() ==> same_entry(
                        edge_times@[graph.spec_outgoing()[graph.spec_edges()[p].to.0 as int][k].0 as int],
                        #[trigger] t.turns@[p]@[k],
                    )
            }),
    {
        let m = graph.edge_count();
        if edge_times.len() != m {
            return Err(Error::CostTableMismatch);
        }
        let mut start: Vec<Result<u64, E>> = Vec::new();
        let mut e: usize = 0;
        while e < m
            invariant
                m == edge_times@.len(),
                e <= m,
                start@.len() == e,
                forall|j: int| 0 <= j < e ==> same_entry(edge_times@[j], #[trigger] start@[j]),
            decreases m - e,
        {
            let entry = copy_entry(&edge_times[e]);
            start.push(entry);
            e = e + 1;
        }
        let mut turns: Vec<Vec<Result<u64, E>>> = Vec::new();
        let mut p: usize = 0;
        while p < m
            invariant
                graph.wf(),
                m == graph.edge_count_spec(),
                m == edge_times@.len(),
                p <= m,
                turns@.len() == p,
                forall|q: int|
                    0 <= q < p ==> (#[trigger] turns@[q])@.len() == graph.spec_outgoing()[graph.spec_edges()[q].to.0 as int].len(),
                forall|e: int| 0 <= e < m ==> same_entry(edge_times@[e], #[trigger] start@[e]),
                start@.len() == m,
                forall|q: int, k: int|
                    0 <= q < p && 0 <= k < turns@[q]@.len() ==> same_entry(
                        edge_times@[graph.spec_outgoing()[graph.spec_edges()[q].to.0 as int][k].0 as int],
                        #[trigger] turns@[q]@[k],
                    ),
            decreases m - p,
        {
            let to = graph.edges()[p].to;
            let out = match graph.outgoing(to) {
                Ok(out) => out,
                Err(err) => {
                    proof {
                        assert(false);
                    }
                    return Err(err);
                },
            };
            let mut row: Vec<Result<u64, E>> = Vec::new();
            let mut k: usize = 0;
            while k < out.len()
                invariant
                    graph.wf(),
                    m == graph.edge_count_spec(),
                    m == edge_times@.len(),
                    to.0 < graph.node_count_spec(),
                    out@ == graph.spec_outgoing()[to.0 as int],
                    k <= out@.len(),
                    row@.len() == k,
                    forall|j: int| 0 <= j < k ==> same_entry(edge_times@[out@[j].0 as int], #[trigger] row@[j]),
                decreases out@.len() - k,
            {
                proof {
                    assert(crate::graph::lists_outgoing(out@, graph.spec_edges(), to.0 as int));
                }
                let entry = copy_entry(&edge_times[out[k].0 as usize]);
                row.push(entry);
                k = k + 1;
            }
            turns.push(row);
            p = p + 1;
        }
        Ok(CostTable { start, turns })
    }
}

} // verus!
