//! Properties that relate several parts of the library, stated over the same models that
//! the functions' contracts use.

use vstd::prelude::*;

use crate::error::{Error, SearchError};
use crate::graph::{first_fault, lists_outgoing, restriction_fault, Edge, RoadGraph};
use crate::ids::{EdgeId, Maneuver, NodeId, RoadClass};
use crate::report_text::{escape_char, escaped};
use crate::restrictions::{
    count_outcomes, is_restriction_type, relation_prohibits, restriction_outcome, restriction_value,
    spec_parse_turn_restriction, Member, ParsedRestriction, Relation, RestrictionMode,
    RestrictionOutcome, RestrictionParse,
};
use crate::tags::{
    digits_value, find_tag, is_ascii_digit, spec_access_denied, spec_direction,
    spec_is_traffic_signal, spec_parse_lanes, spec_road_class, spec_traffic_signal_applies,
    Direction,
};
use crate::text::{ascii_lowercase, eq_ignore_ascii_case, trim};
use crate::route::{
    count_where, counts_as_left, counts_as_right, route_defects, spec_penalties, TransitionFacts,
};
use crate::routing::{
    end_state, is_priced, is_walk, known_cost, outgoing_position, search_outcome, state_node,
    step_cost, step_permitted, walk_cost, walk_state, CostTable,
};
use crate::segments::{
    is_first_boundary, closed_boundaries, cyclic_runs, farthest_distinct, is_farthest_distinct, open_boundaries_before,
    ring_boundaries_before, runs_between, spec_closed_segments, spec_open_segments,
};

verus! {

proof fn lemma_all_clear(faults: Seq<Option<Error>>)
    requires
        forall|i: int| 0 <= i < faults.len() ==> #[trigger] faults[i] is None,
    ensures
        first_fault(faults) is None,
    decreases faults.len(),
{
    if faults.len() > 0 {
        let d = faults.drop_last();
        assert forall|i: int| 0 <= i < d.len() implies #[trigger] d[i] is None by {
            assert(d[i] == faults[i]);
        }
        lemma_all_clear(d);
        assert(faults.last() == faults[faults.len() - 1]);
    }
}

/// A walk that the route search may return, one that starts at the origin, drives each
/// edge in its direction and makes only allowed transitions, passes the route check,
/// prohibited transitions included.
pub proof fn walks_pass_route_check(g: &RoadGraph, origin: NodeId, w: Seq<EdgeId>)
    requires
        g.wf(),
        is_walk(g, origin, w),
    ensures
        first_fault(route_defects(g, w, true)) is None,
{
    let faults = route_defects(g, w, true);
    assert forall|i: int| 0 <= i < faults.len() implies #[trigger] faults[i] is None by {
        assert(step_permitted(g, origin, walk_state(w, i), w[i].0 as int));
    }
    lemma_all_clear(faults);
}

/// Moving straight back along the edge just driven is never an allowed transition.
pub proof fn reversal_never_allowed(g: &RoadGraph, p: int, n: int)
    requires
        g.wf(),
        0 <= p < g.edge_count_spec(),
        0 <= n < g.edge_count_spec(),
        g.spec_edges()[n].to == g.spec_edges()[p].from,
    ensures
        !g.spec_transition_allowed(p, n),
{
}

/// A transition named by a turn restriction of the graph is never allowed.
pub proof fn restricted_never_allowed(g: &RoadGraph, k: int)
    requires
        g.wf(),
        0 <= k < g.spec_restrictions().len(),
    ensures
        !g.spec_transition_allowed(
            g.spec_restrictions()[k].from.0 as int,
            g.spec_restrictions()[k].to.0 as int,
        ),
{
}

/// The total of `edge_times` over the edges of `w`.
pub open spec fn total_time(edge_times: Seq<Option<u64>>, w: Seq<EdgeId>) -> int
    decreases w.len(),
{
    if w.len() == 0 {
        0
    } else {
        total_time(edge_times, w.drop_last()) + edge_times[w.last().0 as int].unwrap() as int
    }
}

/// Under the travel-time cost table, a walk costs the sum of its edges' travel times: the
/// route search with this table finds the fastest route.
pub proof fn travel_time_walk_cost<E: Clone>(
    g: &RoadGraph,
    t: &CostTable<E>,
    edge_times: Seq<Option<u64>>,
    origin: NodeId,
    w: Seq<EdgeId>,
)
    requires
        g.wf(),
        t.fits(g),
        forall|e: int| 0 <= e < g.edge_count_spec() ==> known_cost(#[trigger] t.start@[e]) == edge_times[e],
        forall|p: int, k: int|
            0 <= p < g.edge_count_spec() && 0 <= k < t.turns@[p]@.len() ==> known_cost(
                #[trigger] t.turns@[p]@[k],
            ) == edge_times[g.spec_outgoing()[g.spec_edges()[p].to.0 as int][k].0 as int],
        is_walk(g, origin, w),
    ensures
        walk_cost(g, t, w) == total_time(edge_times, w),
    decreases w.len(),
{
    if w.len() > 0 {
        let v = w.drop_last();
        assert forall|i: int| 0 <= i < v.len() implies step_permitted(
            g,
            origin,
            walk_state(v, i),
            (#[trigger] v[i]).0 as int,
        ) by {
            assert(v[i] == w[i]);
            if i > 0 {
                assert(v[i - 1] == w[i - 1]);
            }
        }
        travel_time_walk_cost(g, t, edge_times, origin, v);
        let i = w.len() - 1;
        let e = w.last().0 as int;
        assert(w[i] == w.last());
        assert(step_permitted(g, origin, walk_state(w, i), e));
        let s = walk_state(w, i);
        if s > 0 {
            assert(walk_state(w, i) == w[i - 1].0 + 1);
            let u = g.spec_edges()[s - 1].to.0 as int;
            assert(u == state_node(g, origin, s));
            assert(lists_outgoing(g.spec_outgoing()[u], g.spec_edges(), u));
            assert(exists|k: int| 0 <= k < g.spec_outgoing()[u].len() && g.spec_outgoing()[u][k].0 == e);
            let k = outgoing_position(g, u, e);
            assert(0 <= k < g.spec_outgoing()[u].len() && g.spec_outgoing()[u][k].0 == e);
            assert(step_cost(g, t, s, e) == edge_times[e]);
        }
        assert(walk_state(v, i) == walk_state(w, i)) by {
            if i > 0 {
                assert(v[i - 1] == w[i - 1]);
            }
        }
    }
}

/// The route found with the travel-time cost table is a fastest one: no drivable route
/// from the origin to the destination whose edge times are all known takes less time.
pub proof fn fastest_route_minimizes_travel_time<E: Clone>(
    g: &RoadGraph,
    t: &CostTable<E>,
    edge_times: Seq<Option<u64>>,
    origin: NodeId,
    destination: NodeId,
    path: Vec<EdgeId>,
    v: Seq<EdgeId>,
)
    requires
        g.wf(),
        t.fits(g),
        forall|e: int| 0 <= e < g.edge_count_spec() ==> known_cost(#[trigger] t.start@[e]) == edge_times[e],
        forall|p: int, k: int|
            0 <= p < g.edge_count_spec() && 0 <= k < t.turns@[p]@.len() ==> known_cost(
                #[trigger] t.turns@[p]@[k],
            ) == edge_times[g.spec_outgoing()[g.spec_edges()[p].to.0 as int][k].0 as int],
        search_outcome(g, t, origin, destination, Ok::<Vec<EdgeId>, SearchError<E>>(path)),
        is_walk(g, origin, v),
        is_priced(g, t, v),
        state_node(g, origin, end_state(v)) == destination.0,
    ensures
        total_time(edge_times, path@) <= total_time(edge_times, v),
{
    travel_time_walk_cost(g, t, edge_times, origin, path@);
    travel_time_walk_cost(g, t, edge_times, origin, v);
    assert(walk_cost(g, t, path@) <= walk_cost(g, t, v));
}

/// A U-turn-like movement pays no turn or left-turn penalty, and a left-turn penalty is
/// paid only for a left turn that no signal controls, on top of the turn penalty.
pub proof fn penalties_exclusive(f: TransitionFacts)
    ensures
        spec_penalties(f).u_turn ==> !spec_penalties(f).turn && !spec_penalties(f).left_turn,
        spec_penalties(f).left_turn ==> spec_penalties(f).turn && !f.signal_controlled,
{
}

/// Every left turn of a route is either signalized or unsignalized.
pub proof fn left_turns_split(facts: Seq<TransitionFacts>)
    ensures
        count_where(facts, |f: TransitionFacts| counts_as_left(f)) == count_where(
            facts,
            |f: TransitionFacts| counts_as_left(f) && f.signal_controlled,
        ) + count_where(facts, |f: TransitionFacts| counts_as_left(f) && !f.signal_controlled),
    decreases facts.len(),
{
    if facts.len() > 0 {
        left_turns_split(facts.drop_last());
    }
}

/// Escaped script data contains none of the characters that could end the script element,
/// start markup, or break a JavaScript string: `<`, `>`, `&`, U+2028 and U+2029.
pub proof fn escaped_is_script_safe(s: Seq<char>)
    ensures
        forall|i: int|
            0 <= i < escaped(s).len() ==> {
                let c = #[trigger] escaped(s)[i];
                c != '<' && c != '>' && c != '&' && c != '\u{2028}' && c != '\u{2029}'
            },
    decreases s.len(),
{
    if s.len() > 0 {
        escaped_is_script_safe(s.drop_last());
        let a = escaped(s.drop_last());
        let b = escape_char(s.last());
        assert(escaped(s) == a + b);
        assert forall|i: int| 0 <= i < (a + b).len() implies {
            let c = #[trigger] (a + b)[i];
            c != '<' && c != '>' && c != '&' && c != '\u{2028}' && c != '\u{2029}'
        } by {
            if i < a.len() {
                assert((a + b)[i] == a[i]);
            } else {
                assert((a + b)[i] == b[i - a.len()]);
            }
        }
    }
}

/// A turn restriction built from an OpenStreetMap relation joins two edges of the graph
/// that meet, so the graph accepts it.
pub proof fn built_restrictions_are_accepted(
    rel: Relation,
    node_ids: Seq<i64>,
    edges: Seq<Edge>,
    x: crate::ids::TurnRestriction,
)
    requires
        relation_prohibits(rel, node_ids, edges, x),
    ensures
        restriction_fault(edges, x) is None,
{
}

/// Every relation is counted under exactly one outcome.
pub proof fn restriction_outcomes_partition(rels: Seq<Relation>, node_ids: Seq<i64>, edges: Seq<Edge>)
    ensures
        count_outcomes(rels, node_ids, edges, RestrictionOutcome::Ignored) + count_outcomes(
            rels,
            node_ids,
            edges,
            RestrictionOutcome::Exempt,
        ) + count_outcomes(rels, node_ids, edges, RestrictionOutcome::Unsupported) + count_outcomes(
            rels,
            node_ids,
            edges,
            RestrictionOutcome::Applied,
        ) == rels.len(),
    decreases rels.len(),
{
    if rels.len() > 0 {
        restriction_outcomes_partition(rels.drop_last(), node_ids, edges);
    }
}

proof fn lemma_runs_distinct(nodes: Seq<i64>, b: Seq<usize>)
    ensures
        forall|k: int|
            0 <= k < runs_between(nodes, b).len() ==> nodes[#[trigger] runs_between(nodes, b)[k].0 as int]
                != nodes[runs_between(nodes, b)[k].1 as int],
    decreases b.len(),
{
    if b.len() >= 2 {
        lemma_runs_distinct(nodes, b.drop_last());
        let rest = runs_between(nodes, b.drop_last());
        let r = runs_between(nodes, b);
        assert forall|k: int| 0 <= k < r.len() implies nodes[#[trigger] r[k].0 as int]
            != nodes[r[k].1 as int] by {
            if k < rest.len() {
                assert(r[k] == rest[k]);
            }
        }
    }
}

proof fn lemma_cyclic_distinct(ring: Seq<i64>, b: Seq<usize>, k: int)
    ensures
        forall|j: int|
            0 <= j < cyclic_runs(ring, b, k).len() ==> ring[#[trigger] cyclic_runs(ring, b, k)[j].0 as int]
                != ring[cyclic_runs(ring, b, k)[j].1 as int],
    decreases k,
{
    if k > 0 {
        lemma_cyclic_distinct(ring, b, k - 1);
        let rest = cyclic_runs(ring, b, k - 1);
        let r = cyclic_runs(ring, b, k);
        assert forall|j: int| 0 <= j < r.len() implies ring[#[trigger] r[j].0 as int]
            != ring[r[j].1 as int] by {
            if j < rest.len() {
                assert(r[j] == rest[j]);
            }
        }
    }
}

/// No piece of a way, open or closed, starts and ends at the same node, so splitting ways
/// never creates an edge that loops back to where it began.
pub proof fn segments_have_distinct_ends(nodes: Seq<i64>, routing: Seq<bool>)
    ensures
        forall|k: int|
            0 <= k < spec_open_segments(nodes, routing).len() ==> nodes[#[trigger] spec_open_segments(
                nodes,
                routing,
            )[k].0 as int] != nodes[spec_open_segments(nodes, routing)[k].1 as int],
        forall|k: int|
            0 <= k < spec_closed_segments(nodes, routing).len() ==> nodes[#[trigger] spec_closed_segments(
                nodes,
                routing,
            )[k].0 as int] != nodes[spec_closed_segments(nodes, routing)[k].1 as int],
{
    lemma_runs_distinct(nodes, open_boundaries_before(routing, routing.len() as int));
    let b = closed_boundaries(nodes, routing);
    lemma_cyclic_distinct(nodes, b, b.len() as int);
}

proof fn lemma_no_natural_boundaries(ring: Seq<i64>, routing: Seq<bool>, k: int)
    requires
        forall|i: int| 0 <= i < ring.len() ==> !routing[i],
        k <= ring.len(),
    ensures
        ring_boundaries_before(ring, routing, k).len() == 0,
    decreases k,
{
    if k > 0 {
        lemma_no_natural_boundaries(ring, routing, k - 1);
    }
}

/// A ring with no routing node but at least two different nodes still becomes two pieces,
/// one each way round from its first node to the farthest other node, so it stays
/// connected in both directions.
pub proof fn plain_ring_splits_in_two(ring: Seq<i64>, routing: Seq<bool>, j: int)
    requires
        routing.len() == ring.len(),
        ring.len() <= usize::MAX,
        forall|i: int| 0 <= i < ring.len() ==> !routing[i],
        0 <= j < ring.len(),
        ring[j] != ring[0],
    ensures
        spec_closed_segments(ring, routing).len() == 2,
{
    lemma_no_natural_boundaries(ring, routing, ring.len() as int);
    let f = farthest_distinct(ring, 0);
    if f is None {
        // A position holding another node exists, so a farthest one does: take the first
        // position of greatest separation among those holding another node.
        lemma_farthest_exists(ring, j);
        assert(false);
    }
    let i = f->0;
    assert(is_farthest_distinct(ring, 0, i));
    let b = closed_boundaries(ring, routing);
    assert(b =~= seq![0usize, i as usize]);
    assert(cyclic_runs(ring, b, 0) =~= Seq::<(usize, usize)>::empty());
    assert(cyclic_runs(ring, b, 1) =~= seq![(0usize, i as usize)]);
    assert(cyclic_runs(ring, b, 2) =~= seq![(0usize, i as usize), (i as usize, 0usize)]);
}

proof fn lemma_farthest_exists(ring: Seq<i64>, j: int)
    requires
        0 <= j < ring.len(),
        ring[j] != ring[0],
    ensures
        exists|i: int| is_farthest_distinct(ring, 0, i),
{
    let n = ring.len() as int;
    assert(ring[j] != ring[0]);
    let best = lemma_max_sep(ring, n);
    assert(is_farthest_distinct(ring, 0, best));
}

/// The first position of greatest separation from position 0 among the positions before
/// `k` that hold a node other than the one at 0, when there is one.
proof fn lemma_max_sep(ring: Seq<i64>, k: int) -> (best: int)
    requires
        0 < k <= ring.len(),
        exists|j: int| 0 <= j < k && #[trigger] ring[j] != ring[0],
    ensures
        0 <= best < k,
        ring[best] != ring[0],
        forall|x: int|
            0 <= x < k && ring[x] != ring[0] ==> crate::segments::separation(ring.len() as int, x, 0)
                <= crate::segments::separation(ring.len() as int, best, 0),
        forall|x: int|
            0 <= x < best && ring[x] != ring[0] ==> crate::segments::separation(ring.len() as int, x, 0)
                < crate::segments::separation(ring.len() as int, best, 0),
    decreases k,
{
    let n = ring.len() as int;
    if exists|j: int| 0 <= j < k - 1 && #[trigger] ring[j] != ring[0] {
        let b = lemma_max_sep(ring, k - 1);
        let x = k - 1;
        if ring[x] != ring[0] && crate::segments::separation(n, x, 0) > crate::segments::separation(n, b, 0) {
            x
        } else {
            b
        }
    } else {
        k - 1
    }
}


/// The road class of a way is read from its `highway` tag, without regard to ASCII case:
/// motorways and their links are motorways, trunk roads and their links trunk roads, and so
/// on down to tertiary roads; residential streets, service roads, and living streets,
/// unclassified roads and roads of unknown kind (`road`) each have their class; any other
/// `highway` value is no road for cars.
pub proof fn road_class_by_highway_value(tags: Seq<(String, String)>, h: Seq<char>)
    requires
        find_tag(tags, "highway"@) == Some(h),
    ensures
        ascii_lowercase(h) == "motorway"@ || ascii_lowercase(h) == "motorway_link"@
            ==> spec_road_class(tags) == Some(RoadClass::Motorway),
        ascii_lowercase(h) == "trunk"@ || ascii_lowercase(h) == "trunk_link"@ ==> spec_road_class(
            tags,
        ) == Some(RoadClass::Trunk),
        ascii_lowercase(h) == "primary"@ || ascii_lowercase(h) == "primary_link"@
            ==> spec_road_class(tags) == Some(RoadClass::Primary),
        ascii_lowercase(h) == "secondary"@ || ascii_lowercase(h) == "secondary_link"@
            ==> spec_road_class(tags) == Some(RoadClass::Secondary),
        ascii_lowercase(h) == "tertiary"@ || ascii_lowercase(h) == "tertiary_link"@
            ==> spec_road_class(tags) == Some(RoadClass::Tertiary),
        ascii_lowercase(h) == "residential"@ ==> spec_road_class(tags) == Some(
            RoadClass::Residential,
        ),
        ascii_lowercase(h) == "service"@ ==> spec_road_class(tags) == Some(RoadClass::Service),
        ascii_lowercase(h) == "living_street"@ || ascii_lowercase(h) == "road"@ || ascii_lowercase(
            h,
        ) == "unclassified"@ ==> spec_road_class(tags) == Some(RoadClass::Other),
        spec_road_class(tags) is Some ==> {
            ||| ascii_lowercase(h) == "motorway"@
            ||| ascii_lowercase(h) == "motorway_link"@
            ||| ascii_lowercase(h) == "trunk"@
            ||| ascii_lowercase(h) == "trunk_link"@
            ||| ascii_lowercase(h) == "primary"@
            ||| ascii_lowercase(h) == "primary_link"@
            ||| ascii_lowercase(h) == "secondary"@
            ||| ascii_lowercase(h) == "secondary_link"@
            ||| ascii_lowercase(h) == "tertiary"@
            ||| ascii_lowercase(h) == "tertiary_link"@
            ||| ascii_lowercase(h) == "residential"@
            ||| ascii_lowercase(h) == "service"@
            ||| ascii_lowercase(h) == "living_street"@
            ||| ascii_lowercase(h) == "road"@
            ||| ascii_lowercase(h) == "unclassified"@
        },
{
    assert("trunk"@ != "motorway"@) by {
        reveal_strlit("trunk");
        reveal_strlit("motorway");
        assert("trunk"@.len() != "motorway"@.len());
    }
    assert("trunk"@ != "motorway_link"@) by {
        reveal_strlit("trunk");
        reveal_strlit("motorway_link");
        assert("trunk"@.len() != "motorway_link"@.len());
    }
    assert("trunk_link"@ != "motorway"@) by {
        reveal_strlit("trunk_link");
        reveal_strlit("motorway");
        assert("trunk_link"@.len() != "motorway"@.len());
    }
    assert("trunk_link"@ != "motorway_link"@) by {
        reveal_strlit("trunk_link");
        reveal_strlit("motorway_link");
        assert("trunk_link"@.len() != "motorway_link"@.len());
    }
    assert("primary"@ != "motorway"@) by {
        reveal_strlit("primary");
        reveal_strlit("motorway");
        assert("primary"@.len() != "motorway"@.len());
    }
    assert("primary"@ != "motorway_link"@) by {
        reveal_strlit("primary");
        reveal_strlit("motorway_link");
        assert("primary"@.len() != "motorway_link"@.len());
    }
    assert("primary"@ != "trunk"@) by {
        reveal_strlit("primary");
        reveal_strlit("trunk");
        assert("primary"@.len() != "trunk"@.len());
    }
    assert("primary"@ != "trunk_link"@) by {
        reveal_strlit("primary");
        reveal_strlit("trunk_link");
        assert("primary"@.len() != "trunk_link"@.len());
    }
    assert("primary_link"@ != "motorway"@) by {
        reveal_strlit("primary_link");
        reveal_strlit("motorway");
        assert("primary_link"@.len() != "motorway"@.len());
    }
    assert("primary_link"@ != "motorway_link"@) by {
        reveal_strlit("primary_link");
        reveal_strlit("motorway_link");
        assert("primary_link"@.len() != "motorway_link"@.len());
    }
    assert("primary_link"@ != "trunk"@) by {
        reveal_strlit("primary_link");
        reveal_strlit("trunk");
        assert("primary_link"@.len() != "trunk"@.len());
    }
    assert("primary_link"@ != "trunk_link"@) by {
        reveal_strlit("primary_link");
        reveal_strlit("trunk_link");
        assert("primary_link"@.len() != "trunk_link"@.len());
    }
    assert("secondary"@ != "motorway"@) by {
        reveal_strlit("secondary");
        reveal_strlit("motorway");
        assert("secondary"@.len() != "motorway"@.len());
    }
    assert("secondary"@ != "motorway_link"@) by {
        reveal_strlit("secondary");
        reveal_strlit("motorway_link");
        assert("secondary"@.len() != "motorway_link"@.len());
    }
    assert("secondary"@ != "trunk"@) by {
        reveal_strlit("secondary");
        reveal_strlit("trunk");
        assert("secondary"@.len() != "trunk"@.len());
    }
    assert("secondary"@ != "trunk_link"@) by {
        reveal_strlit("secondary");
        reveal_strlit("trunk_link");
        assert("secondary"@.len() != "trunk_link"@.len());
    }
    assert("secondary"@ != "primary"@) by {
        reveal_strlit("secondary");
        reveal_strlit("primary");
        assert("secondary"@.len() != "primary"@.len());
    }
    assert("secondary"@ != "primary_link"@) by {
        reveal_strlit("secondary");
        reveal_strlit("primary_link");
        assert("secondary"@.len() != "primary_link"@.len());
    }
    assert("secondary_link"@ != "motorway"@) by {
        reveal_strlit("secondary_link");
        reveal_strlit("motorway");
        assert("secondary_link"@.len() != "motorway"@.len());
    }
    assert("secondary_link"@ != "motorway_link"@) by {
        reveal_strlit("secondary_link");
        reveal_strlit("motorway_link");
        assert("secondary_link"@.len() != "motorway_link"@.len());
    }
    assert("secondary_link"@ != "trunk"@) by {
        reveal_strlit("secondary_link");
        reveal_strlit("trunk");
        assert("secondary_link"@.len() != "trunk"@.len());
    }
    assert("secondary_link"@ != "trunk_link"@) by {
        reveal_strlit("secondary_link");
        reveal_strlit("trunk_link");
        assert("secondary_link"@.len() != "trunk_link"@.len());
    }
    assert("secondary_link"@ != "primary"@) by {
        reveal_strlit("secondary_link");
        reveal_strlit("primary");
        assert("secondary_link"@.len() != "primary"@.len());
    }
    assert("secondary_link"@ != "primary_link"@) by {
        reveal_strlit("secondary_link");
        reveal_strlit("primary_link");
        assert("secondary_link"@.len() != "primary_link"@.len());
    }
    assert("tertiary"@ != "motorway"@) by {
        reveal_strlit("tertiary");
        reveal_strlit("motorway");
        assert("tertiary"@[0] != "motorway"@[0]);
    }
    assert("tertiary"@ != "motorway_link"@) by {
        reveal_strlit("tertiary");
        reveal_strlit("motorway_link");
        assert("tertiary"@.len() != "motorway_link"@.len());
    }
    assert("tertiary"@ != "trunk"@) by {
        reveal_strlit("tertiary");
        reveal_strlit("trunk");
        assert("tertiary"@.len() != "trunk"@.len());
    }
    assert("tertiary"@ != "trunk_link"@) by {
        reveal_strlit("tertiary");
        reveal_strlit("trunk_link");
        assert("tertiary"@.len() != "trunk_link"@.len());
    }
    assert("tertiary"@ != "primary"@) by {
        reveal_strlit("tertiary");
        reveal_strlit("primary");
        assert("tertiary"@.len() != "primary"@.len());
    }
    assert("tertiary"@ != "primary_link"@) by {
        reveal_strlit("tertiary");
        reveal_strlit("primary_link");
        assert("tertiary"@.len() != "primary_link"@.len());
    }
    assert("tertiary"@ != "secondary"@) by {
        reveal_strlit("tertiary");
        reveal_strlit("secondary");
        assert("tertiary"@.len() != "secondary"@.len());
    }
    assert("tertiary"@ != "secondary_link"@) by {
        reveal_strlit("tertiary");
        reveal_strlit("secondary_link");
        assert("tertiary"@.len() != "secondary_link"@.len());
    }
    assert("tertiary_link"@ != "motorway"@) by {
        reveal_strlit("tertiary_link");
        reveal_strlit("motorway");
        assert("tertiary_link"@.len() != "motorway"@.len());
    }
    assert("tertiary_link"@ != "motorway_link"@) by {
        reveal_strlit("tertiary_link");
        reveal_strlit("motorway_link");
        assert("tertiary_link"@[0] != "motorway_link"@[0]);
    }
    assert("tertiary_link"@ != "trunk"@) by {
        reveal_strlit("tertiary_link");
        reveal_strlit("trunk");
        assert("tertiary_link"@.len() != "trunk"@.len());
    }
    assert("tertiary_link"@ != "trunk_link"@) by {
        reveal_strlit("tertiary_link");
        reveal_strlit("trunk_link");
        assert("tertiary_link"@.len() != "trunk_link"@.len());
    }
    assert("tertiary_link"@ != "primary"@) by {
        reveal_strlit("tertiary_link");
        reveal_strlit("primary");
        assert("tertiary_link"@.len() != "primary"@.len());
    }
    assert("tertiary_link"@ != "primary_link"@) by {
        reveal_strlit("tertiary_link");
        reveal_strlit("primary_link");
        assert("tertiary_link"@.len() != "primary_link"@.len());
    }
    assert("tertiary_link"@ != "secondary"@) by {
        reveal_strlit("tertiary_link");
        reveal_strlit("secondary");
        assert("tertiary_link"@.len() != "secondary"@.len());
    }
    assert("tertiary_link"@ != "secondary_link"@) by {
        reveal_strlit("tertiary_link");
        reveal_strlit("secondary_link");
        assert("tertiary_link"@.len() != "secondary_link"@.len());
    }
    assert("residential"@ != "motorway"@) by {
        reveal_strlit("residential");
        reveal_strlit("motorway");
        assert("residential"@.len() != "motorway"@.len());
    }
    assert("residential"@ != "motorway_link"@) by {
        reveal_strlit("residential");
        reveal_strlit("motorway_link");
        assert("residential"@.len() != "motorway_link"@.len());
    }
    assert("residential"@ != "trunk"@) by {
        reveal_strlit("residential");
        reveal_strlit("trunk");
        assert("residential"@.len() != "trunk"@.len());
    }
    assert("residential"@ != "trunk_link"@) by {
        reveal_strlit("residential");
        reveal_strlit("trunk_link");
        assert("residential"@.len() != "trunk_link"@.len());
    }
    assert("residential"@ != "primary"@) by {
        reveal_strlit("residential");
        reveal_strlit("primary");
        assert("residential"@.len() != "primary"@.len());
    }
    assert("residential"@ != "primary_link"@) by {
        reveal_strlit("residential");
        reveal_strlit("primary_link");
        assert("residential"@.len() != "primary_link"@.len());
    }
    assert("residential"@ != "secondary"@) by {
        reveal_strlit("residential");
        reveal_strlit("secondary");
        assert("residential"@.len() != "secondary"@.len());
    }
    assert("residential"@ != "secondary_link"@) by {
        reveal_strlit("residential");
        reveal_strlit("secondary_link");
        assert("residential"@.len() != "secondary_link"@.len());
    }
    assert("residential"@ != "tertiary"@) by {
        reveal_strlit("residential");
        reveal_strlit("tertiary");
        assert("residential"@.len() != "tertiary"@.len());
    }
    assert("residential"@ != "tertiary_link"@) by {
        reveal_strlit("residential");
        reveal_strlit("tertiary_link");
        assert("residential"@.len() != "tertiary_link"@.len());
    }
    assert("service"@ != "motorway"@) by {
        reveal_strlit("service");
        reveal_strlit("motorway");
        assert("service"@.len() != "motorway"@.len());
    }
    assert("service"@ != "motorway_link"@) by {
        reveal_strlit("service");
        reveal_strlit("motorway_link");
        assert("service"@.len() != "motorway_link"@.len());
    }
    assert("service"@ != "trunk"@) by {
        reveal_strlit("service");
        reveal_strlit("trunk");
        assert("service"@.len() != "trunk"@.len());
    }
    assert("service"@ != "trunk_link"@) by {
        reveal_strlit("service");
        reveal_strlit("trunk_link");
        assert("service"@.len() != "trunk_link"@.len());
    }
    assert("service"@ != "primary"@) by {
        reveal_strlit("service");
        reveal_strlit("primary");
        assert("service"@[0] != "primary"@[0]);
    }
    assert("service"@ != "primary_link"@) by {
        reveal_strlit("service");
        reveal_strlit("primary_link");
        assert("service"@.len() != "primary_link"@.len());
    }
    assert("service"@ != "secondary"@) by {
        reveal_strlit("service");
        reveal_strlit("secondary");
        assert("service"@.len() != "secondary"@.len());
    }
    assert("service"@ != "secondary_link"@) by {
        reveal_strlit("service");
        reveal_strlit("secondary_link");
        assert("service"@.len() != "secondary_link"@.len());
    }
    assert("service"@ != "tertiary"@) by {
        reveal_strlit("service");
        reveal_strlit("tertiary");
        assert("service"@.len() != "tertiary"@.len());
    }
    assert("service"@ != "tertiary_link"@) by {
        reveal_strlit("service");
        reveal_strlit("tertiary_link");
        assert("service"@.len() != "tertiary_link"@.len());
    }
    assert("service"@ != "residential"@) by {
        reveal_strlit("service");
        reveal_strlit("residential");
        assert("service"@.len() != "residential"@.len());
    }
    assert("living_street"@ != "motorway"@) by {
        reveal_strlit("living_street");
        reveal_strlit("motorway");
        assert("living_street"@.len() != "motorway"@.len());
    }
    assert("living_street"@ != "motorway_link"@) by {
        reveal_strlit("living_street");
        reveal_strlit("motorway_link");
        assert("living_street"@[0] != "motorway_link"@[0]);
    }
    assert("living_street"@ != "trunk"@) by {
        reveal_strlit("living_street");
        reveal_strlit("trunk");
        assert("living_street"@.len() != "trunk"@.len());
    }
    assert("living_street"@ != "trunk_link"@) by {
        reveal_strlit("living_street");
        reveal_strlit("trunk_link");
        assert("living_street"@.len() != "trunk_link"@.len());
    }
    assert("living_street"@ != "primary"@) by {
        reveal_strlit("living_street");
        reveal_strlit("primary");
        assert("living_street"@.len() != "primary"@.len());
    }
    assert("living_street"@ != "primary_link"@) by {
        reveal_strlit("living_street");
        reveal_strlit("primary_link");
        assert("living_street"@.len() != "primary_link"@.len());
    }
    assert("living_street"@ != "secondary"@) by {
        reveal_strlit("living_street");
        reveal_strlit("secondary");
        assert("living_street"@.len() != "secondary"@.len());
    }
    assert("living_street"@ != "secondary_link"@) by {
        reveal_strlit("living_street");
        reveal_strlit("secondary_link");
        assert("living_street"@.len() != "secondary_link"@.len());
    }
    assert("living_street"@ != "tertiary"@) by {
        reveal_strlit("living_street");
        reveal_strlit("tertiary");
        assert("living_street"@.len() != "tertiary"@.len());
    }
    assert("living_street"@ != "tertiary_link"@) by {
        reveal_strlit("living_street");
        reveal_strlit("tertiary_link");
        assert("living_street"@[0] != "tertiary_link"@[0]);
    }
    assert("living_street"@ != "residential"@) by {
        reveal_strlit("living_street");
        reveal_strlit("residential");
        assert("living_street"@.len() != "residential"@.len());
    }
    assert("living_street"@ != "service"@) by {
        reveal_strlit("living_street");
        reveal_strlit("service");
        assert("living_street"@.len() != "service"@.len());
    }
    assert("road"@ != "motorway"@) by {
        reveal_strlit("road");
        reveal_strlit("motorway");
        assert("road"@.len() != "motorway"@.len());
    }
    assert("road"@ != "motorway_link"@) by {
        reveal_strlit("road");
        reveal_strlit("motorway_link");
        assert("road"@.len() != "motorway_link"@.len());
    }
    assert("road"@ != "trunk"@) by {
        reveal_strlit("road");
        reveal_strlit("trunk");
        assert("road"@.len() != "trunk"@.len());
    }
    assert("road"@ != "trunk_link"@) by {
        reveal_strlit("road");
        reveal_strlit("trunk_link");
        assert("road"@.len() != "trunk_link"@.len());
    }
    assert("road"@ != "primary"@) by {
        reveal_strlit("road");
        reveal_strlit("primary");
        assert("road"@.len() != "primary"@.len());
    }
    assert("road"@ != "primary_link"@) by {
        reveal_strlit("road");
        reveal_strlit("primary_link");
        assert("road"@.len() != "primary_link"@.len());
    }
    assert("road"@ != "secondary"@) by {
        reveal_strlit("road");
        reveal_strlit("secondary");
        assert("road"@.len() != "secondary"@.len());
    }
    assert("road"@ != "secondary_link"@) by {
        reveal_strlit("road");
        reveal_strlit("secondary_link");
        assert("road"@.len() != "secondary_link"@.len());
    }
    assert("road"@ != "tertiary"@) by {
        reveal_strlit("road");
        reveal_strlit("tertiary");
        assert("road"@.len() != "tertiary"@.len());
    }
    assert("road"@ != "tertiary_link"@) by {
        reveal_strlit("road");
        reveal_strlit("tertiary_link");
        assert("road"@.len() != "tertiary_link"@.len());
    }
    assert("road"@ != "residential"@) by {
        reveal_strlit("road");
        reveal_strlit("residential");
        assert("road"@.len() != "residential"@.len());
    }
    assert("road"@ != "service"@) by {
        reveal_strlit("road");
        reveal_strlit("service");
        assert("road"@.len() != "service"@.len());
    }
    assert("unclassified"@ != "motorway"@) by {
        reveal_strlit("unclassified");
        reveal_strlit("motorway");
        assert("unclassified"@.len() != "motorway"@.len());
    }
    assert("unclassified"@ != "motorway_link"@) by {
        reveal_strlit("unclassified");
        reveal_strlit("motorway_link");
        assert("unclassified"@.len() != "motorway_link"@.len());
    }
    assert("unclassified"@ != "trunk"@) by {
        reveal_strlit("unclassified");
        reveal_strlit("trunk");
        assert("unclassified"@.len() != "trunk"@.len());
    }
    assert("unclassified"@ != "trunk_link"@) by {
        reveal_strlit("unclassified");
        reveal_strlit("trunk_link");
        assert("unclassified"@.len() != "trunk_link"@.len());
    }
    assert("unclassified"@ != "primary"@) by {
        reveal_strlit("unclassified");
        reveal_strlit("primary");
        assert("unclassified"@.len() != "primary"@.len());
    }
    assert("unclassified"@ != "primary_link"@) by {
        reveal_strlit("unclassified");
        reveal_strlit("primary_link");
        assert("unclassified"@[0] != "primary_link"@[0]);
    }
    assert("unclassified"@ != "secondary"@) by {
        reveal_strlit("unclassified");
        reveal_strlit("secondary");
        assert("unclassified"@.len() != "secondary"@.len());
    }
    assert("unclassified"@ != "secondary_link"@) by {
        reveal_strlit("unclassified");
        reveal_strlit("secondary_link");
        assert("unclassified"@.len() != "secondary_link"@.len());
    }
    assert("unclassified"@ != "tertiary"@) by {
        reveal_strlit("unclassified");
        reveal_strlit("tertiary");
        assert("unclassified"@.len() != "tertiary"@.len());
    }
    assert("unclassified"@ != "tertiary_link"@) by {
        reveal_strlit("unclassified");
        reveal_strlit("tertiary_link");
        assert("unclassified"@.len() != "tertiary_link"@.len());
    }
    assert("unclassified"@ != "residential"@) by {
        reveal_strlit("unclassified");
        reveal_strlit("residential");
        assert("unclassified"@.len() != "residential"@.len());
    }
    assert("unclassified"@ != "service"@) by {
        reveal_strlit("unclassified");
        reveal_strlit("service");
        assert("unclassified"@.len() != "service"@.len());
    }
}

/// A way without a `highway` tag is no road for cars.
pub proof fn no_highway_no_road(tags: Seq<(String, String)>)
    requires
        find_tag(tags, "highway"@) is None,
    ensures
        spec_road_class(tags) is None,
{
}

/// The penalties of a transition follow its facts alone: the signal penalty is paid exactly
/// when the previous edge ends at a traffic signal, whatever the turn; the U-turn penalty
/// exactly for a U-turn-like movement; the turn penalty exactly for a left or right turn
/// that is not U-turn-like; and the left-turn penalty exactly for such a left turn that no
/// signal controls.
pub proof fn penalties_follow_facts(f: TransitionFacts)
    ensures
        spec_penalties(f).traffic_signal == f.traffic_signal,
        spec_penalties(f).u_turn == f.u_turn_like,
        spec_penalties(f).turn <==> !f.u_turn_like && (f.maneuver == Some(Maneuver::Left)
            || f.maneuver == Some(Maneuver::Right)),
        spec_penalties(f).left_turn <==> !f.u_turn_like && f.maneuver == Some(Maneuver::Left)
            && !f.signal_controlled,
{
}

/// Changing only the turn, or only whether a signal controls it, never changes whether the
/// signal penalty or the U-turn penalty is paid.
pub proof fn signal_and_u_turn_penalties_ignore_the_turn(f: TransitionFacts, g: TransitionFacts)
    requires
        f.traffic_signal == g.traffic_signal,
        f.u_turn_like == g.u_turn_like,
    ensures
        spec_penalties(f).traffic_signal == spec_penalties(g).traffic_signal,
        spec_penalties(f).u_turn == spec_penalties(g).u_turn,
{
}

/// A restriction is read as a U-turn back onto the same way only when its from and to ways
/// are the same way.
pub proof fn same_way_u_turn_needs_one_way(tags: Seq<(String, String)>, members: Seq<Member>)
    ensures
        spec_parse_turn_restriction(tags, members) matches RestrictionParse::Apply(p)
            ==> (p.same_way_u_turn ==> p.from == p.to),
{
}

/// A `no_u_turn` restriction from a way back onto the same way is read as a same-way
/// U-turn.
pub proof fn no_u_turn_on_one_way_is_same_way_u_turn(
    tags: Seq<(String, String)>,
    members: Seq<Member>,
    v: Seq<char>,
)
    requires
        restriction_value(tags) == Some(v),
        ascii_lowercase(trim(v)) == "no_u_turn"@,
    ensures
        spec_parse_turn_restriction(tags, members) matches RestrictionParse::Apply(p)
            ==> (p.from == p.to ==> p.same_way_u_turn),
{
}

/// A `no_*` restriction between two different ways forbids every move from an edge of the
/// from way that ends at the via node onto an edge of the to way that leaves it.
pub proof fn no_restriction_forbids_every_move_onto_the_to_way(
    rel: Relation,
    node_ids: Seq<i64>,
    edges: Seq<Edge>,
    p: ParsedRestriction,
    x: crate::ids::TurnRestriction,
)
    requires
        is_restriction_type(rel.tags.entries@),
        spec_parse_turn_restriction(rel.tags.entries@, rel.members@) == RestrictionParse::Apply(p),
        p.mode == RestrictionMode::No,
        p.from != p.to,
        x.from.0 < edges.len(),
        x.to.0 < edges.len(),
        edges[x.from.0 as int].source_way_id == Some(p.from),
        edges[x.from.0 as int].to == edges[x.to.0 as int].from,
        node_ids[edges[x.from.0 as int].to.0 as int] == p.via,
        edges[x.to.0 as int].source_way_id == Some(p.to),
    ensures
        relation_prohibits(rel, node_ids, edges, x),
{
    same_way_u_turn_needs_one_way(rel.tags.entries@, rel.members@);
}

/// An `only_*` restriction forbids every move from an edge of the from way that ends at the
/// via node onto an edge of any other way than the to way.
pub proof fn only_restriction_forbids_every_other_way(
    rel: Relation,
    node_ids: Seq<i64>,
    edges: Seq<Edge>,
    p: ParsedRestriction,
    x: crate::ids::TurnRestriction,
)
    requires
        is_restriction_type(rel.tags.entries@),
        spec_parse_turn_restriction(rel.tags.entries@, rel.members@) == RestrictionParse::Apply(p),
        p.mode == RestrictionMode::Only,
        x.from.0 < edges.len(),
        x.to.0 < edges.len(),
        edges[x.from.0 as int].source_way_id == Some(p.from),
        edges[x.from.0 as int].to == edges[x.to.0 as int].from,
        node_ids[edges[x.from.0 as int].to.0 as int] == p.via,
        edges[x.to.0 as int].source_way_id != Some(p.to),
    ensures
        relation_prohibits(rel, node_ids, edges, x),
{
}


/// The natural cuts of a ring before position `k` are exactly its first occurrences of
/// routing nodes before `k`.
proof fn lemma_ring_cuts(ring: Seq<i64>, routing: Seq<bool>, k: int)
    requires
        0 <= k <= ring.len(),
        ring.len() <= usize::MAX,
    ensures
        forall|t: int|
            0 <= t < ring_boundaries_before(ring, routing, k).len() ==> is_first_boundary(
                ring,
                routing,
                #[trigger] ring_boundaries_before(ring, routing, k)[t] as int,
            ) && ring_boundaries_before(ring, routing, k)[t] < k,
        forall|i: int|
            0 <= i < k && is_first_boundary(ring, routing, i) ==> ring_boundaries_before(
                ring,
                routing,
                k,
            ).contains(i as usize),
    decreases k,
{
    if k > 0 {
        lemma_ring_cuts(ring, routing, k - 1);
        let b = ring_boundaries_before(ring, routing, k - 1);
        let c = ring_boundaries_before(ring, routing, k);
        if is_first_boundary(ring, routing, k - 1) {
            assert(c == b.push((k - 1) as usize));
            assert forall|t: int| 0 <= t < c.len() implies is_first_boundary(
                ring,
                routing,
                #[trigger] c[t] as int,
            ) && c[t] < k by {
                if t < b.len() {
                    assert(c[t] == b[t]);
                }
            }
            assert forall|i: int| 0 <= i < k && is_first_boundary(ring, routing, i) implies c.contains(
                i as usize,
            ) by {
                if i < k - 1 {
                    let t = choose|t: int| 0 <= t < b.len() && b[t] == i as usize;
                    assert(c[t] == i as usize);
                } else {
                    assert(c[b.len() as int] == i as usize);
                }
            }
        } else {
            assert(c == b);
        }
    }
}

/// Cutting a ring at positions that hold pairwise different nodes keeps every piece: piece
/// `t` runs from cut `t` to the next cut round the ring.
proof fn lemma_runs_between_cuts(ring: Seq<i64>, b: Seq<usize>, k: int)
    requires
        b.len() >= 2,
        0 <= k <= b.len(),
        forall|t: int| 0 <= t < b.len() ==> b[t] < ring.len(),
        forall|t1: int, t2: int|
            0 <= t1 < b.len() && 0 <= t2 < b.len() && t1 != t2 ==> ring[b[t1] as int]
                != ring[b[t2] as int],
    ensures
        cyclic_runs(ring, b, k).len() == k,
        forall|t: int|
            0 <= t < k ==> #[trigger] cyclic_runs(ring, b, k)[t] == (b[t], b[(t + 1) % b.len() as int]),
    decreases k,
{
    if k > 0 {
        lemma_runs_between_cuts(ring, b, k - 1);
        let n = b.len() as int;
        assert(k % n != k - 1) by {
            if k < n {
                assert(k % n == k) by (nonlinear_arith)
                    requires
                        0 <= k < n,
                ;
            } else {
                assert(k % n == 0) by (nonlinear_arith)
                    requires
                        k == n,
                        n > 0,
                ;
            }
        }
        assert(0 <= k % n < n);
        let rest = cyclic_runs(ring, b, k - 1);
        assert(cyclic_runs(ring, b, k) == rest.push((b[k - 1], b[k % n])));
        assert forall|t: int| 0 <= t < k implies #[trigger] cyclic_runs(ring, b, k)[t] == (
            b[t],
            b[(t + 1) % n],
        ) by {
            if t < k - 1 {
                assert(cyclic_runs(ring, b, k)[t] == rest[t]);
            }
        }
    }
}

/// A ring with at least two routing nodes is cut at the first occurrence of each of them,
/// and only there: each such position starts one piece and ends another, no two pieces start
/// at the same position, and every piece starts and ends at such a position. So every road
/// that joins the ring, a roundabout, is connected to it.
pub proof fn ring_cut_at_every_routing_node(ring: Seq<i64>, routing: Seq<bool>, i: int, j: int)
    requires
        routing.len() == ring.len(),
        ring.len() <= usize::MAX,
        0 <= i < ring.len(),
        0 <= j < ring.len(),
        i != j,
        is_first_boundary(ring, routing, i),
        is_first_boundary(ring, routing, j),
    ensures
        exists|k: int|
            0 <= k < spec_closed_segments(ring, routing).len() && #[trigger] spec_closed_segments(
                ring,
                routing,
            )[k].0 == i,
        exists|k: int|
            0 <= k < spec_closed_segments(ring, routing).len() && #[trigger] spec_closed_segments(
                ring,
                routing,
            )[k].1 == i,
        forall|k1: int, k2: int|
            0 <= k1 < k2 < spec_closed_segments(ring, routing).len() ==> spec_closed_segments(
                ring,
                routing,
            )[k1].0 != spec_closed_segments(ring, routing)[k2].0,
        forall|k: int|
            0 <= k < spec_closed_segments(ring, routing).len() ==> is_first_boundary(
                ring,
                routing,
                spec_closed_segments(ring, routing)[k].0 as int,
            ) && is_first_boundary(ring, routing, spec_closed_segments(ring, routing)[k].1 as int),
{
    let n = ring.len() as int;
    let nb = ring_boundaries_before(ring, routing, n);
    lemma_ring_cuts(ring, routing, n);
    crate::segments::lemma_boundaries_increasing_pub(ring, routing, n);
    assert(nb.contains(i as usize));
    assert(nb.contains(j as usize));
    let ti = choose|t: int| 0 <= t < nb.len() && nb[t] == i as usize;
    let tj = choose|t: int| 0 <= t < nb.len() && nb[t] == j as usize;
    assert(ti != tj);
    assert(nb.len() >= 2);
    assert(closed_boundaries(ring, routing) == nb);
    assert forall|t1: int, t2: int|
        0 <= t1 < nb.len() && 0 <= t2 < nb.len() && t1 != t2 implies ring[nb[t1] as int]
            != ring[nb[t2] as int] by {
        assert(is_first_boundary(ring, routing, nb[t1] as int));
        assert(is_first_boundary(ring, routing, nb[t2] as int));
        if t1 < t2 {
            assert(nb[t1] < nb[t2]);
        } else {
            assert(nb[t2] < nb[t1]);
        }
    }
    let l = nb.len() as int;
    lemma_runs_between_cuts(ring, nb, l);
    let pieces = spec_closed_segments(ring, routing);
    assert(pieces == cyclic_runs(ring, nb, l));
    assert(pieces[ti].0 == i);
    let prev = if ti == 0 {
        l - 1
    } else {
        ti - 1
    };
    assert((prev + 1) % l == ti) by {
        if ti == 0 {
            assert(l % l == 0) by (nonlinear_arith)
                requires
                    l > 0,
            ;
        } else {
            assert(ti % l == ti) by (nonlinear_arith)
                requires
                    0 <= ti < l,
            ;
        }
    }
    assert(pieces[prev].1 == i);
    assert forall|k1: int, k2: int| 0 <= k1 < k2 < pieces.len() implies pieces[k1].0
        != pieces[k2].0 by {
        assert(pieces[k1].0 == nb[k1]);
        assert(pieces[k2].0 == nb[k2]);
        assert(nb[k1] < nb[k2]);
    }
    assert forall|k: int| 0 <= k < pieces.len() implies is_first_boundary(
        ring,
        routing,
        pieces[k].0 as int,
    ) && is_first_boundary(ring, routing, pieces[k].1 as int) by {
        assert(pieces[k] == (nb[k], nb[(k + 1) % l]));
        assert(0 <= (k + 1) % l < l);
        assert(is_first_boundary(ring, routing, nb[k] as int));
        assert(is_first_boundary(ring, routing, nb[(k + 1) % l] as int));
    }
}


/// Car access is decided by the most specific access tag present, `motorcar` first, then
/// `motor_vehicle`, `vehicle` and `access`: cars are kept out exactly when that tag says
/// `no` or `private` (ASCII case ignored), and let in when no access tag is present.
pub proof fn access_by_most_specific_tag(tags: Seq<(String, String)>)
    ensures
        find_tag(tags, "motorcar"@) matches Some(v) ==> (spec_access_denied(tags) <==> (
        eq_ignore_ascii_case(v, "no"@) || eq_ignore_ascii_case(v, "private"@))),
        find_tag(tags, "motorcar"@) is None ==> (find_tag(tags, "motor_vehicle"@) matches Some(v)
            ==> (spec_access_denied(tags) <==> (eq_ignore_ascii_case(v, "no"@)
            || eq_ignore_ascii_case(v, "private"@)))),
        find_tag(tags, "motorcar"@) is None && find_tag(tags, "motor_vehicle"@) is None ==> (
        find_tag(tags, "vehicle"@) matches Some(v) ==> (spec_access_denied(tags) <==> (
        eq_ignore_ascii_case(v, "no"@) || eq_ignore_ascii_case(v, "private"@)))),
        find_tag(tags, "motorcar"@) is None && find_tag(tags, "motor_vehicle"@) is None && find_tag(
            tags,
            "vehicle"@,
        ) is None ==> (find_tag(tags, "access"@) matches Some(v) ==> (spec_access_denied(tags)
            <==> (eq_ignore_ascii_case(v, "no"@) || eq_ignore_ascii_case(v, "private"@)))),
        find_tag(tags, "motorcar"@) is None && find_tag(tags, "motor_vehicle"@) is None && find_tag(
            tags,
            "vehicle"@,
        ) is None && find_tag(tags, "access"@) is None ==> !spec_access_denied(tags),
{
}

/// A way is one-way forwards for `oneway` = `yes`, `true` (ASCII case ignored) or `1`,
/// backwards for `-1` or `reverse`, and two-way for `no`, `false` or `0`, the value trimmed
/// of white space; with no such value, a roundabout is one-way forwards and any other way
/// two-way.
pub proof fn direction_by_oneway_and_junction(tags: Seq<(String, String)>)
    ensures
        find_tag(tags, "oneway"@) matches Some(v) ==> (eq_ignore_ascii_case(trim(v), "yes"@)
            || eq_ignore_ascii_case(trim(v), "true"@) || trim(v) == "1"@ ==> spec_direction(tags)
            == Direction::Forward),
        find_tag(tags, "oneway"@) matches Some(v) ==> (trim(v) == "-1"@ || eq_ignore_ascii_case(
            trim(v),
            "reverse"@,
        ) ==> spec_direction(tags) == Direction::Reverse),
        find_tag(tags, "oneway"@) matches Some(v) ==> (eq_ignore_ascii_case(trim(v), "no"@)
            || eq_ignore_ascii_case(trim(v), "false"@) || trim(v) == "0"@ ==> spec_direction(tags)
            == Direction::Both),
        find_tag(tags, "oneway"@) is None ==> (find_tag(tags, "junction"@) matches Some(j)
            && eq_ignore_ascii_case(j, "roundabout"@) ==> spec_direction(tags)
            == Direction::Forward),
        find_tag(tags, "oneway"@) is None && !(find_tag(tags, "junction"@) matches Some(j)
            && eq_ignore_ascii_case(j, "roundabout"@)) ==> spec_direction(tags) == Direction::Both,
{
    reveal_strlit("yes");
    reveal_strlit("true");
    reveal_strlit("1");
    reveal_strlit("-1");
    reveal_strlit("reverse");
    reveal_strlit("no");
    reveal_strlit("false");
    reveal_strlit("0");
    if find_tag(tags, "oneway"@) is Some {
        let v = trim(find_tag(tags, "oneway"@)->0);
        let lv = ascii_lowercase(v);
        assert(lv.len() == v.len());
        if v == "-1"@ || eq_ignore_ascii_case(v, "reverse"@) {
            assert(ascii_lowercase("yes"@).len() == 3);
            assert(ascii_lowercase("true"@).len() == 4);
            assert(ascii_lowercase("reverse"@).len() == 7);
            if v == "-1"@ {
                assert(v[0] == '-');
                assert(v != "1"@);
            } else {
                assert(v.len() == 7);
            }
        }
        if eq_ignore_ascii_case(v, "no"@) || eq_ignore_ascii_case(v, "false"@) || v == "0"@ {
            assert(ascii_lowercase("yes"@).len() == 3);
            assert(ascii_lowercase("true"@).len() == 4);
            assert(ascii_lowercase("reverse"@).len() == 7);
            assert(ascii_lowercase("no"@).len() == 2);
            assert(ascii_lowercase("false"@).len() == 5);
            if eq_ignore_ascii_case(v, "no"@) {
                assert(v.len() == 2);
                assert(ascii_lowercase("no"@)[0] == 'n');
                assert(lv[0] == 'n');
                assert(v[0] != '-');
            } else if eq_ignore_ascii_case(v, "false"@) {
                assert(v.len() == 5);
            } else {
                assert(v.len() == 1);
                assert(v[0] == '0');
            }
        }
    }
}

/// A traffic signal controls traffic arriving from both directions unless
/// `traffic_signals:direction` (trimmed, ASCII case ignored) limits it to `forward` or
/// `backward` travel; a node that is no traffic signal controls nothing.
pub proof fn signal_applies_by_direction(tags: Seq<(String, String)>, reverse: bool)
    ensures
        !spec_is_traffic_signal(tags) ==> !spec_traffic_signal_applies(tags, reverse),
        spec_is_traffic_signal(tags) && find_tag(tags, "traffic_signals:direction"@) is None
            ==> spec_traffic_signal_applies(tags, reverse),
        spec_is_traffic_signal(tags) ==> (find_tag(tags, "traffic_signals:direction"@) matches Some(
            d,
        ) ==> (eq_ignore_ascii_case(trim(d), "forward"@) ==> (spec_traffic_signal_applies(
            tags,
            reverse,
        ) == !reverse))),
        spec_is_traffic_signal(tags) ==> (find_tag(tags, "traffic_signals:direction"@) matches Some(
            d,
        ) ==> (eq_ignore_ascii_case(trim(d), "backward"@) ==> (spec_traffic_signal_applies(
            tags,
            reverse,
        ) == reverse))),
{
    reveal_strlit("forward");
    reveal_strlit("backward");
    if find_tag(tags, "traffic_signals:direction"@) is Some {
        let d = trim(find_tag(tags, "traffic_signals:direction"@)->0);
        if eq_ignore_ascii_case(d, "backward"@) {
            assert(ascii_lowercase(d).len() == d.len());
            assert(ascii_lowercase("backward"@).len() == 8);
            assert(ascii_lowercase("forward"@).len() == 7);
        }
    }
}

/// A lane count is never zero, and any count of one to 255 written in decimal digits, with
/// white space around it, is read as that number.
pub proof fn lanes_are_positive_decimal_counts(s: Seq<char>)
    ensures
        spec_parse_lanes(s) matches Some(n) ==> n > 0,
        trim(s).len() > 0 && (forall|i: int| 0 <= i < trim(s).len() ==> is_ascii_digit(
            #[trigger] trim(s)[i],
        )) && 1 <= digits_value(trim(s)) <= 255 ==> spec_parse_lanes(s) == Some(
            digits_value(trim(s)) as u8,
        ),
{
    let t = trim(s);
    if t.len() > 0 && (forall|i: int| 0 <= i < t.len() ==> is_ascii_digit(#[trigger] t[i])) {
        assert(is_ascii_digit(t[0]));
        assert(t[0] != '+');
    }
}


/// The cuts of an open way before position `k` are exactly its first and last positions and
/// its routing nodes before `k`.
proof fn lemma_open_cuts(routing: Seq<bool>, k: int)
    requires
        0 <= k <= routing.len(),
        routing.len() <= usize::MAX,
    ensures
        forall|t: int|
            0 <= t < open_boundaries_before(routing, k).len() ==> {
                let c = #[trigger] open_boundaries_before(routing, k)[t] as int;
                &&& c < k
                &&& c == 0 || c == routing.len() - 1 || routing[c]
            },
        forall|i: usize|
            i < k && (i == 0 || i == routing.len() - 1 || routing[i as int])
                ==> #[trigger] open_boundaries_before(routing, k).contains(i),
    decreases k,
{
    if k > 0 {
        lemma_open_cuts(routing, k - 1);
        let b = open_boundaries_before(routing, k - 1);
        let c = open_boundaries_before(routing, k);
        let cut = k - 1 == 0 || k - 1 == routing.len() - 1 || routing[k - 1];
        if cut {
            assert(c == b.push((k - 1) as usize));
            assert forall|t: int| 0 <= t < c.len() implies {
                let x = #[trigger] c[t] as int;
                &&& x < k
                &&& x == 0 || x == routing.len() - 1 || routing[x]
            } by {
                if t < b.len() {
                    assert(c[t] == b[t]);
                }
            }
            assert forall|i: usize|
                i < k && (i == 0 || i == routing.len() - 1 || routing[i as int]) implies #[trigger] c.contains(
                i,
            ) by {
                if i < k - 1 {
                    assert(b.contains(i));
                    let t = choose|t: int| 0 <= t < b.len() && b[t] == i;
                    assert(c[t] == i);
                } else {
                    assert(c[b.len() as int] == i);
                }
            }
        } else {
            assert(c == b);
            assert forall|i: usize|
                i < k && (i == 0 || i == routing.len() - 1 || routing[i as int]) implies #[trigger] c.contains(
                i,
            ) by {
                assert(b.contains(i));
            }
        }
    }
}

/// Cutting a way at increasing positions that hold pairwise different nodes keeps every
/// piece between consecutive cuts.
proof fn lemma_runs_all_kept(nodes: Seq<i64>, b: Seq<usize>)
    requires
        forall|t: int| 0 <= t < b.len() ==> b[t] < nodes.len(),
        forall|t1: int, t2: int|
            0 <= t1 < t2 < b.len() ==> nodes[b[t1] as int] != nodes[b[t2] as int],
    ensures
        b.len() >= 1 ==> runs_between(nodes, b).len() == b.len() - 1,
        forall|t: int|
            0 <= t < b.len() - 1 ==> #[trigger] runs_between(nodes, b)[t] == (b[t], b[t + 1]),
    decreases b.len(),
{
    if b.len() >= 2 {
        let d = b.drop_last();
        lemma_runs_all_kept(nodes, d);
        let rest = runs_between(nodes, d);
        assert(runs_between(nodes, b) == rest.push((b[b.len() - 2], b.last())));
        assert forall|t: int| 0 <= t < b.len() - 1 implies #[trigger] runs_between(nodes, b)[t] == (
            b[t],
            b[t + 1],
        ) by {
            if t < b.len() - 2 {
                assert(runs_between(nodes, b)[t] == rest[t]);
                assert(d[t] == b[t] && d[t + 1] == b[t + 1]);
            }
        }
    } else if b.len() == 1 {
        assert(runs_between(nodes, b).len() == 0);
    }
}

/// How an open way with pairwise different nodes is cut: its cuts `ob` begin at its first
/// position and end at its last, and its pieces run between consecutive cuts.
proof fn lemma_open_layout(nodes: Seq<i64>, routing: Seq<bool>)
    requires
        routing.len() == nodes.len(),
        nodes.len() >= 2,
        nodes.len() <= usize::MAX,
        forall|a: int, b: int| 0 <= a < b < nodes.len() ==> nodes[a] != nodes[b],
    ensures
        ({
            let ob = open_boundaries_before(routing, nodes.len() as int);
            let pieces = spec_open_segments(nodes, routing);
            &&& ob.len() >= 2
            &&& ob[0] == 0
            &&& ob[ob.len() - 1] == nodes.len() - 1
            &&& pieces.len() == ob.len() - 1
            &&& forall|t: int| 0 <= t < ob.len() - 1 ==> #[trigger] pieces[t] == (ob[t], ob[t + 1])
        }),
{
    let n = nodes.len() as int;
    let ob = open_boundaries_before(routing, n);
    lemma_open_cuts(routing, n);
    crate::segments::lemma_open_boundaries_increasing_pub(routing, n);
    let l = ob.len() as int;
    let zero: usize = 0;
    let last: usize = (n - 1) as usize;
    assert(ob.contains(zero));
    assert(ob.contains(last));
    let a = choose|t: int| 0 <= t < l && ob[t] == zero;
    let z = choose|t: int| 0 <= t < l && ob[t] == last;
    assert(a != z);
    assert(ob[0] == 0) by {
        if a > 0 {
            assert(ob[0] < ob[a]);
        }
    }
    assert(ob[l - 1] == n - 1) by {
        if z < l - 1 {
            assert(ob[z] < ob[l - 1]);
        }
    }
    assert forall|t1: int, t2: int| 0 <= t1 < t2 < l implies nodes[ob[t1] as int]
        != nodes[ob[t2] as int] by {
        assert(ob[t1] < ob[t2]);
        assert(ob[t2] < n);
    }
    assert forall|t: int| 0 <= t < l implies ob[t] < nodes.len() by {
        assert(ob[t] < n);
    }
    lemma_runs_all_kept(nodes, ob);
}

/// An open way whose nodes are all different is cut at its first position and at every
/// routing node before its last: each of these starts a piece.
pub proof fn open_way_pieces_start_at_every_cut(nodes: Seq<i64>, routing: Seq<bool>, i: int)
    requires
        routing.len() == nodes.len(),
        nodes.len() >= 2,
        nodes.len() <= usize::MAX,
        forall|a: int, b: int| 0 <= a < b < nodes.len() ==> nodes[a] != nodes[b],
        0 <= i < nodes.len() - 1,
        i == 0 || routing[i],
    ensures
        exists|k: int|
            0 <= k < spec_open_segments(nodes, routing).len() && #[trigger] spec_open_segments(
                nodes,
                routing,
            )[k].0 == i,
{
    let n = nodes.len() as int;
    let ob = open_boundaries_before(routing, n);
    let pieces = spec_open_segments(nodes, routing);
    lemma_open_layout(nodes, routing);
    lemma_open_cuts(routing, n);
    let l = ob.len() as int;
    let iu = i as usize;
    assert(ob.contains(iu));
    let t = choose|t: int| 0 <= t < l && ob[t] == iu;
    assert(t < l - 1);
    assert(pieces[t].0 == i);
}

/// An open way whose nodes are all different is cut at its last position and at every
/// routing node after its first: each of these ends a piece.
pub proof fn open_way_pieces_end_at_every_cut(nodes: Seq<i64>, routing: Seq<bool>, i: int)
    requires
        routing.len() == nodes.len(),
        nodes.len() >= 2,
        nodes.len() <= usize::MAX,
        forall|a: int, b: int| 0 <= a < b < nodes.len() ==> nodes[a] != nodes[b],
        0 < i <= nodes.len() - 1,
        i == nodes.len() - 1 || routing[i],
    ensures
        exists|k: int|
            0 <= k < spec_open_segments(nodes, routing).len() && #[trigger] spec_open_segments(
                nodes,
                routing,
            )[k].1 == i,
{
    let n = nodes.len() as int;
    let ob = open_boundaries_before(routing, n);
    let pieces = spec_open_segments(nodes, routing);
    lemma_open_layout(nodes, routing);
    lemma_open_cuts(routing, n);
    let l = ob.len() as int;
    let iu = i as usize;
    assert(ob.contains(iu));
    let t = choose|t: int| 0 <= t < l && ob[t] == iu;
    assert(t > 0);
    assert(pieces[t - 1].1 == i);
}

/// Every piece of an open way whose nodes are all different runs forwards from a cut (its
/// first position or a routing node) to the very next cut (a routing node or its last
/// position), with no routing node in between.
pub proof fn open_way_pieces_run_between_cuts(nodes: Seq<i64>, routing: Seq<bool>)
    requires
        routing.len() == nodes.len(),
        nodes.len() >= 2,
        nodes.len() <= usize::MAX,
        forall|a: int, b: int| 0 <= a < b < nodes.len() ==> nodes[a] != nodes[b],
    ensures
        forall|k: int|
            0 <= k < spec_open_segments(nodes, routing).len() ==> {
                let p = #[trigger] spec_open_segments(nodes, routing)[k];
                &&& p.0 < p.1 < nodes.len()
                &&& p.0 == 0 || routing[p.0 as int]
                &&& p.1 == nodes.len() - 1 || routing[p.1 as int]
            },
        forall|k: int, c: int|
            #![trigger spec_open_segments(nodes, routing)[k], routing[c]]
            0 <= k < spec_open_segments(nodes, routing).len() && spec_open_segments(nodes, routing)[k].0
                < c < spec_open_segments(nodes, routing)[k].1 ==> !routing[c],
{
    let n = nodes.len() as int;
    let ob = open_boundaries_before(routing, n);
    let pieces = spec_open_segments(nodes, routing);
    lemma_open_layout(nodes, routing);
    lemma_open_cuts(routing, n);
    let l = ob.len() as int;
    crate::segments::lemma_open_boundaries_increasing_pub(routing, n);
    assert forall|k: int| 0 <= k < pieces.len() implies {
        let p = #[trigger] pieces[k];
        &&& p.0 < p.1 < nodes.len()
        &&& p.0 == 0 || routing[p.0 as int]
        &&& p.1 == nodes.len() - 1 || routing[p.1 as int]
    } by {
        assert(pieces[k] == (ob[k], ob[k + 1]));
        assert(ob[k] < ob[k + 1]);
        assert(ob[k + 1] < n);
    }
    assert forall|k: int, c: int|
        #![trigger pieces[k], routing[c]]
        0 <= k < pieces.len() && pieces[k].0 < c < pieces[k].1 implies !routing[c] by {
        assert(pieces[k] == (ob[k], ob[k + 1]));
        if routing[c] {
            let cu = c as usize;
            assert(ob.contains(cu));
            let t = choose|t: int| 0 <= t < l && ob[t] == cu;
            if t < k {
                assert(ob[t] < ob[k]);
            } else if t > k + 1 {
                assert(ob[k + 1] < ob[t]);
            }
        }
    }
}


proof fn lemma_clear_means_none(faults: Seq<Option<Error>>)
    requires
        first_fault(faults) is None,
    ensures
        forall|i: int| 0 <= i < faults.len() ==> #[trigger] faults[i] is None,
    decreases faults.len(),
{
    if faults.len() > 0 {
        let d = faults.drop_last();
        lemma_clear_means_none(d);
        assert forall|i: int| 0 <= i < faults.len() implies #[trigger] faults[i] is None by {
            if i < d.len() {
                assert(d[i] == faults[i]);
            }
        }
    }
}

/// A sequence of edges passes the route check only if every edge is in the graph, each edge
/// starts where the one before it ends, and, when transitions are checked, every move from
/// one edge onto the next is allowed.
pub proof fn passing_routes_are_drivable(g: &RoadGraph, edges: Seq<EdgeId>, turns: bool)
    requires
        g.wf(),
        first_fault(route_defects(g, edges, turns)) is None,
    ensures
        forall|i: int| 0 <= i < edges.len() ==> (#[trigger] edges[i]).0 < g.edge_count_spec(),
        forall|i: int|
            0 < i < edges.len() ==> g.spec_edges()[edges[i - 1].0 as int].to == g.spec_edges()[(
            #[trigger] edges[i]).0 as int].from,
        turns ==> forall|i: int|
            0 < i < edges.len() ==> g.spec_transition_allowed(
                edges[i - 1].0 as int,
                (#[trigger] edges[i]).0 as int,
            ),
{
    let faults = route_defects(g, edges, turns);
    lemma_clear_means_none(faults);
    assert forall|i: int| 0 <= i < edges.len() implies (#[trigger] edges[i]).0 < g.edge_count_spec() by {
        assert(faults[i] is None);
    }
    assert forall|i: int|
        0 < i < edges.len() implies g.spec_edges()[edges[i - 1].0 as int].to == g.spec_edges()[(
    #[trigger] edges[i]).0 as int].from by {
        assert(faults[i] is None);
    }
    if turns {
        assert forall|i: int|
            0 < i < edges.len() implies g.spec_transition_allowed(
            edges[i - 1].0 as int,
            (#[trigger] edges[i]).0 as int,
        ) by {
            assert(faults[i] is None);
        }
    }
}

/// A turn is tallied as a left turn exactly when it is a left maneuver that is not
/// U-turn-like, and as a right turn exactly when it is such a right maneuver; no turn is
/// both.
pub proof fn turn_kinds_follow_maneuvers(f: TransitionFacts)
    ensures
        counts_as_left(f) <==> !f.u_turn_like && f.maneuver == Some(Maneuver::Left),
        counts_as_right(f) <==> !f.u_turn_like && f.maneuver == Some(Maneuver::Right),
        !(counts_as_left(f) && counts_as_right(f)),
{
}

/// Each count of a route's transitions grows by one with a further transition that counts,
/// and not at all with one that does not; a route without transitions counts nothing.
pub proof fn counts_grow_one_transition_at_a_time(
    facts: Seq<TransitionFacts>,
    f: TransitionFacts,
    p: spec_fn(TransitionFacts) -> bool,
)
    ensures
        count_where(Seq::<TransitionFacts>::empty(), p) == 0,
        count_where(facts.push(f), p) == count_where(facts, p) + if p(f) {
            1int
        } else {
            0int
        },
{
    assert(facts.push(f).drop_last() =~= facts);
}


/// A restriction is read as forbidding the named turn (`no_*`) or as allowing only it
/// (`only_*`) by the beginning of its value, trimmed and with ASCII case ignored.
pub proof fn restriction_mode_follows_value(
    tags: Seq<(String, String)>,
    members: Seq<Member>,
    v: Seq<char>,
)
    requires
        restriction_value(tags) == Some(v),
    ensures
        spec_parse_turn_restriction(tags, members) matches RestrictionParse::Apply(p) ==> {
            let norm = ascii_lowercase(trim(v));
            &&& p.mode == RestrictionMode::No <==> (norm.len() >= 3 && norm.subrange(0, 3)
                == "no_"@)
            &&& p.mode == RestrictionMode::Only ==> (norm.len() >= 5 && norm.subrange(0, 5)
                == "only_"@)
        },
{
    reveal_strlit("no_");
    reveal_strlit("only_");
    let norm = ascii_lowercase(trim(v));
    assert("no_"@.len() == 3);
    assert("only_"@.len() == 5);
    if norm.len() >= 5 && norm.subrange(0, 5) == "only_"@ {
        assert("only_"@[0] == 'o');
        assert(norm.subrange(0, 5)[0] == 'o');
        assert(norm[0] == 'o');
        assert(norm.subrange(0, 3)[0] == 'o');
        assert("no_"@[0] == 'n');
        assert(norm.subrange(0, 3) != "no_"@);
    }
}

} // verus!
