//! Least-cost route search over edge states.
//!
//! A search state is either the origin itself (state 0) or "having just driven edge `e`"
//! (state `e + 1`). Moving on from a state means entering an edge that leaves the state's
//! node; from an edge state the move must also be an allowed transition, so turn
//! restrictions and immediate reversals are respected. Every move has a cost taken from a
//! [`CostTable`].

use vstd::prelude::*;
use vstd::multiset::Multiset;

use crate::error::{Error, IdKind, RouteDefect, SearchError};
use crate::graph::{id_limit, lists_outgoing, RoadGraph};
use crate::ids::{EdgeId, NodeId};
use crate::queue::{entry_le, MinQueue};

verus! {

broadcast use vstd::multiset::group_multiset_axioms;

/// Costs of every possible move, as whole cost units.
///
/// `start[e]` is the cost of entering edge `e` from the origin. `turns[p][k]` is the cost of
/// entering the `k`-th outgoing edge of the node where edge `p` ends, right after driving `p`.
/// An `Err` entry holds the error that the cost model gave for that move; the search returns
/// it if it examines the move.
#[derive(Clone, Debug)]
pub struct CostTable<E> {
    pub start: Vec<Result<u64, E>>,
    pub turns: Vec<Vec<Result<u64, E>>>,
}

/// The cost in an entry of a cost table, when the model gave one.
pub open spec fn known_cost<E>(x: Result<u64, E>) -> Option<u64> {
    match x {
        Ok(c) => Some(c),
        Err(_) => None,
    }
}

/// `b` holds the cost of `a`, or a clone of its error.
pub open spec fn same_entry<E: Clone>(a: Result<u64, E>, b: Result<u64, E>) -> bool {
    match (a, b) {
        (Ok(x), Ok(y)) => x == y,
        (Err(f), Err(h)) => cloned(f, h),
        _ => false,
    }
}

/// A copy of a cost table entry: the same cost, or a clone of the same error.
pub(crate) fn copy_entry<E: Clone>(x: &Result<u64, E>) -> (r: Result<u64, E>)
    ensures
        same_entry(*x, r),
{
    match x {
        Ok(c) => Ok(*c),
        Err(f) => Err(f.clone()),
    }
}

impl<E> CostTable<E> {
    /// The table has one entry for each move of the graph.
    pub open spec fn fits(&self, g: &RoadGraph) -> bool {
        &&& self.start@.len() == g.edge_count_spec()
        &&& self.turns@.len() == g.edge_count_spec()
        &&& forall|p: int|
            0 <= p < g.edge_count_spec() ==> (#[trigger] self.turns@[p])@.len() == g.spec_outgoing()[g.spec_edges()[p].to.0 as int].len()
    }

    /// Whether the table has one entry for each move of the graph.
    pub fn fits_graph(&self, g: &RoadGraph) -> (r: bool)
        requires
            g.wf(),
        ensures
            r == self.fits(g),
    {
        let m = g.edge_count();
        if self.start.len() != m || self.turns.len() != m {
            return false;
        }
        let mut p: usize = 0;
        while p < m
            invariant
                g.wf(),
                m == g.edge_count_spec(),
                self.start@.len() == m,
                self.turns@.len() == m,
                p <= m,
                forall|q: int|
                    0 <= q < p ==> (#[trigger] self.turns@[q])@.len() == g.spec_outgoing()[g.spec_edges()[q].to.0 as int].len(),
            decreases m - p,
        {
            let to = g.edges()[p].to;
            let out = match g.outgoing(to) {
                Ok(out) => out,
                Err(_) => {
                    return false;
                },
            };
            if self.turns[p].len() != out.len() {
                return false;
            }
            p = p + 1;
        }
        true
    }
}

/// The node at which a search state stands.
pub open spec fn state_node(g: &RoadGraph, origin: NodeId, s: int) -> int {
    if s == 0 {
        origin.0 as int
    } else {
        g.spec_edges()[s - 1].to.0 as int
    }
}

/// Whether edge `e` may be entered from state `s`.
pub open spec fn step_permitted(g: &RoadGraph, origin: NodeId, s: int, e: int) -> bool {
    &&& 0 <= e < g.edge_count_spec()
    &&& g.spec_edges()[e].from.0 == state_node(g, origin, s)
    &&& s > 0 ==> g.spec_transition_allowed(s - 1, e)
}

/// The position of edge `e` among the outgoing edges of node `u`.
pub open spec fn outgoing_position(g: &RoadGraph, u: int, e: int) -> int {
    choose|k: int|
        0 <= k < g.spec_outgoing()[u].len() && (#[trigger] g.spec_outgoing()[u][k]).0 == e
}

/// The table's entry for entering edge `e` from state `s`.
pub open spec fn step_entry<E>(g: &RoadGraph, t: &CostTable<E>, s: int, e: int) -> Result<u64, E> {
    if s == 0 {
        t.start@[e]
    } else {
        t.turns@[s - 1]@[outgoing_position(g, g.spec_edges()[s - 1].to.0 as int, e)]
    }
}

/// The cost of entering edge `e` from state `s`, when the table has one.
pub open spec fn step_cost<E>(g: &RoadGraph, t: &CostTable<E>, s: int, e: int) -> Option<u64> {
    known_cost(step_entry(g, t, s, e))
}

/// The state reached after the first `i` edges of `w`.
pub open spec fn walk_state(w: Seq<EdgeId>, i: int) -> int {
    if i == 0 {
        0
    } else {
        w[i - 1].0 + 1
    }
}

pub open spec fn end_state(w: Seq<EdgeId>) -> int {
    walk_state(w, w.len() as int)
}

/// `w` is a drivable sequence of edges starting at `origin`.
pub open spec fn is_walk(g: &RoadGraph, origin: NodeId, w: Seq<EdgeId>) -> bool {
    forall|i: int|
        0 <= i < w.len() ==> step_permitted(g, origin, walk_state(w, i), (#[trigger] w[i]).0 as int)
}

/// Every move of `w` has a known cost.
pub open spec fn is_priced<E: Clone>(g: &RoadGraph, t: &CostTable<E>, w: Seq<EdgeId>) -> bool {
    forall|i: int| 0 <= i < w.len() ==> step_cost(g, t, walk_state(w, i), (#[trigger] w[i]).0 as int) is Some
}

/// The total cost of the moves of `w`.
pub open spec fn walk_cost<E: Clone>(g: &RoadGraph, t: &CostTable<E>, w: Seq<EdgeId>) -> int
    decreases w.len(),
{
    if w.len() == 0 {
        0
    } else {
        walk_cost(g, t, w.drop_last()) + step_cost(
            g,
            t,
            walk_state(w, w.len() - 1),
            w.last().0 as int,
        ).unwrap() as int
    }
}

/// `w` is a priced walk from `origin` to state `s` and no priced walk to `s` costs less.
pub open spec fn is_cheapest_to_state<E: Clone>(
    g: &RoadGraph,
    t: &CostTable<E>,
    origin: NodeId,
    w: Seq<EdgeId>,
    s: int,
) -> bool {
    &&& is_walk(g, origin, w)
    &&& is_priced(g, t, w)
    &&& end_state(w) == s
    &&& forall|v: Seq<EdgeId>|
        is_walk(g, origin, v) && is_priced(g, t, v) && end_state(v) == s ==> walk_cost(g, t, w)
            <= #[trigger] walk_cost(g, t, v)
}

proof fn lemma_walk_push<E: Clone>(g: &RoadGraph, t: &CostTable<E>, origin: NodeId, w: Seq<EdgeId>, e: EdgeId)
    requires
        is_walk(g, origin, w),
        is_priced(g, t, w),
        step_permitted(g, origin, end_state(w), e.0 as int),
        step_cost(g, t, end_state(w), e.0 as int) is Some,
    ensures
        is_walk(g, origin, w.push(e)),
        is_priced(g, t, w.push(e)),
        end_state(w.push(e)) == e.0 + 1,
        walk_cost(g, t, w.push(e)) == walk_cost(g, t, w) + step_cost(
            g,
            t,
            end_state(w),
            e.0 as int,
        ).unwrap(),
{
    let v = w.push(e);
    assert(v.drop_last() == w);
    assert forall|i: int| 0 <= i <= w.len() implies walk_state(v, i) == walk_state(w, i) by {
        if i > 0 {
            assert(v[i - 1] == w[i - 1]);
        }
    }
    assert forall|i: int| 0 <= i < v.len() implies step_permitted(
        g,
        origin,
        walk_state(v, i),
        (#[trigger] v[i]).0 as int,
    ) by {
        if i < w.len() {
            assert(v[i] == w[i]);
        }
    }
    assert forall|i: int| 0 <= i < v.len() implies step_cost(
        g,
        t,
        walk_state(v, i),
        (#[trigger] v[i]).0 as int,
    ) is Some by {
        if i < w.len() {
            assert(v[i] == w[i]);
        }
    }
}

proof fn lemma_walk_prefix<E: Clone>(g: &RoadGraph, t: &CostTable<E>, origin: NodeId, w: Seq<EdgeId>)
    requires
        w.len() > 0,
        is_walk(g, origin, w),
        is_priced(g, t, w),
    ensures
        is_walk(g, origin, w.drop_last()),
        is_priced(g, t, w.drop_last()),
        end_state(w) == w.last().0 + 1,
        step_permitted(g, origin, end_state(w.drop_last()), w.last().0 as int),
        step_cost(g, t, end_state(w.drop_last()), w.last().0 as int) is Some,
        walk_cost(g, t, w) == walk_cost(g, t, w.drop_last()) + step_cost(
            g,
            t,
            end_state(w.drop_last()),
            w.last().0 as int,
        ).unwrap(),
{
    let v = w.drop_last();
    assert forall|i: int| 0 <= i <= v.len() implies walk_state(v, i) == walk_state(w, i) by {
        if i > 0 {
            assert(v[i - 1] == w[i - 1]);
        }
    }
    assert forall|i: int| 0 <= i < v.len() implies step_permitted(
        g,
        origin,
        walk_state(v, i),
        (#[trigger] v[i]).0 as int,
    ) by {
        assert(v[i] == w[i]);
    }
    assert forall|i: int| 0 <= i < v.len() implies step_cost(
        g,
        t,
        walk_state(v, i),
        (#[trigger] v[i]).0 as int,
    ) is Some by {
        assert(v[i] == w[i]);
    }
    assert(w[w.len() - 1] == w.last());
}

/// The end state of a walk is 0 exactly when the walk is empty.
proof fn lemma_end_state(w: Seq<EdgeId>)
    ensures
        (end_state(w) == 0) == (w.len() == 0),
        w.len() > 0 ==> end_state(w) == w.last().0 + 1,
{
}


/// Follows predecessor links from state `s` back to state 0 and lists the edges driven,
/// first edge first. `None` means the links run on for more than `fuel` steps; `Err` means a
/// state other than 0 has no predecessor.
pub open spec fn predecessor_chain(pred: Seq<Option<usize>>, s: int, fuel: nat) -> Option<
    Result<Seq<EdgeId>, ()>,
>
    decreases fuel,
{
    if s == 0 {
        Some(Ok(Seq::empty()))
    } else if fuel == 0 {
        None
    } else {
        match pred[s] {
            Some(p) => chain_then(
                predecessor_chain(pred, p as int, (fuel - 1) as nat),
                seq![EdgeId((s - 1) as u32)],
            ),
            None => Some(Err(())),
        }
    }
}

/// Appends `suffix` to a successfully followed chain.
pub open spec fn chain_then(c: Option<Result<Seq<EdgeId>, ()>>, suffix: Seq<EdgeId>) -> Option<
    Result<Seq<EdgeId>, ()>,
> {
    match c {
        Some(Ok(w)) => Some(Ok(w + suffix)),
        other => other,
    }
}

spec fn reversed(s: Seq<EdgeId>) -> Seq<EdgeId> {
    Seq::new(s.len(), |i: int| s[s.len() - 1 - i])
}

/// Rebuilds the edges of the route that ends in `state` from the predecessor links.
pub fn reconstruct_path(state: usize, predecessors: &[Option<usize>]) -> (r: Result<
    Vec<EdgeId>,
    Error,
>)
    requires
        state < predecessors@.len(),
        forall|i: int|
            0 <= i < predecessors@.len() ==> (#[trigger] predecessors@[i] matches Some(p) ==> p
                < predecessors@.len()),
        predecessor_chain(predecessors@, state as int, predecessors@.len() as nat) is Some,
    ensures
        predecessor_chain(predecessors@, state as int, predecessors@.len() as nat) matches Some(
            Ok(w),
        ) ==> (r matches Ok(path) && path@ == w),
        predecessor_chain(predecessors@, state as int, predecessors@.len() as nat) matches Some(
            Err(_),
        ) ==> r == Err::<Vec<EdgeId>, Error>(
            Error::InvalidRoute(RouteDefect::BrokenPredecessorChain),
        ),
{
    let ghost total = predecessor_chain(predecessors@, state as int, predecessors@.len() as nat);
    let mut back: Vec<EdgeId> = Vec::new();
    let mut current = state;
    let ghost mut fuel: nat = predecessors@.len() as nat;
    while current != 0
        invariant
            current < predecessors@.len(),
            forall|i: int|
                0 <= i < predecessors@.len() ==> (#[trigger] predecessors@[i] matches Some(p) ==> p
                    < predecessors@.len()),
            total is Some,
            total == predecessor_chain(predecessors@, state as int, predecessors@.len() as nat),
            total == chain_then(
                predecessor_chain(predecessors@, current as int, fuel),
                reversed(back@),
            ),
        decreases fuel,
    {
        proof {
            if fuel == 0 {
                assert(predecessor_chain(predecessors@, current as int, fuel) is None);
            }
        }
        let edge = EdgeId(#[verifier::truncate] ((current - 1) as u32));
        let ghost old_back = back@;
        back.push(edge);
        proof {
            assert(reversed(back@) =~= seq![edge] + reversed(old_back));
        }
        match predecessors[current] {
            Some(p) => {
                proof {
                    let inner = predecessor_chain(predecessors@, p as int, (fuel - 1) as nat);
                    match inner {
                        Some(Ok(w)) => {
                            assert(w + seq![edge] + reversed(old_back) =~= w + (seq![edge]
                                + reversed(old_back)));
                        },
                        _ => {},
                    }
                    fuel = (fuel - 1) as nat;
                }
                current = p;
            },
            None => {
                proof {
                    assert(predecessor_chain(predecessors@, current as int, fuel) == Some(
                        Err::<Seq<EdgeId>, ()>(()),
                    ));
                    assert(total == Some(Err::<Seq<EdgeId>, ()>(())));
                }
                return Err(Error::InvalidRoute(RouteDefect::BrokenPredecessorChain));
            },
        }
    }
    let mut edges: Vec<EdgeId> = Vec::new();
    let n = back.len();
    let mut i: usize = 0;
    while i < n
        invariant
            n == back@.len(),
            i <= n,
            edges@ == reversed(back@).take(i as int),
        decreases n - i,
    {
        edges.push(back[n - 1 - i]);
        proof {
            assert(reversed(back@).take(i as int + 1) =~= reversed(back@).take(i as int).push(
                back@[n - 1 - i],
            ));
        }
        i = i + 1;
    }
    proof {
        assert(reversed(back@).take(n as int) =~= reversed(back@));
        assert(Seq::<EdgeId>::empty() + reversed(back@) =~= reversed(back@));
    }
    Ok(edges)
}


/// A priced walk from the origin to state `s` whose cost is `cost`.
#[verifier::opaque]
spec fn walk_known<E: Clone>(
    g: &RoadGraph,
    t: &CostTable<E>,
    origin: NodeId,
    w: Seq<EdgeId>,
    cost: Option<u64>,
    s: int,
) -> bool {
    &&& is_walk(g, origin, w)
    &&& is_priced(g, t, w)
    &&& end_state(w) == s
    &&& walk_cost(g, t, w) == cost.unwrap()
}

/// The predecessor link of a known state: it leads to a settled state, and the recorded walk
/// extends the predecessor's walk by one edge.
spec fn link_known(
    dist: Seq<Option<u64>>,
    pred: Seq<Option<usize>>,
    settled: Set<int>,
    walks: Seq<Seq<EdgeId>>,
    rank: Seq<nat>,
    depth: Seq<nat>,
    s: int,
) -> bool {
    &&& s == 0 ==> pred[s] is None && depth[s] == 0 && walks[s].len() == 0
    &&& s > 0 ==> {
        &&& pred[s] is Some
        &&& pred[s].unwrap() < dist.len()
        &&& settled.contains(pred[s].unwrap() as int)
        &&& dist[pred[s].unwrap() as int] is Some
        &&& walks[s] == walks[pred[s].unwrap() as int].push(EdgeId((s - 1) as u32))
        &&& depth[s] == depth[pred[s].unwrap() as int] + 1
        &&& settled.contains(s) ==> rank[pred[s].unwrap() as int] < rank[s]
    }
}

/// What the search knows about a state whose tentative cost is known: a priced walk of
/// that cost, and a predecessor link to a settled state along which the walk was found.
spec fn known_state<E: Clone>(
    g: &RoadGraph,
    t: &CostTable<E>,
    origin: NodeId,
    dist: Seq<Option<u64>>,
    pred: Seq<Option<usize>>,
    settled: Set<int>,
    walks: Seq<Seq<EdgeId>>,
    rank: Seq<nat>,
    depth: Seq<nat>,
    s: int,
) -> bool {
    &&& walk_known(g, t, origin, walks[s], dist[s], s)
    &&& link_known(dist, pred, settled, walks, rank, depth, s)
}

#[verifier::opaque]
spec fn known_inv<E: Clone>(
    g: &RoadGraph,
    t: &CostTable<E>,
    origin: NodeId,
    dist: Seq<Option<u64>>,
    pred: Seq<Option<usize>>,
    settled: Set<int>,
    walks: Seq<Seq<EdgeId>>,
    rank: Seq<nat>,
    depth: Seq<nat>,
) -> bool {
    &&& pred.len() == dist.len()
    &&& walks.len() == dist.len()
    &&& rank.len() == dist.len()
    &&& depth.len() == dist.len()
    &&& forall|s: int|
        0 <= s < dist.len() ==> (#[trigger] pred[s] matches Some(p) ==> p < dist.len())
    &&& forall|s: int|
        0 <= s < dist.len() && (#[trigger] dist[s]) is Some ==> known_state(
            g,
            t,
            origin,
            dist,
            pred,
            settled,
            walks,
            rank,
            depth,
            s,
        )
}

/// Facts about the settled states: final costs that no priced walk beats, taken no later
/// than `last`, none of them at the destination.
#[verifier::opaque]
spec fn settled_inv<E: Clone>(
    g: &RoadGraph,
    t: &CostTable<E>,
    origin: NodeId,
    destination: NodeId,
    dist: Seq<Option<u64>>,
    settled: Set<int>,
    queue: Multiset<(u64, usize)>,
    rank: Seq<nat>,
    depth: Seq<nat>,
    last: int,
) -> bool {
    &&& dist.len() <= usize::MAX
    &&& rank.len() == dist.len()
    &&& depth.len() == dist.len()
    &&& settled.subset_of(vstd::set_lib::set_int_range(0, dist.len() as int))
    &&& forall|s: int|
        #[trigger] settled.contains(s) ==> {
            &&& dist[s] is Some
            &&& dist[s].unwrap() <= last
            &&& state_node(g, origin, s) != destination.0
            &&& queue.count((dist[s].unwrap(), s as usize)) == 0
            &&& rank[s] < settled.len()
            &&& depth[s] <= rank[s]
            &&& forall|v: Seq<EdgeId>|
                is_walk(g, origin, v) && is_priced(g, t, v) && end_state(v) == s
                    ==> dist[s].unwrap() <= #[trigger] walk_cost(g, t, v)
        }
}

/// The move from state `v` onto edge `e` is priced and the state it leads to is known at a
/// cost no higher than through `v`.
spec fn relaxed_move<E: Clone>(g: &RoadGraph, t: &CostTable<E>, dist: Seq<Option<u64>>, v: int, e: int) -> bool {
    &&& step_cost(g, t, v, e) is Some
    &&& dist[e + 1] is Some
    &&& dist[e + 1].unwrap() <= dist[v].unwrap() + step_cost(g, t, v, e).unwrap()
}

/// Every move out of a settled state has been priced and relaxed.
#[verifier::opaque]
spec fn relaxed_inv<E: Clone>(
    g: &RoadGraph,
    t: &CostTable<E>,
    origin: NodeId,
    dist: Seq<Option<u64>>,
    settled: Set<int>,
) -> bool {
    forall|u: int, e: int|
        #![trigger settled.contains(u), step_permitted(g, origin, u, e)]
        settled.contains(u) && step_permitted(g, origin, u, e) ==> relaxed_move(g, t, dist, u, e)
}

/// Every move out of a settled state other than `u`, and the moves onto the first `k`
/// outgoing edges of `u`'s node, have been priced and relaxed.
#[verifier::opaque]
spec fn relaxed_upto<E: Clone>(
    g: &RoadGraph,
    t: &CostTable<E>,
    origin: NodeId,
    dist: Seq<Option<u64>>,
    settled: Set<int>,
    u: int,
    k: int,
) -> bool {
    &&& forall|v: int, e: int|
        #![trigger settled.contains(v), step_permitted(g, origin, v, e)]
        settled.contains(v) && v != u && step_permitted(g, origin, v, e) ==> relaxed_move(
            g,
            t,
            dist,
            v,
            e,
        )
    &&& forall|j: int|
        0 <= j < k && step_permitted(
            g,
            origin,
            u,
            (#[trigger] g.spec_outgoing()[state_node(g, origin, u)][j]).0 as int,
        ) ==> relaxed_move(g, t, dist, u, g.spec_outgoing()[state_node(g, origin, u)][j].0 as int)
}

/// Queue entries are never cheaper than their state's tentative cost nor than `last`, and
/// every unsettled state with a tentative cost has exactly one entry at that cost.
#[verifier::opaque]
spec fn queue_inv(
    dist: Seq<Option<u64>>,
    settled: Set<int>,
    queue: Multiset<(u64, usize)>,
    last: int,
) -> bool {
    &&& dist.len() <= usize::MAX
    &&& forall|x: (u64, usize)|
        #[trigger] queue.count(x) > 0 ==> x.1 < dist.len() && dist[x.1 as int] is Some
            && dist[x.1 as int].unwrap() <= x.0 && last <= x.0
    &&& forall|s: int|
        0 <= s < dist.len() && !settled.contains(s) && (#[trigger] dist[s]) is Some
            ==> queue.count((dist[s].unwrap(), s as usize)) == 1
}

/// A priced walk that ends in an unsettled state costs at least `m`, when `m` bounds the
/// tentative costs of all unsettled states from below.
proof fn lemma_frontier_bound<E: Clone>(
    g: &RoadGraph,
    t: &CostTable<E>,
    origin: NodeId,
    destination: NodeId,
    dist: Seq<Option<u64>>,
    settled: Set<int>,
    queue: Multiset<(u64, usize)>,
    rank: Seq<nat>,
    depth: Seq<nat>,
    last: int,
    m: int,
    w: Seq<EdgeId>,
)
    requires
        g.wf(),
        dist.len() == g.edge_count_spec() + 1,
        dist[0] == Some(0u64),
        settled_inv(g, t, origin, destination, dist, settled, queue, rank, depth, last),
        relaxed_inv(g, t, origin, dist, settled),
        forall|x: int|
            0 <= x < dist.len() && !settled.contains(x) && (#[trigger] dist[x]) is Some ==> m
                <= dist[x].unwrap(),
        is_walk(g, origin, w),
        is_priced(g, t, w),
        !settled.contains(end_state(w)),
    ensures
        m <= walk_cost(g, t, w),
    decreases w.len(),
{
    reveal(settled_inv);
    reveal(relaxed_inv);
    if w.len() == 0 {
        assert(dist[0] is Some);
    } else {
        let v = w.drop_last();
        lemma_walk_prefix(g, t, origin, w);
        let y = end_state(v);
        let e = w.last().0 as int;
        if settled.contains(y) {
            assert(step_permitted(g, origin, y, e));
            assert(dist[e + 1] is Some);
            assert(end_state(w) == e + 1);
        } else {
            lemma_frontier_bound(
                g,
                t,
                origin,
                destination,
                dist,
                settled,
                queue,
                rank,
                depth,
                last,
                m,
                v,
            );
        }
    }
}

/// Following predecessor links from a known state yields its recorded walk.
proof fn lemma_chain<E: Clone>(
    g: &RoadGraph,
    t: &CostTable<E>,
    origin: NodeId,
    dist: Seq<Option<u64>>,
    pred: Seq<Option<usize>>,
    settled: Set<int>,
    walks: Seq<Seq<EdgeId>>,
    rank: Seq<nat>,
    depth: Seq<nat>,
    s: int,
    fuel: nat,
)
    requires
        known_inv(g, t, origin, dist, pred, settled, walks, rank, depth),
        0 <= s < dist.len(),
        dist[s] is Some,
        depth[s] <= fuel,
    ensures
        predecessor_chain(pred, s, fuel) == Some(Ok::<Seq<EdgeId>, ()>(walks[s])),
    decreases depth[s],
{
    reveal(known_inv);
    assert(known_state(g, t, origin, dist, pred, settled, walks, rank, depth, s));
    if s == 0 {
        lemma_end_state(walks[s]);
        assert(walks[s] =~= Seq::<EdgeId>::empty());
    } else {
        let p = pred[s].unwrap() as int;
        lemma_chain(g, t, origin, dist, pred, settled, walks, rank, depth, p, (fuel - 1) as nat);
        assert(walks[p] + seq![EdgeId((s - 1) as u32)] =~= walks[p].push(EdgeId((s - 1) as u32)));
    }
}


/// Every walk from the origin ends in a settled state, when no unsettled state has a
/// tentative cost.
proof fn lemma_walks_end_settled<E: Clone>(
    g: &RoadGraph,
    t: &CostTable<E>,
    origin: NodeId,
    dist: Seq<Option<u64>>,
    settled: Set<int>,
    w: Seq<EdgeId>,
)
    requires
        g.wf(),
        dist.len() == g.edge_count_spec() + 1,
        dist[0] is Some,
        relaxed_inv(g, t, origin, dist, settled),
        forall|s: int| 0 <= s < dist.len() && (#[trigger] dist[s]) is Some ==> settled.contains(s),
        is_walk(g, origin, w),
    ensures
        settled.contains(end_state(w)),
    decreases w.len(),
{
    reveal(relaxed_inv);
    if w.len() > 0 {
        let v = w.drop_last();
        assert forall|i: int| 0 <= i <= v.len() implies walk_state(v, i) == walk_state(w, i) by {
            if i > 0 {
                assert(v[i - 1] == w[i - 1]);
            }
        }
        assert forall|i: int| 0 <= i < v.len() implies step_permitted(
            g,
            origin,
            walk_state(v, i),
            (#[trigger] v[i]).0 as int,
        ) by {
            assert(v[i] == w[i]);
        }
        lemma_walks_end_settled(g, t, origin, dist, settled, v);
        let e = w.last().0 as int;
        assert(w[w.len() - 1] == w.last());
        assert(step_permitted(g, origin, end_state(v), e));
    }
}

/// In an adjacency list, an edge's position is the index at which it is stored.
proof fn lemma_outgoing_position(g: &RoadGraph, u: int, k: int)
    requires
        g.wf(),
        0 <= u < g.node_count_spec(),
        0 <= k < g.spec_outgoing()[u].len(),
    ensures
        outgoing_position(g, u, g.spec_outgoing()[u][k].0 as int) == k,
{
    let out = g.spec_outgoing()[u];
    assert(lists_outgoing(out, g.spec_edges(), u));
    let e = out[k].0 as int;
    assert(out[k].0 == e);
    let j = outgoing_position(g, u, e);
    assert(0 <= j < out.len() && out[j].0 == e);
    if j < k {
        assert(out[j].0 < out[k].0);
    } else if j > k {
        assert(out[k].0 < out[j].0);
    }
}

/// `(a, i)` comes before `(b, j)`: a lower cost, or the same cost and a lower state.
pub open spec fn lex_lt(a: int, i: int, b: int, j: int) -> bool {
    a < b || (a == b && i < j)
}

/// `(a, i)` comes no later than `(b, j)` by cost and then by state.
pub open spec fn lex_le(a: int, i: int, b: int, j: int) -> bool {
    a < b || (a == b && i <= j)
}

/// Every permitted move that the table prices costs more than nothing.
pub open spec fn positive_costs<E: Clone>(g: &RoadGraph, t: &CostTable<E>, origin: NodeId) -> bool {
    forall|s: int, e: int|
        #![trigger step_permitted(g, origin, s, e)]
        0 <= s <= g.edge_count_spec() && step_permitted(g, origin, s, e) && step_cost(g, t, s, e)
            is Some ==> step_cost(g, t, s, e).unwrap() > 0
}

/// At every step of `path`, the state it comes from is the first, by cost and then by
/// number, among the states from which a priced walk enters the same edge at the same total
/// cost.
pub open spec fn least_predecessors<E: Clone>(
    g: &RoadGraph,
    t: &CostTable<E>,
    origin: NodeId,
    path: Seq<EdgeId>,
) -> bool {
    forall|i: int, w: Seq<EdgeId>|
        #![trigger path[i], walk_cost(g, t, w)]
        0 <= i < path.len() && is_walk(g, origin, w) && is_priced(g, t, w) && step_permitted(
            g,
            origin,
            end_state(w),
            path[i].0 as int,
        ) && step_cost(g, t, end_state(w), path[i].0 as int) is Some && walk_cost(g, t, w)
            + step_cost(g, t, end_state(w), path[i].0 as int).unwrap() == walk_cost(
            g,
            t,
            path.take(i + 1),
        ) ==> lex_le(
            walk_cost(g, t, path.take(i)),
            walk_state(path, i),
            walk_cost(g, t, w),
            end_state(w),
        )
}

/// Settled states come before unsettled known states by cost and then by number.
#[verifier::opaque]
spec fn order_inv(dist: Seq<Option<u64>>, settled: Set<int>) -> bool {
    forall|p: int, x: int|
        #![trigger settled.contains(p), dist[x]]
        settled.contains(p) && 0 <= x < dist.len() && !settled.contains(x) && dist[x] is Some
            ==> lex_lt(dist[p].unwrap() as int, p, dist[x].unwrap() as int, x)
}

/// A known state's predecessor is the first, by cost and then by number, among the settled
/// states whose move onto it reaches its tentative cost.
#[verifier::opaque]
spec fn pred_inv<E: Clone>(
    g: &RoadGraph,
    t: &CostTable<E>,
    origin: NodeId,
    dist: Seq<Option<u64>>,
    pred: Seq<Option<usize>>,
    settled: Set<int>,
) -> bool {
    forall|q: int, e: int|
        #![trigger settled.contains(q), step_permitted(g, origin, q, e)]
        settled.contains(q) && step_permitted(g, origin, q, e) && step_cost(g, t, q, e) is Some
            && dist[e + 1] is Some && dist[q].unwrap() + step_cost(g, t, q, e).unwrap() == dist[e
            + 1].unwrap() ==> pred[e + 1] is Some && lex_le(
            dist[pred[e + 1].unwrap() as int].unwrap() as int,
            pred[e + 1].unwrap() as int,
            dist[q].unwrap() as int,
            q,
        )
}

/// Settling the least queued state keeps both orders.
proof fn lemma_order_settle<E: Clone>(
    g: &RoadGraph,
    t: &CostTable<E>,
    origin: NodeId,
    destination: NodeId,
    dist: Seq<Option<u64>>,
    pred: Seq<Option<usize>>,
    settled: Set<int>,
    queue: Multiset<(u64, usize)>,
    walks: Seq<Seq<EdgeId>>,
    rank: Seq<nat>,
    depth: Seq<nat>,
    last: int,
    c: u64,
    u: usize,
)
    requires
        search_inv(g, t, origin, destination, dist, pred, settled, queue, walks, rank, depth, last),
        u < dist.len(),
        dist[u as int] == Some(c),
        !settled.contains(u as int),
        forall|y: (u64, usize)| queue.count(y) > 0 ==> entry_le((c, u), y),
        forall|x: int|
            0 <= x < dist.len() && !settled.contains(x) && (#[trigger] dist[x]) is Some ==> c
                <= dist[x].unwrap(),
        positive_costs(g, t, origin) ==> order_inv(dist, settled),
        positive_costs(g, t, origin) ==> pred_inv(g, t, origin, dist, pred, settled),
    ensures
        positive_costs(g, t, origin) ==> order_inv(dist, settled.insert(u as int)),
        positive_costs(g, t, origin) ==> pred_inv(
            g,
            t,
            origin,
            dist,
            pred,
            settled.insert(u as int),
        ),
{
    if positive_costs(g, t, origin) {
        reveal(order_inv);
        reveal(pred_inv);
        reveal(queue_inv);
        reveal(known_inv);
        let s2 = settled.insert(u as int);
        assert forall|p: int, x: int|
            #![trigger s2.contains(p), dist[x]]
            s2.contains(p) && 0 <= x < dist.len() && !s2.contains(x) && dist[x] is Some implies lex_lt(
                dist[p].unwrap() as int,
                p,
                dist[x].unwrap() as int,
                x,
            ) by {
            if p == u as int {
                if dist[x].unwrap() == c {
                    assert(queue.count((dist[x].unwrap(), x as usize)) == 1);
                    assert(entry_le((c, u), (dist[x].unwrap(), x as usize)));
                }
            } else {
                assert(settled.contains(p));
            }
        }
        assert(order_inv(dist, s2));
        assert forall|q: int, e: int|
            #![trigger s2.contains(q), step_permitted(g, origin, q, e)]
            s2.contains(q) && step_permitted(g, origin, q, e) && step_cost(g, t, q, e) is Some
                && dist[e + 1] is Some && dist[q].unwrap() + step_cost(g, t, q, e).unwrap()
                == dist[e + 1].unwrap() implies pred[e + 1] is Some && lex_le(
            dist[pred[e + 1].unwrap() as int].unwrap() as int,
            pred[e + 1].unwrap() as int,
            dist[q].unwrap() as int,
            q,
        ) by {
            if q == u as int {
                assert(0 <= e + 1 < dist.len());
                assert(known_state(g, t, origin, dist, pred, settled, walks, rank, depth, e + 1));
                let p = pred[e + 1].unwrap() as int;
                assert(settled.contains(p));
                assert(lex_lt(dist[p].unwrap() as int, p, dist[u as int].unwrap() as int, u as int));
            } else {
                assert(settled.contains(q));
            }
        }
        assert(pred_inv(g, t, origin, dist, pred, s2));
    }
}

/// Lowering the cost of the state reached by a move out of the state being settled keeps
/// both orders, with that state's predecessor now the settled one.
proof fn lemma_order_relax<E: Clone>(
    g: &RoadGraph,
    t: &CostTable<E>,
    origin: NodeId,
    destination: NodeId,
    dist: Seq<Option<u64>>,
    pred: Seq<Option<usize>>,
    settled: Set<int>,
    queue: Multiset<(u64, usize)>,
    walks: Seq<Seq<EdgeId>>,
    rank: Seq<nat>,
    depth: Seq<nat>,
    last: int,
    u: usize,
    k: int,
    e: EdgeId,
    next: u64,
)
    requires
        g.wf(),
        search_inv(g, t, origin, destination, dist, pred, settled, queue, walks, rank, depth, last),
        search_inv(
            g,
            t,
            origin,
            destination,
            dist.update(e.0 + 1, Some(next)),
            pred.update(e.0 + 1, Some(u)),
            settled,
            queue.insert((next, (e.0 + 1) as usize)),
            walks.update(e.0 + 1, walks[u as int].push(e)),
            rank,
            depth.update(e.0 + 1, depth[u as int] + 1),
            last,
        ),
        relaxed_upto(g, t, origin, dist, settled, u as int, k),
        settled.contains(u as int),
        u < dist.len(),
        dist[u as int] is Some,
        last == dist[u as int].unwrap(),
        step_permitted(g, origin, u as int, e.0 as int),
        step_cost(g, t, u as int, e.0 as int) is Some,
        next == last + step_cost(g, t, u as int, e.0 as int).unwrap(),
        dist[e.0 + 1] is None || next < dist[e.0 + 1].unwrap(),
        positive_costs(g, t, origin) ==> order_inv(dist, settled),
        positive_costs(g, t, origin) ==> pred_inv(g, t, origin, dist, pred, settled),
    ensures
        positive_costs(g, t, origin) ==> order_inv(dist.update(e.0 + 1, Some(next)), settled),
        positive_costs(g, t, origin) ==> pred_inv(
            g,
            t,
            origin,
            dist.update(e.0 + 1, Some(next)),
            pred.update(e.0 + 1, Some(u)),
            settled,
        ),
{
    if positive_costs(g, t, origin) {
        reveal(order_inv);
        reveal(pred_inv);
        reveal(settled_inv);
        reveal(known_inv);
        reveal(relaxed_upto);
        let tt = e.0 + 1;
        let d2 = dist.update(tt, Some(next));
        let p2 = pred.update(tt, Some(u));
        assert(u as int <= g.edge_count_spec());
        assert(step_cost(g, t, u as int, e.0 as int).unwrap() > 0);
        assert(!settled.contains(tt)) by {
            if settled.contains(tt) {
                assert(d2[tt].unwrap() <= last);
            }
        }
        assert forall|p: int, x: int|
            #![trigger settled.contains(p), d2[x]]
            settled.contains(p) && 0 <= x < d2.len() && !settled.contains(x) && d2[x] is Some implies lex_lt(
                d2[p].unwrap() as int,
                p,
                d2[x].unwrap() as int,
                x,
            ) by {
            assert(p != tt);
            assert(dist[p].unwrap() <= last);
            if x != tt {
                assert(dist[x] is Some);
            }
        }
        assert forall|q: int, e2: int|
            #![trigger settled.contains(q), step_permitted(g, origin, q, e2)]
            settled.contains(q) && step_permitted(g, origin, q, e2) && step_cost(g, t, q, e2) is Some
                && d2[e2 + 1] is Some && d2[q].unwrap() + step_cost(g, t, q, e2).unwrap()
                == d2[e2 + 1].unwrap() implies p2[e2 + 1] is Some && lex_le(
            d2[p2[e2 + 1].unwrap() as int].unwrap() as int,
            p2[e2 + 1].unwrap() as int,
            d2[q].unwrap() as int,
            q,
        ) by {
            assert(q != tt);
            if e2 + 1 == tt {
                if q != u as int {
                    assert(relaxed_move(g, t, dist, q, e2));
                }
            } else {
                assert(0 <= e2 + 1 < dist.len());
                assert(known_state(g, t, origin, dist, pred, settled, walks, rank, depth, e2 + 1));
                let p = pred[e2 + 1].unwrap() as int;
                assert(settled.contains(p));
                assert(p != tt);
            }
        }
        assert(order_inv(d2, settled));
        assert(pred_inv(g, t, origin, d2, p2, settled));
    }
}

/// Along the recorded walk of a known state, each prefix is the recorded walk of the state
/// it ends in, each of those states is known, and the predecessor links follow the walk.
proof fn lemma_walk_chain<E: Clone>(
    g: &RoadGraph,
    t: &CostTable<E>,
    origin: NodeId,
    dist: Seq<Option<u64>>,
    pred: Seq<Option<usize>>,
    settled: Set<int>,
    walks: Seq<Seq<EdgeId>>,
    rank: Seq<nat>,
    depth: Seq<nat>,
    s: int,
    i: int,
)
    requires
        known_inv(g, t, origin, dist, pred, settled, walks, rank, depth),
        0 <= s < dist.len(),
        dist[s] is Some,
        0 <= i <= walks[s].len(),
    ensures
        0 <= walk_state(walks[s], i) < dist.len(),
        dist[walk_state(walks[s], i)] is Some,
        walks[walk_state(walks[s], i)] == walks[s].take(i),
        i < walks[s].len() ==> pred[walk_state(walks[s], i + 1)] == Some(
            walk_state(walks[s], i) as usize,
        ),
        i + 1 < walks[s].len() ==> settled.contains(walk_state(walks[s], i + 1)),
    decreases walks[s].len(),
{
    reveal(known_inv);
    reveal(walk_known);
    assert(known_state(g, t, origin, dist, pred, settled, walks, rank, depth, s));
    if i == walks[s].len() {
        assert(walks[s].take(i) =~= walks[s]);
        assert(walk_state(walks[s], i) == end_state(walks[s]));
    } else {
        assert(s != 0);
        let p = pred[s].unwrap() as int;
        let ws = walks[s];
        let wp = walks[p];
        assert(ws == wp.push(EdgeId((s - 1) as u32)));
        lemma_walk_chain(g, t, origin, dist, pred, settled, walks, rank, depth, p, i);
        assert(walk_state(ws, i) == walk_state(wp, i)) by {
            if i > 0 {
                assert(ws[i - 1] == wp[i - 1]);
            }
        }
        assert(ws.take(i) =~= wp.take(i));
        assert(known_state(g, t, origin, dist, pred, settled, walks, rank, depth, p));
        if i == wp.len() {
            assert(walk_state(ws, i + 1) == s);
            assert(walk_state(wp, i) == end_state(wp));
        } else {
            lemma_walk_chain(g, t, origin, dist, pred, settled, walks, rank, depth, p, i + 1);
            assert(walk_state(ws, i + 1) == walk_state(wp, i + 1)) by {
                assert(ws[i] == wp[i]);
            }
            if i + 1 == wp.len() {
                assert(walk_state(wp, i + 1) == end_state(wp));
            }
        }
    }
}

/// When the search stops at state `u`, every step of its recorded walk comes from the first
/// state, by cost and then by number, that enters the same edge at the same total cost.
proof fn lemma_search_order_found<E: Clone>(
    g: &RoadGraph,
    t: &CostTable<E>,
    origin: NodeId,
    destination: NodeId,
    dist: Seq<Option<u64>>,
    pred: Seq<Option<usize>>,
    settled: Set<int>,
    queue: Multiset<(u64, usize)>,
    walks: Seq<Seq<EdgeId>>,
    rank: Seq<nat>,
    depth: Seq<nat>,
    last: int,
    c: u64,
    u: usize,
)
    requires
        g.wf(),
        search_inv(g, t, origin, destination, dist, pred, settled, queue, walks, rank, depth, last),
        relaxed_inv(g, t, origin, dist, settled),
        u < dist.len(),
        dist[u as int] == Some(c),
        !settled.contains(u as int),
        last <= c,
        forall|x: int|
            0 <= x < dist.len() && !settled.contains(x) && (#[trigger] dist[x]) is Some ==> c
                <= dist[x].unwrap(),
        positive_costs(g, t, origin) ==> order_inv(dist, settled),
        positive_costs(g, t, origin) ==> pred_inv(g, t, origin, dist, pred, settled),
    ensures
        positive_costs(g, t, origin) ==> least_predecessors(g, t, origin, walks[u as int]),
{
    if positive_costs(g, t, origin) {
        let path = walks[u as int];
        assert forall|i: int, w: Seq<EdgeId>|
            #![trigger path[i], walk_cost(g, t, w)]
            0 <= i < path.len() && is_walk(g, origin, w) && is_priced(g, t, w) && step_permitted(
                g,
                origin,
                end_state(w),
                path[i].0 as int,
            ) && step_cost(g, t, end_state(w), path[i].0 as int) is Some && walk_cost(g, t, w)
                + step_cost(g, t, end_state(w), path[i].0 as int).unwrap() == walk_cost(
                g,
                t,
                path.take(i + 1),
            ) implies lex_le(
            walk_cost(g, t, path.take(i)),
            walk_state(path, i),
            walk_cost(g, t, w),
            end_state(w),
        ) by {
            reveal(known_inv);
            reveal(walk_known);
            reveal(settled_inv);
            reveal(relaxed_inv);
            reveal(pred_inv);
            lemma_walk_chain(g, t, origin, dist, pred, settled, walks, rank, depth, u as int, i);
            lemma_walk_chain(g, t, origin, dist, pred, settled, walks, rank, depth, u as int, i + 1);
            let a = walk_state(path, i);
            let s = walk_state(path, i + 1);
            let e = path[i].0 as int;
            assert(s == e + 1);
            assert(known_state(g, t, origin, dist, pred, settled, walks, rank, depth, a));
            assert(known_state(g, t, origin, dist, pred, settled, walks, rank, depth, s));
            assert(dist[a].unwrap() == walk_cost(g, t, path.take(i)));
            assert(dist[s].unwrap() == walk_cost(g, t, path.take(i + 1)));
            if i + 1 == path.len() {
                assert(known_state(g, t, origin, dist, pred, settled, walks, rank, depth, u as int));
                assert(walk_state(path, i + 1) == end_state(path));
                assert(s == u as int);
            } else {
                assert(settled.contains(s));
            }
            assert(dist[s].unwrap() <= c);
            let q = end_state(w);
            assert(0 <= q <= g.edge_count_spec()) by {
                if w.len() > 0 {
                    assert(step_permitted(g, origin, walk_state(w, w.len() - 1), w[w.len() - 1].0 as int));
                }
            }
            assert(step_cost(g, t, q, e).unwrap() > 0);
            assert(walk_cost(g, t, w) < c);
            if !settled.contains(q) {
                lemma_frontier_bound(
                    g,
                    t,
                    origin,
                    destination,
                    dist,
                    settled,
                    queue,
                    rank,
                    depth,
                    last,
                    c as int,
                    w,
                );
            }
            assert(settled.contains(q));
            assert(dist[q].unwrap() <= walk_cost(g, t, w));
            assert(relaxed_move(g, t, dist, q, e));
        }
    }
}

/// No priced route from the origin to the destination costs less than `c`.
pub open spec fn costs_at_most_any_route<E: Clone>(
    g: &RoadGraph,
    t: &CostTable<E>,
    origin: NodeId,
    destination: NodeId,
    c: int,
) -> bool {
    forall|v: Seq<EdgeId>|
        is_walk(g, origin, v) && is_priced(g, t, v) && state_node(g, origin, end_state(v))
            == destination.0 ==> c <= #[trigger] walk_cost(g, t, v)
}

/// When every unsettled state's tentative cost is at least `m`, so is the cost of every
/// priced route to the destination, whose last state is never settled.
proof fn lemma_destination_bound<E: Clone>(
    g: &RoadGraph,
    t: &CostTable<E>,
    origin: NodeId,
    destination: NodeId,
    dist: Seq<Option<u64>>,
    settled: Set<int>,
    queue: Multiset<(u64, usize)>,
    rank: Seq<nat>,
    depth: Seq<nat>,
    last: int,
    m: int,
)
    requires
        g.wf(),
        dist.len() == g.edge_count_spec() + 1,
        dist[0] == Some(0u64),
        settled_inv(g, t, origin, destination, dist, settled, queue, rank, depth, last),
        relaxed_inv(g, t, origin, dist, settled),
        forall|x: int|
            0 <= x < dist.len() && !settled.contains(x) && (#[trigger] dist[x]) is Some ==> m
                <= dist[x].unwrap(),
    ensures
        costs_at_most_any_route(g, t, origin, destination, m),
{
    assert forall|v: Seq<EdgeId>|
        is_walk(g, origin, v) && is_priced(g, t, v) && state_node(g, origin, end_state(v))
            == destination.0 implies m <= #[trigger] walk_cost(g, t, v) by {
        reveal(settled_inv);
        if settled.contains(end_state(v)) {
            assert(state_node(g, origin, end_state(v)) != destination.0);
        }
        lemma_frontier_bound(g, t, origin, destination, dist, settled, queue, rank, depth, last, m, v);
    }
}

/// The popped state is the lowest-numbered state at the destination that a walk of the same
/// cost reaches with a final move of positive cost: every such state is queued at that cost.
proof fn lemma_search_tie<E: Clone>(
    g: &RoadGraph,
    t: &CostTable<E>,
    origin: NodeId,
    destination: NodeId,
    dist: Seq<Option<u64>>,
    pred: Seq<Option<usize>>,
    settled: Set<int>,
    queue: Multiset<(u64, usize)>,
    walks: Seq<Seq<EdgeId>>,
    rank: Seq<nat>,
    depth: Seq<nat>,
    last: int,
    c: u64,
    u: usize,
)
    requires
        g.wf(),
        search_inv(g, t, origin, destination, dist, pred, settled, queue, walks, rank, depth, last),
        relaxed_inv(g, t, origin, dist, settled),
        u < dist.len(),
        dist[u as int] == Some(c),
        forall|y: (u64, usize)| queue.count(y) > 0 ==> entry_le((c, u), y),
        forall|x: int|
            0 <= x < dist.len() && !settled.contains(x) && (#[trigger] dist[x]) is Some ==> c
                <= dist[x].unwrap(),
    ensures
        walk_cost(g, t, walks[u as int]) == c,
        end_state(walks[u as int]) == u,
        forall|v: Seq<EdgeId>|
            is_walk(g, origin, v) && is_priced(g, t, v) && v.len() > 0 && state_node(
                g,
                origin,
                end_state(v),
            ) == destination.0 && #[trigger] walk_cost(g, t, v) == c && walk_cost(
                g,
                t,
                v.drop_last(),
            ) < c ==> u <= end_state(v),
{
    reveal(known_inv);
    reveal(walk_known);
    assert(known_state(g, t, origin, dist, pred, settled, walks, rank, depth, u as int));
    assert forall|v: Seq<EdgeId>|
        is_walk(g, origin, v) && is_priced(g, t, v) && v.len() > 0 && state_node(
            g,
            origin,
            end_state(v),
        ) == destination.0 && #[trigger] walk_cost(g, t, v) == c && walk_cost(
            g,
            t,
            v.drop_last(),
        ) < c implies u <= end_state(v) by {
        lemma_walk_prefix(g, t, origin, v);
        let w = v.drop_last();
        let p = end_state(w);
        let e = v.last().0 as int;
        if !settled.contains(p) {
            lemma_frontier_bound(
                g,
                t,
                origin,
                destination,
                dist,
                settled,
                queue,
                rank,
                depth,
                last,
                c as int,
                w,
            );
        }
        reveal(settled_inv);
        reveal(relaxed_inv);
        reveal(queue_inv);
        assert(settled.contains(p));
        assert(step_permitted(g, origin, p, e));
        assert(relaxed_move(g, t, dist, p, e));
        assert(dist[p].unwrap() <= walk_cost(g, t, w));
        let x = e + 1;
        assert(end_state(v) == x);
        if settled.contains(x) {
            assert(state_node(g, origin, x) != destination.0);
        }
        assert(dist[x].unwrap() <= c);
        assert(queue.count((dist[x].unwrap(), x as usize)) == 1);
        assert(entry_le((c, u), (dist[x].unwrap(), x as usize)));
    }
}

/// How a route search ends when origin and destination are distinct nodes of the graph
/// and the cost table fits it: the cheapest priced route, or an error that explains why
/// none was returned. Of the cheapest routes, the one returned ends with the lowest-numbered
/// edge among those whose final move costs something; so of parallel edges of equal cost,
/// the lower one is taken. When every move costs something, each step of the route comes
/// from the first state, by cost and then by number, that enters its edge at that cost, so
/// the whole route is fixed.
pub open spec fn search_outcome<E: Clone>(
    g: &RoadGraph,
    t: &CostTable<E>,
    origin: NodeId,
    destination: NodeId,
    r: Result<Vec<EdgeId>, SearchError<E>>,
) -> bool {
    match r {
        Ok(path) => {
            &&& path@.len() > 0
            &&& is_walk(g, origin, path@)
            &&& is_priced(g, t, path@)
            &&& state_node(g, origin, end_state(path@)) == destination.0
            &&& forall|v: Seq<EdgeId>|
                is_walk(g, origin, v) && is_priced(g, t, v) && state_node(g, origin, end_state(v))
                    == destination.0 ==> walk_cost(g, t, path@) <= #[trigger] walk_cost(g, t, v)
            &&& forall|v: Seq<EdgeId>|
                is_walk(g, origin, v) && is_priced(g, t, v) && v.len() > 0 && state_node(
                    g,
                    origin,
                    end_state(v),
                ) == destination.0 && #[trigger] walk_cost(g, t, v) == walk_cost(g, t, path@)
                    && walk_cost(g, t, v.drop_last()) < walk_cost(g, t, v) ==> path@.last().0
                    <= v.last().0
            &&& positive_costs(g, t, origin) ==> least_predecessors(g, t, origin, path@)
        },
        Err(SearchError::Route(Error::NoRoute { origin: o, destination: d })) => {
            &&& o == origin
            &&& d == destination
            &&& forall|v: Seq<EdgeId>|
                is_walk(g, origin, v) ==> state_node(g, origin, #[trigger] end_state(v))
                    != destination.0
        },
        Err(SearchError::Cost(x)) => exists|w: Seq<EdgeId>, e: int|
            {
                &&& is_cheapest_to_state(g, t, origin, w, end_state(w))
                &&& state_node(g, origin, end_state(w)) != destination.0
                &&& costs_at_most_any_route(g, t, origin, destination, walk_cost(g, t, w))
                &&& #[trigger] step_permitted(g, origin, end_state(w), e)
                &&& step_entry(g, t, end_state(w), e) matches Err(f) && cloned(f, x)
            },
        Err(SearchError::Route(Error::CostOverflow)) => exists|w: Seq<EdgeId>, e: int|
            {
                &&& is_cheapest_to_state(g, t, origin, w, end_state(w))
                &&& state_node(g, origin, end_state(w)) != destination.0
                &&& costs_at_most_any_route(g, t, origin, destination, walk_cost(g, t, w))
                &&& #[trigger] step_permitted(g, origin, end_state(w), e)
                &&& step_cost(g, t, end_state(w), e) is Some
                &&& walk_cost(g, t, w) + step_cost(g, t, end_state(w), e).unwrap() > u64::MAX
            },
        Err(_) => false,
    }
}

/// All bookkeeping facts of the search except the relaxation of settled states' moves.
spec fn search_inv<E: Clone>(
    g: &RoadGraph,
    t: &CostTable<E>,
    origin: NodeId,
    destination: NodeId,
    dist: Seq<Option<u64>>,
    pred: Seq<Option<usize>>,
    settled: Set<int>,
    queue: Multiset<(u64, usize)>,
    walks: Seq<Seq<EdgeId>>,
    rank: Seq<nat>,
    depth: Seq<nat>,
    last: int,
) -> bool {
    &&& dist.len() == g.edge_count_spec() + 1
    &&& dist[0] == Some(0u64)
    &&& known_inv(g, t, origin, dist, pred, settled, walks, rank, depth)
    &&& settled_inv(g, t, origin, destination, dist, settled, queue, rank, depth, last)
    &&& queue_inv(dist, settled, queue, last)
}

proof fn lemma_search_start<E: Clone>(
    g: &RoadGraph,
    t: &CostTable<E>,
    origin: NodeId,
    destination: NodeId,
    dist: Seq<Option<u64>>,
    pred: Seq<Option<usize>>,
    walks: Seq<Seq<EdgeId>>,
    rank: Seq<nat>,
    depth: Seq<nat>,
    queue: Multiset<(u64, usize)>,
)
    requires
        g.wf(),
        origin != destination,
        dist.len() == g.edge_count_spec() + 1,
        dist[0] == Some(0u64),
        forall|j: int| 1 <= j < dist.len() ==> (#[trigger] dist[j]) is None,
        pred.len() == dist.len(),
        forall|j: int| 0 <= j < pred.len() ==> (#[trigger] pred[j]) is None,
        walks == Seq::new(dist.len(), |j: int| Seq::<EdgeId>::empty()),
        rank == Seq::new(dist.len(), |j: int| 0nat),
        depth == Seq::new(dist.len(), |j: int| 0nat),
        queue == Multiset::<(u64, usize)>::empty().insert((0u64, 0usize)),
        dist.len() <= usize::MAX,
    ensures
        search_inv(
            g,
            t,
            origin,
            destination,
            dist,
            pred,
            Set::empty(),
            queue,
            walks,
            rank,
            depth,
            0,
        ),
        relaxed_inv(g, t, origin, dist, Set::empty()),
{
    reveal(known_inv);
    reveal(settled_inv);
    reveal(queue_inv);
    reveal(relaxed_inv);
    reveal(walk_known);
    let settled = Set::<int>::empty();
    assert forall|s: int| 0 <= s < dist.len() && (#[trigger] dist[s]) is Some implies known_state(
        g,
        t,
        origin,
        dist,
        pred,
        settled,
        walks,
        rank,
        depth,
        s,
    ) by {
        assert(s == 0);
        assert(walks[0].len() == 0);
    }
    assert(settled.subset_of(vstd::set_lib::set_int_range(0, dist.len() as int)));
    assert forall|x: (u64, usize)| #[trigger] queue.count(x) > 0 implies x.1 < dist.len()
        && dist[x.1 as int] is Some && dist[x.1 as int].unwrap() <= x.0 && 0 <= x.0 by {
        assert(x == (0u64, 0usize));
    }
    assert forall|s: int|
        0 <= s < dist.len() && !settled.contains(s) && (#[trigger] dist[s]) is Some
            implies queue.count((dist[s].unwrap(), s as usize)) == 1 by {
        assert(s == 0);
    }
}

/// What a popped entry tells: whether it is stale, and otherwise that its state is
/// unsettled and no priced walk reaches it more cheaply.
proof fn lemma_search_pop<E: Clone>(
    g: &RoadGraph,
    t: &CostTable<E>,
    origin: NodeId,
    destination: NodeId,
    dist: Seq<Option<u64>>,
    pred: Seq<Option<usize>>,
    settled: Set<int>,
    q0: Multiset<(u64, usize)>,
    q1: Multiset<(u64, usize)>,
    walks: Seq<Seq<EdgeId>>,
    rank: Seq<nat>,
    depth: Seq<nat>,
    last: int,
    c: u64,
    u: usize,
)
    requires
        g.wf(),
        search_inv(g, t, origin, destination, dist, pred, settled, q0, walks, rank, depth, last),
        relaxed_inv(g, t, origin, dist, settled),
        q0.count((c, u)) > 0,
        forall|y: (u64, usize)| q0.count(y) > 0 ==> entry_le((c, u), y),
        q1 == q0.remove((c, u)),
    ensures
        u < dist.len(),
        dist[u as int] is Some,
        dist[u as int] != Some(c) ==> search_inv(
            g,
            t,
            origin,
            destination,
            dist,
            pred,
            settled,
            q1,
            walks,
            rank,
            depth,
            last,
        ),
        dist[u as int] == Some(c) ==> {
            &&& !settled.contains(u as int)
            &&& last <= c
            &&& forall|x: int|
                0 <= x < dist.len() && !settled.contains(x) && (#[trigger] dist[x]) is Some ==> c
                    <= dist[x].unwrap()
        },
{
    reveal(queue_inv);
    reveal(settled_inv);
    if dist[u as int] != Some(c) {
        assert forall|x: (u64, usize)| #[trigger] q1.count(x) > 0 implies x.1 < dist.len()
            && dist[x.1 as int] is Some && dist[x.1 as int].unwrap() <= x.0 && last <= x.0 by {
            assert(q0.count(x) > 0);
        }
        assert forall|s: int|
            0 <= s < dist.len() && !settled.contains(s) && (#[trigger] dist[s]) is Some
                implies q1.count((dist[s].unwrap(), s as usize)) == 1 by {
            if s == u as int {
                assert(dist[s].unwrap() != c);
            }
        }
        assert forall|s: int| #[trigger] settled.contains(s) implies q1.count(
            (dist[s].unwrap(), s as usize),
        ) == 0 by {
            assert(q0.count((dist[s].unwrap(), s as usize)) == 0);
        }
        assert(settled_inv(g, t, origin, destination, dist, settled, q1, rank, depth, last));
    } else {
        if settled.contains(u as int) {
            assert(q0.count((dist[u as int].unwrap(), u)) == 0);
        }
        assert forall|x: int|
            0 <= x < dist.len() && !settled.contains(x) && (#[trigger] dist[x]) is Some implies c
                <= dist[x].unwrap() by {
            assert(q0.count((dist[x].unwrap(), x as usize)) == 1);
            assert(entry_le((c, u), (dist[x].unwrap(), x as usize)));
        }
    }
}

/// When the cheapest unsettled state stands at the destination, its recorded walk is a
/// cheapest route and the predecessor links lead back along it.
#[verifier::rlimit(40)]
proof fn lemma_search_found<E: Clone>(
    g: &RoadGraph,
    t: &CostTable<E>,
    origin: NodeId,
    destination: NodeId,
    dist: Seq<Option<u64>>,
    pred: Seq<Option<usize>>,
    settled: Set<int>,
    queue: Multiset<(u64, usize)>,
    walks: Seq<Seq<EdgeId>>,
    rank: Seq<nat>,
    depth: Seq<nat>,
    last: int,
    c: u64,
    u: usize,
)
    requires
        g.wf(),
        origin != destination,
        search_inv(g, t, origin, destination, dist, pred, settled, queue, walks, rank, depth, last),
        relaxed_inv(g, t, origin, dist, settled),
        u < dist.len(),
        dist[u as int] == Some(c),
        !settled.contains(u as int),
        forall|x: int|
            0 <= x < dist.len() && !settled.contains(x) && (#[trigger] dist[x]) is Some ==> c
                <= dist[x].unwrap(),
        state_node(g, origin, u as int) == destination.0,
    ensures
        pred.len() == dist.len(),
        forall|i: int| 0 <= i < pred.len() ==> (#[trigger] pred[i] matches Some(p) ==> p < pred.len()),
        predecessor_chain(pred, u as int, pred.len() as nat) == Some(
            Ok::<Seq<EdgeId>, ()>(walks[u as int]),
        ),
        walks[u as int].len() > 0,
        is_walk(g, origin, walks[u as int]),
        is_priced(g, t, walks[u as int]),
        state_node(g, origin, end_state(walks[u as int])) == destination.0,
        forall|v: Seq<EdgeId>|
            is_walk(g, origin, v) && is_priced(g, t, v) && state_node(g, origin, end_state(v))
                == destination.0 ==> walk_cost(g, t, walks[u as int]) <= #[trigger] walk_cost(
                g,
                t,
                v,
            ),
{
    reveal(known_inv);
    reveal(walk_known);
    assert(known_state(g, t, origin, dist, pred, settled, walks, rank, depth, u as int));
    assert forall|v: Seq<EdgeId>|
        is_walk(g, origin, v) && is_priced(g, t, v) && state_node(g, origin, end_state(v))
            == destination.0 implies walk_cost(g, t, walks[u as int]) <= #[trigger] walk_cost(
        g,
        t,
        v,
    ) by {
        reveal(settled_inv);
        if settled.contains(end_state(v)) {
            assert(state_node(g, origin, end_state(v)) != destination.0);
        }
        lemma_frontier_bound(
            g,
            t,
            origin,
            destination,
            dist,
            settled,
            queue,
            rank,
            depth,
            last,
            c as int,
            v,
        );
    }
    reveal(settled_inv);
    vstd::set_lib::lemma_int_range(0, dist.len() as int);
    vstd::set_lib::lemma_len_subset(settled, vstd::set_lib::set_int_range(0, dist.len() as int));
    if u > 0 {
        let p = pred[u as int].unwrap() as int;
        assert(settled.contains(p));
    }
    lemma_chain(g, t, origin, dist, pred, settled, walks, rank, depth, u as int, pred.len() as nat);
    lemma_end_state(walks[u as int]);
}

/// Settling the popped state `u` at cost `c`.
proof fn lemma_search_settle<E: Clone>(
    g: &RoadGraph,
    t: &CostTable<E>,
    origin: NodeId,
    destination: NodeId,
    dist: Seq<Option<u64>>,
    pred: Seq<Option<usize>>,
    settled: Set<int>,
    q0: Multiset<(u64, usize)>,
    q1: Multiset<(u64, usize)>,
    walks: Seq<Seq<EdgeId>>,
    rank: Seq<nat>,
    depth: Seq<nat>,
    last: int,
    c: u64,
    u: usize,
)
    requires
        g.wf(),
        search_inv(g, t, origin, destination, dist, pred, settled, q0, walks, rank, depth, last),
        relaxed_inv(g, t, origin, dist, settled),
        u < dist.len(),
        dist[u as int] == Some(c),
        !settled.contains(u as int),
        last <= c,
        q0.count((c, u)) > 0,
        forall|y: (u64, usize)| q0.count(y) > 0 ==> entry_le((c, u), y),
        q1 == q0.remove((c, u)),
        forall|x: int|
            0 <= x < dist.len() && !settled.contains(x) && (#[trigger] dist[x]) is Some ==> c
                <= dist[x].unwrap(),
        state_node(g, origin, u as int) != destination.0,
    ensures
        search_inv(
            g,
            t,
            origin,
            destination,
            dist,
            pred,
            settled.insert(u as int),
            q1,
            walks,
            rank.update(u as int, settled.len()),
            depth,
            c as int,
        ),
        relaxed_upto(g, t, origin, dist, settled.insert(u as int), u as int, 0),
{
    assert forall|v: Seq<EdgeId>|
        is_walk(g, origin, v) && is_priced(g, t, v) && end_state(v) == u implies c
        <= #[trigger] walk_cost(g, t, v) by {
        lemma_frontier_bound(
            g,
            t,
            origin,
            destination,
            dist,
            settled,
            q0,
            rank,
            depth,
            last,
            c as int,
            v,
        );
    }
    lemma_settle_depth(g, t, origin, destination, dist, pred, settled, q0, walks, rank, depth, last, u as int);
    lemma_settle_known(g, t, origin, dist, pred, settled, walks, rank, depth, u as int);
    lemma_settle_settled(g, t, origin, destination, dist, settled, q0, q1, rank, depth, last, c, u);
    lemma_settle_queue(dist, settled, q0, q1, last, c, u);
    reveal(relaxed_inv);
    reveal(relaxed_upto);
}

proof fn lemma_settle_depth<E: Clone>(
    g: &RoadGraph,
    t: &CostTable<E>,
    origin: NodeId,
    destination: NodeId,
    dist: Seq<Option<u64>>,
    pred: Seq<Option<usize>>,
    settled: Set<int>,
    queue: Multiset<(u64, usize)>,
    walks: Seq<Seq<EdgeId>>,
    rank: Seq<nat>,
    depth: Seq<nat>,
    last: int,
    u: int,
)
    requires
        search_inv(g, t, origin, destination, dist, pred, settled, queue, walks, rank, depth, last),
        0 <= u < dist.len(),
        dist[u] is Some,
    ensures
        depth[u] <= settled.len(),
        settled.finite(),
        settled.len() <= dist.len(),
        forall|p: int| #[trigger] settled.contains(p) ==> rank[p] < settled.len(),
{
    reveal(known_inv);
    reveal(settled_inv);
    vstd::set_lib::lemma_int_range(0, dist.len() as int);
    vstd::set_lib::lemma_len_subset(settled, vstd::set_lib::set_int_range(0, dist.len() as int));
    assert(known_state(g, t, origin, dist, pred, settled, walks, rank, depth, u));
    if u > 0 {
        let p = pred[u].unwrap() as int;
        assert(settled.contains(p));
    }
}

#[verifier::rlimit(40)]
proof fn lemma_settle_known<E: Clone>(
    g: &RoadGraph,
    t: &CostTable<E>,
    origin: NodeId,
    dist: Seq<Option<u64>>,
    pred: Seq<Option<usize>>,
    settled: Set<int>,
    walks: Seq<Seq<EdgeId>>,
    rank: Seq<nat>,
    depth: Seq<nat>,
    u: int,
)
    requires
        known_inv(g, t, origin, dist, pred, settled, walks, rank, depth),
        0 <= u < dist.len(),
        !settled.contains(u),
        forall|p: int| #[trigger] settled.contains(p) ==> rank[p] < settled.len(),
    ensures
        known_inv(
            g,
            t,
            origin,
            dist,
            pred,
            settled.insert(u),
            walks,
            rank.update(u, settled.len()),
            depth,
        ),
{
    reveal(known_inv);
    let settled2 = settled.insert(u);
    let rank2 = rank.update(u, settled.len());
    assert forall|s: int|
        0 <= s < dist.len() && (#[trigger] dist[s]) is Some implies known_state(
            g,
            t,
            origin,
            dist,
            pred,
            settled2,
            walks,
            rank2,
            depth,
            s,
        ) by {
        assert(known_state(g, t, origin, dist, pred, settled, walks, rank, depth, s));
        if s > 0 {
            let p = pred[s].unwrap() as int;
            assert(settled.contains(p));
        }
    }
}

proof fn lemma_settle_settled<E: Clone>(
    g: &RoadGraph,
    t: &CostTable<E>,
    origin: NodeId,
    destination: NodeId,
    dist: Seq<Option<u64>>,
    settled: Set<int>,
    q0: Multiset<(u64, usize)>,
    q1: Multiset<(u64, usize)>,
    rank: Seq<nat>,
    depth: Seq<nat>,
    last: int,
    c: u64,
    u: usize,
)
    requires
        settled_inv(g, t, origin, destination, dist, settled, q0, rank, depth, last),
        queue_inv(dist, settled, q0, last),
        u < dist.len(),
        dist[u as int] == Some(c),
        !settled.contains(u as int),
        last <= c,
        q1 == q0.remove((c, u)),
        settled.finite(),
        depth[u as int] <= settled.len(),
        state_node(g, origin, u as int) != destination.0,
        forall|v: Seq<EdgeId>|
            is_walk(g, origin, v) && is_priced(g, t, v) && end_state(v) == u ==> c
                <= #[trigger] walk_cost(g, t, v),
    ensures
        settled_inv(
            g,
            t,
            origin,
            destination,
            dist,
            settled.insert(u as int),
            q1,
            rank.update(u as int, settled.len()),
            depth,
            c as int,
        ),
{
    reveal(settled_inv);
    reveal(queue_inv);
    let settled2 = settled.insert(u as int);
    let rank2 = rank.update(u as int, settled.len());
    assert(q0.count((c, u)) == 1);
    assert(settled2.len() == settled.len() + 1);
    assert(settled2.subset_of(vstd::set_lib::set_int_range(0, dist.len() as int)));
    assert forall|s: int| #[trigger] settled2.contains(s) implies {
        &&& dist[s] is Some
        &&& dist[s].unwrap() <= c
        &&& state_node(g, origin, s) != destination.0
        &&& q1.count((dist[s].unwrap(), s as usize)) == 0
        &&& rank2[s] < settled2.len()
        &&& depth[s] <= rank2[s]
        &&& forall|v: Seq<EdgeId>|
            is_walk(g, origin, v) && is_priced(g, t, v) && end_state(v) == s
                ==> dist[s].unwrap() <= #[trigger] walk_cost(g, t, v)
    } by {
        if s != u {
            assert(settled.contains(s));
            assert(q0.count((dist[s].unwrap(), s as usize)) == 0);
            assert(dist[s] is Some);
            assert(dist[s].unwrap() <= c);
            assert(rank2[s] < settled2.len());
            assert(depth[s] <= rank2[s]);
            assert(q1.count((dist[s].unwrap(), s as usize)) == 0);
        } else {
            assert(q1.count((dist[s].unwrap(), s as usize)) == 0);
            assert(rank2[s] < settled2.len());
            assert(depth[s] <= rank2[s]);
        }
    }
}

proof fn lemma_settle_queue(
    dist: Seq<Option<u64>>,
    settled: Set<int>,
    q0: Multiset<(u64, usize)>,
    q1: Multiset<(u64, usize)>,
    last: int,
    c: u64,
    u: usize,
)
    requires
        queue_inv(dist, settled, q0, last),
        q0.count((c, u)) > 0,
        forall|y: (u64, usize)| q0.count(y) > 0 ==> entry_le((c, u), y),
        q1 == q0.remove((c, u)),
    ensures
        queue_inv(dist, settled.insert(u as int), q1, c as int),
{
    reveal(queue_inv);
    assert forall|x: (u64, usize)| #[trigger] q1.count(x) > 0 implies x.1 < dist.len()
        && dist[x.1 as int] is Some && dist[x.1 as int].unwrap() <= x.0 && c <= x.0 by {
        assert(q0.count(x) > 0);
        assert(entry_le((c, u), x));
    }
    assert forall|s: int|
        0 <= s < dist.len() && !settled.insert(u as int).contains(s) && (#[trigger] dist[s]) is Some
            implies q1.count((dist[s].unwrap(), s as usize)) == 1 by {
        assert(q0.count((dist[s].unwrap(), s as usize)) == 1);
    }
}

/// Facts about the recorded walk of a settled state, for reporting why a search stops.
proof fn lemma_search_settled_walk<E: Clone>(
    g: &RoadGraph,
    t: &CostTable<E>,
    origin: NodeId,
    destination: NodeId,
    dist: Seq<Option<u64>>,
    pred: Seq<Option<usize>>,
    settled: Set<int>,
    queue: Multiset<(u64, usize)>,
    walks: Seq<Seq<EdgeId>>,
    rank: Seq<nat>,
    depth: Seq<nat>,
    last: int,
    u: int,
)
    requires
        search_inv(g, t, origin, destination, dist, pred, settled, queue, walks, rank, depth, last),
        settled.contains(u),
    ensures
        is_cheapest_to_state(g, t, origin, walks[u], u),
        walk_cost(g, t, walks[u]) == dist[u].unwrap(),
        (walks[u].len() == 0) == (u == 0),
        walks[u].len() > 0 ==> walks[u].last() == EdgeId((u - 1) as u32),
{
    reveal(known_inv);
    reveal(settled_inv);
    reveal(walk_known);
    assert(0 <= u < dist.len()) by {
        assert(settled.subset_of(vstd::set_lib::set_int_range(0, dist.len() as int)));
    }
    assert(known_state(g, t, origin, dist, pred, settled, walks, rank, depth, u));
    lemma_end_state(walks[u]);
}

/// A move that is skipped or does not improve its target keeps the relaxation facts.
proof fn lemma_search_skip<E: Clone>(
    g: &RoadGraph,
    t: &CostTable<E>,
    origin: NodeId,
    dist: Seq<Option<u64>>,
    settled: Set<int>,
    u: int,
    k: int,
)
    requires
        relaxed_upto(g, t, origin, dist, settled, u, k),
        0 <= k,
        !step_permitted(g, origin, u, g.spec_outgoing()[state_node(g, origin, u)][k].0 as int)
            || relaxed_move(g, t, dist, u, g.spec_outgoing()[state_node(g, origin, u)][k].0 as int),
    ensures
        relaxed_upto(g, t, origin, dist, settled, u, k + 1),
{
    reveal(relaxed_upto);
}

/// Lowering the tentative cost of the state after edge `e`, reached from the settled state `u`.
proof fn lemma_search_relax<E: Clone>(
    g: &RoadGraph,
    t: &CostTable<E>,
    origin: NodeId,
    destination: NodeId,
    dist: Seq<Option<u64>>,
    pred: Seq<Option<usize>>,
    settled: Set<int>,
    queue: Multiset<(u64, usize)>,
    walks: Seq<Seq<EdgeId>>,
    rank: Seq<nat>,
    depth: Seq<nat>,
    last: int,
    u: usize,
    k: int,
    next: u64,
)
    requires
        g.wf(),
        search_inv(g, t, origin, destination, dist, pred, settled, queue, walks, rank, depth, last),
        relaxed_upto(g, t, origin, dist, settled, u as int, k),
        settled.contains(u as int),
        u < dist.len(),
        0 <= state_node(g, origin, u as int) < g.node_count_spec(),
        dist[u as int] is Some,
        last == dist[u as int].unwrap(),
        0 <= k < g.spec_outgoing()[state_node(g, origin, u as int)].len(),
        step_permitted(
            g,
            origin,
            u as int,
            g.spec_outgoing()[state_node(g, origin, u as int)][k].0 as int,
        ),
        step_cost(
            g,
            t,
            u as int,
            g.spec_outgoing()[state_node(g, origin, u as int)][k].0 as int,
        ) is Some,
        next == last + step_cost(
            g,
            t,
            u as int,
            g.spec_outgoing()[state_node(g, origin, u as int)][k].0 as int,
        ).unwrap(),
        ({
            let tt = g.spec_outgoing()[state_node(g, origin, u as int)][k].0 + 1;
            dist[tt] is None || next < dist[tt].unwrap()
        }),
    ensures
        ({
            let e = g.spec_outgoing()[state_node(g, origin, u as int)][k];
            let tt = e.0 + 1;
            &&& search_inv(
                g,
                t,
                origin,
                destination,
                dist.update(tt, Some(next)),
                pred.update(tt, Some(u)),
                settled,
                queue.insert((next, tt as usize)),
                walks.update(tt, walks[u as int].push(e)),
                rank,
                depth.update(tt, depth[u as int] + 1),
                last,
            )
            &&& relaxed_upto(g, t, origin, dist.update(tt, Some(next)), settled, u as int, k + 1)
        }),
{
    let e = g.spec_outgoing()[state_node(g, origin, u as int)][k];
    let tt = e.0 + 1;
    assert(tt < dist.len());
    lemma_relax_target(g, t, origin, destination, dist, settled, queue, rank, depth, last, tt, next);
    lemma_relax_known(g, t, origin, dist, pred, settled, walks, rank, depth, u, e, next);
    lemma_relax_settled(g, t, origin, destination, dist, settled, queue, rank, depth, last, tt, next, depth[u as int] + 1);
    lemma_relax_queue(dist, settled, queue, last, tt, next);
    lemma_relax_moves(g, t, origin, dist, settled, u as int, k, next);
}

/// The target of an improving move is unsettled and has no queue entry at the new cost.
proof fn lemma_relax_target<E: Clone>(
    g: &RoadGraph,
    t: &CostTable<E>,
    origin: NodeId,
    destination: NodeId,
    dist: Seq<Option<u64>>,
    settled: Set<int>,
    queue: Multiset<(u64, usize)>,
    rank: Seq<nat>,
    depth: Seq<nat>,
    last: int,
    tt: int,
    next: u64,
)
    requires
        settled_inv(g, t, origin, destination, dist, settled, queue, rank, depth, last),
        queue_inv(dist, settled, queue, last),
        0 <= tt < dist.len(),
        last <= next,
        dist[tt] is None || next < dist[tt].unwrap(),
    ensures
        !settled.contains(tt),
        queue.count((next, tt as usize)) == 0,
        settled.subset_of(vstd::set_lib::set_int_range(0, dist.len() as int)),
{
    reveal(settled_inv);
    reveal(queue_inv);
    if settled.contains(tt) {
        assert(dist[tt].unwrap() <= last);
    }
    if queue.count((next, tt as usize)) > 0 {
        assert(dist[tt].unwrap() <= next);
    }
}

proof fn lemma_relax_known<E: Clone>(
    g: &RoadGraph,
    t: &CostTable<E>,
    origin: NodeId,
    dist: Seq<Option<u64>>,
    pred: Seq<Option<usize>>,
    settled: Set<int>,
    walks: Seq<Seq<EdgeId>>,
    rank: Seq<nat>,
    depth: Seq<nat>,
    u: usize,
    e: EdgeId,
    next: u64,
)
    requires
        g.wf(),
        known_inv(g, t, origin, dist, pred, settled, walks, rank, depth),
        u < dist.len(),
        dist.len() == g.edge_count_spec() + 1,
        settled.contains(u as int),
        dist[u as int] is Some,
        !settled.contains(e.0 + 1),
        step_permitted(g, origin, u as int, e.0 as int),
        step_cost(g, t, u as int, e.0 as int) is Some,
        next == dist[u as int].unwrap() + step_cost(g, t, u as int, e.0 as int).unwrap(),
    ensures
        known_inv(
            g,
            t,
            origin,
            dist.update(e.0 + 1, Some(next)),
            pred.update(e.0 + 1, Some(u)),
            settled,
            walks.update(e.0 + 1, walks[u as int].push(e)),
            rank,
            depth.update(e.0 + 1, depth[u as int] + 1),
        ),
{
    reveal(known_inv);
    reveal(walk_known);
    let tt = e.0 + 1;
    let dist2 = dist.update(tt, Some(next));
    let pred2 = pred.update(tt, Some(u));
    let walks2 = walks.update(tt, walks[u as int].push(e));
    let depth2 = depth.update(tt, depth[u as int] + 1);
    assert(known_state(g, t, origin, dist, pred, settled, walks, rank, depth, u as int));
    lemma_walk_push(g, t, origin, walks[u as int], e);
    assert(EdgeId((tt - 1) as u32) == e);
    assert forall|s: int| 0 <= s < dist2.len() && (#[trigger] dist2[s]) is Some implies known_state(
        g,
        t,
        origin,
        dist2,
        pred2,
        settled,
        walks2,
        rank,
        depth2,
        s,
    ) by {
        if s != tt {
            assert(known_state(g, t, origin, dist, pred, settled, walks, rank, depth, s));
            if s > 0 {
                let p = pred[s].unwrap() as int;
                assert(p != tt);
            }
        }
    }
    assert forall|s: int| 0 <= s < dist2.len() implies (#[trigger] pred2[s] matches Some(p) ==> p
        < dist2.len()) by {
        if s != tt {
            assert(pred[s] == pred2[s]);
        }
    }
}

proof fn lemma_relax_settled<E: Clone>(
    g: &RoadGraph,
    t: &CostTable<E>,
    origin: NodeId,
    destination: NodeId,
    dist: Seq<Option<u64>>,
    settled: Set<int>,
    queue: Multiset<(u64, usize)>,
    rank: Seq<nat>,
    depth: Seq<nat>,
    last: int,
    tt: int,
    next: u64,
    d: nat,
)
    requires
        settled_inv(g, t, origin, destination, dist, settled, queue, rank, depth, last),
        0 <= tt < dist.len(),
        !settled.contains(tt),
    ensures
        settled_inv(
            g,
            t,
            origin,
            destination,
            dist.update(tt, Some(next)),
            settled,
            queue.insert((next, tt as usize)),
            rank,
            depth.update(tt, d),
            last,
        ),
{
    reveal(settled_inv);
    let dist2 = dist.update(tt, Some(next));
    let queue2 = queue.insert((next, tt as usize));
    let depth2 = depth.update(tt, d);
    assert forall|s: int| #[trigger] settled.contains(s) implies {
        &&& dist2[s] is Some
        &&& dist2[s].unwrap() <= last
        &&& state_node(g, origin, s) != destination.0
        &&& queue2.count((dist2[s].unwrap(), s as usize)) == 0
        &&& rank[s] < settled.len()
        &&& depth2[s] <= rank[s]
        &&& forall|v: Seq<EdgeId>|
            is_walk(g, origin, v) && is_priced(g, t, v) && end_state(v) == s
                ==> dist2[s].unwrap() <= #[trigger] walk_cost(g, t, v)
    } by {
        assert(s != tt);
        assert(queue.count((dist[s].unwrap(), s as usize)) == 0);
    }
}

proof fn lemma_relax_queue(
    dist: Seq<Option<u64>>,
    settled: Set<int>,
    queue: Multiset<(u64, usize)>,
    last: int,
    tt: int,
    next: u64,
)
    requires
        queue_inv(dist, settled, queue, last),
        0 <= tt < dist.len(),
        !settled.contains(tt),
        last <= next,
        dist[tt] is None || next < dist[tt].unwrap(),
        queue.count((next, tt as usize)) == 0,
    ensures
        queue_inv(dist.update(tt, Some(next)), settled, queue.insert((next, tt as usize)), last),
{
    reveal(queue_inv);
    let dist2 = dist.update(tt, Some(next));
    let queue2 = queue.insert((next, tt as usize));
    assert forall|x: (u64, usize)| #[trigger] queue2.count(x) > 0 implies x.1 < dist2.len()
        && dist2[x.1 as int] is Some && dist2[x.1 as int].unwrap() <= x.0 && last <= x.0 by {
        if x != (next, tt as usize) {
            assert(queue.count(x) > 0);
        }
    }
    assert forall|s: int|
        0 <= s < dist2.len() && !settled.contains(s) && (#[trigger] dist2[s]) is Some
            implies queue2.count((dist2[s].unwrap(), s as usize)) == 1 by {
        if s != tt {
            assert(queue.count((dist[s].unwrap(), s as usize)) == 1);
        }
    }
}

proof fn lemma_relax_moves<E: Clone>(
    g: &RoadGraph,
    t: &CostTable<E>,
    origin: NodeId,
    dist: Seq<Option<u64>>,
    settled: Set<int>,
    u: int,
    k: int,
    next: u64,
)
    requires
        g.wf(),
        dist.len() == g.edge_count_spec() + 1,
        0 <= u < dist.len(),
        0 <= state_node(g, origin, u) < g.node_count_spec(),
        relaxed_upto(g, t, origin, dist, settled, u, k),
        settled.subset_of(vstd::set_lib::set_int_range(0, dist.len() as int)),
        0 <= k < g.spec_outgoing()[state_node(g, origin, u)].len(),
        settled.contains(u),
        !settled.contains(g.spec_outgoing()[state_node(g, origin, u)][k].0 + 1),
        step_cost(g, t, u, g.spec_outgoing()[state_node(g, origin, u)][k].0 as int) is Some,
        next == dist[u].unwrap() + step_cost(
            g,
            t,
            u,
            g.spec_outgoing()[state_node(g, origin, u)][k].0 as int,
        ).unwrap(),
        ({
            let tt = g.spec_outgoing()[state_node(g, origin, u)][k].0 + 1;
            dist[tt] is None || next < dist[tt].unwrap()
        }),
    ensures
        relaxed_upto(
            g,
            t,
            origin,
            dist.update(g.spec_outgoing()[state_node(g, origin, u)][k].0 + 1, Some(next)),
            settled,
            u,
            k + 1,
        ),
{
    reveal(relaxed_upto);
    let out = g.spec_outgoing()[state_node(g, origin, u)];
    assert(lists_outgoing(out, g.spec_edges(), state_node(g, origin, u)));
    let tt = out[k].0 + 1;
    let dist2 = dist.update(tt, Some(next));
    assert(u != tt);
    assert forall|v: int, f: int|
        #![trigger settled.contains(v), step_permitted(g, origin, v, f)]
        settled.contains(v) && v != u && step_permitted(g, origin, v, f) implies relaxed_move(
        g,
        t,
        dist2,
        v,
        f,
    ) by {
        assert(relaxed_move(g, t, dist, v, f));
        assert(v != tt);
        assert(0 <= v < dist.len());
    }
    assert forall|j: int|
        0 <= j < k + 1 && step_permitted(g, origin, u, (#[trigger] out[j]).0 as int)
            implies relaxed_move(g, t, dist2, u, out[j].0 as int) by {
        if j < k {
            assert(relaxed_move(g, t, dist, u, out[j].0 as int));
        }
    }
}

/// After every outgoing edge of `u` has been examined, all settled states are relaxed.
proof fn lemma_search_relaxed<E: Clone>(
    g: &RoadGraph,
    t: &CostTable<E>,
    origin: NodeId,
    dist: Seq<Option<u64>>,
    settled: Set<int>,
    u: int,
)
    requires
        g.wf(),
        0 <= state_node(g, origin, u) < g.node_count_spec(),
        relaxed_upto(
            g,
            t,
            origin,
            dist,
            settled,
            u,
            g.spec_outgoing()[state_node(g, origin, u)].len() as int,
        ),
    ensures
        relaxed_inv(g, t, origin, dist, settled),
{
    reveal(relaxed_upto);
    reveal(relaxed_inv);
    let out = g.spec_outgoing()[state_node(g, origin, u)];
    assert(lists_outgoing(out, g.spec_edges(), state_node(g, origin, u)));
    assert forall|v: int, e: int|
        #![trigger settled.contains(v), step_permitted(g, origin, v, e)]
        settled.contains(v) && step_permitted(g, origin, v, e) implies relaxed_move(
        g,
        t,
        dist,
        v,
        e,
    ) by {
        if v == u {
            let j = choose|j: int| 0 <= j < out.len() && out[j].0 == e;
            assert(step_permitted(g, origin, u, out[j].0 as int));
        }
    }
}

/// With no queue entries left, no walk from the origin reaches the destination.
proof fn lemma_search_exhausted<E: Clone>(
    g: &RoadGraph,
    t: &CostTable<E>,
    origin: NodeId,
    destination: NodeId,
    dist: Seq<Option<u64>>,
    pred: Seq<Option<usize>>,
    settled: Set<int>,
    queue: Multiset<(u64, usize)>,
    walks: Seq<Seq<EdgeId>>,
    rank: Seq<nat>,
    depth: Seq<nat>,
    last: int,
)
    requires
        g.wf(),
        search_inv(g, t, origin, destination, dist, pred, settled, queue, walks, rank, depth, last),
        relaxed_inv(g, t, origin, dist, settled),
        queue.len() == 0,
    ensures
        forall|v: Seq<EdgeId>|
            is_walk(g, origin, v) ==> state_node(g, origin, #[trigger] end_state(v))
                != destination.0,
{
    reveal(queue_inv);
    reveal(settled_inv);
    assert forall|s: int| 0 <= s < dist.len() && (#[trigger] dist[s]) is Some implies settled.contains(
        s,
    ) by {
        if !settled.contains(s) {
            assert(queue.count((dist[s].unwrap(), s as usize)) == 1);
        }
    }
    assert forall|v: Seq<EdgeId>| is_walk(g, origin, v) implies state_node(
        g,
        origin,
        #[trigger] end_state(v),
    ) != destination.0 by {
        lemma_walks_end_settled(g, t, origin, dist, settled, v);
    }
}


/// The settled states are finitely many, no more than there are states.
proof fn lemma_settled_size<E: Clone>(
    g: &RoadGraph,
    t: &CostTable<E>,
    origin: NodeId,
    destination: NodeId,
    dist: Seq<Option<u64>>,
    settled: Set<int>,
    queue: Multiset<(u64, usize)>,
    rank: Seq<nat>,
    depth: Seq<nat>,
    last: int,
)
    requires
        settled_inv(g, t, origin, destination, dist, settled, queue, rank, depth, last),
    ensures
        settled.finite(),
        settled.len() <= dist.len(),
{
    reveal(settled_inv);
    vstd::set_lib::lemma_int_range(0, dist.len() as int);
    vstd::set_lib::lemma_len_subset(settled, vstd::set_lib::set_int_range(0, dist.len() as int));
}

/// Finds least-cost routes with a label-setting search over edge states.
#[derive(Clone, Copy, Debug, Default)]
pub struct DijkstraRouter;

impl DijkstraRouter {
    /// The cheapest route from `origin` to `destination` as a sequence of edges.
    ///
    /// States are settled in order of increasing cost, ties going to the lower state, and the
    /// search stops at the first settled state standing at the destination. A move for which
    /// the table holds the cost model's error stops the search with that error when the move
    /// is examined; a route cost beyond `u64` stops it with `CostOverflow`.
    pub fn route_with_cost_model<E: Clone>(
        &self,
        graph: &RoadGraph,
        origin: NodeId,
        destination: NodeId,
        cost_model: &CostTable<E>,
    ) -> (r: Result<Vec<EdgeId>, SearchError<E>>)
        requires
            graph.wf(),
        ensures
            origin.0 >= graph.node_count_spec() ==> r == Err::<Vec<EdgeId>, SearchError<E>>(
                SearchError::Route(Error::NodeNotFound(origin)),
            ),
            origin.0 < graph.node_count_spec() && destination.0 >= graph.node_count_spec() ==> r
                == Err::<Vec<EdgeId>, SearchError<E>>(
                SearchError::Route(Error::NodeNotFound(destination)),
            ),
            origin.0 < graph.node_count_spec() && destination.0 < graph.node_count_spec()
                && !cost_model.fits(graph) ==> r == Err::<Vec<EdgeId>, SearchError<E>>(
                SearchError::Route(Error::CostTableMismatch),
            ),
            origin.0 < graph.node_count_spec() && destination.0 < graph.node_count_spec()
                && cost_model.fits(graph) && origin == destination ==> (r matches Ok(path)
                && path@.len() == 0),
            origin.0 < graph.node_count_spec() && destination.0 < graph.node_count_spec()
                && cost_model.fits(graph) && origin != destination && graph.edge_count_spec()
                == usize::MAX ==> r == Err::<Vec<EdgeId>, SearchError<E>>(
                SearchError::Route(Error::IdCapacity { kind: IdKind::Edges, count: usize::MAX }),
            ),
            origin.0 < graph.node_count_spec() && destination.0 < graph.node_count_spec()
                && cost_model.fits(graph) && origin != destination && graph.edge_count_spec()
                < usize::MAX ==> search_outcome(graph, cost_model, origin, destination, r),
    {
        let n = graph.node_count();
        if origin.0 as usize >= n {
            return Err(SearchError::Route(Error::NodeNotFound(origin)));
        }
        if destination.0 as usize >= n {
            return Err(SearchError::Route(Error::NodeNotFound(destination)));
        }
        if !cost_model.fits_graph(graph) {
            return Err(SearchError::Route(Error::CostTableMismatch));
        }
        if origin == destination {
            return Ok(Vec::new());
        }
        let m = graph.edge_count();
        if m == usize::MAX {
            return Err(SearchError::Route(Error::IdCapacity { kind: IdKind::Edges, count: m }));
        }
        let ns = m + 1;
        let mut dist: Vec<Option<u64>> = Vec::new();
        let mut pred: Vec<Option<usize>> = Vec::new();
        let mut i: usize = 0;
        while i < ns
            invariant
                i <= ns,
                dist@.len() == i,
                pred@.len() == i,
                forall|j: int| 0 <= j < i ==> (#[trigger] dist@[j]) is None,
                forall|j: int| 0 <= j < i ==> (#[trigger] pred@[j]) is None,
            decreases ns - i,
        {
            dist.push(None);
            pred.push(None);
            i = i + 1;
        }
        dist.set(0, Some(0));
        let mut queue = MinQueue::new();
        queue.push((0, 0));
        let ghost mut settled: Set<int> = Set::empty();
        let ghost mut walks: Seq<Seq<EdgeId>> = Seq::new(
            ns as nat,
            |j: int| Seq::<EdgeId>::empty(),
        );
        let ghost mut rank: Seq<nat> = Seq::new(ns as nat, |j: int| 0nat);
        let ghost mut depth: Seq<nat> = Seq::new(ns as nat, |j: int| 0nat);
        let ghost mut last: int = 0;
        proof {
            lemma_search_start(
                graph,
                cost_model,
                origin,
                destination,
                dist@,
                pred@,
                walks,
                rank,
                depth,
                queue@,
            );
        }
        proof {
            reveal(order_inv);
            reveal(pred_inv);
        }
        loop
            invariant
                graph.wf(),
                cost_model.fits(graph),
                origin.0 < graph.node_count_spec(),
                destination.0 < graph.node_count_spec(),
                origin != destination,
                ns == graph.edge_count_spec() + 1,
                search_inv(
                    graph,
                    cost_model,
                    origin,
                    destination,
                    dist@,
                    pred@,
                    settled,
                    queue@,
                    walks,
                    rank,
                    depth,
                    last,
                ),
                relaxed_inv(graph, cost_model, origin, dist@, settled),
                pred@.len() == ns,
                positive_costs(graph, cost_model, origin) ==> order_inv(dist@, settled),
                positive_costs(graph, cost_model, origin) ==> pred_inv(
                    graph,
                    cost_model,
                    origin,
                    dist@,
                    pred@,
                    settled,
                ),
                settled.finite(),
                settled.len() <= ns,
            decreases ns - settled.len(), queue@.len(),
        {
            let ghost q0 = queue@;
            let (c, u) = match queue.pop() {
                Some(x) => x,
                None => {
                    proof {
                        lemma_search_exhausted(
                            graph,
                            cost_model,
                            origin,
                            destination,
                            dist@,
                            pred@,
                            settled,
                            queue@,
                            walks,
                            rank,
                            depth,
                            last,
                        );
                    }
                    return Err(SearchError::Route(Error::NoRoute { origin, destination }));
                },
            };
            proof {
                lemma_search_pop(
                    graph,
                    cost_model,
                    origin,
                    destination,
                    dist@,
                    pred@,
                    settled,
                    q0,
                    queue@,
                    walks,
                    rank,
                    depth,
                    last,
                    c,
                    u,
                );
            }
            let stale = match dist[u] {
                Some(d) => d != c,
                None => true,
            };
            if stale {
                continue;
            }
            let node = if u == 0 {
                origin
            } else {
                graph.edges()[u - 1].to
            };
            if node == destination {
                proof {
                    lemma_search_found(
                        graph,
                        cost_model,
                        origin,
                        destination,
                        dist@,
                        pred@,
                        settled,
                        q0,
                        walks,
                        rank,
                        depth,
                        last,
                        c,
                        u,
                    );
                }
                proof {
                    lemma_search_order_found(
                        graph,
                        cost_model,
                        origin,
                        destination,
                        dist@,
                        pred@,
                        settled,
                        q0,
                        walks,
                        rank,
                        depth,
                        last,
                        c,
                        u,
                    );
                    lemma_search_tie(
                        graph,
                        cost_model,
                        origin,
                        destination,
                        dist@,
                        pred@,
                        settled,
                        q0,
                        walks,
                        rank,
                        depth,
                        last,
                        c,
                        u,
                    );
                }
                return match reconstruct_path(u, pred.as_slice()) {
                    Ok(path) => Ok(path),
                    Err(err) => Err(SearchError::Route(err)),
                };
            }
            proof {
                lemma_destination_bound(
                    graph,
                    cost_model,
                    origin,
                    destination,
                    dist@,
                    settled,
                    q0,
                    rank,
                    depth,
                    last,
                    c as int,
                );
                lemma_order_settle(
                    graph,
                    cost_model,
                    origin,
                    destination,
                    dist@,
                    pred@,
                    settled,
                    q0,
                    walks,
                    rank,
                    depth,
                    last,
                    c,
                    u,
                );
                lemma_search_settle(
                    graph,
                    cost_model,
                    origin,
                    destination,
                    dist@,
                    pred@,
                    settled,
                    q0,
                    queue@,
                    walks,
                    rank,
                    depth,
                    last,
                    c,
                    u,
                );
                rank = rank.update(u as int, settled.len());
                settled = settled.insert(u as int);
                last = c as int;
            }
            let out = match graph.outgoing(node) {
                Ok(out) => out,
                Err(err) => {
                    proof {
                        assert(false);
                    }
                    return Err(SearchError::Route(err));
                },
            };
            let mut k: usize = 0;
            while k < out.len()
                invariant
                    graph.wf(),
                    cost_model.fits(graph),
                    origin.0 < graph.node_count_spec(),
                    destination.0 < graph.node_count_spec(),
                    origin != destination,
                    ns == graph.edge_count_spec() + 1,
                    u < ns,
                    settled.contains(u as int),
                    dist@[u as int] == Some(c),
                    last == c,
                    node.0 == state_node(graph, origin, u as int),
                    out@ == graph.spec_outgoing()[node.0 as int],
                    k <= out@.len(),
                    search_inv(
                        graph,
                        cost_model,
                        origin,
                        destination,
                        dist@,
                        pred@,
                        settled,
                        queue@,
                        walks,
                        rank,
                        depth,
                        last,
                    ),
                    relaxed_upto(graph, cost_model, origin, dist@, settled, u as int, k as int),
                    pred@.len() == ns,
                    costs_at_most_any_route(graph, cost_model, origin, destination, c as int),
                    node != destination,
                    positive_costs(graph, cost_model, origin) ==> order_inv(dist@, settled),
                    positive_costs(graph, cost_model, origin) ==> pred_inv(
                        graph,
                        cost_model,
                        origin,
                        dist@,
                        pred@,
                        settled,
                    ),
                decreases out@.len() - k,
            {
                let e = out[k];
                proof {
                    assert(lists_outgoing(out@, graph.spec_edges(), node.0 as int));
                    if u > 0 {
                        lemma_outgoing_position(graph, node.0 as int, k as int);
                    }
                }
                let allowed = if u == 0 {
                    true
                } else {
                    match graph.transition_allowed(EdgeId((u - 1) as u32), e) {
                        Ok(b) => b,
                        Err(err) => {
                            proof {
                                assert(false);
                            }
                            return Err(SearchError::Route(err));
                        },
                    }
                };
                if !allowed {
                    proof {
                        lemma_search_skip(
                            graph,
                            cost_model,
                            origin,
                            dist@,
                            settled,
                            u as int,
                            k as int,
                        );
                    }
                } else {
                    let step = if u == 0 {
                        &cost_model.start[e.0 as usize]
                    } else {
                        &cost_model.turns[u - 1][k]
                    };
                    proof {
                        assert(step_permitted(graph, origin, u as int, e.0 as int));
                        assert(*step == step_entry(graph, cost_model, u as int, e.0 as int));
                        lemma_search_settled_walk(
                            graph,
                            cost_model,
                            origin,
                            destination,
                            dist@,
                            pred@,
                            settled,
                            queue@,
                            walks,
                            rank,
                            depth,
                            last,
                            u as int,
                        );
                    }
                    let sc = match step {
                        Ok(v) => *v,
                        Err(fault) => {
                            let fault = fault.clone();
                            return Err(SearchError::Cost(fault));
                        },
                    };
                    let next = match c.checked_add(sc) {
                        Some(v) => v,
                        None => {
                            return Err(SearchError::Route(Error::CostOverflow));
                        },
                    };
                    let tt = e.0 as usize + 1;
                    let better = match dist[tt] {
                        Some(d) => next < d,
                        None => true,
                    };
                    if better {
                        proof {
                            lemma_search_relax(
                                graph,
                                cost_model,
                                origin,
                                destination,
                                dist@,
                                pred@,
                                settled,
                                queue@,
                                walks,
                                rank,
                                depth,
                                last,
                                u,
                                k as int,
                                next,
                            );
                            lemma_order_relax(
                                graph,
                                cost_model,
                                origin,
                                destination,
                                dist@,
                                pred@,
                                settled,
                                queue@,
                                walks,
                                rank,
                                depth,
                                last,
                                u,
                                k as int,
                                e,
                                next,
                            );
                        }
                        dist.set(tt, Some(next));
                        pred.set(tt, Some(u));
                        queue.push((next, tt));
                        proof {
                            walks = walks.update(tt as int, walks[u as int].push(e));
                            depth = depth.update(tt as int, depth[u as int] + 1);
                        }
                    } else {
                        proof {
                            lemma_search_skip(
                                graph,
                                cost_model,
                                origin,
                                dist@,
                                settled,
                                u as int,
                                k as int,
                            );
                        }
                    }
                }
                k = k + 1;
            }
            proof {
                lemma_search_relaxed(graph, cost_model, origin, dist@, settled, u as int);
                lemma_settled_size(
                    graph,
                    cost_model,
                    origin,
                    destination,
                    dist@,
                    settled,
                    queue@,
                    rank,
                    depth,
                    last,
                );
            }
        }
    }
}

} // verus!
