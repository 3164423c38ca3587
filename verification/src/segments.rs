//! Splitting OpenStreetMap ways into graph edges.
//!
//! A way is cut at its routing nodes: nodes shared with another way and traffic signals.
//! An open way is also cut at both ends. A closed way (a ring) is cut at the first
//! occurrence of each routing node; with a single cut, or none, a second cut is made at the
//! ring position farthest from the first that holds a different node, so the ring still
//! yields two edges. A piece that starts and ends at the same node is dropped.

use vstd::prelude::*;

use crate::error::{Error, IdKind};
use crate::ids::{EdgeId, NodeId};
use crate::restrictions::position_of;
use crate::sorted_set::{sorted_unique, strictly_increasing};
use crate::tags::Direction;

verus! {

/// Open ways are cut at both ends and at every routing node.
pub open spec fn is_open_boundary(routing: Seq<bool>, i: int) -> bool {
    i == 0 || i == routing.len() - 1 || routing[i]
}

/// The positions before `k` at which an open way is cut, in increasing order.
pub open spec fn open_boundaries_before(routing: Seq<bool>, k: int) -> Seq<usize>
    decreases k,
{
    if k <= 0 {
        Seq::empty()
    } else {
        let b = open_boundaries_before(routing, k - 1);
        if is_open_boundary(routing, k - 1) {
            b.push((k - 1) as usize)
        } else {
            b
        }
    }
}

/// The pieces between consecutive positions of `b`, as (first, last) positions, leaving
/// out those whose ends hold the same node.
pub open spec fn runs_between(nodes: Seq<i64>, b: Seq<usize>) -> Seq<(usize, usize)>
    decreases b.len(),
{
    if b.len() < 2 {
        Seq::empty()
    } else {
        let rest = runs_between(nodes, b.drop_last());
        let s = b[b.len() - 2];
        let e = b.last();
        if nodes[s as int] != nodes[e as int] {
            rest.push((s, e))
        } else {
            rest
        }
    }
}

/// The pieces of an open way.
pub open spec fn spec_open_segments(nodes: Seq<i64>, routing: Seq<bool>) -> Seq<(usize, usize)> {
    runs_between(nodes, open_boundaries_before(routing, routing.len() as int))
}

/// A ring position where a routing node occurs for the first time among routing positions.
pub open spec fn is_first_boundary(ring: Seq<i64>, routing: Seq<bool>, i: int) -> bool {
    &&& routing[i]
    &&& forall|j: int| 0 <= j < i && routing[j] ==> ring[j] != ring[i]
}

/// The natural cuts of a ring before position `k`, in increasing order.
pub open spec fn ring_boundaries_before(ring: Seq<i64>, routing: Seq<bool>, k: int) -> Seq<usize>
    decreases k,
{
    if k <= 0 {
        Seq::empty()
    } else {
        let b = ring_boundaries_before(ring, routing, k - 1);
        if is_first_boundary(ring, routing, k - 1) {
            b.push((k - 1) as usize)
        } else {
            b
        }
    }
}

/// The distance between two ring positions, going the shorter way round.
pub open spec fn separation(n: int, i: int, anchor: int) -> int {
    let d = if i >= anchor {
        i - anchor
    } else {
        anchor - i
    };
    if d <= n - d {
        d
    } else {
        n - d
    }
}

/// Position `i` holds a node other than the one at `anchor`, as far from `anchor` as any
/// such position and farther than every such position before it.
pub open spec fn is_farthest_distinct(ring: Seq<i64>, anchor: int, i: int) -> bool {
    &&& 0 <= i < ring.len()
    &&& ring[i] != ring[anchor]
    &&& forall|j: int|
        0 <= j < ring.len() && ring[j] != ring[anchor] ==> separation(ring.len() as int, j, anchor)
            <= separation(ring.len() as int, i, anchor)
    &&& forall|j: int|
        0 <= j < i && ring[j] != ring[anchor] ==> separation(ring.len() as int, j, anchor)
            < separation(ring.len() as int, i, anchor)
}

/// The farthest position from `anchor` that holds another node, if any does.
pub open spec fn farthest_distinct(ring: Seq<i64>, anchor: int) -> Option<int> {
    if exists|i: int| is_farthest_distinct(ring, anchor, i) {
        Some(choose|i: int| is_farthest_distinct(ring, anchor, i))
    } else {
        None
    }
}

/// The cuts of a ring: its natural cuts, or position 0 when it has none; a single cut is
/// paired with the farthest position holding another node, when there is one.
pub open spec fn closed_boundaries(ring: Seq<i64>, routing: Seq<bool>) -> Seq<usize> {
    let nb = ring_boundaries_before(ring, routing, ring.len() as int);
    let b = if nb.len() == 0 {
        seq![0usize]
    } else {
        nb
    };
    if b.len() == 1 && farthest_distinct(ring, b[0] as int) is Some {
        let i = farthest_distinct(ring, b[0] as int)->0;
        if (b[0] as int) < i {
            seq![b[0], i as usize]
        } else {
            seq![i as usize, b[0]]
        }
    } else {
        b
    }
}

/// The first `k` pieces of a ring cut at `b`: from each cut to the next one round the ring,
/// leaving out those whose ends hold the same node.
pub open spec fn cyclic_runs(ring: Seq<i64>, b: Seq<usize>, k: int) -> Seq<(usize, usize)>
    decreases k,
{
    if k <= 0 {
        Seq::empty()
    } else {
        let rest = cyclic_runs(ring, b, k - 1);
        let s = b[k - 1];
        let e = b[k % b.len() as int];
        if ring[s as int] != ring[e as int] {
            rest.push((s, e))
        } else {
            rest
        }
    }
}

/// The pieces of a ring, as (first, last) ring positions; each runs forwards round the ring.
pub open spec fn spec_closed_segments(ring: Seq<i64>, routing: Seq<bool>) -> Seq<(usize, usize)> {
    let b = closed_boundaries(ring, routing);
    if b.len() < 2 {
        Seq::empty()
    } else {
        cyclic_runs(ring, b, b.len() as int)
    }
}

/// The pieces of an open way with `nodes`, where `routing[i]` tells whether `nodes[i]` is a
/// routing node; each piece is given by the positions of its first and last node.
pub fn open_segments(nodes: &[i64], routing: &[bool]) -> (r: Vec<(usize, usize)>)
    requires
        nodes@.len() >= 2,
        routing@.len() == nodes@.len(),
    ensures
        r@ == spec_open_segments(nodes@, routing@),
{
    let n = nodes.len();
    let mut r: Vec<(usize, usize)> = Vec::new();
    let mut last: usize = 0;
    let mut i: usize = 1;
    proof {
        assert(open_boundaries_before(routing@, 0) =~= Seq::<usize>::empty());
        assert(open_boundaries_before(routing@, 1) =~= seq![0usize]);
    }
    while i < n
        invariant
            n == nodes@.len(),
            n == routing@.len(),
            1 <= i <= n,
            open_boundaries_before(routing@, i as int).len() > 0,
            open_boundaries_before(routing@, i as int).last() == last,
            last < i,
            r@ == runs_between(nodes@, open_boundaries_before(routing@, i as int)),
        decreases n - i,
    {
        let ghost b = open_boundaries_before(routing@, i as int);
        if i == n - 1 || routing[i] {
            proof {
                assert(b.push(i).drop_last() =~= b);
                assert(b.push(i)[b.push(i).len() - 2] == last);
            }
            if nodes[last] != nodes[i] {
                r.push((last, i));
            }
            last = i;
        }
        i = i + 1;
    }
    r
}

/// `ring[anchor]` compared with every other position: the first position of greatest
/// separation that holds a different node, if any does.
pub fn farthest_distinct_index(ring: &[i64], anchor: usize) -> (r: Option<usize>)
    requires
        anchor < ring@.len(),
    ensures
        match r {
            Some(i) => is_farthest_distinct(ring@, anchor as int, i as int),
            None => forall|j: int| 0 <= j < ring@.len() ==> ring@[j] == ring@[anchor as int],
        },
{
    let n = ring.len();
    let mut best: Option<(usize, usize)> = None;
    let mut index: usize = 0;
    while index < n
        invariant
            n == ring@.len(),
            anchor < n,
            index <= n,
            match best {
                Some((b, sep)) => {
                    &&& b < index
                    &&& ring@[b as int] != ring@[anchor as int]
                    &&& sep == separation(n as int, b as int, anchor as int)
                    &&& forall|j: int|
                        0 <= j < index && ring@[j] != ring@[anchor as int] ==> separation(
                            n as int,
                            j,
                            anchor as int,
                        ) <= sep
                    &&& forall|j: int|
                        0 <= j < b && ring@[j] != ring@[anchor as int] ==> separation(
                            n as int,
                            j,
                            anchor as int,
                        ) < sep
                },
                None => forall|j: int| 0 <= j < index ==> ring@[j] == ring@[anchor as int],
            },
        decreases n - index,
    {
        if ring[index] != ring[anchor] {
            let clockwise = if index >= anchor {
                index - anchor
            } else {
                anchor - index
            };
            let other = n - clockwise;
            let separation = if clockwise <= other {
                clockwise
            } else {
                other
            };
            let better = match best {
                None => true,
                Some((_, s)) => separation > s,
            };
            if better {
                best = Some((index, separation));
            }
        }
        index = index + 1;
    }
    match best {
        Some((b, _)) => Some(b),
        None => None,
    }
}

proof fn lemma_farthest_unique(ring: Seq<i64>, anchor: int, i: int, j: int)
    requires
        is_farthest_distinct(ring, anchor, i),
        is_farthest_distinct(ring, anchor, j),
    ensures
        i == j,
{
}

/// The pieces of a closed way, given its ring (the way's nodes without the repeated last
/// one) and which ring positions hold routing nodes. Each piece runs forwards round the
/// ring from its first position to its last.
pub fn closed_segments(ring: &[i64], routing: &[bool]) -> (r: Vec<(usize, usize)>)
    requires
        routing@.len() == ring@.len(),
    ensures
        r@ == spec_closed_segments(ring@, routing@),
{
    let n = ring.len();
    if n == 0 {
        proof {
            assert(ring_boundaries_before(ring@, routing@, 0) =~= Seq::<usize>::empty());
            let b = closed_boundaries(ring@, routing@);
            assert(b =~= seq![0usize]) by {
                assert(farthest_distinct(ring@, 0) is None);
            }
        }
        return Vec::new();
    }
    let mut boundaries: Vec<usize> = Vec::new();
    let mut i: usize = 0;
    while i < n
        invariant
            n == ring@.len(),
            n == routing@.len(),
            i <= n,
            boundaries@ == ring_boundaries_before(ring@, routing@, i as int),
            forall|k: int| 0 <= k < boundaries@.len() ==> boundaries@[k] < i,
            forall|j: int|
                0 <= j < i && routing@[j] ==> exists|k: int|
                    0 <= k < boundaries@.len() && ring@[boundaries@[k] as int] == ring@[j],
            forall|k: int| 0 <= k < boundaries@.len() ==> routing@[boundaries@[k] as int],
        decreases n - i,
    {
        let mut fresh = routing[i];
        let mut k: usize = 0;
        while k < boundaries.len() && fresh
            invariant
                n == ring@.len(),
                i < n,
                forall|kk: int| 0 <= kk < boundaries@.len() ==> boundaries@[kk] < i,
                k <= boundaries@.len(),
                fresh ==> routing@[i as int],
                fresh ==> forall|kk: int| 0 <= kk < k ==> ring@[boundaries@[kk] as int] != ring@[i as int],
                !fresh ==> (!routing@[i as int] || exists|kk: int|
                    0 <= kk < boundaries@.len() && ring@[boundaries@[kk] as int] == ring@[i as int]),
            decreases boundaries@.len() - k,
        {
            if ring[boundaries[k]] == ring[i] {
                fresh = false;
            }
            k = k + 1;
        }
        proof {
            if fresh {
                assert forall|j: int| 0 <= j < i && routing@[j] implies ring@[j] != ring@[i as int] by {
                    let kk = choose|kk: int|
                        0 <= kk < boundaries@.len() && ring@[boundaries@[kk] as int] == ring@[j];
                }
                assert(is_first_boundary(ring@, routing@, i as int));
            } else if routing@[i as int] {
                let kk = choose|kk: int|
                    0 <= kk < boundaries@.len() && ring@[boundaries@[kk] as int] == ring@[i as int];
                let j = boundaries@[kk] as int;
                assert(!is_first_boundary(ring@, routing@, i as int)) by {
                    assert(0 <= j < i && routing@[j]);
                }
            }
        }
        let ghost before = boundaries@;
        if fresh {
            boundaries.push(i);
            proof {
                assert forall|j: int|
                    0 <= j < i + 1 && routing@[j] implies exists|kk: int|
                        0 <= kk < boundaries@.len() && ring@[boundaries@[kk] as int] == ring@[j] by {
                    if j < i {
                        let kk = choose|kk: int|
                            0 <= kk < before.len() && ring@[before[kk] as int] == ring@[j];
                        assert(boundaries@[kk] == before[kk]);
                    } else {
                        assert(boundaries@[before.len() as int] == i);
                    }
                }
            }
        }
        i = i + 1;
    }
    let ghost nb = boundaries@;
    if boundaries.len() == 0 {
        boundaries.push(0);
    }
    let ghost b1 = boundaries@;
    proof {
        assert(b1 == if nb.len() == 0 {
            seq![0usize]
        } else {
            nb
        });
        assert(forall|k: int| 0 <= k < b1.len() ==> b1[k] < n);
        assert(forall|k1: int, k2: int| 0 <= k1 < k2 < b1.len() ==> b1[k1] < b1[k2]) by {
            lemma_boundaries_increasing(ring@, routing@, n as int);
        }
    }
    if boundaries.len() == 1 {
        let anchor = boundaries[0];
        match farthest_distinct_index(ring, anchor) {
            Some(index) => {
                if anchor < index {
                    boundaries.push(index);
                } else {
                    boundaries = vec![index, anchor];
                }
                proof {
                    assert(b1.len() == 1 && b1[0] == anchor);
                    assert(is_farthest_distinct(ring@, anchor as int, index as int));
                    let f = farthest_distinct(ring@, anchor as int);
                    assert(f is Some);
                    lemma_farthest_unique(ring@, anchor as int, f->0, index as int);
                    if anchor < index {
                        assert(boundaries@ =~= seq![anchor, index]);
                    } else {
                        assert(boundaries@ =~= seq![index, anchor]);
                    }
                    assert(boundaries@ =~= closed_boundaries(ring@, routing@));
                }
            },
            None => {
                proof {
                    let f = farthest_distinct(ring@, anchor as int);
                    if f is Some {
                        assert(ring@[f->0] == ring@[anchor as int]);
                    }
                }
            },
        }
    }
    proof {
        assert(boundaries@ == closed_boundaries(ring@, routing@));
        assert(forall|k: int| 0 <= k < boundaries@.len() ==> boundaries@[k] < n);
    }
    let m = boundaries.len();
    if m < 2 {
        return Vec::new();
    }
    let mut r: Vec<(usize, usize)> = Vec::new();
    let mut p: usize = 0;
    while p < m
        invariant
            n == ring@.len(),
            m == boundaries@.len(),
            m >= 2,
            forall|k: int| 0 <= k < m ==> boundaries@[k] < n,
            p <= m,
            r@ == cyclic_runs(ring@, boundaries@, p as int),
        decreases m - p,
    {
        let start = boundaries[p];
        let end = boundaries[(p + 1) % m];
        if ring[start] != ring[end] {
            r.push((start, end));
        }
        p = p + 1;
    }
    r
}

/// The natural cuts of a ring are increasing positions before `k`.
pub proof fn lemma_boundaries_increasing_pub(ring: Seq<i64>, routing: Seq<bool>, k: int)
    requires
        0 <= k <= ring.len(),
        ring.len() <= usize::MAX,
    ensures
        forall|k1: int, k2: int|
            0 <= k1 < k2 < ring_boundaries_before(ring, routing, k).len() ==> ring_boundaries_before(
                ring,
                routing,
                k,
            )[k1] < ring_boundaries_before(ring, routing, k)[k2],
{
    lemma_boundaries_increasing(ring, routing, k);
}

proof fn lemma_boundaries_increasing(ring: Seq<i64>, routing: Seq<bool>, k: int)
    requires
        0 <= k <= ring.len(),
        ring.len() <= usize::MAX,
    ensures
        forall|k1: int, k2: int|
            0 <= k1 < k2 < ring_boundaries_before(ring, routing, k).len() ==> ring_boundaries_before(
                ring,
                routing,
                k,
            )[k1] < ring_boundaries_before(ring, routing, k)[k2],
        forall|k1: int|
            0 <= k1 < ring_boundaries_before(ring, routing, k).len() ==> ring_boundaries_before(
                ring,
                routing,
                k,
            )[k1] < k,
    decreases k,
{
    if k > 0 {
        lemma_boundaries_increasing(ring, routing, k - 1);
        let b = ring_boundaries_before(ring, routing, k - 1);
        if is_first_boundary(ring, routing, k - 1) {
            let c = b.push((k - 1) as usize);
            assert(ring_boundaries_before(ring, routing, k) == c);
            assert forall|k1: int, k2: int| 0 <= k1 < k2 < c.len() implies c[k1] < c[k2] by {
                if k2 < b.len() {
                    assert(c[k1] == b[k1] && c[k2] == b[k2]);
                } else {
                    assert(c[k1] == b[k1]);
                }
            }
            assert forall|k1: int| 0 <= k1 < c.len() implies c[k1] < k by {
                if k1 < b.len() {
                    assert(c[k1] == b[k1]);
                }
            }
        }
    }
}

proof fn lemma_mod_step(x: int, n: int, index: int)
    requires
        n > 0,
        x >= 0,
        index == x % n,
    ensures
        (x + 1) % n == if index + 1 < n {
            index + 1
        } else {
            0
        },
{
    vstd::arithmetic::div_mod::lemma_fundamental_div_mod(x, n);
    let q = x / n;
    assert(0 <= index < n);
    assert(n * q == q * n) by (nonlinear_arith);
    if index + 1 < n {
        vstd::arithmetic::div_mod::lemma_fundamental_div_mod_converse(x + 1, n, q, index + 1);
    } else {
        assert(x + 1 == (q + 1) * n) by (nonlinear_arith)
            requires
                x == q * n + index,
                index + 1 == n,
        ;
        vstd::arithmetic::div_mod::lemma_fundamental_div_mod_converse(x + 1, n, q + 1, 0);
    }
}

/// The ring positions from `start` forwards round a ring of `n` positions to `end`.
pub fn ring_walk(start: usize, end: usize, n: usize) -> (r: Vec<usize>)
    requires
        start < n,
        end < n,
    ensures
        r@.len() == (if end >= start {
            end - start
        } else {
            end + n - start
        }) + 1,
        forall|k: int| 0 <= k < r@.len() ==> r@[k] == (start + k) % (n as int),
{
    let len = if end >= start {
        end - start
    } else {
        end + (n - start)
    } + 1;
    let mut r: Vec<usize> = Vec::new();
    let mut index = start;
    let mut k: usize = 0;
    proof {
        vstd::arithmetic::div_mod::lemma_small_mod(start as nat, n as nat);
    }
    while k < len
        invariant
            start < n,
            len <= n,
            k <= len,
            index < n,
            index == (start + k) % (n as int),
            r@.len() == k,
            forall|j: int| 0 <= j < k ==> r@[j] == (start + j) % (n as int),
        decreases len - k,
    {
        r.push(index);
        proof {
            lemma_mod_step(start + k, n as int, index as int);
        }
        index = if index + 1 < n {
            index + 1
        } else {
            0
        };
        k = k + 1;
    }
    r
}

/// A way is closed when its first and last nodes are the same.
pub open spec fn is_closed_way(nodes: Seq<i64>) -> bool {
    nodes[0] == nodes.last()
}

/// The positions, within the way, of the nodes of each piece of a way: consecutive
/// positions for an open way, and positions running forwards round the ring (the way
/// without its repeated last node) for a closed one.
pub open spec fn spec_way_pieces(nodes: Seq<i64>, routing: Seq<bool>) -> Seq<Seq<usize>> {
    if is_closed_way(nodes) {
        let ring = nodes.drop_last();
        let n = ring.len() as int;
        let runs = spec_closed_segments(ring, routing.drop_last());
        Seq::new(
            runs.len(),
            |k: int|
                {
                    let (s, e) = runs[k];
                    let len = if e >= s {
                        e - s
                    } else {
                        e + n - s
                    } + 1;
                    Seq::new(len as nat, |j: int| ((s + j) % n) as usize)
                },
        )
    } else {
        let runs = spec_open_segments(nodes, routing);
        Seq::new(
            runs.len(),
            |k: int| Seq::new((runs[k].1 - runs[k].0 + 1) as nat, |j: int| (runs[k].0 + j) as usize),
        )
    }
}

/// The pieces of a way with at least two nodes, each as the positions of its nodes; which
/// positions hold routing nodes is given by `routing`.
pub fn way_pieces(nodes: &[i64], routing: &[bool]) -> (r: Vec<Vec<usize>>)
    requires
        nodes@.len() >= 2,
        routing@.len() == nodes@.len(),
    ensures
        r@.len() == spec_way_pieces(nodes@, routing@).len(),
        forall|k: int| 0 <= k < r@.len() ==> (#[trigger] r@[k])@ == spec_way_pieces(nodes@, routing@)[k],
{
    let n = nodes.len();
    let mut r: Vec<Vec<usize>> = Vec::new();
    if nodes[0] == nodes[n - 1] {
        let ring = vstd::slice::slice_subrange(nodes, 0, n - 1);
        let ring_routing = vstd::slice::slice_subrange(routing, 0, n - 1);
        proof {
            assert(ring@ =~= nodes@.drop_last());
            assert(ring_routing@ =~= routing@.drop_last());
        }
        let runs = closed_segments(ring, ring_routing);
        let ghost spec = spec_way_pieces(nodes@, routing@);
        proof {
            segment_runs_in_ring(ring@, ring_routing@);
        }
        let mut k: usize = 0;
        while k < runs.len()
            invariant
                n == nodes@.len(),
                n >= 2,
                nodes@[0] == nodes@[n - 1],
                ring@ == nodes@.drop_last(),
                ring_routing@ == routing@.drop_last(),
                runs@ == spec_closed_segments(ring@, ring_routing@),
                forall|q: int| 0 <= q < runs@.len() ==> (#[trigger] runs@[q]).0 < n - 1 && runs@[q].1 < n - 1,
                spec == spec_way_pieces(nodes@, routing@),
                spec.len() == runs@.len(),
                k <= runs@.len(),
                r@.len() == k,
                forall|q: int| 0 <= q < k ==> (#[trigger] r@[q])@ == spec[q],
            decreases runs@.len() - k,
        {
            let (s, e) = runs[k];
            let walk = ring_walk(s, e, n - 1);
            proof {
                assert(walk@ =~= spec[k as int]);
            }
            r.push(walk);
            k = k + 1;
        }
    } else {
        let runs = open_segments(nodes, routing);
        let ghost spec = spec_way_pieces(nodes@, routing@);
        proof {
            segment_runs_in_way(nodes@, routing@);
        }
        let mut k: usize = 0;
        while k < runs.len()
            invariant
                n == nodes@.len(),
                nodes@[0] != nodes@[n - 1],
                runs@ == spec_open_segments(nodes@, routing@),
                forall|q: int| 0 <= q < runs@.len() ==> (#[trigger] runs@[q]).0 <= runs@[q].1 < n,
                spec == spec_way_pieces(nodes@, routing@),
                spec.len() == runs@.len(),
                k <= runs@.len(),
                r@.len() == k,
                forall|q: int| 0 <= q < k ==> (#[trigger] r@[q])@ == spec[q],
            decreases runs@.len() - k,
        {
            let (s, e) = runs[k];
            let mut piece: Vec<usize> = Vec::new();
            let mut j: usize = s;
            while j <= e
                invariant
                    s <= e < n,
                    s <= j <= e + 1,
                    piece@.len() == j - s,
                    forall|t: int| 0 <= t < j - s ==> piece@[t] == s + t,
                decreases e + 1 - j,
            {
                piece.push(j);
                j = j + 1;
            }
            proof {
                assert(piece@ =~= spec[k as int]);
            }
            r.push(piece);
            k = k + 1;
        }
    }
    r
}

/// The runs of an open way lie within it, first position before last.
proof fn segment_runs_in_way(nodes: Seq<i64>, routing: Seq<bool>)
    requires
        routing.len() == nodes.len(),
        nodes.len() <= usize::MAX,
    ensures
        forall|q: int|
            0 <= q < spec_open_segments(nodes, routing).len() ==> (#[trigger] spec_open_segments(
                nodes,
                routing,
            )[q]).0 <= spec_open_segments(nodes, routing)[q].1 < nodes.len(),
{
    lemma_open_boundaries_increasing(routing, routing.len() as int);
    lemma_runs_ordered(nodes, open_boundaries_before(routing, routing.len() as int), nodes.len() as int);
}

/// The cuts of an open way are increasing positions before `k`.
pub proof fn lemma_open_boundaries_increasing_pub(routing: Seq<bool>, k: int)
    requires
        0 <= k <= routing.len(),
        routing.len() <= usize::MAX,
    ensures
        forall|a: int, b: int|
            0 <= a < b < open_boundaries_before(routing, k).len() ==> open_boundaries_before(
                routing,
                k,
            )[a] < open_boundaries_before(routing, k)[b],
{
    lemma_open_boundaries_increasing(routing, k);
}

proof fn lemma_open_boundaries_increasing(routing: Seq<bool>, k: int)
    requires
        0 <= k <= routing.len(),
        routing.len() <= usize::MAX,
    ensures
        forall|a: int, b: int|
            0 <= a < b < open_boundaries_before(routing, k).len() ==> open_boundaries_before(
                routing,
                k,
            )[a] < open_boundaries_before(routing, k)[b],
        forall|a: int|
            0 <= a < open_boundaries_before(routing, k).len() ==> open_boundaries_before(routing, k)[a]
                < k,
    decreases k,
{
    if k > 0 {
        lemma_open_boundaries_increasing(routing, k - 1);
        let b = open_boundaries_before(routing, k - 1);
        if is_open_boundary(routing, k - 1) {
            let c = b.push((k - 1) as usize);
            assert forall|a1: int, a2: int| 0 <= a1 < a2 < c.len() implies c[a1] < c[a2] by {
                assert(c[a1] == b[a1]);
                if a2 < b.len() {
                    assert(c[a2] == b[a2]);
                }
            }
            assert forall|a1: int| 0 <= a1 < c.len() implies c[a1] < k by {
                if a1 < b.len() {
                    assert(c[a1] == b[a1]);
                }
            }
        }
    }
}

proof fn lemma_runs_ordered(nodes: Seq<i64>, b: Seq<usize>, bound: int)
    requires
        forall|a1: int, a2: int| 0 <= a1 < a2 < b.len() ==> b[a1] < b[a2],
        forall|a1: int| 0 <= a1 < b.len() ==> b[a1] < bound,
    ensures
        forall|q: int|
            0 <= q < runs_between(nodes, b).len() ==> (#[trigger] runs_between(nodes, b)[q]).0
                <= runs_between(nodes, b)[q].1 < bound,
    decreases b.len(),
{
    if b.len() >= 2 {
        let d = b.drop_last();
        lemma_runs_ordered(nodes, d, bound);
        let rest = runs_between(nodes, d);
        let r = runs_between(nodes, b);
        assert forall|q: int| 0 <= q < r.len() implies (#[trigger] r[q]).0 <= r[q].1 < bound by {
            if q < rest.len() {
                assert(r[q] == rest[q]);
            }
        }
    }
}

/// The runs of a ring lie within it.
proof fn segment_runs_in_ring(ring: Seq<i64>, routing: Seq<bool>)
    requires
        routing.len() == ring.len(),
        ring.len() <= usize::MAX,
    ensures
        forall|q: int|
            0 <= q < spec_closed_segments(ring, routing).len() ==> (#[trigger] spec_closed_segments(
                ring,
                routing,
            )[q]).0 < ring.len() && spec_closed_segments(ring, routing)[q].1 < ring.len(),
{
    let b = closed_boundaries(ring, routing);
    lemma_boundaries_increasing(ring, routing, ring.len() as int);
    let nb = ring_boundaries_before(ring, routing, ring.len() as int);
    let b0 = if nb.len() == 0 {
        seq![0usize]
    } else {
        nb
    };
    if b.len() >= 2 {
        assert forall|a: int| 0 <= a < b.len() implies b[a] < ring.len() by {
            if b0.len() == 1 && farthest_distinct(ring, b0[0] as int) is Some {
                let i = farthest_distinct(ring, b0[0] as int)->0;
                assert(is_farthest_distinct(ring, b0[0] as int, i));
                if nb.len() > 0 {
                    assert(nb[0] < ring.len());
                }
            } else {
                assert(b == b0);
                assert(nb.len() > 0);
            }
        }
        lemma_cyclic_runs_in(ring, b, b.len() as int);
    }
}

proof fn lemma_cyclic_runs_in(ring: Seq<i64>, b: Seq<usize>, k: int)
    requires
        b.len() >= 1,
        k <= b.len(),
        forall|a: int| 0 <= a < b.len() ==> b[a] < ring.len(),
    ensures
        forall|q: int|
            0 <= q < cyclic_runs(ring, b, k).len() ==> (#[trigger] cyclic_runs(ring, b, k)[q]).0
                < ring.len() && cyclic_runs(ring, b, k)[q].1 < ring.len(),
    decreases k,
{
    if k > 0 {
        lemma_cyclic_runs_in(ring, b, k - 1);
        let rest = cyclic_runs(ring, b, k - 1);
        let r = cyclic_runs(ring, b, k);
        assert(0 <= k % (b.len() as int) < b.len()) by {
            vstd::arithmetic::div_mod::lemma_mod_bound(k, b.len() as int);
        }
        assert forall|q: int| 0 <= q < r.len() implies (#[trigger] r[q]).0 < ring.len() && r[q].1 < ring.len() by {
            if q < rest.len() {
                assert(r[q] == rest[q]);
            }
        }
    }
}

/// The distinct OpenStreetMap node ids among `ids`, in increasing order: node `i` of the
/// graph stands for the `i`-th of them.
pub fn sorted_node_ids(ids: &Vec<i64>) -> (r: Vec<i64>)
    ensures
        forall|i: int, j: int| 0 <= i < j < r@.len() ==> r@[i] < r@[j],
        forall|x: i64| r@.contains(x) <==> ids@.contains(x),
{
    let mut keys: Vec<u64> = Vec::new();
    let mut i: usize = 0;
    while i < ids.len()
        invariant
            i <= ids@.len(),
            keys@.len() == i,
            forall|k: int| 0 <= k < i ==> keys@[k] == id_key(#[trigger] ids@[k]),
        decreases ids@.len() - i,
    {
        keys.push(key_of_id(ids[i]));
        i = i + 1;
    }
    let sorted = sorted_unique(&keys);
    let mut r: Vec<i64> = Vec::new();
    let mut j: usize = 0;
    while j < sorted.len()
        invariant
            j <= sorted@.len(),
            strictly_increasing(sorted@),
            r@.len() == j,
            forall|k: int| 0 <= k < j ==> id_key(#[trigger] r@[k]) == sorted@[k],
        decreases sorted@.len() - j,
    {
        r.push(id_of_key(sorted[j]));
        j = j + 1;
    }
    proof {
        assert forall|a: int, b: int| 0 <= a < b < r@.len() implies r@[a] < r@[b] by {
            assert(sorted@[a] < sorted@[b]);
        }
        assert forall|x: i64| r@.contains(x) <==> ids@.contains(x) by {
            if r@.contains(x) {
                let k = choose|k: int| 0 <= k < r@.len() && r@[k] == x;
                assert(sorted@.contains(sorted@[k]));
                assert(keys@.contains(id_key(x)));
                let q = choose|q: int| 0 <= q < keys@.len() && keys@[q] == id_key(x);
                assert(ids@[q] == x);
            }
            if ids@.contains(x) {
                let q = choose|q: int| 0 <= q < ids@.len() && ids@[q] == x;
                assert(keys@[q] == id_key(x));
                assert(keys@.contains(id_key(x)));
                assert(sorted@.contains(id_key(x)));
                let k = choose|k: int| 0 <= k < sorted@.len() && sorted@[k] == id_key(x);
                assert(r@[k] == x);
            }
        }
    }
    r
}

/// An order-preserving map of `i64` onto `u64`.
pub open spec fn id_key(x: i64) -> u64 {
    (x + 0x8000_0000_0000_0000) as u64
}

fn key_of_id(x: i64) -> (k: u64)
    ensures
        k == id_key(x),
{
    ((x as i128) + 0x8000_0000_0000_0000i128) as u64
}

fn id_of_key(k: u64) -> (x: i64)
    ensures
        id_key(x) == k,
{
    ((k as i128) - 0x8000_0000_0000_0000i128) as i64
}

/// The number of directed edges that segments with these directions yield: two for a
/// two-way segment, one otherwise.
pub open spec fn directed_edge_count(directions: Seq<Direction>) -> nat
    decreases directions.len(),
{
    if directions.len() == 0 {
        0
    } else {
        directed_edge_count(directions.drop_last()) + if directions.last() == Direction::Both {
            2nat
        } else {
            1nat
        }
    }
}

/// How many directed edges segments with these directions yield, when that fits in a
/// `usize`.
pub fn count_directed_edges(directions: &[Direction]) -> (r: Result<usize, Error>)
    ensures
        directed_edge_count(directions@) <= usize::MAX ==> r == Ok::<usize, Error>(
            directed_edge_count(directions@) as usize,
        ),
        directed_edge_count(directions@) > usize::MAX ==> r == Err::<usize, Error>(
            Error::IdCapacity { kind: IdKind::Edges, count: usize::MAX },
        ),
{
    let mut count: usize = 0;
    let mut i: usize = 0;
    while i < directions.len()
        invariant
            i <= directions@.len(),
            count == directed_edge_count(directions@.subrange(0, i as int)),
        decreases directions@.len() - i,
    {
        proof {
            let s = directions@.subrange(0, i + 1);
            assert(s.drop_last() =~= directions@.subrange(0, i as int));
            assert(s.last() == directions@[i as int]);
        }
        let add: usize = match directions[i] {
            Direction::Both => 2,
            _ => 1,
        };
        match count.checked_add(add) {
            Some(c) => {
                count = c;
            },
            None => {
                proof {
                    lemma_edge_count_prefix(directions@, i + 1);
                }
                return Err(Error::IdCapacity { kind: IdKind::Edges, count: usize::MAX });
            },
        }
        i = i + 1;
    }
    proof {
        assert(directions@.subrange(0, i as int) =~= directions@);
    }
    Ok(count)
}

proof fn lemma_edge_count_prefix(d: Seq<Direction>, k: int)
    requires
        0 <= k <= d.len(),
    ensures
        directed_edge_count(d.subrange(0, k)) <= directed_edge_count(d),
    decreases d.len() - k,
{
    if k < d.len() {
        lemma_edge_count_prefix(d, k + 1);
        let s = d.subrange(0, k + 1);
        assert(s.drop_last() =~= d.subrange(0, k));
    } else {
        assert(d.subrange(0, k) =~= d);
    }
}

/// One directed edge made from a segment: edge `id` runs along segment `segment`, against
/// the order of the segment's nodes when `reversed`, from node `from` to node `to`.
#[derive(Clone, Copy, Debug, PartialEq, Eq, Structural)]
pub struct PlannedEdge {
    pub id: EdgeId,
    pub segment: usize,
    pub reversed: bool,
    pub from: NodeId,
    pub to: NodeId,
}

/// The segment and orientation of each directed edge, in order: a two-way segment gives
/// its forward edge and then its reverse edge, a one-way segment the edge it allows.
pub open spec fn edge_orientations(directions: Seq<Direction>) -> Seq<(int, bool)>
    decreases directions.len(),
{
    if directions.len() == 0 {
        Seq::empty()
    } else {
        let i = directions.len() - 1;
        edge_orientations(directions.drop_last()) + match directions.last() {
            Direction::Both => seq![(i, false), (i, true)],
            Direction::Forward => seq![(i, false)],
            Direction::Reverse => seq![(i, true)],
        }
    }
}

/// The OSM node an edge along segment `segment` starts at.
pub open spec fn planned_start(ends: Seq<(i64, i64)>, segment: int, reversed: bool) -> i64 {
    if reversed {
        ends[segment].1
    } else {
        ends[segment].0
    }
}

/// The OSM node an edge along segment `segment` ends at.
pub open spec fn planned_end(ends: Seq<(i64, i64)>, segment: int, reversed: bool) -> i64 {
    if reversed {
        ends[segment].0
    } else {
        ends[segment].1
    }
}

/// `plan` numbers the directed edges of segments with end nodes `ends` and directions
/// `directions` from zero, and gives each end the position of its OSM id in `node_ids`.
pub open spec fn is_edge_plan(
    plan: Seq<PlannedEdge>,
    ends: Seq<(i64, i64)>,
    directions: Seq<Direction>,
    node_ids: Seq<i64>,
) -> bool {
    let o = edge_orientations(directions);
    &&& plan.len() == o.len()
    &&& forall|k: int|
        0 <= k < plan.len() ==> {
            &&& (#[trigger] plan[k]).id.0 == k
            &&& plan[k].segment == o[k].0
            &&& plan[k].reversed == o[k].1
            &&& plan[k].from.0 < node_ids.len()
            &&& node_ids[plan[k].from.0 as int] == planned_start(ends, o[k].0, o[k].1)
            &&& plan[k].to.0 < node_ids.len()
            &&& node_ids[plan[k].to.0 as int] == planned_end(ends, o[k].0, o[k].1)
        }
}

proof fn lemma_orientations_len(d: Seq<Direction>)
    ensures
        edge_orientations(d).len() == directed_edge_count(d),
    decreases d.len(),
{
    if d.len() > 0 {
        lemma_orientations_len(d.drop_last());
    }
}

fn planned_edge(
    ends: &[(i64, i64)],
    node_ids: &[i64],
    id: usize,
    segment: usize,
    reversed: bool,
) -> (e: PlannedEdge)
    requires
        segment < ends@.len(),
        id < 0x1_0000_0000,
        node_ids@.len() <= 0x1_0000_0000,
        forall|i: int, j: int| 0 <= i < j < node_ids@.len() ==> node_ids@[i] < node_ids@[j],
        node_ids@.contains(ends@[segment as int].0),
        node_ids@.contains(ends@[segment as int].1),
    ensures
        e.id.0 == id,
        e.segment == segment,
        e.reversed == reversed,
        e.from.0 < node_ids@.len(),
        node_ids@[e.from.0 as int] == planned_start(ends@, segment as int, reversed),
        e.to.0 < node_ids@.len(),
        node_ids@[e.to.0 as int] == planned_end(ends@, segment as int, reversed),
{
    let (a, b) = ends[segment];
    let (start, end) = if reversed {
        (b, a)
    } else {
        (a, b)
    };
    let from = match position_of(node_ids, start) {
        Some(p) => p,
        None => {
            proof {
                let w = choose|w: int| 0 <= w < node_ids@.len() && node_ids@[w] == start;
                assert(node_ids@[w] == start);
            }
            0
        },
    };
    let to = match position_of(node_ids, end) {
        Some(p) => p,
        None => {
            proof {
                let w = choose|w: int| 0 <= w < node_ids@.len() && node_ids@[w] == end;
                assert(node_ids@[w] == end);
            }
            0
        },
    };
    PlannedEdge {
        id: EdgeId(id as u32),
        segment,
        reversed,
        from: NodeId(from as u32),
        to: NodeId(to as u32),
    }
}

/// The directed edges to create from segments with end nodes `ends` (OSM ids, in node
/// order) and directions `directions`, numbered in order, with each end replaced by its
/// position in the sorted `node_ids`.
pub fn plan_edges(ends: &[(i64, i64)], directions: &[Direction], node_ids: &[i64]) -> (r: Vec<
    PlannedEdge,
>)
    requires
        ends@.len() == directions@.len(),
        forall|i: int, j: int| 0 <= i < j < node_ids@.len() ==> node_ids@[i] < node_ids@[j],
        node_ids@.len() <= 0x1_0000_0000,
        directed_edge_count(directions@) <= 0x1_0000_0000,
        forall|i: int|
            0 <= i < ends@.len() ==> node_ids@.contains((#[trigger] ends@[i]).0)
                && node_ids@.contains(ends@[i].1),
    ensures
        is_edge_plan(r@, ends@, directions@, node_ids@),
        r@.len() == directed_edge_count(directions@),
{
    let mut plan: Vec<PlannedEdge> = Vec::new();
    let mut i: usize = 0;
    proof {
        assert(directions@.subrange(0, 0) =~= Seq::<Direction>::empty());
    }
    while i < directions.len()
        invariant
            ends@.len() == directions@.len(),
            i <= directions@.len(),
            forall|a: int, b: int| 0 <= a < b < node_ids@.len() ==> node_ids@[a] < node_ids@[b],
            node_ids@.len() <= 0x1_0000_0000,
            directed_edge_count(directions@) <= 0x1_0000_0000,
            forall|s: int|
                0 <= s < ends@.len() ==> node_ids@.contains((#[trigger] ends@[s]).0)
                    && node_ids@.contains(ends@[s].1),
            is_edge_plan(plan@, ends@, directions@.subrange(0, i as int), node_ids@),
        decreases directions@.len() - i,
    {
        let ghost prefix = directions@.subrange(0, i as int);
        let ghost next = directions@.subrange(0, i + 1);
        proof {
            assert(next.drop_last() =~= prefix);
            assert(next.last() == directions@[i as int]);
            lemma_orientations_len(next);
            lemma_orientations_len(prefix);
            lemma_edge_count_prefix(directions@, i + 1);
            assert(ends@[i as int] == ends@[i as int]);
        }
        let ghost old_plan = plan@;
        let n = plan.len();
        match directions[i] {
            Direction::Both => {
                let e = planned_edge(ends, node_ids, n, i, false);
                plan.push(e);
                let f = planned_edge(ends, node_ids, n + 1, i, true);
                plan.push(f);
            },
            Direction::Forward => {
                let e = planned_edge(ends, node_ids, n, i, false);
                plan.push(e);
            },
            Direction::Reverse => {
                let e = planned_edge(ends, node_ids, n, i, true);
                plan.push(e);
            },
        }
        proof {
            let o = edge_orientations(next);
            assert(o =~= edge_orientations(prefix) + match directions@[i as int] {
                Direction::Both => seq![(i as int, false), (i as int, true)],
                Direction::Forward => seq![(i as int, false)],
                Direction::Reverse => seq![(i as int, true)],
            });
            assert forall|k: int| 0 <= k < plan@.len() implies {
                &&& (#[trigger] plan@[k]).id.0 == k
                &&& plan@[k].segment == o[k].0
                &&& plan@[k].reversed == o[k].1
                &&& plan@[k].from.0 < node_ids@.len()
                &&& node_ids@[plan@[k].from.0 as int] == planned_start(ends@, o[k].0, o[k].1)
                &&& plan@[k].to.0 < node_ids@.len()
                &&& node_ids@[plan@[k].to.0 as int] == planned_end(ends@, o[k].0, o[k].1)
            } by {
                if k < old_plan.len() {
                    assert(plan@[k] == old_plan[k]);
                    assert(o[k] == edge_orientations(prefix)[k]);
                }
            }
        }
        i = i + 1;
    }
    proof {
        assert(directions@.subrange(0, i as int) =~= directions@);
        lemma_orientations_len(directions@);
    }
    plan
}

/// Identifiers are `u32`, so at most 2^32 nodes or edges can be numbered.
pub fn check_capacity(kind: IdKind, count: usize) -> (r: Result<(), Error>)
    ensures
        count <= 0x1_0000_0000 ==> r == Ok::<(), Error>(()),
        count > 0x1_0000_0000 ==> r == Err::<(), Error>(Error::IdCapacity { kind, count }),
{
    if count as u64 > 0x1_0000_0000u64 {
        Err(Error::IdCapacity { kind, count })
    } else {
        Ok(())
    }
}

} // verus!
