//! Bookkeeping of an OpenStreetMap import: what was read, kept and created.

use vstd::prelude::*;
use std::collections::HashMap;

verus! {

broadcast use vstd::std_specs::hash::group_hash_axioms;

/// Counts gathered while importing an OpenStreetMap extract.
#[derive(Clone, Copy, Debug, PartialEq, Eq, Structural)]
pub struct ImportReport {
    pub parsed_nodes: usize,
    pub parsed_ways: usize,
    pub retained_ways: usize,
    pub skipped_ways: usize,
    pub invalid_ways: usize,
    pub retained_nodes: usize,
    pub created_edges: usize,
    pub parsed_relations: usize,
    pub restriction_relations: usize,
    pub applied_restriction_relations: usize,
    pub unsupported_restriction_relations: usize,
    pub exempt_restriction_relations: usize,
    pub created_turn_restrictions: usize,
}

impl Default for ImportReport {
    fn default() -> (r: Self)
        ensures
            r == (ImportReport {
                parsed_nodes: 0,
                parsed_ways: 0,
                retained_ways: 0,
                skipped_ways: 0,
                invalid_ways: 0,
                retained_nodes: 0,
                created_edges: 0,
                parsed_relations: 0,
                restriction_relations: 0,
                applied_restriction_relations: 0,
                unsupported_restriction_relations: 0,
                exempt_restriction_relations: 0,
                created_turn_restrictions: 0,
            }),
    {
        ImportReport {
            parsed_nodes: 0,
            parsed_ways: 0,
            retained_ways: 0,
            skipped_ways: 0,
            invalid_ways: 0,
            retained_nodes: 0,
            created_edges: 0,
            parsed_relations: 0,
            restriction_relations: 0,
            applied_restriction_relations: 0,
            unsupported_restriction_relations: 0,
            exempt_restriction_relations: 0,
            created_turn_restrictions: 0,
        }
    }
}

/// Way `j` has at least two nodes and passes through node `x`.
pub open spec fn way_has(ways: Seq<Vec<i64>>, j: int, x: i64) -> bool {
    ways[j]@.len() >= 2 && ways[j]@.contains(x)
}

/// Node `x` lies on two different ways that have at least two nodes each.
pub open spec fn is_shared_node(ways: Seq<Vec<i64>>, x: i64) -> bool {
    exists|a: int, b: int| 0 <= a < b < ways.len() && way_has(ways, a, x) && way_has(ways, b, x)
}

/// Way `j` passes through `x` among the nodes visited so far: all of ways before `w`, the
/// first `i` nodes of way `w`.
spec fn seen_on(ways: Seq<Vec<i64>>, w: int, i: int, j: int, x: i64) -> bool {
    if j < w {
        0 <= j && way_has(ways, j, x)
    } else if j == w {
        ways[w]@.len() >= 2 && ways[w]@.subrange(0, i).contains(x)
    } else {
        false
    }
}

/// The visit so far: a node is present once some way passed through it, with the last such
/// way and whether an earlier, different way passed through it too.
spec fn visit_inv(ways: Seq<Vec<i64>>, w: int, i: int, m: Map<i64, (usize, bool)>) -> bool {
    &&& forall|x: i64| #[trigger] m.contains_key(x) ==> {
        &&& m[x].0 <= w
        &&& seen_on(ways, w, i, m[x].0 as int, x)
        &&& forall|j: int| #[trigger] seen_on(ways, w, i, j, x) ==> j <= m[x].0
        &&& m[x].1 <==> exists|a: int| 0 <= a < m[x].0 && #[trigger] seen_on(ways, w, i, a, x)
    }
    &&& forall|x: i64, j: int| #[trigger] seen_on(ways, w, i, j, x) ==> m.contains_key(x)
}

proof fn lemma_seen_next_way(ways: Seq<Vec<i64>>, w: int, x: i64, j: int)
    requires
        0 <= w < ways.len(),
    ensures
        seen_on(ways, w, ways[w]@.len() as int, j, x) == seen_on(ways, w + 1, 0, j, x),
{
    assert(ways[w]@.subrange(0, ways[w]@.len() as int) =~= ways[w]@);
    if j == w + 1 {
        assert(ways[w + 1]@.subrange(0, 0).len() == 0);
    }
}

proof fn lemma_seen_next_node(ways: Seq<Vec<i64>>, w: int, i: int, j: int, x: i64)
    requires
        0 <= w < ways.len(),
        0 <= i < ways[w]@.len(),
        ways[w]@.len() >= 2,
    ensures
        seen_on(ways, w, i + 1, j, x) == (seen_on(ways, w, i, j, x) || (j == w && x
            == ways[w]@[i])),
{
    let s = ways[w]@;
    let p = s.subrange(0, i);
    assert(s.subrange(0, i + 1) =~= p.push(s[i]));
    if p.push(s[i]).contains(x) {
        let k = choose|k: int| 0 <= k < p.push(s[i]).len() && p.push(s[i])[k] == x;
        if k < i {
            assert(p[k] == x);
        }
    }
    if p.contains(x) {
        let k = choose|k: int| 0 <= k < p.len() && p[k] == x;
        assert(p.push(s[i])[k] == x);
    }
    if x == s[i] {
        assert(p.push(s[i])[i] == x);
    }
}

/// For every node of every way, whether it lies on two different ways (of at least two
/// nodes each): where ways meet, the road network branches.
pub fn shared_node_flags(ways: &[Vec<i64>]) -> (r: Vec<Vec<bool>>)
    ensures
        r@.len() == ways@.len(),
        forall|w: int| 0 <= w < ways@.len() ==> (#[trigger] r@[w])@.len() == ways@[w]@.len(),
        forall|w: int, i: int|
            0 <= w < ways@.len() && 0 <= i < ways@[w]@.len() ==> (#[trigger] r@[w]@[i]
                == is_shared_node(ways@, ways@[w]@[i])),
{
    let mut m: HashMap<i64, (usize, bool)> = HashMap::new();
    let mut w: usize = 0;
    while w < ways.len()
        invariant
            w <= ways@.len(),
            visit_inv(ways@, w as int, 0, m@),
        decreases ways@.len() - w,
    {
        let way = &ways[w];
        if way.len() >= 2 {
            let mut i: usize = 0;
            while i < way.len()
                invariant
                    w < ways@.len(),
                    *way == ways@[w as int],
                    way@.len() >= 2,
                    i <= way@.len(),
                    visit_inv(ways@, w as int, i as int, m@),
                decreases way@.len() - i,
            {
                let x = way[i];
                let ghost m0 = m@;
                proof {
                    assert forall|j: int, y: i64|
                        #![trigger seen_on(ways@, w as int, i + 1, j, y)]
                        #![trigger seen_on(ways@, w as int, i as int, j, y)]
                        seen_on(ways@, w as int, i + 1, j, y)
                        == (seen_on(ways@, w as int, i as int, j, y) || (j == w && y == x)) by {
                        lemma_seen_next_node(ways@, w as int, i as int, j, y);
                    }
                }
                match m.get(&x) {
                    None => {
                        m.insert(x, (w, false));
                        proof {
                            assert forall|j: int| #[trigger] seen_on(ways@, w as int, i as int, j, x) implies false by {
                                assert(m0.contains_key(x));
                            }
                        }
                    },
                    Some(entry) => {
                        let (last, shared) = *entry;
                        if last != w {
                            m.insert(x, (w, true));
                            proof {
                                assert(seen_on(ways@, w as int, i as int, last as int, x));
                                assert(seen_on(ways@, w as int, i + 1, last as int, x));
                            }
                        } else {
                            proof {
                                assert(seen_on(ways@, w as int, i as int, w as int, x));
                            }
                        }
                    },
                }
                i = i + 1;
            }
            proof {
                assert forall|j: int, y: i64|
                    #![trigger seen_on(ways@, w as int, way@.len() as int, j, y)]
                    #![trigger seen_on(ways@, w + 1, 0, j, y)]
                    seen_on(ways@, w as int, way@.len() as int, j, y)
                    == seen_on(ways@, w + 1, 0, j, y) by {
                    lemma_seen_next_way(ways@, w as int, y, j);
                }
            }
        } else {
            proof {
                assert forall|j: int, y: i64|
                    #![trigger seen_on(ways@, w as int, 0, j, y)]
                    #![trigger seen_on(ways@, w + 1, 0, j, y)]
                    seen_on(ways@, w as int, 0, j, y) == seen_on(ways@, w + 1, 0, j, y) by {}
            }
        }
        w = w + 1;
    }
    let mut r: Vec<Vec<bool>> = Vec::new();
    let mut w: usize = 0;
    while w < ways.len()
        invariant
            w <= ways@.len(),
            visit_inv(ways@, ways@.len() as int, 0, m@),
            r@.len() == w,
            forall|v: int| 0 <= v < w ==> (#[trigger] r@[v])@.len() == ways@[v]@.len(),
            forall|v: int, i: int|
                0 <= v < w && 0 <= i < ways@[v]@.len() ==> (#[trigger] r@[v]@[i]
                    == is_shared_node(ways@, ways@[v]@[i])),
        decreases ways@.len() - w,
    {
        let way = &ways[w];
        let mut flags: Vec<bool> = Vec::new();
        let mut i: usize = 0;
        while i < way.len()
            invariant
                w < ways@.len(),
                *way == ways@[w as int],
                visit_inv(ways@, ways@.len() as int, 0, m@),
                i <= way@.len(),
                flags@.len() == i,
                forall|k: int| 0 <= k < i ==> flags@[k] == is_shared_node(ways@, way@[k]),
            decreases way@.len() - i,
        {
            let x = way[i];
            let shared = match m.get(&x) {
                Some(entry) => entry.1,
                None => false,
            };
            proof {
                let n = ways@.len() as int;
                if is_shared_node(ways@, x) {
                    let (a, b) = choose|a: int, b: int|
                        0 <= a < b < ways@.len() && way_has(ways@, a, x) && way_has(ways@, b, x);
                    assert(seen_on(ways@, n, 0, a, x));
                    assert(seen_on(ways@, n, 0, b, x));
                    assert(m@.contains_key(x));
                    assert(b <= m@[x].0);
                    if a < m@[x].0 {
                    } else {
                        assert(false);
                    }
                }
                if m@.contains_key(x) && m@[x].1 {
                    let a = choose|a: int| 0 <= a < m@[x].0 && #[trigger] seen_on(ways@, n, 0, a, x);
                    assert(seen_on(ways@, n, 0, m@[x].0 as int, x));
                    assert(way_has(ways@, a, x));
                    assert(way_has(ways@, m@[x].0 as int, x));
                }
            }
            flags.push(shared);
            i = i + 1;
        }
        r.push(flags);
        w = w + 1;
    }
    r
}


/// The number of ways of which at least one piece was kept, where `kept[i]` is how many
/// pieces of way `i` were kept.
pub open spec fn count_kept(kept: Seq<usize>) -> nat
    decreases kept.len(),
{
    if kept.len() == 0 {
        0
    } else {
        count_kept(kept.drop_last()) + if kept.last() > 0 {
            1nat
        } else {
            0nat
        }
    }
}

proof fn lemma_count_kept_bound(kept: Seq<usize>)
    ensures
        count_kept(kept) <= kept.len(),
    decreases kept.len(),
{
    if kept.len() > 0 {
        lemma_count_kept_bound(kept.drop_last());
    }
}

/// Counts the drivable ways of an import: a way of which at least one piece was kept is
/// retained, any other (one of fewer than two nodes among them) is invalid. `kept[i]` is how
/// many pieces of way `i` were kept.
pub fn tally_ways(kept: &[usize], report: &mut ImportReport)
    requires
        old(report).retained_ways + kept@.len() <= usize::MAX,
        old(report).invalid_ways + kept@.len() <= usize::MAX,
    ensures
        final(report).retained_ways == old(report).retained_ways + count_kept(kept@),
        final(report).invalid_ways == old(report).invalid_ways + kept@.len() - count_kept(kept@),
        *final(report) == (ImportReport {
            retained_ways: final(report).retained_ways,
            invalid_ways: final(report).invalid_ways,
            ..*old(report)
        }),
{
    let ghost start = *report;
    let mut i: usize = 0;
    while i < kept.len()
        invariant
            i <= kept@.len(),
            start.retained_ways + kept@.len() <= usize::MAX,
            start.invalid_ways + kept@.len() <= usize::MAX,
            report.retained_ways == start.retained_ways + count_kept(kept@.subrange(0, i as int)),
            report.invalid_ways == start.invalid_ways + i - count_kept(kept@.subrange(0, i as int)),
            *report == (ImportReport {
                retained_ways: report.retained_ways,
                invalid_ways: report.invalid_ways,
                ..start
            }),
        decreases kept@.len() - i,
    {
        proof {
            let s = kept@.subrange(0, i + 1);
            assert(s.drop_last() =~= kept@.subrange(0, i as int));
            assert(s.last() == kept@[i as int]);
            lemma_count_kept_bound(kept@.subrange(0, i as int));
        }
        if kept[i] > 0 {
            report.retained_ways = report.retained_ways + 1;
        } else {
            report.invalid_ways = report.invalid_ways + 1;
        }
        i = i + 1;
    }
    proof {
        assert(kept@.subrange(0, i as int) =~= kept@);
    }
}

} // verus!
