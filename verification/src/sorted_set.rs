//! Sorted sets of `u64` keys: collecting distinct values in increasing order through a
//! `BTreeSet`, and membership search in sorted sequences.

use vstd::prelude::*;
use std::collections::BTreeSet;
use vstd::std_specs::iter::IteratorSpec;

verus! {

broadcast use vstd::std_specs::btree::group_btree_axioms;

/// Every element is strictly smaller than the elements after it.
pub open spec fn strictly_increasing(s: Seq<u64>) -> bool {
    forall|i: int, j: int| 0 <= i < j < s.len() ==> s[i] < s[j]
}

/// The keys that an ordered set yields come in increasing order.
proof fn lemma_increasing_refs(s: Seq<&u64>, i: int, j: int)
    requires
        vstd::std_specs::btree::increasing_seq(s),
        0 <= i < j < s.len(),
    ensures
        *s[i] < *s[j],
{
    broadcast use vstd::laws_cmp::group_laws_cmp;

    assert(vstd::laws_cmp::obeys_cmp::<u64>());
    assert(vstd::laws_cmp::obeys_cmp::<&u64>());
    vstd::std_specs::btree::axiom_increasing_seq_meaning(s);
    assert(vstd::std_specs::cmp::OrdSpec::cmp_spec(&s[i], &s[j]) is Less);
}

/// The distinct values of `v` in increasing order, collected through a `BTreeSet`.
pub fn sorted_unique(v: &Vec<u64>) -> (r: Vec<u64>)
    ensures
        strictly_increasing(r@),
        forall|x: u64| r@.contains(x) <==> v@.contains(x),
{
    let mut set: BTreeSet<u64> = BTreeSet::new();
    let mut i: usize = 0;
    while i < v.len()
        invariant
            i <= v@.len(),
            forall|x: u64| set@.contains(x) <==> v@.subrange(0, i as int).contains(x),
        decreases v@.len() - i,
    {
        set.insert(v[i]);
        proof {
            let s = v@.subrange(0, i + 1);
            assert(s =~= v@.subrange(0, i as int).push(v@[i as int]));
            assert forall|x: u64| set@.contains(x) <==> s.contains(x) by {
                if x == v@[i as int] { assert(s[i as int] == x); }
                if s.contains(x) && x != v@[i as int] {
                    let k = choose|k: int| 0 <= k < s.len() && s[k] == x;
                    assert(v@.subrange(0, i as int)[k] == x);
                }
            }
        }
        i = i + 1;
    }
    proof {
        assert(v@.subrange(0, v@.len() as int) =~= v@);
    }
    let mut r: Vec<u64> = Vec::new();
    for x in it: set.iter()
        invariant
            it.seq() == vstd::std_specs::btree::spec_btree_keys_iter(&set).remaining(),
            r@.len() == it.index(),
            forall|j: int| 0 <= j < r@.len() ==> r@[j] == *it.seq()[j],
            strictly_increasing(r@),
            forall|y: u64| r@.contains(y) ==> set@.contains(y),
            forall|y: u64|
                set@.contains(y) ==> r@.contains(y) || exists|j: int|
                    r@.len() <= j < it.seq().len() && *it.seq()[j] == y,
    {
        let ghost old_r = r@;
        let ghost n = r@.len();
        proof {
            assert(*it.seq()[n as int] == *x);
            assert forall|j: int| 0 <= j < old_r.len() implies old_r[j] < *x by {
                lemma_increasing_refs(it.seq(), j, n as int);
            }
        }
        r.push(*x);
        proof {
            assert forall|y: u64| set@.contains(y) implies r@.contains(y) || exists|j: int|
                r@.len() <= j < it.seq().len() && *it.seq()[j] == y by {
                if old_r.contains(y) {
                    let k = choose|k: int| 0 <= k < old_r.len() && old_r[k] == y;
                    assert(r@[k] == y);
                } else {
                    let j = choose|j: int| n <= j < it.seq().len() && *it.seq()[j] == y;
                    if j == n {
                        assert(r@[n as int] == y);
                    } else {
                        assert(r@.len() <= j);
                    }
                }
            }
            assert forall|y: u64| r@.contains(y) implies set@.contains(y) by {
                let k = choose|k: int| 0 <= k < r@.len() && r@[k] == y;
                if k < n {
                    assert(old_r[k] == y);
                } else {
                    assert(it.seq().contains(it.seq()[n as int]));
                }
            }
        }
    }

    r
}

/// Whether `x` occurs in the strictly increasing sequence `s`, found by bisection.
pub fn sorted_contains(s: &[u64], x: u64) -> (r: bool)
    requires
        strictly_increasing(s@),
    ensures
        r == s@.contains(x),
{
    let mut lo: usize = 0;
    let mut hi: usize = s.len();
    while lo < hi
        invariant
            strictly_increasing(s@),
            lo <= hi <= s@.len(),
            forall|k: int| 0 <= k < lo ==> s@[k] < x,
            forall|k: int| hi <= k < s@.len() ==> s@[k] > x,
        decreases hi - lo,
    {
        let mid = lo + (hi - lo) / 2;
        if s[mid] == x {
            return true;
        } else if s[mid] < x {
            lo = mid + 1;
        } else {
            hi = mid;
        }
    }
    proof {
        assert forall|k: int| 0 <= k < s@.len() implies s@[k] != x by {}
    }
    false
}

} // verus!
