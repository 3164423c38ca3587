//! A binary min-heap of `(cost, state)` entries, ordered by cost and then by state.

use vstd::prelude::*;
use vstd::multiset::Multiset;

verus! {

broadcast use vstd::seq_lib::group_to_multiset_ensures, vstd::multiset::group_multiset_axioms;

/// The order in which entries leave the queue: lower cost first, then lower state.
pub open spec fn entry_le(a: (u64, usize), b: (u64, usize)) -> bool {
    a.0 < b.0 || (a.0 == b.0 && a.1 <= b.1)
}

pub open spec fn parent(i: int) -> int {
    (i - 1) / 2
}

/// Every entry is no smaller than its parent.
pub open spec fn heap_ordered(s: Seq<(u64, usize)>) -> bool {
    forall|i: int| 0 < i < s.len() ==> entry_le(s[parent(i)], #[trigger] s[i])
}

pub struct MinQueue {
    items: Vec<(u64, usize)>,
}

proof fn lemma_root_is_least(s: Seq<(u64, usize)>, i: int)
    requires
        heap_ordered(s),
        0 <= i < s.len(),
    ensures
        entry_le(s[0], s[i]),
    decreases i,
{
    if i > 0 {
        lemma_root_is_least(s, parent(i));
    }
}

proof fn lemma_swap_multiset(s: Seq<(u64, usize)>, i: int, j: int)
    requires
        0 <= i < s.len(),
        0 <= j < s.len(),
    ensures
        s.update(i, s[j]).update(j, s[i]).to_multiset() == s.to_multiset(),
{
    let t = s.update(i, s[j]);
    assert(t.to_multiset() == s.to_multiset().insert(s[j]).remove(s[i]));
    assert(t[j] == if i == j { s[i] } else { s[j] });
    assert(t.update(j, s[i]).to_multiset() == t.to_multiset().insert(s[i]).remove(t[j]));
    assert(t.update(j, s[i]).to_multiset() =~= s.to_multiset());
}

impl View for MinQueue {
    type V = Multiset<(u64, usize)>;

    closed spec fn view(&self) -> Multiset<(u64, usize)> {
        self.items@.to_multiset()
    }
}

impl MinQueue {
    #[verifier::type_invariant]
    closed spec fn inv(&self) -> bool {
        heap_ordered(self.items@)
    }

    pub fn new() -> (r: Self)
        ensures
            r@ == Multiset::<(u64, usize)>::empty(),
    {
        let r = MinQueue { items: Vec::new() };
        proof {
            assert(r.items@.to_multiset() =~= Multiset::<(u64, usize)>::empty());
        }
        r
    }

    pub fn is_empty(&self) -> (r: bool)
        ensures
            r == (self@.len() == 0),
    {
        self.items.len() == 0
    }

    fn swap_items(items: &mut Vec<(u64, usize)>, i: usize, j: usize)
        requires
            i < old(items)@.len(),
            j < old(items)@.len(),
        ensures
            final(items)@ == old(items)@.update(i as int, old(items)@[j as int]).update(
                j as int,
                old(items)@[i as int],
            ),
            final(items)@.to_multiset() == old(items)@.to_multiset(),
    {
        proof {
            lemma_swap_multiset(items@, i as int, j as int);
        }
        let a = items[i];
        let b = items[j];
        items.set(i, b);
        items.set(j, a);
    }

    /// Adds an entry.
    pub fn push(&mut self, x: (u64, usize))
        ensures
            final(self)@ == old(self)@.insert(x),
    {
        proof {
            use_type_invariant(&*self);
        }
        let mut items: Vec<(u64, usize)> = Vec::new();
        std::mem::swap(&mut items, &mut self.items);
        let ghost start = items@;
        items.push(x);
        let mut k = items.len() - 1;
        let mut placed = false;
        while !placed
            invariant
                0 <= k < items@.len(),
                items@.to_multiset() == start.push(x).to_multiset(),
                placed ==> heap_ordered(items@),
                !placed ==> sift_up_state(items@, k as int),
            decreases 2 * k + if placed { 0int } else { 1int },
        {
            if k == 0 {
                placed = true;
            } else {
                let p = (k - 1) / 2;
                if entry_le_exec(items[p], items[k]) {
                    placed = true;
                } else {
                    let ghost s = items@;
                    Self::swap_items(&mut items, p, k);
                    proof {
                        lemma_sift_up_step(s, k as int);
                    }
                    k = p;
                }
            }
        }
        proof {
            assert(start.push(x).to_multiset() == start.to_multiset().insert(x));
        }
        self.items = items;
    }

    /// Removes and returns a least entry, or returns `None` when the queue is empty.
    pub fn pop(&mut self) -> (r: Option<(u64, usize)>)
        ensures
            old(self)@.len() == 0 ==> r is None && final(self)@ == old(self)@,
            old(self)@.len() > 0 ==> (r matches Some(x) && old(self)@.count(x) > 0 && (forall|
                y: (u64, usize),
            | old(self)@.count(y) > 0 ==> entry_le(x, y)) && final(self)@ == old(self)@.remove(
                x,
            )),
    {
        proof {
            use_type_invariant(&*self);
        }
        if self.items.len() == 0 {
            proof {
                assert(self.items@ =~= Seq::<(u64, usize)>::empty());
            }
            return None;
        }
        let mut items: Vec<(u64, usize)> = Vec::new();
        std::mem::swap(&mut items, &mut self.items);
        let ghost start = items@;
        proof {
            assert forall|y: (u64, usize)| start.to_multiset().count(y) > 0 implies entry_le(
                start[0],
                y,
            ) by {
                assert(start.contains(y));
                let i = choose|i: int| 0 <= i < start.len() && start[i] == y;
                lemma_root_is_least(start, i);
            }
            assert(start.contains(start[0]));
        }
        let top = items[0];
        let last = items.pop().unwrap();
        proof {
            assert(start == items@.push(last));
        }
        if items.len() == 0 {
            proof {
                assert(start.to_multiset() == items@.to_multiset().insert(last));
                assert(items@.to_multiset() =~= start.to_multiset().remove(top));
            }
            self.items = items;
            return Some(top);
        }
        let ghost dropped = items@;
        items.set(0, last);
        proof {
            assert(start.to_multiset() == dropped.to_multiset().insert(last));
            assert(items@.to_multiset() == dropped.to_multiset().insert(last).remove(dropped[0]));
            assert(dropped[0] == top);
            assert(items@.to_multiset() =~= start.to_multiset().remove(top));
            assert(sift_down_state(items@, 0));
        }
        let n = items.len();
        let mut k: usize = 0;
        let mut placed = false;
        while !placed
            invariant
                n == items@.len(),
                k < n,
                items@.to_multiset() == start.to_multiset().remove(top),
                placed ==> heap_ordered(items@),
                !placed ==> sift_down_state(items@, k as int),
            decreases 2 * (n - k) + if placed { 0int } else { 1int },
        {
            if k >= n / 2 {
                proof {
                    lemma_sift_down_leaf(items@, k as int);
                }
                placed = true;
            } else {
                let left = 2 * k + 1;
                let right = left + 1;
                let m = if right < n && !entry_le_exec(items[left], items[right]) {
                    right
                } else {
                    left
                };
                if entry_le_exec(items[k], items[m]) {
                    proof {
                        lemma_sift_down_done(items@, k as int, m as int);
                    }
                    placed = true;
                } else {
                    let ghost s = items@;
                    Self::swap_items(&mut items, k, m);
                    proof {
                        lemma_sift_down_step(s, k as int, m as int);
                    }
                    k = m;
                }
            }
        }
        self.items = items;
        Some(top)
    }
}

/// Heap order holds everywhere except possibly between `k` and its parent, and `k`'s
/// parent is no larger than `k`'s children.
pub open spec fn sift_up_state(s: Seq<(u64, usize)>, k: int) -> bool {
    &&& forall|i: int| 0 < i < s.len() && i != k ==> entry_le(s[parent(i)], #[trigger] s[i])
    &&& forall|i: int|
        0 < i < s.len() && parent(i) == k && k > 0 ==> entry_le(s[parent(k)], #[trigger] s[i])
}

/// Heap order holds everywhere except possibly between `k` and its children, and `k`'s
/// parent is no larger than `k`'s children.
pub open spec fn sift_down_state(s: Seq<(u64, usize)>, k: int) -> bool {
    &&& forall|i: int|
        0 < i < s.len() && parent(i) != k ==> entry_le(s[parent(i)], #[trigger] s[i])
    &&& forall|i: int|
        0 < i < s.len() && parent(i) == k && k > 0 ==> entry_le(s[parent(k)], #[trigger] s[i])
}

proof fn lemma_sift_up_step(s: Seq<(u64, usize)>, k: int)
    requires
        0 < k < s.len(),
        sift_up_state(s, k),
        !entry_le(s[parent(k)], s[k]),
    ensures
        sift_up_state(s.update(parent(k), s[k]).update(k, s[parent(k)]), parent(k)),
{
    let p = parent(k);
    let t = s.update(p, s[k]).update(k, s[p]);
    assert forall|i: int| 0 < i < t.len() && i != p implies entry_le(t[parent(i)], #[trigger] t[i])
        by {
        if i == k {
        } else if parent(i) == k {
            assert(entry_le(s[parent(k)], s[i]));
        } else if parent(i) == p {
            assert(entry_le(s[p], s[i]));
        } else {
        }
    }
    assert forall|i: int| 0 < i < t.len() && parent(i) == p && p > 0 implies entry_le(
        t[parent(p)],
        #[trigger] t[i],
    ) by {
        assert(entry_le(s[parent(p)], s[p]));
        if i == k {
        } else {
            assert(entry_le(s[p], s[i]));
        }
    }
}

proof fn lemma_sift_down_leaf(s: Seq<(u64, usize)>, k: int)
    requires
        0 <= k < s.len(),
        k >= s.len() / 2,
        sift_down_state(s, k),
    ensures
        heap_ordered(s),
{
    assert forall|i: int| 0 < i < s.len() implies entry_le(s[parent(i)], #[trigger] s[i]) by {
        if parent(i) == k {
            assert(2 * k + 1 <= i);
        }
    }
}

proof fn lemma_sift_down_done(s: Seq<(u64, usize)>, k: int, m: int)
    requires
        0 <= k,
        2 * k + 1 < s.len(),
        sift_down_state(s, k),
        m == 2 * k + 1 || m == 2 * k + 2,
        m < s.len(),
        m == 2 * k + 1 ==> (2 * k + 2 >= s.len() || entry_le(s[2 * k + 1], s[2 * k + 2])),
        m == 2 * k + 2 ==> !entry_le(s[2 * k + 1], s[2 * k + 2]),
        entry_le(s[k], s[m]),
    ensures
        heap_ordered(s),
{
    assert forall|i: int| 0 < i < s.len() implies entry_le(s[parent(i)], #[trigger] s[i]) by {
        if parent(i) == k {
            assert(i == 2 * k + 1 || i == 2 * k + 2);
        }
    }
}

proof fn lemma_sift_down_step(s: Seq<(u64, usize)>, k: int, m: int)
    requires
        0 <= k,
        2 * k + 1 < s.len(),
        sift_down_state(s, k),
        m == 2 * k + 1 || m == 2 * k + 2,
        m < s.len(),
        m == 2 * k + 1 ==> (2 * k + 2 >= s.len() || entry_le(s[2 * k + 1], s[2 * k + 2])),
        m == 2 * k + 2 ==> !entry_le(s[2 * k + 1], s[2 * k + 2]),
        !entry_le(s[k], s[m]),
    ensures
        sift_down_state(s.update(k, s[m]).update(m, s[k]), m),
{
    let t = s.update(k, s[m]).update(m, s[k]);
    assert(parent(m) == k);
    assert forall|i: int| 0 < i < t.len() && parent(i) != m implies entry_le(
        t[parent(i)],
        #[trigger] t[i],
    ) by {
        if i == m {
        } else if parent(i) == k {
            assert(i == 2 * k + 1 || i == 2 * k + 2);
        } else if i == k {
            assert(entry_le(s[parent(k)], s[m]));
        } else {
        }
    }
    assert forall|i: int| 0 < i < t.len() && parent(i) == m && m > 0 implies entry_le(
        t[parent(m)],
        #[trigger] t[i],
    ) by {
        assert(entry_le(s[m], s[i]));
    }
}

fn entry_le_exec(a: (u64, usize), b: (u64, usize)) -> (r: bool)
    ensures
        r == entry_le(a, b),
{
    a.0 < b.0 || (a.0 == b.0 && a.1 <= b.1)
}

} // verus!
