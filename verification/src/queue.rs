//! A min-priority queue of `(distance, node)` entries, kept as a binary heap.

use vstd::multiset::Multiset;
use vstd::prelude::*;

verus! {

/// Index of the parent of slot `i` in the implicit binary tree.
pub open spec fn parent_of(i: int) -> int {
    (i - 1) / 2
}

/// Every slot but the root holds a distance no smaller than its parent's.
pub open spec fn heap_ordered(s: Seq<(u64, usize)>) -> bool {
    forall|i: int| 0 < i < s.len() ==> (#[trigger] s[parent_of(i)]).0 <= s[i].0
}

/// Heap order everywhere except between slot `k` and its parent; the
/// children of `k` are still no smaller than the parent of `k`.
spec fn ordered_but_above(s: Seq<(u64, usize)>, k: int) -> bool {
    &&& forall|i: int| 0 < i < s.len() && i != k ==> (#[trigger] s[parent_of(i)]).0 <= s[i].0
    &&& forall|i: int|
        0 < i < s.len() && parent_of(i) == k && k > 0 ==> s[parent_of(k)].0 <= (#[trigger] s[i]).0
}

/// Heap order everywhere except between slot `k` and its children; the
/// children of `k` are still no smaller than the parent of `k`.
spec fn ordered_but_below(s: Seq<(u64, usize)>, k: int) -> bool {
    &&& forall|i: int|
        0 < i < s.len() && parent_of(i) != k ==> (#[trigger] s[parent_of(i)]).0 <= s[i].0
    &&& forall|i: int|
        0 < i < s.len() && parent_of(i) == k && k > 0 ==> s[parent_of(k)].0 <= (#[trigger] s[i]).0
}

/// In a heap-ordered sequence the root is a minimum.
proof fn lemma_root_is_least(s: Seq<(u64, usize)>, i: int)
    requires
        heap_ordered(s),
        0 <= i < s.len(),
    ensures
        s[0].0 <= s[i].0,
    decreases i,
{
    if i > 0 {
        assert(s[parent_of(i)].0 <= s[i].0);
        lemma_root_is_least(s, parent_of(i));
    }
}

/// Exchanges two slots.
fn swap_slots(v: &mut Vec<(u64, usize)>, i: usize, j: usize)
    requires
        i < old(v).len(),
        j < old(v).len(),
    ensures
        final(v)@ == old(v)@.update(i as int, old(v)@[j as int]).update(j as int, old(v)@[i as int]),
        final(v)@.to_multiset() == old(v)@.to_multiset(),
{
    let a = v[i];
    let b = v[j];
    v[i] = b;
    v[j] = a;
    proof {
        broadcast use vstd::seq_lib::to_multiset_update;
        broadcast use vstd::seq_lib::to_multiset_contains;
        broadcast use vstd::multiset::group_multiset_axioms;
        let s0 = old(v)@;
        let s1 = s0.update(i as int, b);
        assert(s0.contains(a) && s0.contains(b)) by {
            assert(s0[i as int] == a && s0[j as int] == b);
        }
        assert(s0.to_multiset().count(a) > 0 && s0.to_multiset().count(b) > 0);
        assert(s1.to_multiset() == s0.to_multiset().insert(b).remove(a));
        assert(s1[j as int] == b);
        assert(v@.to_multiset() == s1.to_multiset().insert(a).remove(b));
        assert(v@.to_multiset() =~= s0.to_multiset());
    }
}

/// Moves the entry at slot `start` towards the root until its parent is no
/// larger.
fn sift_up(v: &mut Vec<(u64, usize)>, start: usize)
    requires
        start < old(v).len(),
        ordered_but_above(old(v)@, start as int),
    ensures
        heap_ordered(final(v)@),
        final(v)@.to_multiset() == old(v)@.to_multiset(),
        final(v)@.len() == old(v)@.len(),
{
    let mut k: usize = start;
    while k > 0 && v[(k - 1) / 2].0 > v[k].0
        invariant
            k < v.len(),
            v@.len() == old(v)@.len(),
            ordered_but_above(v@, k as int),
            v@.to_multiset() == old(v)@.to_multiset(),
        decreases k,
    {
        let p: usize = (k - 1) / 2;
        let ghost before = v@;
        swap_slots(v, k, p);
        proof {
            assert forall|i: int| 0 < i < v@.len() && i != p implies (#[trigger] v@[parent_of(
                i,
            )]).0 <= v@[i].0 by {
                if i == k {
                } else if parent_of(i) == k {
                    assert(before[parent_of(i)].0 <= before[i].0);
                } else if parent_of(i) == p {
                    assert(before[parent_of(i)].0 <= before[i].0);
                } else {
                    assert(before[parent_of(i)].0 <= before[i].0);
                }
            }
            assert forall|i: int|
                0 < i < v@.len() && parent_of(i) == p && p > 0 implies v@[parent_of(p as int)].0 <= (
            #[trigger] v@[i]).0 by {
                assert(before[parent_of(p as int)].0 <= before[p as int].0);
                if i != k {
                    assert(before[parent_of(i)].0 <= before[i].0);
                }
            }
        }
        k = p;
    }
    proof {
        assert forall|i: int| 0 < i < v@.len() implies (#[trigger] v@[parent_of(i)]).0
            <= v@[i].0 by {}
    }
}

/// Moves the entry at the root away from it until neither child is smaller.
fn sift_down(v: &mut Vec<(u64, usize)>)
    requires
        old(v).len() > 0,
        ordered_but_below(old(v)@, 0),
    ensures
        heap_ordered(final(v)@),
        final(v)@.to_multiset() == old(v)@.to_multiset(),
        final(v)@.len() == old(v)@.len(),
{
    let n: usize = v.len();
    let mut k: usize = 0;
    loop
        invariant_except_break
            ordered_but_below(v@, k as int),
        invariant
            k < n,
            n == v@.len(),
            v@.len() == old(v)@.len(),
            v@.to_multiset() == old(v)@.to_multiset(),
        ensures
            heap_ordered(v@),
        decreases n - k,
    {
        if k >= n / 2 {
            // slot `k` has no child
            proof {
                assert forall|i: int| 0 < i < v@.len() implies (#[trigger] v@[parent_of(i)]).0
                    <= v@[i].0 by {}
            }
            break;
        }
        let left: usize = 2 * k + 1;
        let mut child: usize = left;
        if left + 1 < n && v[left + 1].0 < v[left].0 {
            child = left + 1;
        }
        if v[k].0 <= v[child].0 {
            proof {
                assert forall|i: int| 0 < i < v@.len() implies (#[trigger] v@[parent_of(i)]).0
                    <= v@[i].0 by {
                    if parent_of(i) == k {
                        assert(i == left || i == left + 1);
                    }
                }
            }
            break;
        }
        let ghost before = v@;
        swap_slots(v, k, child);
        proof {
            assert forall|i: int| 0 < i < v@.len() && parent_of(i) != child implies (
            #[trigger] v@[parent_of(i)]).0 <= v@[i].0 by {
                if parent_of(i) == k {
                    assert(i == left || i == left + 1);
                } else if i == k {
                    assert(parent_of(child as int) == k);
                    assert(before[parent_of(k as int)].0 <= before[child as int].0);
                } else {
                    assert(before[parent_of(i)].0 <= before[i].0);
                }
            }
            assert forall|i: int|
                0 < i < v@.len() && parent_of(i) == child && child > 0 implies v@[parent_of(
                child as int,
            )].0 <= (#[trigger] v@[i]).0 by {
                assert(before[parent_of(i)].0 <= before[i].0);
            }
        }
        k = child;
    }
}

/// A multiset of `(distance, node)` entries from which the entry of least
/// distance can be taken. Several entries may name the same node.
pub struct MinQueue {
    items: Vec<(u64, usize)>,
}

impl View for MinQueue {
    type V = Multiset<(u64, usize)>;

    closed spec fn view(&self) -> Multiset<(u64, usize)> {
        self.items@.to_multiset()
    }
}

impl MinQueue {
    #[verifier::type_invariant]
    spec fn ordered(&self) -> bool {
        heap_ordered(self.items@)
    }

    /// An empty queue.
    pub fn new() -> (q: MinQueue)
        ensures
            q@ == Multiset::<(u64, usize)>::empty(),
    {
        let q = MinQueue { items: Vec::new() };
        assert(q.items@.to_multiset() =~= Multiset::<(u64, usize)>::empty()) by {
            broadcast use vstd::seq_lib::group_to_multiset_ensures;
        }
        q
    }

    /// Number of entries, counting repetitions.
    pub fn len(&self) -> (n: usize)
        ensures
            n == self@.len(),
    {
        proof {
            broadcast use vstd::seq_lib::to_multiset_len;
        }
        self.items.len()
    }

    /// Whether the queue holds no entry.
    pub fn is_empty(&self) -> (b: bool)
        ensures
            b == (self@.len() == 0),
    {
        proof {
            broadcast use vstd::seq_lib::to_multiset_len;
        }
        self.items.len() == 0
    }

    /// Adds one entry.
    pub fn push(&mut self, distance: u64, node: usize)
        ensures
            final(self)@ == old(self)@.insert((distance, node)),
    {
        proof {
            use_type_invariant(&*self);
        }
        let mut items: Vec<(u64, usize)> = Vec::new();
        core::mem::swap(&mut items, &mut self.items);
        let ghost before = items@;
        items.push((distance, node));
        proof {
            broadcast use vstd::seq_lib::to_multiset_build;
            assert(items@.to_multiset() == before.to_multiset().insert((distance, node)));
            assert forall|i: int| 0 < i < items@.len() && i != items@.len() - 1 implies (
            #[trigger] items@[parent_of(i)]).0 <= items@[i].0 by {
                assert(before[parent_of(i)].0 <= before[i].0);
            }
        }
        let last: usize = items.len() - 1;
        sift_up(&mut items, last);
        self.items = items;
    }

    /// Removes and returns an entry of least distance, or `None` when the
    /// queue is empty. Which of several entries of equal distance leaves is
    /// not fixed.
    pub fn pop(&mut self) -> (r: Option<(u64, usize)>)
        ensures
            old(self)@.len() == 0 ==> r is None && final(self)@ == old(self)@,
            old(self)@.len() > 0 ==> r is Some,
            r matches Some(top) ==> {
                &&& old(self)@.count(top) > 0
                &&& final(self)@ == old(self)@.remove(top)
                &&& forall|e: (u64, usize)| old(self)@.count(e) > 0 ==> top.0 <= e.0
            },
    {
        proof {
            use_type_invariant(&*self);
            broadcast use vstd::seq_lib::to_multiset_len;
        }
        if self.items.len() == 0 {
            return None;
        }
        let mut items: Vec<(u64, usize)> = Vec::new();
        core::mem::swap(&mut items, &mut self.items);
        let ghost before = items@;
        let top = items[0];
        proof {
            broadcast use vstd::seq_lib::to_multiset_contains;
            assert(before.contains(top));
            assert forall|e: (u64, usize)| before.to_multiset().count(e) > 0 implies top.0
                <= e.0 by {
                assert(before.contains(e));
                let i = choose|i: int| 0 <= i < before.len() && before[i] == e;
                lemma_root_is_least(before, i);
            }
        }
        let last = items.pop().unwrap();
        proof {
            broadcast use vstd::seq_lib::to_multiset_remove;
            assert(items@ =~= before.remove(before.len() - 1));
            assert(items@.to_multiset() == before.to_multiset().remove(last));
        }
        if items.len() > 0 {
            let ghost shorter = items@;
            items[0] = last;
            proof {
                broadcast use vstd::seq_lib::to_multiset_update;
                assert(items@.to_multiset() == shorter.to_multiset().insert(last).remove(top));
                assert(items@.to_multiset() =~= before.to_multiset().remove(top));
                assert forall|i: int| 0 < i < items@.len() && parent_of(i) != 0 implies (
                #[trigger] items@[parent_of(i)]).0 <= items@[i].0 by {
                    assert(before[parent_of(i)].0 <= before[i].0);
                }
            }
            sift_down(&mut items);
        } else {
            assert(last == top);
        }
        self.items = items;
        Some(top)
    }
}

} // verus!
