//! A bounded priority queue: a binary min-heap in an array.

use vstd::prelude::*;
use vstd::seq_lib::to_multiset_update;

verus! {

/// Items that a [`PriorityQueue`] can order.
pub trait Prioritized {
    /// `self` has to leave the queue strictly before `other`.
    spec fn spec_before(&self, other: &Self) -> bool;

    /// Decides whether `self` has to leave the queue strictly before `other`.
    fn before(&self, other: &Self) -> (b: bool)
        ensures
            b == self.spec_before(other),
    ;
}

impl Prioritized for u64 {
    open spec fn spec_before(&self, other: &Self) -> bool {
        *self < *other
    }

    fn before(&self, other: &Self) -> (b: bool) {
        *self < *other
    }
}

/// `a` may leave the queue before `b`: `b` is not strictly before `a`.
pub open spec fn not_after<T: Prioritized>(a: T, b: T) -> bool {
    !b.spec_before(&a)
}

/// On the items of `s` the relation [`not_after`] is a total preorder: any
/// two items are comparable, and the relation is transitive.
pub open spec fn coherent<T: Prioritized>(s: Seq<T>) -> bool {
    &&& forall|a: T, b: T|
        s.contains(a) && s.contains(b) ==> #[trigger] not_after(a, b) || not_after(b, a)
    &&& forall|a: T, b: T, c: T|
        s.contains(a) && s.contains(b) && s.contains(c) && #[trigger] not_after(a, b)
            && #[trigger] not_after(b, c) ==> not_after(a, c)
}

/// The index of the parent of node `i` of the heap.
pub open spec fn parent(i: int) -> int {
    (i - 1) / 2
}

/// Every node of `s` but the root is not before its parent.
pub open spec fn heap_ordered<T: Prioritized>(s: Seq<T>) -> bool {
    forall|i: int| 1 <= i < s.len() ==> not_after(s[parent(i)], #[trigger] s[i])
}

/// `r` may leave before every item of `s`.
pub open spec fn is_minimal<T: Prioritized>(r: T, s: Seq<T>) -> bool {
    forall|k: int| 0 <= k < s.len() ==> not_after(r, #[trigger] s[k])
}

/// The heap order holds along every edge of `s` but the one above `k`, and
/// the parent of `k` is not after the children of `k`.
spec fn ordered_but_above<T: Prioritized>(s: Seq<T>, k: int) -> bool {
    &&& forall|i: int| 1 <= i < s.len() && i != k ==> not_after(s[parent(i)], #[trigger] s[i])
    &&& forall|i: int|
        1 <= i < s.len() && parent(i) == k && k > 0 ==> not_after(s[parent(k)], #[trigger] s[i])
}

/// The heap order holds along every edge of `s` but those below `k`, and
/// the parent of `k` is not after the children of `k`.
spec fn ordered_but_below<T: Prioritized>(s: Seq<T>, k: int) -> bool {
    &&& forall|i: int|
        1 <= i < s.len() && parent(i) != k ==> not_after(s[parent(i)], #[trigger] s[i])
    &&& forall|i: int|
        1 <= i < s.len() && parent(i) == k && k > 0 ==> not_after(s[parent(k)], #[trigger] s[i])
}

/// Every item of `s` is an item of `all`.
spec fn drawn_from<T>(s: Seq<T>, all: Seq<T>) -> bool {
    forall|k: int| 0 <= k < s.len() ==> all.contains(#[trigger] s[k])
}

/// The sequence `s` with the items at `i` and `j` exchanged.
spec fn swapped<T>(s: Seq<T>, i: int, j: int) -> Seq<T> {
    s.update(i, s[j]).update(j, s[i])
}

proof fn lemma_swapped_multiset<T>(s: Seq<T>, i: int, j: int)
    requires
        0 <= i < s.len(),
        0 <= j < s.len(),
    ensures
        swapped(s, i, j).to_multiset() == s.to_multiset(),
{
    let s1 = s.update(i, s[j]);
    to_multiset_update(s, i, s[j]);
    to_multiset_update(s1, j, s[i]);
    s.to_multiset_ensures();
    assert(s.contains(s[i]));
    assert(s.contains(s[j]));
    assert(swapped(s, i, j).to_multiset() =~= s.to_multiset());
}

/// In a heap whose items are coherent, the root may leave before every item.
pub proof fn lemma_root_is_minimal<T: Prioritized>(s: Seq<T>, k: int)
    requires
        heap_ordered(s),
        coherent(s),
        0 <= k < s.len(),
    ensures
        not_after(s[0], s[k]),
    decreases k,
{
    assert(s.contains(s[0]));
    assert(s.contains(s[k]));
    if k == 0 {
        assert(not_after(s[0], s[0]) || not_after(s[0], s[0]));
    } else {
        let p = parent(k);
        lemma_root_is_minimal(s, p);
        assert(s.contains(s[p]));
        assert(not_after(s[0], s[p]) && not_after(s[p], s[k]));
    }
}

/// Exchanges the items at `i` and `j`.
fn swap_items<T>(v: &mut Vec<T>, i: usize, j: usize)
    requires
        i < j < old(v).len(),
    ensures
        final(v)@ == swapped(old(v)@, i as int, j as int),
{
    let (a, b) = v.as_mut_slice().split_at_mut(j);
    core::mem::swap(&mut a[i], &mut b[0]);
}

/// A priority queue with room for `N` items. The item that leaves first is
/// one that no other item of the queue is strictly before.
#[derive(Debug)]
pub struct PriorityQueue<T, const N: usize> {
    val: Vec<T>,
}

impl<T: Prioritized, const N: usize> View for PriorityQueue<T, N> {
    type V = Seq<T>;

    /// The items in the order of the heap's array: the root first.
    closed spec fn view(&self) -> Seq<T> {
        self.val@
    }
}

impl<T: Prioritized, const N: usize> PriorityQueue<T, N> {
    /// The queue holds at most `N` items, in heap order.
    pub open spec fn wf(&self) -> bool {
        &&& self@.len() <= N
        &&& heap_ordered(self@)
    }

    /// The empty queue.
    pub fn new() -> (q: Self)
        ensures
            q@ == Seq::<T>::empty(),
            q.wf(),
    {
        PriorityQueue { val: Vec::new() }
    }

    /// The number of items in the queue.
    pub fn len(&self) -> (n: usize)
        ensures
            n == self@.len(),
    {
        self.val.len()
    }

    /// Whether the queue holds no item.
    pub fn is_empty(&self) -> (b: bool)
        ensures
            b == (self@.len() == 0),
    {
        self.val.len() == 0
    }

    /// The item at position `i` of the heap's array.
    pub fn get(&self, i: usize) -> (r: &T)
        requires
            i < self@.len(),
        ensures
            *r == self@[i as int],
    {
        &self.val[i]
    }

    /// Adds `t` to the queue.
    #[verifier::rlimit(50)]
    pub fn push(&mut self, t: T)
        requires
            old(self).wf(),
            old(self)@.len() < N,
            coherent(old(self)@.push(t)),
        ensures
            final(self).wf(),
            final(self)@.len() == old(self)@.len() + 1,
            final(self)@.to_multiset() == old(self)@.to_multiset().insert(t),
    {
        let ghost all = self.val@.push(t);
        self.val.push(t);
        let mut i: usize = self.val.len() - 1;
        proof {
            all.to_multiset_ensures();
            old(self)@.to_multiset_ensures();
            assert forall|k: int| 0 <= k < all.len() implies all.contains(#[trigger] all[k]) by {}
        }
        while i > 0
            invariant_except_break
                ordered_but_above(self.val@, i as int),
            invariant
                i < self.val@.len(),
                self.val@.len() == all.len(),
                self.val@.len() <= N,
                coherent(all),
                drawn_from(self.val@, all),
                self.val@.to_multiset() == all.to_multiset(),
            ensures
                heap_ordered(self.val@),
            decreases i,
        {
            let j: usize = (i - 1) / 2;
            if self.val[i].before(&self.val[j]) {
                let ghost s = self.val@;
                proof {
                    lemma_swapped_multiset(s, j as int, i as int);
                }
                swap_items(&mut self.val, j, i);
                proof {
                    let s2 = self.val@;
                    let x = s[i as int];
                    let p = s[j as int];
                    assert(all.contains(x) && all.contains(p));
                    assert(not_after(x, p) || not_after(p, x));
                    assert forall|m: int| 1 <= m < s2.len() && m != j implies not_after(
                        s2[parent(m)],
                        #[trigger] s2[m],
                    ) by {
                        if m == i {
                        } else if parent(m) == i {
                            assert(not_after(s[parent(i as int)], s[m]));
                        } else if parent(m) == j {
                            assert(all.contains(s[m]));
                            assert(not_after(x, p) && not_after(p, s[m]));
                        } else {
                            assert(not_after(s[parent(m)], s[m]));
                        }
                    }
                    assert forall|m: int|
                        1 <= m < s2.len() && parent(m) == j && j > 0 implies not_after(
                        s2[parent(j as int)],
                        #[trigger] s2[m],
                    ) by {
                        let g = s[parent(j as int)];
                        assert(all.contains(g));
                        assert(not_after(g, p));
                        if m != i {
                            assert(all.contains(s[m]));
                            assert(not_after(g, p) && not_after(p, s[m]));
                        }
                    }
                }
                i = j;
            } else {
                proof {
                    let s = self.val@;
                    assert forall|m: int| 1 <= m < s.len() implies not_after(
                        s[parent(m)],
                        #[trigger] s[m],
                    ) by {}
                }
                break ;
            }
        }
    }

    /// Takes out the item at the root of the heap: one that may leave before
    /// every other item. `None` when the queue is empty.
    #[verifier::rlimit(50)]
    pub fn pop(&mut self) -> (r: Option<T>)
        requires
            old(self).wf(),
            coherent(old(self)@),
        ensures
            final(self).wf(),
            old(self)@.len() == 0 ==> r is None && final(self)@ == old(self)@,
            old(self)@.len() > 0 ==> r == Some(old(self)@[0]) && is_minimal(
                old(self)@[0],
                old(self)@,
            ) && final(self)@.len() == old(self)@.len() - 1 && final(self)@.to_multiset() == old(
                self,
            )@.to_multiset().remove(old(self)@[0]),
    {
        if self.val.len() == 0 {
            return None;
        }
        let ghost all = self.val@;
        proof {
            all.to_multiset_ensures();
            assert forall|k: int| 0 <= k < all.len() implies not_after(all[0], #[trigger] all[k]) by {
                lemma_root_is_minimal(all, k);
            }
            let last = all.len() - 1;
            lemma_swapped_multiset(all, 0, last);
            assert(all.update(0, all.last()).drop_last() =~= swapped(all, 0, last).remove(last));
            swapped(all, 0, last).to_multiset_ensures();
        }
        let top = self.val.swap_remove(0);
        let n: usize = self.val.len();
        let mut i: usize = 0;
        proof {
            let s = self.val@;
            assert forall|m: int| 1 <= m < s.len() && parent(m) != 0 implies not_after(
                s[parent(m)],
                #[trigger] s[m],
            ) by {
                assert(not_after(all[parent(m)], all[m]));
            }
        }
        loop
            invariant_except_break
                ordered_but_below(self.val@, i as int),
            invariant
                n == self.val@.len(),
                n < all.len(),
                all.len() <= N,
                i <= n,
                coherent(all),
                drawn_from(self.val@, all),
                self.val@.to_multiset() == all.to_multiset().remove(all[0]),
            ensures
                heap_ordered(self.val@),
            decreases n - i,
        {
            if n <= i || n - i <= i + 1 {
                proof {
                    let s = self.val@;
                    assert forall|m: int| 1 <= m < s.len() implies not_after(
                        s[parent(m)],
                        #[trigger] s[m],
                    ) by {}
                }
                break ;
            }
            let left: usize = i * 2 + 1;
            let j: usize = if n == left + 1 || self.val[left].before(&self.val[left + 1]) {
                left
            } else {
                left + 1
            };
            if self.val[j].before(&self.val[i]) {
                let ghost s = self.val@;
                proof {
                    lemma_swapped_multiset(s, i as int, j as int);
                }
                swap_items(&mut self.val, i, j);
                proof {
                    let s2 = self.val@;
                    let x = s[i as int];
                    let c = s[j as int];
                    assert(all.contains(x) && all.contains(c));
                    assert(not_after(x, c) || not_after(c, x));
                    assert forall|m: int| 1 <= m < s2.len() && parent(m) != j implies not_after(
                        s2[parent(m)],
                        #[trigger] s2[m],
                    ) by {
                        if m == j {
                        } else if parent(m) == i {
                            assert(all.contains(s[m]));
                            assert(not_after(c, s[m]) || not_after(s[m], c));
                        } else if m == i {
                            assert(not_after(s[parent(i as int)], s[j as int]));
                        } else {
                            assert(not_after(s[parent(m)], s[m]));
                        }
                    }
                    assert forall|m: int|
                        1 <= m < s2.len() && parent(m) == j && j > 0 implies not_after(
                        s2[parent(j as int)],
                        #[trigger] s2[m],
                    ) by {
                        assert(not_after(s[parent(m)], s[m]));
                    }
                }
                i = j;
            } else {
                proof {
                    let s = self.val@;
                    let x = s[i as int];
                    let c = s[j as int];
                    assert(all.contains(x) && all.contains(c));
                    assert forall|m: int| 1 <= m < s.len() implies not_after(
                        s[parent(m)],
                        #[trigger] s[m],
                    ) by {
                        if parent(m) == i && m != j {
                            assert(all.contains(s[m]));
                            assert(not_after(c, s[m]) || not_after(s[m], c));
                            assert(not_after(x, c) && not_after(c, s[m]));
                        }
                    }
                }
                break ;
            }
        }
        Some(top)
    }
}

impl<T: Prioritized, const N: usize> Default for PriorityQueue<T, N> {
    fn default() -> (q: Self)
        ensures
            q@ == Seq::<T>::empty(),
            q.wf(),
    {
        PriorityQueue::new()
    }
}

} // verus!
