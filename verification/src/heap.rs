//! A binary max-heap: the largest item sits at the root, and every item is no
//! larger than its parent.
use vstd::prelude::*;
use vstd::multiset::Multiset;
use vstd::std_specs::cmp::{PartialOrdIs, PartialOrdSpec, PartialEqSpec};

verus! {

broadcast use vstd::seq_lib::to_multiset_build, vstd::seq_lib::to_multiset_update,
    vstd::seq_lib::to_multiset_remove, vstd::seq_lib::to_multiset_contains,
    vstd::multiset::group_multiset_axioms;

/// The positions of the two children of a node.
pub struct Children {
    pub left_child: usize,
    pub right_child: usize,
}

/// A priority queue: the items in a heap-ordered vector, and how many there are.
pub struct Heap<T>(Vec<T>, usize);

/// `T`'s comparisons form a total order that agrees with its `==`, as the
/// documentation of `Ord` asks of every implementation.
#[verifier::opaque]
pub open spec fn total_order<T: Ord>() -> bool {
    vstd::laws_cmp::obeys_cmp::<T>()
}

/// The integers of `u64` are ordered that way.
pub proof fn lemma_u64_total_order()
    ensures
        total_order::<u64>(),
{
    reveal(total_order);
    broadcast use vstd::laws_cmp::group_laws_cmp;
}

/// Two items compare as exactly one of less, equal or greater, and the other way
/// round as the opposite.
proof fn lemma_trichotomy<T: Ord>(a: T, b: T)
    requires
        total_order::<T>(),
    ensures
        T::obeys_partial_cmp_spec(),
        a.is_lt(&b) || a.is_gt(&b) || a.eq_spec(&b),
        a.is_lt(&b) <==> b.is_gt(&a),
        a.eq_spec(&b) <==> b.eq_spec(&a),
        a.eq_spec(&b) <==> a.is_le(&b) && !a.is_lt(&b),
        a.is_le(&b) <==> !a.is_gt(&b),
{
    reveal(total_order);
    reveal(vstd::laws_cmp::obeys_cmp_ord);
    reveal(vstd::laws_cmp::obeys_cmp_partial_ord);
    reveal(vstd::laws_cmp::obeys_partial_cmp_spec_properties);
    reveal(vstd::laws_eq::obeys_eq_spec_properties);
}

pub proof fn lemma_le_refl<T: Ord>(a: T)
    requires
        total_order::<T>(),
    ensures
        a.is_le(&a),
{
    lemma_trichotomy(a, a);
}

pub proof fn lemma_le_trans<T: Ord>(a: T, b: T, c: T)
    requires
        total_order::<T>(),
        a.is_le(&b),
        b.is_le(&c),
    ensures
        a.is_le(&c),
{
    lemma_trichotomy(a, b);
    lemma_trichotomy(b, c);
    lemma_trichotomy(a, c);
    lemma_trichotomy(c, a);
    lemma_trichotomy(c, b);
    lemma_trichotomy(b, a);
    reveal(total_order);
    reveal(vstd::laws_cmp::obeys_partial_cmp_spec_properties);
    reveal(vstd::laws_eq::obeys_eq_spec_properties);
    if a.is_gt(&c) {
        // then c < a; with the order of a, b and c this contradicts a <= b <= c
        if a.is_lt(&b) {
            assert(c.is_lt(&b));
        } else {
            assert(a.eq_spec(&b));
            if b.is_lt(&c) {
                assert(b.is_lt(&a));
            } else {
                assert(b.eq_spec(&c));
                assert(a.eq_spec(&c));
            }
        }
    }
}

/// What `>` and `<` on two items tell about their order.
pub proof fn lemma_compare<T: Ord>(a: T, b: T)
    requires
        total_order::<T>(),
    ensures
        T::obeys_partial_cmp_spec(),
        a.is_gt(&b) ==> b.is_le(&a) && !a.is_le(&b),
        !a.is_gt(&b) ==> a.is_le(&b),
        a.is_lt(&b) ==> a.is_le(&b),
        !a.is_lt(&b) ==> b.is_le(&a),
{
    lemma_trichotomy(a, b);
    lemma_trichotomy(b, a);
}

pub open spec fn parent(i: int) -> int {
    (i - 1) / 2
}

/// The item at `i` is no larger than the one at `j`.
pub open spec fn under<T: Ord>(s: Seq<T>, i: int, j: int) -> bool {
    s[i].is_le(&s[j])
}

/// Every item is no larger than its parent.
pub open spec fn heap_ordered<T: Ord>(s: Seq<T>) -> bool {
    forall|i: int| 0 < i < s.len() ==> #[trigger] under(s, i, parent(i))
}

/// Ordered everywhere but between `k` and its parent, and `k`'s children are
/// no larger than `k`'s parent.
spec fn ordered_but_up<T: Ord>(s: Seq<T>, k: int) -> bool {
    &&& forall|i: int| 0 < i < s.len() && i != k ==> #[trigger] under(s, i, parent(i))
    &&& forall|i: int| 0 < i < s.len() && parent(i) == k && k > 0 ==> #[trigger] under(s, i, parent(k))
}

/// Ordered everywhere but between `k` and its children, and `k`'s children are
/// no larger than `k`'s parent.
spec fn ordered_but_down<T: Ord>(s: Seq<T>, k: int) -> bool {
    &&& forall|i: int| 0 < i < s.len() && parent(i) != k ==> #[trigger] under(s, i, parent(i))
    &&& forall|i: int| 0 < i < s.len() && parent(i) == k && k > 0 ==> #[trigger] under(s, i, parent(k))
}

/// The root of a heap-ordered sequence is its largest item.
pub proof fn lemma_root_is_max<T: Ord>(s: Seq<T>, i: int)
    requires
        total_order::<T>(),
        heap_ordered(s),
        0 <= i < s.len(),
    ensures
        s[i].is_le(&s[0]),
    decreases i,
{
    if i > 0 {
        lemma_root_is_max(s, parent(i));
        assert(under(s, i, parent(i)));
        lemma_le_trans(s[i], s[parent(i)], s[0]);
    } else {
        lemma_le_refl(s[0]);
    }
}

#[verifier::external_body]
/// `<[T]>::swap`: exchanges the items at two positions.
fn swap_items<T>(v: &mut Vec<T>, i: usize, j: usize)
    requires
        i < old(v).len(),
        j < old(v).len(),
    ensures
        final(v)@ == old(v)@.update(i as int, old(v)@[j as int]).update(j as int, old(v)@[i as int]),
{
    v.swap(i, j);
}

proof fn lemma_swap_multiset<T>(s: Seq<T>, i: int, j: int)
    requires
        0 <= i < s.len(),
        0 <= j < s.len(),
    ensures
        s.update(i, s[j]).update(j, s[i]).to_multiset() == s.to_multiset(),
{
    let s1 = s.update(i, s[j]);
    assert(s1.to_multiset() == s.to_multiset().insert(s[j]).remove(s[i]));
    assert(s1.update(j, s[i]).to_multiset() == s1.to_multiset().insert(s[i]).remove(s1[j]));
    assert(s.update(i, s[j]).update(j, s[i]).to_multiset() =~= s.to_multiset());
}

impl<T: Ord> View for Heap<T> {
    type V = Multiset<T>;

    closed spec fn view(&self) -> Multiset<T> {
        self.0@.to_multiset()
    }
}

impl<T: Ord> Heap<T> {
    /// The heap is ordered and its count is its number of items.
    pub closed spec fn wf(&self) -> bool {
        &&& self.1 == self.0.len()
        &&& heap_ordered(self.0@)
    }

    /// An empty heap.
    pub fn new() -> (h: Heap<T>)
        ensures
            h.wf(),
            h@ == Multiset::<T>::empty(),
    {
        let vec: Vec<T> = Vec::new();
        let h = Heap(vec, 0);
        assert(h.0@.to_multiset() =~= Multiset::<T>::empty());
        h
    }

    /// The number of items.
    pub fn len(&self) -> (n: usize)
        requires
            self.wf(),
        ensures
            n == self@.len(),
    {
        proof {
            vstd::seq_lib::to_multiset_len(self.0@);
        }
        self.1
    }

    /// Adds an item.
    pub fn enqueue(&mut self, item: T)
        requires
            total_order::<T>(),
            old(self).wf(),
            old(self)@.len() < usize::MAX,
        ensures
            final(self).wf(),
            final(self)@ == old(self)@.insert(item),
    {
        proof {
            vstd::seq_lib::to_multiset_len(self.0@);
        }
        let ghost s0 = self.0@;
        self.0.push(item);
        self.1 += 1;
        let y = self.1 - 1;
        proof {
            let s = self.0@;
            assert forall|i: int| 0 < i < s.len() && i != y implies #[trigger] under(s, i, parent(i)) by {
                assert(under(s0, i, parent(i)));
            }
        }
        self.check_swap_parent(y);
    }

    /// The position of the parent of a node other than the root.
    pub fn findparent(index: usize) -> (p: usize)
        requires
            index > 0,
        ensures
            p == parent(index as int),
    {
        (index - 1) / 2
    }

    /// The positions of the children of a node.
    pub fn find_children(index: usize) -> (c: Children)
        requires
            index * 2 + 2 <= usize::MAX,
        ensures
            c.left_child == index * 2 + 1,
            c.right_child == index * 2 + 2,
    {
        Children { left_child: index * 2 + 1, right_child: index * 2 + 2 }
    }

    /// Moves the item at `index` up while it is larger than its parent.
    fn check_swap_parent(&mut self, index: usize)
        requires
            total_order::<T>(),
            old(self).1 == old(self).0.len(),
            index < old(self).0.len(),
            ordered_but_up(old(self).0@, index as int),
        ensures
            final(self).wf(),
            final(self)@ == old(self)@,
        decreases index,
    {
        if index == 0 {
            return;
        }
        let p = Self::findparent(index);
        if self.0[index] > self.0[p] {
            let ghost s0 = self.0@;
            proof {
                lemma_compare(s0[index as int], s0[p as int]);
                lemma_swap_multiset(s0, index as int, p as int);
            }
            swap_items(&mut self.0, index, p);
            proof {
                let s1 = self.0@;
                assert forall|i: int| 0 < i < s1.len() && i != p implies #[trigger] under(s1, i, parent(i)) by {
                    if i == index as int {
                    } else if parent(i) == index as int {
                        assert(under(s0, i, parent(index as int)));
                    } else if parent(i) == p as int {
                        assert(under(s0, i, parent(i)));
                        lemma_le_trans(s0[i], s0[p as int], s0[index as int]);
                    } else {
                        assert(under(s0, i, parent(i)));
                    }
                }
                assert forall|i: int| 0 < i < s1.len() && parent(i) == p && p > 0 implies #[trigger] under(s1, i, parent(p as int)) by {
                    assert(under(s0, p as int, parent(p as int)));
                    if i != index as int {
                        assert(under(s0, i, parent(i)));
                        lemma_le_trans(s0[i], s0[p as int], s0[parent(p as int)]);
                    }
                }
            }
            self.check_swap_parent(p);
        } else {
            proof {
                lemma_compare(self.0@[index as int], self.0@[p as int]);
                let s = self.0@;
                assert forall|i: int| 0 < i < s.len() implies #[trigger] under(s, i, parent(i)) by {
                    if i != index as int {
                        assert(under(s, i, parent(i)));
                    }
                }
            }
        }
    }

    /// Moves the item at the parent of `children` down while a child is larger:
    /// it swaps places with the larger child.
    fn check_swap_children(&mut self, children: Children)
        requires
            total_order::<T>(),
            old(self).1 == old(self).0.len(),
            children.left_child >= 1,
            children.right_child == children.left_child + 1,
            (children.left_child - 1) % 2 == 0,
            (children.left_child - 1) / 2 <= old(self).0.len(),
            ordered_but_down(old(self).0@, (children.left_child - 1) / 2),
        ensures
            final(self).wf(),
            final(self)@ == old(self)@,
        decreases old(self).0.len() - (children.left_child - 1) / 2,
    {
        let k = (children.left_child - 1) / 2;
        let len = self.0.len();
        if children.left_child >= len {
            assert(heap_ordered(self.0@));
            return;
        }
        let ghost s0 = self.0@;
        let larger = if children.right_child < len && self.0[children.left_child] < self.0[children.right_child] {
            proof {
                lemma_compare(s0[children.left_child as int], s0[children.right_child as int]);
                lemma_le_refl(s0[children.right_child as int]);
            }
            children.right_child
        } else {
            proof {
                if children.right_child < len {
                    lemma_compare(s0[children.left_child as int], s0[children.right_child as int]);
                }
                lemma_le_refl(s0[children.left_child as int]);
            }
            children.left_child
        };
        assert(s0[children.left_child as int].is_le(&s0[larger as int]));
        assert(children.right_child < len ==> s0[children.right_child as int].is_le(&s0[larger as int]));
        if self.0[larger] > self.0[k] {
            proof {
                lemma_compare(s0[larger as int], s0[k as int]);
                lemma_swap_multiset(s0, larger as int, k as int);
            }
            swap_items(&mut self.0, larger, k);
            proof {
                let s1 = self.0@;
                assert forall|i: int| 0 < i < s1.len() && parent(i) != larger implies #[trigger] under(s1, i, parent(i)) by {
                    if i == larger {
                    } else if parent(i) == k as int {
                        assert(s1[i] == s0[i]);
                        assert(i == children.left_child || i == children.right_child);
                    } else if i == k as int {
                        assert(under(s0, larger as int, parent(k as int)));
                    } else {
                        assert(under(s0, i, parent(i)));
                    }
                }
                assert forall|i: int| 0 < i < s1.len() && parent(i) == larger && larger > 0 implies #[trigger] under(s1, i, parent(larger as int)) by {
                    assert(s1[i] == s0[i]);
                    assert(under(s0, i, parent(i)));
                }
            }
            if larger <= (usize::MAX - 2) / 2 {
                let next = Self::find_children(larger);
                self.check_swap_children(next);
            } else {
                assert(heap_ordered(self.0@));
            }
        } else {
            proof {
                lemma_compare(s0[larger as int], s0[k as int]);
                assert forall|i: int| 0 < i < s0.len() implies #[trigger] under(s0, i, parent(i)) by {
                    if parent(i) == k as int {
                        assert(i == children.left_child || i == children.right_child);
                        lemma_le_trans(s0[i], s0[larger as int], s0[k as int]);
                    } else {
                        assert(under(s0, i, parent(i)));
                    }
                }
            }
        }
    }

    /// Takes out the largest item.
    pub fn dequeue(&mut self) -> (x: T)
        requires
            total_order::<T>(),
            old(self).wf(),
            old(self)@.len() > 0,
        ensures
            final(self).wf(),
            old(self)@.contains(x),
            final(self)@ == old(self)@.remove(x),
            forall|y: T| old(self)@.contains(y) ==> y.is_le(&x),
    {
        proof {
            vstd::seq_lib::to_multiset_len(self.0@);
            assert forall|y: T| old(self)@.contains(y) implies y.is_le(&self.0@[0]) by {
                let i = choose|i: int| 0 <= i < self.0@.len() && self.0@[i] == y;
                lemma_root_is_max(self.0@, i);
            }
        }
        let y = self.1 - 1;
        let ghost s0 = self.0@;
        proof {
            lemma_swap_multiset(s0, 0, y as int);
        }
        swap_items(&mut self.0, 0, y);
        let x = match self.0.pop() {
            Some(x) => x,
            None => vstd::pervasive::unreached(),
        };
        self.1 -= 1;
        proof {
            let s1 = s0.update(0, s0[y as int]).update(y as int, s0[0]);
            assert(s1 == self.0@.push(x));
            assert(s1.to_multiset() == self.0@.to_multiset().insert(x));
            assert(self.0@.to_multiset() =~= s0.to_multiset().remove(x));
            let s = self.0@;
            assert forall|i: int| 0 < i < s.len() && parent(i) != 0 implies #[trigger] under(s, i, parent(i)) by {
                assert(s[i] == s0[i]);
                assert(s[parent(i)] == s0[parent(i)]);
                assert(under(s0, i, parent(i)));
            }
        }
        self.check_swap_children(Self::find_children(0));
        x
    }
}

} // verus!
