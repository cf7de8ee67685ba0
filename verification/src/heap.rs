//! Bounded binary max-heap of search candidates.
//!
//! The order is supplied by the items through `HeapOrder`. What is proved
//! here holds whatever that order is: the heap never holds more items than
//! its capacity, sifting moves items exactly as the order's answers direct
//! and only moves them around, a push adds exactly the pushed item when there
//! is room, and a pop removes exactly the top item.
use crate::swap::{swap_items, swapped};
use vstd::prelude::*;

verus! {

broadcast use {vstd::seq_lib::to_multiset_update, vstd::multiset::group_multiset_axioms};

/// The order of a heap's items.
pub trait HeapOrder: Sized {
    /// Whether `a` belongs above `b` (is the larger).
    fn greater(a: &Self, b: &Self) -> bool;
}

/// A max-heap of at most `cap` items, stored in level order.
pub struct ManualHeap<T> {
    heap: Vec<T>,
    cap: usize,
}

/// Whether the order answered `r` when asked if `a` belongs above `b`.
pub open spec fn answered<T: HeapOrder>(a: T, b: T, r: bool) -> bool {
    call_ensures(T::greater, (&a, &b), r)
}

/// Whether `t` is what moving the item at `idx` of `s` up gives: while it
/// is not at the root and the order puts it above its parent, it is
/// exchanged with the parent.
pub open spec fn floated_up<T: HeapOrder>(s: Seq<T>, idx: int, t: Seq<T>) -> bool
    decreases idx,
{
    if idx <= 0 {
        t == s
    } else {
        let parent = (idx - 1) / 2;
        ||| answered(s[idx], s[parent], true) && floated_up(swapped(s, idx, parent), parent, t)
        ||| answered(s[idx], s[parent], false) && t == s
    }
}

/// Whether `k` is what comparing the item at `j` with the one at `i`
/// selects: `j` when the order puts it above, else `i`.
pub open spec fn picked<T: HeapOrder>(s: Seq<T>, i: int, j: int, k: int) -> bool {
    ||| answered(s[j], s[i], true) && k == j
    ||| answered(s[j], s[i], false) && k == i
}

/// Whether `largest` is the index that the item at `idx` and its children
/// select: the left child is compared with `idx`, then the right child (if
/// there is one) with the winner.
pub open spec fn selected<T: HeapOrder>(s: Seq<T>, idx: int, largest: int) -> bool {
    let left = 2 * idx + 1;
    let right = left + 1;
    let second = |m: int|
        if right < s.len() {
            picked(s, m, right, largest)
        } else {
            largest == m
        };
    ||| picked(s, idx, left, idx) && second(idx)
    ||| picked(s, idx, left, left) && second(left)
}

/// Whether `t` is what moving the item at `idx` of `s` down gives: while
/// it has a child and the selected index is a child, it is exchanged with
/// that child.
pub open spec fn moved_down<T: HeapOrder>(s: Seq<T>, idx: int, t: Seq<T>) -> bool
    decreases s.len() - idx,
{
    let left = 2 * idx + 1;
    let right = left + 1;
    if idx < 0 || left >= s.len() {
        t == s
    } else {
        ||| selected(s, idx, idx) && t == s
        ||| selected(s, idx, left) && moved_down(swapped(s, idx, left), left, t)
        ||| right < s.len() && selected(s, idx, right) && moved_down(
            swapped(s, idx, right),
            right,
            t,
        )
    }
}

/// The order's answers form a strict weak order: each pair gets one answer,
/// no two items are each greater than the other, being greater is
/// transitive, and so is not being greater.
pub open spec fn strict_weak<T: HeapOrder>() -> bool {
    &&& forall|a: T, b: T|
        #![trigger answered(a, b, true), answered(a, b, false)]
        !(answered(a, b, true) && answered(a, b, false))
    &&& forall|a: T, b: T| #[trigger] answered(a, b, true) ==> !answered(b, a, true)
    &&& forall|a: T, b: T, c: T|
        #[trigger] answered(a, b, true) && #[trigger] answered(b, c, true) ==> answered(a, c, true)
    &&& forall|a: T, b: T, c: T|
        #![trigger answered(a, b, true), answered(b, c, true)]
        !answered(a, b, true) && !answered(b, c, true) ==> !answered(a, c, true)
}

/// No item of `s` is greater than its parent, the item at `(i - 1) / 2`.
pub open spec fn heap_ordered<T: HeapOrder>(s: Seq<T>) -> bool {
    forall|i: int| 0 < i < s.len() ==> !#[trigger] answered(s[i], s[(i - 1) / 2], true)
}

/// `s` is heap-ordered but for the item at `idx` and its parent, and no
/// child of `idx` is greater than the parent of `idx`.
spec fn ordered_but_up<T: HeapOrder>(s: Seq<T>, idx: int) -> bool {
    &&& forall|i: int|
        0 < i < s.len() && i != idx ==> !#[trigger] answered(s[i], s[(i - 1) / 2], true)
    &&& idx > 0 ==> forall|c: int|
        0 < c < s.len() && (c - 1) / 2 == idx ==> !#[trigger] answered(s[c], s[(idx - 1) / 2], true)
}

/// `s` is heap-ordered but for the children of `idx`, and no child of
/// `idx` is greater than the parent of `idx`.
spec fn ordered_but_down<T: HeapOrder>(s: Seq<T>, idx: int) -> bool {
    &&& forall|i: int|
        0 < i < s.len() && (i - 1) / 2 != idx ==> !#[trigger] answered(s[i], s[(i - 1) / 2], true)
    &&& idx > 0 ==> forall|c: int|
        0 < c < s.len() && (c - 1) / 2 == idx ==> !#[trigger] answered(s[c], s[(idx - 1) / 2], true)
}

/// Moving an item up restores the heap order that only it broke.
proof fn lemma_float_up_orders<T: HeapOrder>(s: Seq<T>, idx: int, t: Seq<T>)
    requires
        strict_weak::<T>(),
        0 <= idx < s.len(),
        ordered_but_up(s, idx),
        floated_up(s, idx, t),
    ensures
        heap_ordered(t),
    decreases idx,
{
    if idx > 0 {
        let p = (idx - 1) / 2;
        if answered(s[idx], s[p], true) {
            let s2 = swapped(s, idx, p);
            let x = s[idx];
            let y = s[p];
            assert(!answered(y, x, true));
            assert forall|i: int| 0 < i < s2.len() && i != p implies !#[trigger] answered(
                s2[i],
                s2[(i - 1) / 2],
                true,
            ) by {
                let pi = (i - 1) / 2;
                if i == idx {
                } else if pi == idx {
                    assert(!answered(s[i], s[p], true));
                } else if pi == p {
                    assert(!answered(s[i], y, true));
                    if answered(s[i], x, true) {
                        assert(answered(s[i], y, true));
                    }
                } else {
                    assert(s2[i] == s[i] && s2[pi] == s[pi]);
                }
            }
            if p > 0 {
                let pp = (p - 1) / 2;
                assert forall|c: int| 0 < c < s2.len() && (c - 1) / 2 == p implies !#[trigger] answered(
                    s2[c],
                    s2[(p - 1) / 2],
                    true,
                ) by {
                    assert(!answered(s[p], s[pp], true));
                    if c != idx {
                        assert(!answered(s[c], s[p], true));
                    }
                }
            }
            lemma_float_up_orders(s2, p, t);
        } else {
            assert(answered(s[idx], s[p], false));
        }
    }
}

/// The index `m` that the item at `idx` and its children select holds an
/// item that neither of them is greater than.
proof fn lemma_selected_greatest<T: HeapOrder>(s: Seq<T>, idx: int, m: int)
    requires
        strict_weak::<T>(),
        0 <= idx,
        2 * idx + 1 < s.len(),
        selected(s, idx, m),
    ensures
        m == idx || m == 2 * idx + 1 || (m == 2 * idx + 2 && m < s.len()),
        !answered(s[idx], s[m], true),
        !answered(s[2 * idx + 1], s[m], true),
        2 * idx + 2 < s.len() ==> !answered(s[2 * idx + 2], s[m], true),
{
    let l = 2 * idx + 1;
    let r = l + 1;
    assert(!answered(s[idx], s[idx], true));
    assert(!answered(s[l], s[l], true));
    if r < s.len() {
        assert(!answered(s[r], s[r], true));
    }
}

/// Moving an item down restores the heap order that only its children
/// broke.
proof fn lemma_move_down_orders<T: HeapOrder>(s: Seq<T>, idx: int, t: Seq<T>)
    requires
        strict_weak::<T>(),
        0 <= idx < s.len(),
        ordered_but_down(s, idx),
        moved_down(s, idx, t),
    ensures
        heap_ordered(t),
    decreases s.len() - idx,
{
    let l = 2 * idx + 1;
    let r = l + 1;
    if l >= s.len() {
        assert forall|i: int| 0 < i < s.len() implies !#[trigger] answered(s[i], s[(i - 1) / 2], true) by {
            assert((i - 1) / 2 != idx);
        }
    } else if selected(s, idx, idx) && t == s {
        lemma_selected_greatest(s, idx, idx);
        assert forall|i: int| 0 < i < s.len() implies !#[trigger] answered(s[i], s[(i - 1) / 2], true) by {
            if (i - 1) / 2 == idx {
                assert(i == l || i == r);
            }
        }
    } else {
        let m = if selected(s, idx, l) && moved_down(swapped(s, idx, l), l, t) {
            l
        } else {
            r
        };
        lemma_selected_greatest(s, idx, m);
        let s2 = swapped(s, idx, m);
        let x = s[idx];
        let big = s[m];
        assert forall|i: int| 0 < i < s2.len() && (i - 1) / 2 != m implies !#[trigger] answered(
            s2[i],
            s2[(i - 1) / 2],
            true,
        ) by {
            let pi = (i - 1) / 2;
            if i == m {
            } else if pi == idx {
                assert(i == l || i == r);
            } else if i == idx {
                assert(!answered(s[m], s[(idx - 1) / 2], true));
            } else {
                assert(s2[i] == s[i] && s2[pi] == s[pi]);
            }
        }
        assert forall|c: int| 0 < c < s2.len() && (c - 1) / 2 == m implies !#[trigger] answered(
            s2[c],
            s2[(m - 1) / 2],
            true,
        ) by {
            assert(!answered(s[c], s[m], true));
        }
        lemma_move_down_orders(s2, m, t);
    }
}

/// Pushing keeps the heap order: when no item of `s` is greater than its
/// parent, the same holds after `item` is appended and moved up.
pub proof fn lemma_push_keeps_order<T: HeapOrder>(s: Seq<T>, item: T, t: Seq<T>)
    requires
        strict_weak::<T>(),
        heap_ordered(s),
        floated_up(s.push(item), s.len() as int, t),
    ensures
        heap_ordered(t),
{
    let s1 = s.push(item);
    let last = s.len() as int;
    assert forall|i: int| 0 < i < s1.len() && i != last implies !#[trigger] answered(
        s1[i],
        s1[(i - 1) / 2],
        true,
    ) by {
        assert(s1[i] == s[i] && s1[(i - 1) / 2] == s[(i - 1) / 2]);
    }
    assert(ordered_but_up(s1, last));
    lemma_float_up_orders(s1, last, t);
}

/// Popping keeps the heap order: when no item of `s` is greater than its
/// parent, the same holds after the last item replaces the first and moves
/// down.
pub proof fn lemma_pop_keeps_order<T: HeapOrder>(s: Seq<T>, t: Seq<T>)
    requires
        strict_weak::<T>(),
        heap_ordered(s),
        s.len() > 1,
        moved_down(s.update(0, s.last()).drop_last(), 0, t),
    ensures
        heap_ordered(t),
{
    let s2 = s.update(0, s.last()).drop_last();
    assert forall|i: int| 0 < i < s2.len() && (i - 1) / 2 != 0 implies !#[trigger] answered(
        s2[i],
        s2[(i - 1) / 2],
        true,
    ) by {
        assert(s2[i] == s[i] && s2[(i - 1) / 2] == s[(i - 1) / 2]);
    }
    assert(ordered_but_down(s2, 0));
    lemma_move_down_orders(s2, 0, t);
}

/// Successive tops never rise: when `s` is heap-ordered and `t` holds the
/// items of `s` but its first, no item of `t` is greater than the first item
/// of `s`.
pub proof fn lemma_next_top_not_greater<T: HeapOrder>(s: Seq<T>, t: Seq<T>, i: int)
    requires
        strict_weak::<T>(),
        heap_ordered(s),
        s.len() > 0,
        t.to_multiset() == s.to_multiset().remove(s[0]),
        0 <= i < t.len(),
    ensures
        !answered(t[i], s[0], true),
{
    vstd::seq_lib::to_multiset_contains(t, t[i]);
    vstd::seq_lib::to_multiset_contains(s, t[i]);
    assert(t.contains(t[i]));
    assert(s.to_multiset().count(t[i]) > 0);
    assert(s.contains(t[i]));
    let j = choose|j: int| 0 <= j < s.len() && s[j] == t[i];
    lemma_top_not_exceeded(s, j);
}

/// In a heap-ordered sequence no item is greater than the first one.
pub proof fn lemma_top_not_exceeded<T: HeapOrder>(s: Seq<T>, i: int)
    requires
        strict_weak::<T>(),
        heap_ordered(s),
        0 <= i < s.len(),
    ensures
        !answered(s[i], s[0], true),
    decreases i,
{
    if i == 0 {
        assert(!answered(s[0], s[0], true));
    } else {
        let p = (i - 1) / 2;
        lemma_top_not_exceeded(s, p);
        assert(!answered(s[i], s[p], true));
    }
}

/// Moves the item at `idx` up while it is greater than its parent.
fn float_up<T: Copy + HeapOrder>(v: &mut Vec<T>, idx: usize)
    requires
        idx < old(v).len(),
    ensures
        floated_up(old(v)@, idx as int, final(v)@),
        final(v)@.len() == old(v)@.len(),
        final(v)@.to_multiset() == old(v)@.to_multiset(),
{
    let ghost s0 = v@;
    let ghost idx0 = idx as int;
    let mut idx = idx;
    while idx > 0
        invariant
            idx < v@.len(),
            v@.len() == old(v)@.len(),
            v@.to_multiset() == old(v)@.to_multiset(),
            s0 == old(v)@,
            idx0 < s0.len(),
            forall|w: Seq<T>| #[trigger] floated_up(v@, idx as int, w) ==> floated_up(s0, idx0, w),
        ensures
            floated_up(v@, idx as int, v@),
            v@.len() == old(v)@.len(),
            v@.to_multiset() == old(v)@.to_multiset(),
            forall|w: Seq<T>| #[trigger] floated_up(v@, idx as int, w) ==> floated_up(s0, idx0, w),
        decreases idx,
    {
        let parent = (idx - 1) / 2;
        let up = T::greater(&v[idx], &v[parent]);
        if up {
            let ghost before = v@;
            let ghost i = idx as int;
            swap_items(v, idx, parent);
            idx = parent;
            proof {
                assert(answered(before[i], before[parent as int], true));
                assert forall|w: Seq<T>| #[trigger] floated_up(v@, idx as int, w) implies floated_up(
                    s0,
                    idx0,
                    w,
                ) by {
                    assert(floated_up(before, i, w));
                }
            }
        } else {
            proof {
                assert(answered(v@[idx as int], v@[parent as int], false));
                assert(floated_up(v@, idx as int, v@));
            }
            break;
        }
    }
    proof {
        assert(floated_up(s0, idx0, v@));
    }
}

/// Moves the item at `idx` down while a child is greater, taking the
/// greater child.
fn move_down<T: Copy + HeapOrder>(v: &mut Vec<T>, idx: usize)
    requires
        idx < old(v).len(),
    ensures
        moved_down(old(v)@, idx as int, final(v)@),
        final(v)@.len() == old(v)@.len(),
        final(v)@.to_multiset() == old(v)@.to_multiset(),
{
    let ghost s0 = v@;
    let ghost idx0 = idx as int;
    let len = v.len();
    let mut idx = idx;
    loop
        invariant
            idx < len,
            len == v@.len(),
            v@.len() == old(v)@.len(),
            v@.to_multiset() == old(v)@.to_multiset(),
            s0 == old(v)@,
            forall|w: Seq<T>| #[trigger] moved_down(v@, idx as int, w) ==> moved_down(s0, idx0, w),
        ensures
            moved_down(v@, idx as int, v@),
            v@.len() == old(v)@.len(),
            v@.to_multiset() == old(v)@.to_multiset(),
            forall|w: Seq<T>| #[trigger] moved_down(v@, idx as int, w) ==> moved_down(s0, idx0, w),
        decreases len - idx,
    {
        if idx >= (len - 1) / 2 + 1 {
            break;
        }
        let left = 2 * idx + 1;
        if left >= len {
            break;
        }
        let right = left + 1;
        let ghost s = v@;
        let mut largest = idx;
        let first = T::greater(&v[left], &v[largest]);
        if first {
            largest = left;
        }
        proof {
            assert(picked(s, idx as int, left as int, largest as int));
        }
        if right < len {
            let second = T::greater(&v[right], &v[largest]);
            proof {
                assert(answered(s[right as int], s[largest as int], second));
            }
            if second {
                largest = right;
            }
        }
        proof {
            assert(selected(s, idx as int, largest as int));
        }
        if largest == idx {
            proof {
                assert(moved_down(s, idx as int, s));
            }
            break;
        }
        let ghost i = idx as int;
        swap_items(v, idx, largest);
        idx = largest;
        proof {
            assert forall|w: Seq<T>| #[trigger] moved_down(v@, idx as int, w) implies moved_down(
                s0,
                idx0,
                w,
            ) by {
                assert(moved_down(s, i, w));
            }
        }
    }
    proof {
        assert(moved_down(s0, idx0, v@));
    }
}

impl<T> ManualHeap<T> {
    #[verifier::type_invariant]
    spec fn inv(self) -> bool {
        self.heap.len() <= self.cap
    }

    /// The items in level order.
    pub closed spec fn items(self) -> Seq<T> {
        self.heap@
    }

    /// The most items the heap holds.
    pub closed spec fn capacity(self) -> nat {
        self.cap as nat
    }

    /// An empty heap of the given capacity.
    pub fn new(max_capacity: usize) -> (h: Self)
        ensures
            h.items().len() == 0,
            h.capacity() == max_capacity,
    {
        ManualHeap { heap: Vec::new(), cap: max_capacity }
    }

    /// The top item, if any.
    pub fn top(&self) -> (r: Option<&T>)
        ensures
            r == (if self.items().len() == 0 {
                None
            } else {
                Some(&self.items()[0])
            }),
    {
        if self.heap.len() == 0 {
            None
        } else {
            Some(&self.heap[0])
        }
    }

    /// Number of items.
    pub fn size(&self) -> (r: usize)
        ensures
            r == self.items().len(),
            r <= self.capacity(),
    {
        proof {
            use_type_invariant(self);
        }
        self.heap.len()
    }

    /// Removes every item.
    pub fn clear(&mut self)
        ensures
            final(self).items().len() == 0,
            final(self).capacity() == old(self).capacity(),
    {
        let mut h: Vec<T> = Vec::new();
        std::mem::swap(&mut h, &mut self.heap);
    }
}

impl<T: Copy + HeapOrder> ManualHeap<T> {
    /// Adds an item when the heap is not full (a full heap is left as it
    /// is), then moves it up to its place.
    pub fn push(&mut self, item: T)
        ensures
            final(self).capacity() == old(self).capacity(),
            old(self).items().len() < old(self).capacity() ==> final(self).items().len() == old(
                self,
            ).items().len() + 1 && final(self).items().to_multiset() == old(
                self,
            ).items().to_multiset().insert(item),
            old(self).items().len() < old(self).capacity() ==> floated_up(
                old(self).items().push(item),
                old(self).items().len() as int,
                final(self).items(),
            ),
            old(self).items().len() >= old(self).capacity() ==> final(self).items() == old(
                self,
            ).items(),
            strict_weak::<T>() && heap_ordered(old(self).items()) ==> heap_ordered(final(self).items()),
    {
        proof {
            use_type_invariant(&*self);
        }
        if self.heap.len() >= self.cap {
            return;
        }
        let mut h: Vec<T> = Vec::new();
        std::mem::swap(&mut h, &mut self.heap);
        let ghost s0 = h@;
        h.push(item);
        proof {
            vstd::seq_lib::to_multiset_build(s0, item);
        }
        let last = h.len() - 1;
        float_up(&mut h, last);
        proof {
            if strict_weak::<T>() && heap_ordered(s0) {
                lemma_push_keeps_order(s0, item, h@);
            }
        }
        self.heap = h;
    }

    /// Removes the top item (an empty heap is left as it is): the last item
    /// takes its place and moves down.
    pub fn pop(&mut self)
        ensures
            final(self).capacity() == old(self).capacity(),
            old(self).items().len() == 0 ==> final(self).items() == old(self).items(),
            old(self).items().len() > 0 ==> final(self).items().len() == old(self).items().len() - 1
                && final(self).items().to_multiset() == old(self).items().to_multiset().remove(
                old(self).items()[0],
            ),
            old(self).items().len() > 1 ==> moved_down(
                old(self).items().update(0, old(self).items().last()).drop_last(),
                0,
                final(self).items(),
            ),
            old(self).items().len() == 1 ==> final(self).items().len() == 0,
            strict_weak::<T>() && heap_ordered(old(self).items()) ==> heap_ordered(final(self).items()),
            strict_weak::<T>() && heap_ordered(old(self).items()) ==> forall|i: int|
                0 <= i < final(self).items().len() ==> !#[trigger] answered(
                    final(self).items()[i],
                    old(self).items()[0],
                    true,
                ),
    {
        proof {
            use_type_invariant(&*self);
        }
        if self.heap.len() == 0 {
            return;
        }
        let mut h: Vec<T> = Vec::new();
        std::mem::swap(&mut h, &mut self.heap);
        let ghost s0 = h@;
        let last = h.len() - 1;
        swap_items(&mut h, 0, last);
        let ghost s1 = h@;
        let _ = h.pop();
        proof {
            assert(s1 =~= h@.push(s0[0]));
            vstd::seq_lib::to_multiset_build(h@, s0[0]);
            assert(h@.to_multiset() =~= s0.to_multiset().remove(s0[0]));
        }
        if h.len() > 0 {
            proof {
                assert(h@ =~= s0.update(0, s0.last()).drop_last());
            }
            move_down(&mut h, 0);
            proof {
                if strict_weak::<T>() && heap_ordered(s0) {
                    lemma_pop_keeps_order(s0, h@);
                }
            }
        }
        proof {
            if strict_weak::<T>() && heap_ordered(s0) {
                assert forall|i: int| 0 <= i < h@.len() implies !#[trigger] answered(h@[i], s0[0], true) by {
                    lemma_next_top_not_greater(s0, h@, i);
                }
            }
        }
        self.heap = h;
    }
}

} // verus!
