//! The sequence-backed binary heap.
//!
//! Elements live in a growable vector laid out as a complete binary
//! tree: the element at slot `i` has its parent at slot `(i - 1) / 2`
//! and its children at slots `2 * i + 1` and `2 * i + 2`.  The heap
//! invariant says that no element outranks its parent under the
//! heap's comparator.

use crate::order::Comparator;
use crate::order::MaxOrder;
use crate::order::MinOrder;
use crate::order::TotalOrder;
use vstd::multiset::Multiset;
use vstd::prelude::*;

use vstd::relations::sorted_by;
use vstd::relations::total_ordering;
use vstd::seq_lib::lemma_sorted_unique;

verus! {

broadcast use {vstd::seq_lib::group_to_multiset_ensures, vstd::multiset::group_multiset_axioms};

/// Slot of the parent of (0-indexed) slot `i`; meaningful for `i >= 1`.
pub open spec fn parent_index(i: int) -> int {
    (i - 1) / 2
}

/// A binary heap over elements of type `T`, ordered by the comparator
/// type `C` chosen at construction time.
pub struct Heap<T, C: Comparator<T>> {
    count: usize,
    items: Vec<T>,
    comparator: C,
}

impl<T, C: Comparator<T>> View for Heap<T, C> {
    type V = Seq<T>;

    closed spec fn view(&self) -> Seq<T> {
        self.items@
    }
}

impl<T, C: Comparator<T>> Heap<T, C> {
    /// Heap order: no stored element outranks its parent.
    pub open spec fn heap_ordered(s: Seq<T>) -> bool {
        forall|i: int|
            1 <= i < s.len() ==> !C::spec_outranks(#[trigger] s[i], s[parent_index(i)])
    }

    /// The internal invariant: the element count matches the storage,
    /// and the storage is heap ordered.
    pub closed spec fn well_formed(self) -> bool {
        &&& self.count == self.items@.len()
        &&& Self::heap_ordered(self.items@)
    }

    /// Creates an empty heap that will order its elements by
    /// `comparator` for the rest of its life.
    pub fn new(comparator: C) -> (h: Self)
        ensures
            h.well_formed(),
            h@.len() == 0,
    {
        Heap { count: 0, items: Vec::new(), comparator }
    }

    /// Number of elements currently stored.
    pub fn len(&self) -> (n: usize)
        requires
            self.well_formed(),
        ensures
            n == self@.len(),
    {
        self.count
    }

    /// True when the heap holds no elements.
    pub fn is_empty(&self) -> (b: bool)
        requires
            self.well_formed(),
        ensures
            b == (self@.len() == 0),
    {
        self.len() == 0
    }

    /// Heap order everywhere, except that the link from slot `k` up to
    /// its parent may be broken.  The second conjunct records that the
    /// children of `k` would also respect `k`'s parent, which is what
    /// lets a repair swap move the parent down into slot `k`.
    spec fn ordered_except_above(s: Seq<T>, k: int) -> bool {
        &&& forall|i: int|
            1 <= i < s.len() && i != k ==> !C::spec_outranks(#[trigger] s[i], s[parent_index(i)])
        &&& (1 <= k < s.len() ==> forall|c: int|
            1 <= c < s.len() && parent_index(c) == k ==> !C::spec_outranks(
                #[trigger] s[c],
                s[parent_index(k)],
            ))
    }

    /// Heap order everywhere, except that the links from the children
    /// of slot `k` up to `k` may be broken.  The second conjunct again
    /// records that those children still respect `k`'s parent.
    spec fn ordered_except_below(s: Seq<T>, k: int) -> bool {
        &&& forall|i: int|
            1 <= i < s.len() && parent_index(i) != k ==> !C::spec_outranks(
                #[trigger] s[i],
                s[parent_index(i)],
            )
        &&& (1 <= k < s.len() ==> forall|c: int|
            1 <= c < s.len() && parent_index(c) == k ==> !C::spec_outranks(
                #[trigger] s[c],
                s[parent_index(k)],
            ))
    }

    /// After a push, only the link above the new last slot is in doubt.
    proof fn lemma_push_except_above(s: Seq<T>, v: T)
        requires
            Self::heap_ordered(s),
        ensures
            Self::ordered_except_above(s.push(v), s.len() as int),
    {
        let s2 = s.push(v);
        let k = s.len() as int;
        assert forall|i: int| 1 <= i < s2.len() && i != k implies !C::spec_outranks(
            s2[i],
            s2[parent_index(i)],
        ) by {
            lemma_parent_child(i);
            assert(s2[i] == s[i]);
            assert(s2[parent_index(i)] == s[parent_index(i)]);
        }
        if 1 <= k < s2.len() {
            assert forall|c: int| 1 <= c < s2.len() && parent_index(c) == k implies
                !C::spec_outranks(s2[c], s2[parent_index(k)]) by {
                lemma_parent_child(c);
            }
        }
    }

    /// If the link above `k` holds as well, the whole order holds.
    proof fn lemma_up_stop(s: Seq<T>, k: int)
        requires
            0 <= k < s.len(),
            Self::ordered_except_above(s, k),
            k >= 1 ==> !C::spec_outranks(s[k], s[parent_index(k)]),
        ensures
            Self::heap_ordered(s),
    {
        assert forall|i: int| 1 <= i < s.len() implies !C::spec_outranks(
            s[i],
            s[parent_index(i)],
        ) by {
            if i != k {
                assert(!C::spec_outranks(s[i], s[parent_index(i)]));
            }
        }
    }

    /// One upward repair swap: if `k` outranks its parent, swapping
    /// the two moves the doubtful link one level up.
    proof fn lemma_bubble_up_step(s: Seq<T>, k: int)
        requires
            1 <= k < s.len(),
            Self::ordered_except_above(s, k),
            C::spec_outranks(s[k], s[parent_index(k)]),
        ensures
            Self::ordered_except_above(
                s.update(k, s[parent_index(k)]).update(parent_index(k), s[k]),
                parent_index(k),
            ),
    {
        let p = parent_index(k);
        let s2 = s.update(k, s[p]).update(p, s[k]);
        lemma_parent_child(k);
        assert forall|i: int| 1 <= i < s2.len() && i != p implies !C::spec_outranks(
            s2[i],
            s2[parent_index(i)],
        ) by {
            lemma_parent_child(i);
            let pi = parent_index(i);
            if i == k {
                // slot k now holds the old parent; the moved element won.
                C::outranks_laws(s[p], s[k], s[p]);
            } else if pi == k {
                // a child of k keeps its value and sees the old parent above.
                assert(!C::spec_outranks(s[i], s[p]));
            } else if pi == p {
                // a sibling of k now sees the climbing element above.
                C::outranks_laws(s[i], s[k], s[p]);
                assert(!C::spec_outranks(s[i], s[p]));
            } else {
                assert(s2[i] == s[i]);
                assert(s2[pi] == s[pi]);
            }
        }
        if p >= 1 {
            let g = parent_index(p);
            lemma_parent_child(p);
            assert forall|c: int| 1 <= c < s2.len() && parent_index(c) == p implies
                !C::spec_outranks(s2[c], s2[parent_index(p)]) by {
                lemma_parent_child(c);
                if c == k {
                    assert(!C::spec_outranks(s[p], s[g]));
                } else {
                    C::outranks_laws(s[c], s[p], s[g]);
                    assert(!C::spec_outranks(s[c], s[p]));
                    assert(!C::spec_outranks(s[p], s[g]));
                }
            }
        }
    }

    /// Slot of the parent of slot `idx`.
    fn parent_idx(&self, idx: usize) -> (p: usize)
        requires
            idx >= 1,
        ensures
            p == parent_index(idx as int),
    {
        (idx - 1) / 2
    }

    /// Restores heap order when only the link above `start` is in
    /// doubt, by repeatedly swapping the element there with its parent
    /// while it outranks that parent.
    fn bubble_up(&mut self, start: usize)
        requires
            old(self).count == old(self)@.len(),
            (start as int) < old(self)@.len(),
            Self::ordered_except_above(old(self)@, start as int),
        ensures
            final(self).count == old(self).count,
            final(self)@.len() == old(self)@.len(),
            final(self)@.to_multiset() == old(self)@.to_multiset(),
            Self::heap_ordered(final(self)@),
    {
        let mut idx: usize = start;
        loop
            invariant
                self.count == old(self).count,
                self.count == self@.len(),
                (idx as int) < self@.len(),
                self@.to_multiset() == old(self)@.to_multiset(),
                Self::ordered_except_above(self@, idx as int),
            ensures
                self.count == old(self).count,
                self.count == self@.len(),
                self@.to_multiset() == old(self)@.to_multiset(),
                Self::heap_ordered(self@),
            decreases idx,
        {
            if idx == 0 {
                proof {
                    Self::lemma_up_stop(self.items@, 0);
                }
                break;
            }
            let parent = self.parent_idx(idx);
            if self.comparator.outranks(&self.items[idx], &self.items[parent]) {
                proof {
                    lemma_parent_child(idx as int);
                    Self::lemma_bubble_up_step(self.items@, idx as int);
                    lemma_swap_multiset(self.items@, idx as int, parent as int);
                }
                swap_items(&mut self.items, idx, parent);
                idx = parent;
            } else {
                proof {
                    Self::lemma_up_stop(self.items@, idx as int);
                }
                break;
            }
        }
    }

    /// The child of slot `k` that the comparator sends upward during a
    /// downward repair: the left child when the right one is absent or
    /// when the left one outranks it, the right child otherwise.
    pub open spec fn winning_child(s: Seq<T>, k: int) -> int {
        if 2 * k + 2 >= s.len() || C::spec_outranks(s[2 * k + 1], s[2 * k + 2]) {
            2 * k + 1
        } else {
            2 * k + 2
        }
    }

    /// The winning child is a real child slot of `k`, and the sibling
    /// it beat (if any) does not outrank it.
    proof fn lemma_winning_child_facts(s: Seq<T>, k: int)
        requires
            0 <= k,
            2 * k + 1 < s.len(),
        ensures
            parent_index(Self::winning_child(s, k)) == k,
            k < Self::winning_child(s, k) < s.len(),
            forall|c: int|
                1 <= c < s.len() && parent_index(c) == k && c != Self::winning_child(s, k)
                    ==> !C::spec_outranks(#[trigger] s[c], s[Self::winning_child(s, k)]),
    {
        let w = Self::winning_child(s, k);
        let l = 2 * k + 1;
        let r = 2 * k + 2;
        assert(parent_index(l) == k);
        assert(parent_index(r) == k);
        assert forall|c: int|
            1 <= c < s.len() && parent_index(c) == k && c != w implies !C::spec_outranks(
            s[c],
            s[w],
        ) by {
            lemma_parent_child(c);
            if w == l && c == r {
                C::outranks_laws(s[r], s[l], s[r]);
            }
        }
    }

    /// A slot without children whose downward links were the only ones
    /// in doubt heads an ordered heap.
    proof fn lemma_down_no_children(s: Seq<T>, k: int)
        requires
            0 <= k < s.len(),
            2 * k + 1 >= s.len(),
            Self::ordered_except_below(s, k),
        ensures
            Self::heap_ordered(s),
    {
        assert forall|i: int| 1 <= i < s.len() implies !C::spec_outranks(
            s[i],
            s[parent_index(i)],
        ) by {
            lemma_parent_child(i);
        }
    }

    /// If the winning child does not outrank `k` either, the whole
    /// order holds.
    proof fn lemma_down_stop(s: Seq<T>, k: int)
        requires
            0 <= k,
            2 * k + 1 < s.len(),
            Self::ordered_except_below(s, k),
            !C::spec_outranks(s[Self::winning_child(s, k)], s[k]),
        ensures
            Self::heap_ordered(s),
    {
        let w = Self::winning_child(s, k);
        Self::lemma_winning_child_facts(s, k);
        assert forall|i: int| 1 <= i < s.len() implies !C::spec_outranks(
            s[i],
            s[parent_index(i)],
        ) by {
            lemma_parent_child(i);
            if parent_index(i) == k && i != w {
                C::outranks_laws(s[i], s[w], s[k]);
            }
        }
    }

    /// One downward repair swap: if the winning child outranks `k`,
    /// swapping the two moves the doubtful links one level down.
    proof fn lemma_bubble_down_step(s: Seq<T>, k: int)
        requires
            0 <= k,
            2 * k + 1 < s.len(),
            Self::ordered_except_below(s, k),
            C::spec_outranks(s[Self::winning_child(s, k)], s[k]),
        ensures
            Self::ordered_except_below(
                s.update(k, s[Self::winning_child(s, k)]).update(
                    Self::winning_child(s, k),
                    s[k],
                ),
                Self::winning_child(s, k),
            ),
    {
        let w = Self::winning_child(s, k);
        Self::lemma_winning_child_facts(s, k);
        let s2 = s.update(k, s[w]).update(w, s[k]);
        assert forall|i: int| 1 <= i < s2.len() && parent_index(i) != w implies !C::spec_outranks(
            s2[i],
            s2[parent_index(i)],
        ) by {
            lemma_parent_child(i);
            let pi = parent_index(i);
            if i == w {
                // slot w now holds the old parent; the winner moved up.
                C::outranks_laws(s[k], s[w], s[k]);
            } else if pi == k {
                // the beaten sibling keeps its value and sees the winner above.
                assert(!C::spec_outranks(s[i], s[w]));
            } else if i == k {
                // the winner's new parent link was covered by the old
                // guarantee on the children of k.
                assert(!C::spec_outranks(s[w], s[pi]));
            } else {
                assert(s2[i] == s[i]);
                assert(s2[pi] == s[pi]);
            }
        }
        if 1 <= w < s2.len() {
            assert forall|c: int| 1 <= c < s2.len() && parent_index(c) == w implies
                !C::spec_outranks(s2[c], s2[parent_index(w)]) by {
                lemma_parent_child(c);
                assert(s2[c] == s[c]);
                assert(!C::spec_outranks(s[c], s[w]));
            }
        }
    }

    /// Moving the last element into the root slot leaves only the
    /// links below the root in doubt.
    proof fn lemma_pop_root_except_below(s: Seq<T>)
        requires
            Self::heap_ordered(s),
            s.len() >= 2,
        ensures
            Self::ordered_except_below(s.update(0, s.last()).drop_last(), 0),
    {
        let s2 = s.update(0, s.last()).drop_last();
        assert forall|i: int| 1 <= i < s2.len() && parent_index(i) != 0 implies !C::spec_outranks(
            s2[i],
            s2[parent_index(i)],
        ) by {
            lemma_parent_child(i);
            assert(s2[i] == s[i]);
            assert(s2[parent_index(i)] == s[parent_index(i)]);
        }
    }

    /// In an ordered heap nothing outranks the root.
    proof fn lemma_below_root(s: Seq<T>, j: int)
        requires
            Self::heap_ordered(s),
            0 <= j < s.len(),
        ensures
            !C::spec_outranks(s[j], s[0]),
        decreases j,
    {
        if j >= 1 {
            lemma_parent_child(j);
            let p = parent_index(j);
            Self::lemma_below_root(s, p);
            C::outranks_laws(s[j], s[p], s[0]);
        } else {
            C::outranks_laws(s[0], s[0], s[0]);
        }
    }

    /// True when slot `idx` has at least one child.
    fn children_present(&self, idx: usize) -> (b: bool)
        ensures
            b == (2 * idx + 1 < self.count),
    {
        idx < self.count / 2
    }

    /// Slot of the left child of `idx`.
    fn left_child_idx(&self, idx: usize) -> (l: usize)
        requires
            2 * idx + 1 < self.count,
        ensures
            l == 2 * idx + 1,
    {
        2 * idx + 1
    }

    /// Slot of the right child of `idx`.
    fn right_child_idx(&self, idx: usize) -> (r: usize)
        requires
            2 * idx + 1 < self.count,
        ensures
            r == 2 * idx + 2,
    {
        2 * idx + 2
    }

    /// Picks the child of `idx` that belongs above the other.
    fn smallest_child_idx(&self, idx: usize) -> (w: usize)
        requires
            self.count == self@.len(),
            2 * idx + 1 < self.count,
        ensures
            w == Self::winning_child(self@, idx as int),
    {
        let left = self.left_child_idx(idx);
        let right = self.right_child_idx(idx);
        if right >= self.count {
            left
        } else if self.comparator.outranks(&self.items[left], &self.items[right]) {
            left
        } else {
            right
        }
    }

    /// Restores heap order when only the links below `start` are in
    /// doubt, by repeatedly swapping the element there with its
    /// winning child while that child outranks it.
    fn bubble_down(&mut self, start: usize)
        requires
            old(self).count == old(self)@.len(),
            (start as int) < old(self)@.len(),
            Self::ordered_except_below(old(self)@, start as int),
        ensures
            final(self).count == old(self).count,
            final(self)@.len() == old(self)@.len(),
            final(self)@.to_multiset() == old(self)@.to_multiset(),
            Self::heap_ordered(final(self)@),
    {
        let mut idx: usize = start;
        loop
            invariant
                self.count == old(self).count,
                self.count == self@.len(),
                (idx as int) < self@.len(),
                self@.to_multiset() == old(self)@.to_multiset(),
                Self::ordered_except_below(self@, idx as int),
            ensures
                self.count == old(self).count,
                self.count == self@.len(),
                self@.to_multiset() == old(self)@.to_multiset(),
                Self::heap_ordered(self@),
            decreases self@.len() - idx,
        {
            if !self.children_present(idx) {
                proof {
                    Self::lemma_down_no_children(self.items@, idx as int);
                }
                break;
            }
            let w = self.smallest_child_idx(idx);
            proof {
                Self::lemma_winning_child_facts(self.items@, idx as int);
            }
            if self.comparator.outranks(&self.items[w], &self.items[idx]) {
                proof {
                    Self::lemma_bubble_down_step(self.items@, idx as int);
                    lemma_swap_multiset(self.items@, idx as int, w as int);
                }
                swap_items(&mut self.items, idx, w);
                idx = w;
            } else {
                proof {
                    Self::lemma_down_stop(self.items@, idx as int);
                }
                break;
            }
        }
    }

    /// Extracts the root: the element that nothing else outranks.
    /// Returns `None` exactly when the heap is empty, and leaves an
    /// empty heap untouched; otherwise the stored contents shrink by
    /// exactly the returned element.
    pub fn next(&mut self) -> (r: Option<T>)
        requires
            old(self).well_formed(),
        ensures
            final(self).well_formed(),
            Self::heap_ordered(final(self)@),
            old(self)@.len() == 0 ==> r is None && *final(self) == *old(self),
            old(self)@.len() > 0 ==> r == Some(old(self)@[0]),
            old(self)@.len() > 0 ==> final(self)@.len() == old(self)@.len() - 1,
            old(self)@.len() > 0 ==> final(self)@.to_multiset() == old(
                self,
            )@.to_multiset().remove(old(self)@[0]),
            forall|j: int|
                0 <= j < old(self)@.len() ==> !C::spec_outranks(
                    #[trigger] old(self)@[j],
                    old(self)@[0],
                ),
    {
        if self.count == 0 {
            return None;
        }
        proof {
            assert forall|j: int| 0 <= j < self@.len() implies !C::spec_outranks(
                self@[j],
                self@[0],
            ) by {
                Self::lemma_below_root(self.items@, j);
            }
            lemma_pop_root_multiset(self.items@);
            if self.items@.len() >= 2 {
                Self::lemma_pop_root_except_below(self.items@);
            }
        }
        let top = self.items.swap_remove(0);
        let n = self.items.len();
        self.count = n;
        if n > 0 {
            self.bubble_down(0);
        }
        Some(top)
    }

    /// Extraction order as a relation: `a` comes out no later than `b`.
    pub open spec fn drain_le() -> spec_fn(T, T) -> bool {
        |a: T, b: T| !C::spec_outranks(b, a)
    }

    /// A fully drained sequence: no element outranks an earlier one.
    pub open spec fn drain_sorted(s: Seq<T>) -> bool {
        forall|i: int, j: int|
            0 <= i < j < s.len() ==> !C::spec_outranks(#[trigger] s[j], #[trigger] s[i])
    }

    /// Ties under the comparator only happen between equal values.
    pub open spec fn ties_are_equal() -> bool {
        forall|a: T, b: T|
            !#[trigger] C::spec_outranks(a, b) && !#[trigger] C::spec_outranks(b, a) ==> a == b
    }

    /// Extracts every element.  The result holds exactly the old
    /// contents, in extraction order: successive extractions never
    /// yield an element that outranks an earlier one.
    pub fn drain(&mut self) -> (out: Vec<T>)
        requires
            old(self).well_formed(),
        ensures
            final(self).well_formed(),
            final(self)@.len() == 0,
            out@.len() == old(self)@.len(),
            out@.to_multiset() == old(self)@.to_multiset(),
            Self::drain_sorted(out@),
    {
        let mut out: Vec<T> = Vec::new();
        loop
            invariant
                self.well_formed(),
                out@.to_multiset().add(self@.to_multiset()) == old(self)@.to_multiset(),
                Self::drain_sorted(out@),
                forall|i: int, j: int|
                    0 <= i < out@.len() && 0 <= j < self@.len() ==> !C::spec_outranks(
                        #[trigger] self@[j],
                        #[trigger] out@[i],
                    ),
            ensures
                self.well_formed(),
                self@.len() == 0,
                out@.to_multiset() == old(self)@.to_multiset(),
                Self::drain_sorted(out@),
            decreases self@.len(),
        {
            let ghost prev = self@;
            let ghost prev_out = out@;
            let r = self.next();
            match r {
                None => {
                    proof {
                        assert(prev.len() == 0);
                        assert(self@.to_multiset().len() == 0);
                        assert(out@.to_multiset().add(self@.to_multiset()) =~= out@.to_multiset());
                    }
                    break;
                },
                Some(v) => {
                    out.push(v);
                    proof {
                        assert(prev.contains(prev[0]));
                        assert(prev.to_multiset().count(prev[0]) > 0);
                        assert(out@.to_multiset().add(self@.to_multiset()) =~= prev_out.to_multiset().add(
                            prev.to_multiset(),
                        ));
                        assert forall|i: int, j: int|
                            0 <= i < out@.len() && 0 <= j < self@.len() implies !C::spec_outranks(
                            self@[j],
                            out@[i],
                        ) by {
                            let x = self@[j];
                            assert(self@.contains(x));
                            assert(self@.to_multiset().count(x) > 0);
                            assert(prev.to_multiset().count(x) > 0);
                            assert(prev.contains(x));
                            let jj = choose|jj: int| 0 <= jj < prev.len() && prev[jj] == x;
                            if i < out@.len() - 1 {
                                assert(out@[i] == prev_out[i]);
                                assert(!C::spec_outranks(prev[jj], prev_out[i]));
                            } else {
                                assert(out@[i] == prev[0]);
                                assert(!C::spec_outranks(prev[jj], prev[0]));
                            }
                        }
                        assert forall|i: int, j: int| 0 <= i < j < out@.len() implies
                            !C::spec_outranks(out@[j], out@[i]) by {
                            if j < out@.len() - 1 {
                                assert(out@[i] == prev_out[i]);
                                assert(out@[j] == prev_out[j]);
                            } else {
                                assert(out@[j] == prev[0]);
                                assert(out@[i] == prev_out[i]);
                                assert(!C::spec_outranks(prev[0], prev_out[i]));
                            }
                        }
                    }
                },
            }
        }
        proof {
            assert(out@.to_multiset().len() == old(self)@.to_multiset().len());
        }
        out
    }

    /// Full-drain law: a drained sequence holding the contents of
    /// `values` is exactly `values` sorted by extraction order,
    /// provided ties only happen between equal values.
    pub proof fn lemma_drain_sorted_unique(values: Seq<T>, drained: Seq<T>)
        requires
            Self::ties_are_equal(),
            drained.to_multiset() == values.to_multiset(),
            Self::drain_sorted(drained),
        ensures
            drained == values.sort_by(Self::drain_le()),
    {
        let le = Self::drain_le();
        assert forall|x: T| #[trigger] le(x, x) by {
            C::outranks_laws(x, x, x);
        }
        assert forall|x: T, y: T| #[trigger] le(x, y) && #[trigger] le(y, x) implies x == y by {
            assert(!C::spec_outranks(y, x) && !C::spec_outranks(x, y));
        }
        assert forall|x: T, y: T, z: T| #[trigger] le(x, y) && #[trigger] le(y, z) implies le(
            x,
            z,
        ) by {
            C::outranks_laws(z, y, x);
        }
        assert forall|x: T, y: T| #[trigger] le(x, y) || #[trigger] le(y, x) by {
            C::outranks_laws(x, y, x);
        }
        assert(total_ordering(le));
        values.lemma_sort_by_ensures(le);
        assert(sorted_by(drained, le));
        lemma_sorted_unique(drained, values.sort_by(le), le);
        assert(drained =~= values.sort_by(le));
    }

    /// Inserts `value`, then repairs heap order upward from the new
    /// leaf.  Never fails; the stored contents grow by exactly the
    /// inserted element.
    pub fn add(&mut self, value: T)
        requires
            old(self).well_formed(),
        ensures
            final(self).well_formed(),
            final(self)@.len() == old(self)@.len() + 1,
            final(self)@.to_multiset() == old(self)@.to_multiset().insert(value),
            Self::heap_ordered(final(self)@),
    {
        proof {
            Self::lemma_push_except_above(self.items@, value);
        }
        self.items.push(value);
        let n = self.items.len();
        self.count = n;
        self.bubble_up(n - 1);
    }
}

impl<T: TotalOrder> Heap<T, MinOrder> {
    /// Creates an empty min-heap: the smallest key is extracted first.
    pub fn new_min() -> (h: Self)
        ensures
            h.well_formed(),
            h@.len() == 0,
    {
        Heap::new(MinOrder)
    }

    /// Under a total key order, min-heap ties are equality, so a full
    /// drain is the unique ascending sort of the contents.
    pub proof fn lemma_min_ties_are_equal()
        ensures
            Self::ties_are_equal(),
    {
        assert forall|a: T, b: T|
            !#[trigger] <MinOrder as Comparator<T>>::spec_outranks(a, b)
                && !#[trigger] <MinOrder as Comparator<T>>::spec_outranks(b, a) implies a == b by {
            T::lt_laws(a, b, b);
        }
    }
}

impl<T: TotalOrder> Heap<T, MaxOrder> {
    /// Creates an empty max-heap: the largest key is extracted first.
    pub fn new_max() -> (h: Self)
        ensures
            h.well_formed(),
            h@.len() == 0,
    {
        Heap::new(MaxOrder)
    }

    /// Under a total key order, max-heap ties are equality, so a full
    /// drain is the unique descending sort of the contents.
    pub proof fn lemma_max_ties_are_equal()
        ensures
            Self::ties_are_equal(),
    {
        assert forall|a: T, b: T|
            !#[trigger] <MaxOrder as Comparator<T>>::spec_outranks(a, b)
                && !#[trigger] <MaxOrder as Comparator<T>>::spec_outranks(b, a) implies a == b by {
            T::lt_laws(a, b, b);
        }
    }
}

/// Namespace for building min-heaps.
pub struct MinHeap;

impl MinHeap {
    /// Creates an empty min-heap over keys of type `T`.
    pub fn new<T: TotalOrder>() -> (h: Heap<T, MinOrder>)
        ensures
            h.well_formed(),
            h@.len() == 0,
    {
        Heap::new(MinOrder)
    }
}

/// Namespace for building max-heaps.
pub struct MaxHeap;

impl MaxHeap {
    /// Creates an empty max-heap over keys of type `T`.
    pub fn new<T: TotalOrder>() -> (h: Heap<T, MaxOrder>)
        ensures
            h.well_formed(),
            h@.len() == 0,
    {
        Heap::new(MaxOrder)
    }
}

/// For a slot `k >= 1`: its parent lies strictly below it, and `k` is
/// one of that parent's two child slots.
proof fn lemma_parent_child(k: int)
    requires
        k >= 1,
    ensures
        0 <= parent_index(k) < k,
        k == 2 * parent_index(k) + 1 || k == 2 * parent_index(k) + 2,
{
}

/// Updating one slot replaces exactly that slot's value in the
/// multiset of stored elements.
proof fn lemma_update_multiset<A>(s: Seq<A>, i: int, a: A)
    requires
        0 <= i < s.len(),
    ensures
        s.update(i, a).to_multiset() == s.to_multiset().remove(s[i]).insert(a),
{
    assert(s.update(i, a) =~= s.remove(i).insert(i, a));
    vstd::seq_lib::to_multiset_insert(s.remove(i), i, a);
}

/// Inserting then removing the same value leaves a multiset unchanged.
proof fn lemma_multiset_insert_cancel<A>(m: Multiset<A>, a: A)
    ensures
        m.insert(a).remove(a) =~= m,
{
    broadcast use vstd::multiset::group_multiset_axioms;

}

/// Removing then re-inserting a present value leaves a multiset
/// unchanged.
proof fn lemma_multiset_remove_insert<A>(m: Multiset<A>, a: A)
    requires
        m.count(a) > 0,
    ensures
        m.remove(a).insert(a) =~= m,
{
    broadcast use vstd::multiset::group_multiset_axioms;

}

/// Swapping two slots leaves the multiset of stored elements unchanged.
proof fn lemma_swap_multiset<A>(s: Seq<A>, i: int, j: int)
    requires
        0 <= i < s.len(),
        0 <= j < s.len(),
        i != j,
    ensures
        s.update(i, s[j]).update(j, s[i]).to_multiset() == s.to_multiset(),
{
    let m = s.to_multiset();
    let s1 = s.update(i, s[j]);
    lemma_update_multiset(s, i, s[j]);
    lemma_update_multiset(s1, j, s[i]);
    assert(s1[j] == s[j]);
    assert(s.contains(s[i]));
    assert(m.count(s[i]) > 0);
    lemma_multiset_insert_cancel(m.remove(s[i]), s[j]);
    lemma_multiset_remove_insert(m, s[i]);
    assert(s1.update(j, s[i]).to_multiset() == m.remove(s[i]).insert(s[j]).remove(s[j]).insert(
        s[i],
    ));
}

/// Overwriting the first slot with the last element and dropping the
/// last slot removes exactly the first element from the multiset.
proof fn lemma_pop_root_multiset<A>(s: Seq<A>)
    requires
        s.len() >= 1,
    ensures
        s.update(0, s.last()).drop_last().to_multiset() == s.to_multiset().remove(s[0]),
{
    let n = s.len() as int;
    let m = s.to_multiset();
    let s1 = s.update(0, s.last());
    lemma_update_multiset(s, 0, s.last());
    assert(s1.drop_last() =~= s1.remove(n - 1));
    assert(s1[n - 1] == s.last());
    lemma_multiset_insert_cancel(m.remove(s[0]), s.last());
}

/// Relies on `<[T]>::swap`: exchanges the elements at the two given
/// indices and leaves every other slot unchanged.
#[verifier::external_body]
fn swap_items<T>(items: &mut Vec<T>, i: usize, j: usize)
    requires
        i < old(items)@.len(),
        j < old(items)@.len(),
    ensures
        final(items)@ == old(items)@.update(i as int, old(items)@[j as int]).update(
            j as int,
            old(items)@[i as int],
        ),
{
    items.swap(i, j);
}

} // verus!
