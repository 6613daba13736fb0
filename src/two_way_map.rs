//! The map itself: pairs kept in ascending order of their left value, and a
//! second index that lists the same pairs in ascending order of their right value.
use core::cmp::Ordering;
use core::ops::Bound;
use vstd::prelude::*;
use vstd::std_specs::cmp::OrdSpec;

use crate::layout::{
    ascending, count, distinct_sides, flip, lemma_ascending_insert, lemma_ascending_remove,
    lemma_count_grows, lemma_cover_len, lemma_distinct_insert, lemma_distinct_remove,
    lemma_filter_window, lemma_permutation_insert, lemma_permutation_remove,
    lemma_precedes_transitive, lemma_reorder_insert, lemma_reorder_remove, lemma_to_set_insert,
    lemma_to_set_remove, permutation, ranked, reorder, shift_down, shift_up,
};
use crate::order::{
    above, below, is_above, is_below, lemma_above_upward, lemma_below_downward, lemma_trichotomy,
    precedes, total_order, within,
};

verus! {

/// Some pair of `s` has `l` on its left.
pub open spec fn has_left<L, R>(s: Set<(L, R)>, l: L) -> bool {
    exists|r: R| #[trigger] s.contains((l, r))
}

/// Some pair of `s` has `r` on its right.
pub open spec fn has_right<L, R>(s: Set<(L, R)>, r: R) -> bool {
    exists|l: L| #[trigger] s.contains((l, r))
}

/// No two pairs of `s` share a left value or a right value.
pub open spec fn bijective<L, R>(s: Set<(L, R)>) -> bool {
    forall|p: (L, R), q: (L, R)|
        #[trigger] s.contains(p) && #[trigger] s.contains(q) ==> (p.0 == q.0 <==> p.1 == q.1)
}

/// `s` without the pairs that hold `l` on the left or `r` on the right.
pub open spec fn evict<L, R>(s: Set<(L, R)>, l: L, r: R) -> Set<(L, R)> {
    s.filter(|p: (L, R)| p.0 != l && p.1 != r)
}

/// `s` after inserting the pairs of `ps` one after another, each as `insert` does.
pub open spec fn insert_all<L, R>(s: Set<(L, R)>, ps: Seq<(L, R)>) -> Set<(L, R)>
    decreases ps.len(),
{
    if ps.len() == 0 {
        s
    } else {
        let before = insert_all(s, ps.drop_last());
        evict(before, ps.last().0, ps.last().1).insert(ps.last())
    }
}

/// The pairs of a map, ascending by their left value and by their right value.
#[derive(Debug)]
pub struct TwoWayMap<L, R> {
    /// Every pair, strictly ascending by left value.
    entries: Vec<(L, R)>,
    /// Positions into `entries`, listed so that the right values ascend.
    right_order: Vec<usize>,
}

impl<L, R> View for TwoWayMap<L, R> {
    type V = Set<(L, R)>;

    open spec fn view(&self) -> Set<(L, R)> {
        self.by_left().to_set()
    }
}

impl<L, R> TwoWayMap<L, R> {
    /// The pairs, in the order of their left values.
    pub closed spec fn by_left(&self) -> Seq<(L, R)> {
        self.entries@
    }

    /// The pairs with sides swapped, in the order of their right values.
    pub closed spec fn by_right(&self) -> Seq<(R, L)> {
        reorder(self.entries@, self.right_order@)
    }

    /// The two indices describe one set of pairs, with no value repeated on either side.
    pub closed spec fn wf(&self) -> bool {
        &&& permutation(self.right_order@, self.entries@.len() as int)
        &&& distinct_sides(self.entries@)
    }

    /// The number of values on each side equals the number of pairs, and each
    /// left value has exactly one partner on the right and back.
    pub proof fn lemma_bijection(&self)
        requires
            self.wf(),
        ensures
            self.by_left().len() == self@.len(),
            self.by_right().len() == self@.len(),
            bijective(self@),
            forall|p: (L, R)| #[trigger] self@.contains(p) <==> self.by_right().contains(flip(p)),
    {
        let e = self.entries@;
        let o = self.right_order@;
        assert(e.no_duplicates()) by {
            assert forall|i: int, j: int| 0 <= i < e.len() && 0 <= j < e.len() && i != j implies e[i] != e[j] by {
                assert(e[i].0 != e[j].0);
            }
        }
        e.unique_seq_to_set();
        assert forall|p: (L, R), q: (L, R)| #[trigger] self@.contains(p) && #[trigger] self@.contains(q) implies (p.0
            == q.0 <==> p.1 == q.1) by {
            let i = choose|i: int| 0 <= i < e.len() && e[i] == p;
            let j = choose|j: int| 0 <= j < e.len() && e[j] == q;
            if i != j {
                assert(e[i].0 != e[j].0 && e[i].1 != e[j].1);
            }
        }
        assert forall|p: (L, R)| #[trigger] self@.contains(p) <==> self.by_right().contains(flip(p)) by {
            if self@.contains(p) {
                let i = choose|i: int| 0 <= i < e.len() && e[i] == p;
                assert(ranked(o, i));
                let k = choose|k: int| 0 <= k < o.len() && #[trigger] o[k] as int == i;
                assert(self.by_right()[k] == flip(p));
            }
            if self.by_right().contains(flip(p)) {
                let k = choose|k: int| 0 <= k < o.len() && self.by_right()[k] == flip(p);
                assert(o[k] < e.len());
                assert(e[o[k] as int] == p);
            }
        }
    }

    /// An empty map.
    pub fn new() -> (map: Self)
        ensures
            map.wf(),
            map@ == Set::<(L, R)>::empty(),
            map.by_left() == Seq::<(L, R)>::empty(),
            map.by_right() == Seq::<(R, L)>::empty(),
    {
        let map = TwoWayMap { entries: Vec::new(), right_order: Vec::new() };
        assert(map.by_left().to_set() =~= Set::<(L, R)>::empty());
        assert(map.by_right() =~= Seq::<(R, L)>::empty());
        map
    }

    /// The number of pairs.
    pub fn len(&self) -> (n: usize)
        requires
            self.wf(),
        ensures
            n == self@.len(),
    {
        proof {
            self.lemma_bijection();
        }
        self.entries.len()
    }

    /// Whether the map holds no pair.
    pub fn is_empty(&self) -> (r: bool)
        requires
            self.wf(),
        ensures
            r == (self@.len() == 0),
    {
        proof {
            self.lemma_bijection();
        }
        self.entries.len() == 0
    }

    /// Removes every pair.
    pub fn clear(&mut self)
        requires
            old(self).wf(),
        ensures
            final(self).wf(),
            final(self)@ == Set::<(L, R)>::empty(),
            final(self).by_left() == Seq::<(L, R)>::empty(),
            final(self).by_right() == Seq::<(R, L)>::empty(),
    {
        self.entries.clear();
        self.right_order.clear();
        assert(self.by_left().to_set() =~= Set::<(L, R)>::empty());
        assert(self.by_right() =~= Seq::<(R, L)>::empty());
    }

    /// The pairs, in ascending order of their left value.
    pub fn pairs(&self) -> (r: Vec<(&L, &R)>)
        requires
            self.wf(),
        ensures
            r@.len() == self.by_left().len(),
            forall|i: int| 0 <= i < r@.len() ==> (*r@[i].0, *r@[i].1) == #[trigger] self.by_left()[i],
    {
        let mut r: Vec<(&L, &R)> = Vec::new();
        let mut i: usize = 0;
        while i < self.entries.len()
            invariant
                i <= self.by_left().len(),
                r@.len() == i,
                forall|j: int| 0 <= j < i ==> (*r@[j].0, *r@[j].1) == #[trigger] self.by_left()[j],
            decreases self.by_left().len() - i,
        {
            let pair = &self.entries[i];
            r.push((&pair.0, &pair.1));
            i += 1;
        }
        r
    }

    /// The left values, in ascending order.
    pub fn left_values(&self) -> (r: Vec<&L>)
        requires
            self.wf(),
        ensures
            r@.len() == self.by_left().len(),
            forall|i: int| 0 <= i < r@.len() ==> *r@[i] == #[trigger] self.by_left()[i].0,
    {
        let mut r: Vec<&L> = Vec::new();
        let mut i: usize = 0;
        while i < self.entries.len()
            invariant
                i <= self.by_left().len(),
                r@.len() == i,
                forall|j: int| 0 <= j < i ==> *r@[j] == #[trigger] self.by_left()[j].0,
            decreases self.by_left().len() - i,
        {
            r.push(&self.entries[i].0);
            i += 1;
        }
        r
    }

    /// The right values, in ascending order.
    pub fn right_values(&self) -> (r: Vec<&R>)
        requires
            self.wf(),
        ensures
            r@.len() == self.by_right().len(),
            forall|i: int| 0 <= i < r@.len() ==> *r@[i] == #[trigger] self.by_right()[i].0,
    {
        let mut r: Vec<&R> = Vec::new();
        let mut i: usize = 0;
        while i < self.right_order.len()
            invariant
                self.wf(),
                i <= self.by_right().len(),
                r@.len() == i,
                forall|j: int| 0 <= j < i ==> *r@[j] == #[trigger] self.by_right()[j].0,
            decreases self.by_right().len() - i,
        {
            let at = self.right_order[i];
            assert(self.right_order@[i as int] < self.entries@.len());
            r.push(&self.entries[at].1);
            i += 1;
        }
        r
    }
}

impl<L: Ord, R: Ord> TwoWayMap<L, R> {
    /// The pairs whose left value lies within `range`, in ascending order.
    pub open spec fn left_window(&self, range: (Bound<&L>, Bound<&L>)) -> Seq<(L, R)> {
        self.by_left().filter(|x: (L, R)| within(range, x.0))
    }

    /// The pairs whose right value lies within `range`, sides swapped, in ascending order.
    pub open spec fn right_window(&self, range: (Bound<&R>, Bound<&R>)) -> Seq<(R, L)> {
        self.by_right().filter(|x: (R, L)| within(range, x.0))
    }

    /// Well formed, with both orders strictly ascending.
    pub open spec fn inv(&self) -> bool {
        &&& self.wf()
        &&& ascending(self.by_left())
        &&& ascending(self.by_right())
    }

    /// Pairs `left` with `right`. A pair that held `left`, and a pair that held
    /// `right`, are both dropped first.
    pub fn insert(&mut self, left: L, right: R)
        requires
            total_order::<L>(),
            total_order::<R>(),
            old(self).inv(),
            old(self)@.len() < usize::MAX,
        ensures
            final(self).inv(),
            final(self)@ == evict(old(self)@, left, right).insert((left, right)),
            final(self)@.len() <= old(self)@.len() + 1,
    {
        let ghost s0 = self@;
        proof {
            self.lemma_bijection();
        }
        let (found_left, p) = self.find_left(&left);
        if found_left {
            let ghost gone = self.by_left()[p as int];
            let _ = self.remove_at(p);
            proof {
                assert forall|x: (L, R)| s0.contains(x) && x.0 == left implies x == gone by {
                    assert(s0.contains(gone));
                }
            }
        }
        let ghost s1 = self@;
        assert(s1 =~= s0.filter(|x: (L, R)| x.0 != left));
        proof {
            self.lemma_bijection();
        }
        let (found_right, q) = self.find_right(&right);
        if found_right {
            let at = self.right_order[q];
            proof {
                assert(self.right_order@[q as int] < self.entries@.len());
                assert(self.by_right()[q as int] == flip(self.by_left()[at as int]));
            }
            let ghost gone = self.by_left()[at as int];
            let _ = self.remove_at(at);
            proof {
                assert forall|x: (L, R)| s1.contains(x) && x.1 == right implies x == gone by {
                    assert(s1.contains(gone));
                }
            }
        }
        let ghost s2 = self@;
        assert(s2 =~= evict(s0, left, right));
        proof {
            self.lemma_bijection();
            assert forall|r: R| !s2.contains((left, r)) by {}
            assert forall|l: L| !s2.contains((l, right)) by {}
            assert(s2.subset_of(s0));
            vstd::set_lib::lemma_len_subset(s2, s0);
        }
        self.insert_fresh(left, right);
    }

    /// Pairs `left` with `right` when neither is present yet; otherwise hands
    /// both back untouched.
    pub fn insert_no_overwrite(&mut self, left: L, right: R) -> (r: Result<(), (L, R)>)
        requires
            total_order::<L>(),
            total_order::<R>(),
            old(self).inv(),
            old(self)@.len() < usize::MAX,
        ensures
            final(self).inv(),
            r is Err <==> has_left(old(self)@, left) || has_right(old(self)@, right),
            match r {
                Ok(()) => final(self)@ == old(self)@.insert((left, right)),
                Err(back) => back == (left, right) && final(self)@ == old(self)@,
            },
    {
        let (found_left, _) = self.find_left(&left);
        let (found_right, _) = self.find_right(&right);
        if found_left || found_right {
            return Err((left, right));
        }
        proof {
            self.lemma_bijection();
        }
        self.insert_fresh(left, right);
        Ok(())
    }

    /// Takes out the pair whose left value is `left`.
    pub fn remove_by_left(&mut self, left: &L) -> (r: Option<(L, R)>)
        requires
            total_order::<L>(),
            total_order::<R>(),
            old(self).inv(),
        ensures
            final(self).inv(),
            match r {
                Some(pair) => pair.0 == *left && old(self)@.contains(pair) && final(self)@ == old(self)@.remove(
                    pair,
                ),
                None => !has_left(old(self)@, *left) && final(self)@ == old(self)@,
            },
    {
        let (found, p) = self.find_left(left);
        if found {
            assert(self@.contains(self.by_left()[p as int]));
            Some(self.remove_at(p))
        } else {
            None
        }
    }

    /// Takes out the pair whose right value is `right`, sides swapped.
    pub fn remove_by_right(&mut self, right: &R) -> (r: Option<(R, L)>)
        requires
            total_order::<L>(),
            total_order::<R>(),
            old(self).inv(),
        ensures
            final(self).inv(),
            match r {
                Some(pair) => pair.0 == *right && old(self)@.contains(flip(pair)) && final(self)@ == old(
                    self,
                )@.remove(flip(pair)),
                None => !has_right(old(self)@, *right) && final(self)@ == old(self)@,
            },
    {
        let (found, q) = self.find_right(right);
        if found {
            let at = self.right_order[q];
            proof {
                assert(self.right_order@[q as int] < self.entries@.len());
                assert(self.by_right()[q as int] == flip(self.by_left()[at as int]));
                assert(self@.contains(self.by_left()[at as int]));
            }
            let (l, r) = self.remove_at(at);
            Some((r, l))
        } else {
            None
        }
    }

    /// The partner of `left`.
    pub fn get_by_left(&self, left: &L) -> (r: Option<&R>)
        requires
            total_order::<L>(),
            self.inv(),
        ensures
            match r {
                Some(right) => self@.contains((*left, *right)),
                None => !has_left(self@, *left),
            },
    {
        let (found, p) = self.find_left(left);
        if found {
            assert(self@.contains(self.by_left()[p as int]));
            Some(&self.entries[p].1)
        } else {
            None
        }
    }

    /// The partner of `right`.
    pub fn get_by_right(&self, right: &R) -> (r: Option<&L>)
        requires
            total_order::<R>(),
            self.inv(),
        ensures
            match r {
                Some(left) => self@.contains((*left, *right)),
                None => !has_right(self@, *right),
            },
    {
        let (found, q) = self.find_right(right);
        if found {
            let at = self.right_order[q];
            proof {
                assert(self.right_order@[q as int] < self.entries@.len());
                assert(self.by_right()[q as int] == flip(self.by_left()[at as int]));
                assert(self@.contains(self.by_left()[at as int]));
            }
            Some(&self.entries[at].0)
        } else {
            None
        }
    }

    /// Whether some pair has `left` on its left.
    pub fn contains_left(&self, left: &L) -> (r: bool)
        requires
            total_order::<L>(),
            self.inv(),
        ensures
            r == has_left(self@, *left),
    {
        self.find_left(left).0
    }

    /// Whether some pair has `right` on its right.
    pub fn contains_right(&self, right: &R) -> (r: bool)
        requires
            total_order::<R>(),
            self.inv(),
        ensures
            r == has_right(self@, *right),
    {
        self.find_right(right).0
    }

    /// The pairs whose left value lies within `range`, in ascending order.
    pub fn left_range(&self, range: (Bound<&L>, Bound<&L>)) -> (r: Vec<(&L, &R)>)
        requires
            total_order::<L>(),
            self.inv(),
        ensures
            r@.len() == self.left_window(range).len(),
            forall|i: int| 0 <= i < r@.len() ==> (*r@[i].0, *r@[i].1) == #[trigger] self.left_window(range)[i],
    {
        let ghost s = self.by_left();
        let ghost f = |x: (L, R)| within(range, x.0);
        let mut lo: usize = 0;
        let mut hi: usize = self.entries.len();
        while lo < hi
            invariant
                s == self.by_left(),
                total_order::<L>(),
                ascending(s),
                lo <= hi <= s.len(),
                forall|i: int| 0 <= i < lo ==> !above(range.0, #[trigger] s[i].0),
                forall|i: int| hi <= i < s.len() ==> above(range.0, #[trigger] s[i].0),
            decreases hi - lo,
        {
            let mid = lo + (hi - lo) / 2;
            if is_above(range.0, &self.entries[mid].0) {
                assert forall|i: int| mid <= i < s.len() implies above(range.0, #[trigger] s[i].0) by {
                    if i > mid {
                        assert(precedes(s[mid as int].0, s[i].0));
                        lemma_above_upward(range.0, s[mid as int].0, s[i].0);
                    }
                }
                hi = mid;
            } else {
                assert forall|i: int| 0 <= i < mid + 1 implies !above(range.0, #[trigger] s[i].0) by {
                    if i < mid && above(range.0, s[i].0) {
                        assert(precedes(s[i].0, s[mid as int].0));
                        lemma_above_upward(range.0, s[i].0, s[mid as int].0);
                    }
                }
                lo = mid + 1;
            }
        }
        let start = lo;
        let mut r: Vec<(&L, &R)> = Vec::new();
        let mut i: usize = start;
        while i < self.entries.len() && is_below(range.1, &self.entries[i].0)
            invariant
                s == self.by_left(),
                total_order::<L>(),
                ascending(s),
                start <= i <= s.len(),
                forall|j: int| start <= j < s.len() ==> above(range.0, #[trigger] s[j].0),
                forall|j: int| start <= j < i ==> below(range.1, #[trigger] s[j].0),
                r@.len() == i - start,
                forall|j: int| 0 <= j < r@.len() ==> (*r@[j].0, *r@[j].1) == #[trigger] s[start + j],
            decreases s.len() - i,
        {
            let pair = &self.entries[i];
            r.push((&pair.0, &pair.1));
            i += 1;
        }
        proof {
            assert forall|j: int| 0 <= j < s.len() implies (f(#[trigger] s[j]) <==> start <= j < i) by {
                if j >= i && i < s.len() {
                    if j > i {
                        assert(precedes(s[i as int].0, s[j].0));
                        lemma_below_downward(range.1, s[i as int].0, s[j].0);
                    }
                }
            }
            lemma_filter_window(s, f, start as int, i as int);
            assert(s.filter(f) == s.subrange(start as int, i as int));
            assert(self.left_window(range) == s.filter(f));
            assert forall|j: int| 0 <= j < r@.len() implies (*r@[j].0, *r@[j].1) == #[trigger] self.left_window(
                range,
            )[j] by {
                assert(s.subrange(start as int, i as int)[j] == s[start + j]);
            }
        }
        r
    }

    /// The pairs whose right value lies within `range`, sides swapped, in ascending order.
    pub fn right_range(&self, range: (Bound<&R>, Bound<&R>)) -> (r: Vec<(&R, &L)>)
        requires
            total_order::<R>(),
            self.inv(),
        ensures
            r@.len() == self.right_window(range).len(),
            forall|i: int| 0 <= i < r@.len() ==> (*r@[i].0, *r@[i].1) == #[trigger] self.right_window(range)[i],
    {
        let ghost s = self.by_right();
        let ghost f = |x: (R, L)| within(range, x.0);
        let mut lo: usize = 0;
        let mut hi: usize = self.right_order.len();
        while lo < hi
            invariant
                s == self.by_right(),
                self.wf(),
                total_order::<R>(),
                ascending(s),
                lo <= hi <= s.len(),
                forall|i: int| 0 <= i < lo ==> !above(range.0, #[trigger] s[i].0),
                forall|i: int| hi <= i < s.len() ==> above(range.0, #[trigger] s[i].0),
            decreases hi - lo,
        {
            let mid = lo + (hi - lo) / 2;
            let at = self.right_order[mid];
            assert(self.right_order@[mid as int] < self.entries@.len());
            if is_above(range.0, &self.entries[at].1) {
                assert forall|i: int| mid <= i < s.len() implies above(range.0, #[trigger] s[i].0) by {
                    if i > mid {
                        assert(precedes(s[mid as int].0, s[i].0));
                        lemma_above_upward(range.0, s[mid as int].0, s[i].0);
                    }
                }
                hi = mid;
            } else {
                assert forall|i: int| 0 <= i < mid + 1 implies !above(range.0, #[trigger] s[i].0) by {
                    if i < mid && above(range.0, s[i].0) {
                        assert(precedes(s[i].0, s[mid as int].0));
                        lemma_above_upward(range.0, s[i].0, s[mid as int].0);
                    }
                }
                lo = mid + 1;
            }
        }
        let start = lo;
        let mut r: Vec<(&R, &L)> = Vec::new();
        let mut i: usize = start;
        while i < self.right_order.len() && is_below(range.1, &self.entries[self.right_order[i]].1)
            invariant
                s == self.by_right(),
                self.wf(),
                total_order::<R>(),
                ascending(s),
                start <= i <= s.len(),
                forall|j: int| start <= j < s.len() ==> above(range.0, #[trigger] s[j].0),
                forall|j: int| start <= j < i ==> below(range.1, #[trigger] s[j].0),
                r@.len() == i - start,
                forall|j: int| 0 <= j < r@.len() ==> (*r@[j].0, *r@[j].1) == #[trigger] s[start + j],
            decreases s.len() - i,
        {
            let at = self.right_order[i];
            assert(self.right_order@[i as int] < self.entries@.len());
            let pair = &self.entries[at];
            r.push((&pair.1, &pair.0));
            i += 1;
        }
        proof {
            assert forall|j: int| 0 <= j < s.len() implies (f(#[trigger] s[j]) <==> start <= j < i) by {
                if j >= i && i < s.len() {
                    if j > i {
                        assert(precedes(s[i as int].0, s[j].0));
                        lemma_below_downward(range.1, s[i as int].0, s[j].0);
                    }
                }
            }
            lemma_filter_window(s, f, start as int, i as int);
            assert(self.right_window(range) == s.filter(f));
            assert forall|j: int| 0 <= j < r@.len() implies (*r@[j].0, *r@[j].1) == #[trigger] self.right_window(
                range,
            )[j] by {
                assert(s.subrange(start as int, i as int)[j] == s[start + j]);
            }
        }
        r
    }

    /// Keeps the pairs for which `keep` holds and drops the others; `keep` is
    /// asked once per pair.
    pub fn retain<F: Fn(&L, &R) -> bool>(&mut self, keep: F)
        requires
            total_order::<L>(),
            total_order::<R>(),
            old(self).inv(),
            forall|l: &L, r: &R| #[trigger] keep.requires((l, r)),
        ensures
            final(self).inv(),
            final(self)@.subset_of(old(self)@),
            forall|p: (L, R)| #[trigger] final(self)@.contains(p) ==> keep.ensures((&p.0, &p.1), true),
            forall|p: (L, R)|
                old(self)@.contains(p) && !#[trigger] final(self)@.contains(p) ==> keep.ensures(
                    (&p.0, &p.1),
                    false,
                ),
    {
        let ghost e = self.by_left();
        let ghost o = self.right_order@;
        let ghost old_right = self.by_right();
        let n = self.entries.len();
        let mut verdicts: Vec<bool> = Vec::new();
        let mut j: usize = 0;
        while j < n
            invariant
                self.by_left() == e,
                n == e.len(),
                j <= n,
                verdicts@.len() == j,
                forall|l: &L, r: &R| #[trigger] keep.requires((l, r)),
                forall|t: int| 0 <= t < j ==> keep.ensures((&e[t].0, &e[t].1), #[trigger] verdicts@[t]),
            decreases n - j,
        {
            let pair = &self.entries[j];
            let verdict = keep(&pair.0, &pair.1);
            verdicts.push(verdict);
            j += 1;
        }
        let ghost v = verdicts@;
        // rank[t]: where the pair now at position t lands once the others are gone.
        let mut rank: Vec<usize> = Vec::new();
        let mut kept: usize = 0;
        let mut j: usize = 0;
        while j < n
            invariant
                v == verdicts@,
                v.len() == n,
                j <= n,
                rank@.len() == j,
                kept == count(v, j as int),
                forall|t: int| 0 <= t < j ==> #[trigger] rank@[t] == count(v, t),
            decreases n - j,
        {
            rank.push(kept);
            proof {
                lemma_count_grows(v, 0, j as int);
            }
            if verdicts[j] {
                kept += 1;
            }
            j += 1;
        }
        let ghost m = count(v, n as int);
        let ghost w = Seq::new(n as nat, |k: int| v[o[k] as int]);
        let mut order: Vec<usize> = Vec::new();
        let ghost mut from: Seq<int> = Seq::empty();
        let mut k: usize = 0;
        while k < n
            invariant
                self.right_order@ == o,
                permutation(o, n as int),
                v == verdicts@,
                v.len() == n,
                w == Seq::new(n as nat, |k: int| v[o[k] as int]),
                rank@.len() == n,
                forall|t: int| 0 <= t < n ==> #[trigger] rank@[t] == count(v, t),
                k <= n,
                order@.len() == count(w, k as int),
                from.len() == order@.len(),
                forall|t: int| 0 <= t < k && w[t] ==> order@[count(w, t)] == count(v, o[t] as int),
                forall|i: int|
                    0 <= i < order@.len() ==> 0 <= #[trigger] from[i] < k && w[from[i]] && count(w, from[i]) == i
                        && order@[i] == count(v, o[from[i]] as int),
                forall|a: int, b: int| 0 <= a < b < from.len() ==> #[trigger] from[a] < #[trigger] from[b],
            decreases n - k,
        {
            let at = self.right_order[k];
            assert(o[k as int] < n);
            proof {
                lemma_count_grows(w, k as int, k + 1);
            }
            if verdicts[at] {
                proof {
                    lemma_count_grows(v, at as int, n as int);
                }
                order.push(rank[at]);
                proof {
                    from = from.push(k as int);
                    assert forall|t: int| 0 <= t < k && w[t] implies order@[count(w, t)] == count(
                        v,
                        o[t] as int,
                    ) by {
                        lemma_count_grows(w, t, k as int);
                    }
                }
            }
            k += 1;
        }
        let mut old_entries: Vec<(L, R)> = Vec::new();
        core::mem::swap(&mut self.entries, &mut old_entries);
        let mut fresh: Vec<(L, R)> = Vec::new();
        let ghost mut origin: Seq<int> = Seq::empty();
        let mut j: usize = 0;
        for pair in it: old_entries.into_iter()
            invariant
                it.seq() == e,
                j == it.index(),
                n == e.len(),
                v == verdicts@,
                v.len() == n,
                fresh@.len() == count(v, j as int),
                origin.len() == fresh@.len(),
                forall|t: int| 0 <= t < j && v[t] ==> fresh@[count(v, t)] == e[t],
                forall|i: int|
                    0 <= i < fresh@.len() ==> 0 <= #[trigger] origin[i] < j && v[origin[i]] && count(v, origin[i])
                        == i && fresh@[i] == e[origin[i]],
                forall|a: int, b: int| 0 <= a < b < origin.len() ==> #[trigger] origin[a] < #[trigger] origin[b],
        {
            proof {
                lemma_count_grows(v, j as int, j + 1);
            }
            if verdicts[j] {
                fresh.push(pair);
                proof {
                    origin = origin.push(j as int);
                    assert forall|t: int| 0 <= t < j && v[t] implies fresh@[count(v, t)] == e[t] by {
                        lemma_count_grows(v, t, j as int);
                    }
                }
            }
            j += 1;
        }
        proof {
            lemma_count_grows(v, 0, n as int);
            lemma_count_grows(w, 0, n as int);
            // Each kept position lands on a distinct place below m.
            assert forall|t1: int, t2: int| 0 <= t1 < n && 0 <= t2 < n && v[t1] && v[t2] && t1 != t2 implies count(v, t1) != count(v, t2) by {
                if t1 < t2 {
                    lemma_count_grows(v, t1, t2);
                } else {
                    lemma_count_grows(v, t2, t1);
                }
            }
            assert forall|t: int| 0 <= t < n && v[t] implies count(v, t) < m by {
                lemma_count_grows(v, t, n as int);
            }
            let f = fresh@;
            let no = order@;
            assert(f.len() == m);
            // The new left order.
            assert forall|a: int, b: int| 0 <= a < b < f.len() implies #[trigger] precedes(f[a].0, f[b].0) by {
                assert(origin[a] < origin[b]);
                assert(precedes(e[origin[a]].0, e[origin[b]].0));
            }
            assert(distinct_sides(f)) by {
                assert forall|a: int, b: int| 0 <= a < f.len() && 0 <= b < f.len() && a != b implies #[trigger] f[a].0
                    != #[trigger] f[b].0 && f[a].1 != f[b].1 by {
                    assert(origin[a] != origin[b]);
                }
                assert forall|a: int, b: int| 0 <= a < f.len() && 0 <= b < f.len() && a != b implies #[trigger] f[a].1
                    != #[trigger] f[b].1 by {
                    assert(origin[a] != origin[b]);
                }
            }
            // The new right order.
            assert forall|x: int| 0 <= x < no.len() implies #[trigger] no[x] < m by {
                assert(0 <= from[x] < n);
                assert(o[from[x]] < n);
            }
            assert forall|a: int, b: int| 0 <= a < no.len() && 0 <= b < no.len() && a != b implies #[trigger] no[a]
                != #[trigger] no[b] by {
                assert(from[a] != from[b]);
                assert(o[from[a]] != o[from[b]]);
                assert(o[from[a]] < n && o[from[b]] < n);
            }
            assert forall|i: int| 0 <= i < m implies #[trigger] ranked(no, i) by {
                let t = origin[i];
                assert(ranked(o, t));
                let kk = choose|kk: int| 0 <= kk < o.len() && #[trigger] o[kk] as int == t;
                assert(w[kk]);
                lemma_count_grows(w, kk, n as int);
                assert(no[count(w, kk)] as int == i);
            }
            lemma_cover_len(no, m);
            assert(permutation(no, m));
            let nr = reorder(f, no);
            assert forall|x: int| 0 <= x < nr.len() implies #[trigger] nr[x] == old_right[from[x]] by {
                assert(o[from[x]] < n);
            }
            assert forall|a: int, b: int| 0 <= a < b < nr.len() implies #[trigger] precedes(nr[a].0, nr[b].0) by {
                assert(from[a] < from[b]);
                assert(nr[a] == old_right[from[a]]);
                assert(nr[b] == old_right[from[b]]);
                assert(precedes(old_right[from[a]].0, old_right[from[b]].0));
            }
            // Which pairs stay.
            assert forall|x: (L, R)| f.contains(x) <==> exists|t: int| 0 <= t < n && #[trigger] e[t] == x && v[t] by {
                if f.contains(x) {
                    let i = choose|i: int| 0 <= i < f.len() && f[i] == x;
                    assert(e[origin[i]] == x);
                }
                if exists|t: int| 0 <= t < n && #[trigger] e[t] == x && v[t] {
                    let t = choose|t: int| 0 <= t < n && #[trigger] e[t] == x && v[t];
                    lemma_count_grows(v, t, n as int);
                    assert(f[count(v, t)] == x);
                }
            }
        }
        self.entries = fresh;
        self.right_order = order;
        proof {
            assert(self.by_right() == reorder(fresh@, order@));
            assert forall|p: (L, R)| #[trigger] self@.contains(p) implies keep.ensures((&p.0, &p.1), true) by {
                let t = choose|t: int| 0 <= t < n && #[trigger] e[t] == p && v[t];
            }
            assert forall|p: (L, R)| e.to_set().contains(p) && !#[trigger] self@.contains(p) implies keep.ensures(
                (&p.0, &p.1),
                false,
            ) by {
                let t = choose|t: int| 0 <= t < e.len() && e[t] == p;
                assert(e[t] == p);
            }
            assert forall|p: (L, R)| #[trigger] self@.contains(p) implies e.to_set().contains(p) by {
                let t = choose|t: int| 0 <= t < n && #[trigger] e[t] == p && v[t];
            }
        }
    }

    /// Inserts the pairs of `pairs` in order, each as `insert` does.
    pub fn extend(&mut self, pairs: Vec<(L, R)>)
        requires
            total_order::<L>(),
            total_order::<R>(),
            old(self).inv(),
            old(self)@.len() + pairs@.len() < usize::MAX,
        ensures
            final(self).inv(),
            final(self)@ == insert_all(old(self)@, pairs@),
    {
        let ghost s0 = self@;
        let ghost ps = pairs@;
        for pair in it: pairs.into_iter()
            invariant
                total_order::<L>(),
                total_order::<R>(),
                self.inv(),
                it.seq() == ps,
                s0.len() + ps.len() < usize::MAX,
                self@ == insert_all(s0, ps.take(it.index() as int)),
                self@.len() <= s0.len() + it.index(),
        {
            let (l, r) = pair;
            proof {
                assert(ps.take(it.index() + 1).drop_last() =~= ps.take(it.index() as int));
            }
            self.insert(l, r);
        }
        assert(ps.take(ps.len() as int) =~= ps);
    }

    /// A map holding the pairs of `pairs`, inserted in order as `insert` does.
    pub fn from_iter(pairs: Vec<(L, R)>) -> (map: Self)
        requires
            total_order::<L>(),
            total_order::<R>(),
            pairs@.len() < usize::MAX,
        ensures
            map.inv(),
            map@ == insert_all(Set::<(L, R)>::empty(), pairs@),
    {
        let mut map = Self::new();
        map.extend(pairs);
        map
    }

    /// Takes out the pair at position `p` of the left order, from both indices.
    fn remove_at(&mut self, p: usize) -> (pair: (L, R))
        requires
            total_order::<L>(),
            total_order::<R>(),
            old(self).inv(),
            p < old(self).by_left().len(),
        ensures
            final(self).inv(),
            pair == old(self).by_left()[p as int],
            final(self).by_left() == old(self).by_left().remove(p as int),
            final(self)@ == old(self)@.remove(pair),
    {
        let ghost e = self.entries@;
        let ghost o = self.right_order@;
        let (found, q) = self.find_right(&self.entries[p].1);
        proof {
            assert(ranked(o, p as int));
            let k = choose|k: int| 0 <= k < o.len() && #[trigger] o[k] as int == p;
            assert(self.by_right()[k].0 == e[p as int].1);
            if !found {
                if k < q {
                    assert(precedes(self.by_right()[k].0, e[p as int].1));
                } else {
                    assert(precedes(e[p as int].1, self.by_right()[k].0));
                }
                lemma_trichotomy(e[p as int].1, e[p as int].1);
            }
            assert(e[o[q as int] as int].1 == e[p as int].1);
            assert(o[q as int] == p);
        }
        let pair = self.entries.remove(p);
        self.right_order.remove(q);
        let ghost o1 = self.right_order@;
        let mut k: usize = 0;
        while k < self.right_order.len()
            invariant
                self.entries@ == e.remove(p as int),
                self.right_order@.len() == o1.len(),
                k <= o1.len(),
                forall|j: int| 0 <= j < k ==> self.right_order@[j] == #[trigger] shift_down(o1, p as int)[j],
                forall|j: int| k <= j < o1.len() ==> self.right_order@[j] == o1[j],
            decreases o1.len() - k,
        {
            let v = self.right_order[k];
            if v > p {
                self.right_order.set(k, v - 1);
            }
            k += 1;
        }
        proof {
            assert(self.right_order@ =~= shift_down(o1, p as int));
            lemma_permutation_remove(o, e.len() as int, q as int);
            lemma_reorder_remove(e, o, q as int);
            lemma_distinct_remove(e, p as int);
            lemma_ascending_remove(e, p as int);
            lemma_ascending_remove(reorder(e, o), q as int);
            lemma_to_set_remove(e, p as int);
        }
        pair
    }

    /// Adds a pair whose two values are both absent.
    fn insert_fresh(&mut self, left: L, right: R)
        requires
            total_order::<L>(),
            total_order::<R>(),
            old(self).inv(),
            old(self).by_left().len() < usize::MAX,
            !has_left(old(self)@, left),
            !has_right(old(self)@, right),
        ensures
            final(self).inv(),
            final(self)@ == old(self)@.insert((left, right)),
    {
        let ghost e = self.entries@;
        let ghost o = self.right_order@;
        let ghost x = (left, right);
        let (found_left, p) = self.find_left(&left);
        let (found_right, q) = self.find_right(&right);
        proof {
            assert forall|i: int| 0 <= i < e.len() implies #[trigger] e[i].0 != x.0 && e[i].1 != x.1 by {
                assert(self@.contains(e[i]));
                if e[i].0 == x.0 {
                    assert(self@.contains((left, e[i].1)));
                }
                if e[i].1 == x.1 {
                    assert(self@.contains((e[i].0, right)));
                }
            }
            if found_right {
                assert(o[q as int] < e.len());
                assert(e[o[q as int] as int].1 == x.1);
            }
        }
        let mut k: usize = 0;
        while k < self.right_order.len()
            invariant
                self.entries@ == e,
                self.right_order@.len() == o.len(),
                permutation(o, e.len() as int),
                e.len() < usize::MAX,
                k <= o.len(),
                forall|j: int| 0 <= j < k ==> self.right_order@[j] == #[trigger] shift_up(o, p as int)[j],
                forall|j: int| k <= j < o.len() ==> self.right_order@[j] == o[j],
            decreases o.len() - k,
        {
            let v = self.right_order[k];
            assert(o[k as int] < e.len());
            if v >= p {
                self.right_order.set(k, v + 1);
            }
            k += 1;
        }
        self.entries.insert(p, (left, right));
        self.right_order.insert(q, p);
        proof {
            assert(self.right_order@ =~= shift_up(o, p as int).insert(q as int, p));
            lemma_permutation_insert(o, e.len() as int, q as int, p as int);
            lemma_reorder_insert(e, o, q as int, p as int, x);
            lemma_distinct_insert(e, p as int, x);
            lemma_ascending_insert(e, p as int, x);
            lemma_ascending_insert(reorder(e, o), q as int, flip(x));
            lemma_to_set_insert(e, p as int, x);
        }
    }

    /// Consuming iteration hands out every pair of the map exactly once, in
    /// strictly ascending order of the left values.
    pub proof fn lemma_consumed_once(&self, it: IntoIter<L, R>)
        requires
            self.inv(),
            it@ == self.by_left(),
        ensures
            it@.len() == self@.len(),
            it@.no_duplicates(),
            it@.to_set() == self@,
            ascending(it@),
    {
        self.lemma_bijection();
        let e = self.entries@;
        assert forall|i: int, j: int| 0 <= i < e.len() && 0 <= j < e.len() && i != j implies e[i] != e[j] by {
            assert(e[i].0 != e[j].0);
        }
    }

    /// Binary search on the left index.
    fn find_left(&self, key: &L) -> (res: (bool, usize))
        requires
            total_order::<L>(),
            self.inv(),
        ensures
            res.1 <= self.by_left().len(),
            res.0 ==> res.1 < self.by_left().len() && self.by_left()[res.1 as int].0 == *key,
            res.0 == has_left(self@, *key),
            !res.0 ==> forall|i: int| 0 <= i < res.1 ==> precedes(#[trigger] self.by_left()[i].0, *key),
            !res.0 ==> forall|i: int|
                res.1 <= i < self.by_left().len() ==> precedes(*key, #[trigger] self.by_left()[i].0),
    {
        let ghost s = self.by_left();
        let mut lo: usize = 0;
        let mut hi: usize = self.entries.len();
        while lo < hi
            invariant
                s == self.by_left(),
                total_order::<L>(),
                ascending(s),
                lo <= hi <= s.len(),
                forall|i: int| 0 <= i < lo ==> precedes(#[trigger] s[i].0, *key),
                forall|i: int| hi <= i < s.len() ==> precedes(*key, #[trigger] s[i].0),
            decreases hi - lo,
        {
            let mid = lo + (hi - lo) / 2;
            match self.entries[mid].0.cmp(key) {
                Ordering::Less => {
                    assert forall|i: int| 0 <= i < mid + 1 implies precedes(#[trigger] s[i].0, *key) by {
                        if i < mid {
                            assert(precedes(s[i].0, s[mid as int].0));
                            lemma_precedes_transitive(s[i].0, s[mid as int].0, *key);
                        }
                    }
                    lo = mid + 1;
                },
                Ordering::Greater => {
                    assert(precedes(*key, s[mid as int].0));
                    assert forall|i: int| mid <= i < s.len() implies precedes(*key, #[trigger] s[i].0) by {
                        if i > mid {
                            assert(precedes(s[mid as int].0, s[i].0));
                            lemma_precedes_transitive(*key, s[mid as int].0, s[i].0);
                        }
                    }
                    hi = mid;
                },
                Ordering::Equal => {
                    assert(s[mid as int].0 == *key);
                    assert(self@.contains(s[mid as int]));
                    assert(self@.contains((*key, s[mid as int].1)));
                    return (true, mid);
                },
            }
        }
        proof {
            assert forall|r: R| !self@.contains((*key, r)) by {
                if self@.contains((*key, r)) {
                    let i = choose|i: int| 0 <= i < s.len() && s[i] == (*key, r);
                    if i < lo {
                        lemma_trichotomy(s[i].0, *key);
                    } else {
                        lemma_trichotomy(*key, s[i].0);
                    }
                }
            }
        }
        (false, lo)
    }

    /// Binary search on the right index.
    fn find_right(&self, key: &R) -> (res: (bool, usize))
        requires
            total_order::<R>(),
            self.inv(),
        ensures
            res.1 <= self.by_right().len(),
            res.0 ==> res.1 < self.by_right().len() && self.by_right()[res.1 as int].0 == *key,
            res.0 == has_right(self@, *key),
            !res.0 ==> forall|i: int| 0 <= i < res.1 ==> precedes(#[trigger] self.by_right()[i].0, *key),
            !res.0 ==> forall|i: int|
                res.1 <= i < self.by_right().len() ==> precedes(*key, #[trigger] self.by_right()[i].0),
    {
        let ghost s = self.by_right();
        let mut lo: usize = 0;
        let mut hi: usize = self.right_order.len();
        while lo < hi
            invariant
                s == self.by_right(),
                self.wf(),
                total_order::<R>(),
                ascending(s),
                lo <= hi <= s.len(),
                forall|i: int| 0 <= i < lo ==> precedes(#[trigger] s[i].0, *key),
                forall|i: int| hi <= i < s.len() ==> precedes(*key, #[trigger] s[i].0),
            decreases hi - lo,
        {
            let mid = lo + (hi - lo) / 2;
            let at = self.right_order[mid];
            assert(s[mid as int].0 == self.entries@[at as int].1);
            match self.entries[at].1.cmp(key) {
                Ordering::Less => {
                    assert forall|i: int| 0 <= i < mid + 1 implies precedes(#[trigger] s[i].0, *key) by {
                        if i < mid {
                            assert(precedes(s[i].0, s[mid as int].0));
                            lemma_precedes_transitive(s[i].0, s[mid as int].0, *key);
                        }
                    }
                    lo = mid + 1;
                },
                Ordering::Greater => {
                    assert(precedes(*key, s[mid as int].0));
                    assert forall|i: int| mid <= i < s.len() implies precedes(*key, #[trigger] s[i].0) by {
                        if i > mid {
                            assert(precedes(s[mid as int].0, s[i].0));
                            lemma_precedes_transitive(*key, s[mid as int].0, s[i].0);
                        }
                    }
                    hi = mid;
                },
                Ordering::Equal => {
                    proof {
                        self.lemma_bijection();
                        assert(self.by_right().contains(s[mid as int]));
                        assert(self@.contains(flip(s[mid as int])));
                    }
                    return (true, mid);
                },
            }
        }
        proof {
            self.lemma_bijection();
            assert forall|l: L| !self@.contains((l, *key)) by {
                if self@.contains((l, *key)) {
                    assert(s.contains(flip((l, *key))));
                    let i = choose|i: int| 0 <= i < s.len() && s[i] == flip((l, *key));
                    if i < lo {
                        lemma_trichotomy(s[i].0, *key);
                    } else {
                        lemma_trichotomy(*key, s[i].0);
                    }
                }
            }
        }
        (false, lo)
    }
}

impl<L, R> TwoWayMap<L, R> {
    /// Hands out the pairs, owned, in ascending order of their left value.
    pub fn into_iter(self) -> (it: IntoIter<L, R>)
        requires
            self.wf(),
        ensures
            it@ == self.by_left(),
    {
        let ghost e = self.entries@;
        let mut entries = self.entries;
        let mut rest: Vec<(L, R)> = Vec::new();
        while entries.len() > 0
            invariant
                entries@ == e.subrange(0, entries@.len() as int),
                rest@.len() + entries@.len() == e.len(),
                forall|j: int| 0 <= j < rest@.len() ==> #[trigger] rest@[j] == e[e.len() - 1 - j],
            decreases entries@.len(),
        {
            let pair = entries.pop().unwrap();
            rest.push(pair);
        }
        let it = IntoIter { rest };
        assert(it@ =~= e);
        it
    }

    /// Walks the pairs by reference, in ascending order of their left value.
    pub fn iter(&self) -> (it: RefIter<'_, L, R>)
        ensures
            it.wf(),
            it@ == self.by_left(),
    {
        let it = RefIter { map: self, pos: 0 };
        assert(it@ =~= self.by_left());
        it
    }
}

impl<L: Clone, R: Clone> Clone for TwoWayMap<L, R> {
    /// A map of its own holding a clone of each value, in the same places.
    fn clone(&self) -> (copy: Self)
        ensures
            copy.by_left().len() == self.by_left().len(),
            forall|i: int|
                0 <= i < self.by_left().len() ==> cloned::<L>(self.by_left()[i].0, #[trigger] copy.by_left()[i].0)
                    && cloned::<R>(self.by_left()[i].1, copy.by_left()[i].1),
            copy.by_left() == self.by_left() ==> copy.by_right() == self.by_right() && copy@ == self@ && (
            self.wf() ==> copy.wf()),
    {
        let mut entries: Vec<(L, R)> = Vec::new();
        let mut i: usize = 0;
        while i < self.entries.len()
            invariant
                i <= self.entries@.len(),
                entries@.len() == i,
                forall|j: int|
                    0 <= j < i ==> cloned::<L>(self.entries@[j].0, #[trigger] entries@[j].0) && cloned::<R>(
                        self.entries@[j].1,
                        entries@[j].1,
                    ),
            decreases self.entries@.len() - i,
        {
            let pair = &self.entries[i];
            entries.push((pair.0.clone(), pair.1.clone()));
            i += 1;
        }
        let mut right_order: Vec<usize> = Vec::new();
        let mut k: usize = 0;
        while k < self.right_order.len()
            invariant
                k <= self.right_order@.len(),
                right_order@ == self.right_order@.subrange(0, k as int),
            decreases self.right_order@.len() - k,
        {
            right_order.push(self.right_order[k]);
            k += 1;
            assert(right_order@ =~= self.right_order@.subrange(0, k as int));
        }
        assert(right_order@ =~= self.right_order@);
        TwoWayMap { entries, right_order }
    }
}

impl<L, R> Default for TwoWayMap<L, R> {
    /// An empty map.
    fn default() -> (map: Self)
        ensures
            map.wf(),
            map@ == Set::<(L, R)>::empty(),
            map.by_left() == Seq::<(L, R)>::empty(),
            map.by_right() == Seq::<(R, L)>::empty(),
    {
        Self::new()
    }
}

/// Consuming iteration: the pairs not handed out yet, ascending by left value.
pub struct IntoIter<L, R> {
    /// The pairs still to come, the next one last.
    rest: Vec<(L, R)>,
}

impl<L, R> View for IntoIter<L, R> {
    type V = Seq<(L, R)>;

    /// The pairs still to come, in the order they come.
    closed spec fn view(&self) -> Seq<(L, R)> {
        Seq::new(self.rest@.len(), |i: int| self.rest@[self.rest@.len() - 1 - i])
    }
}

impl<L, R> IntoIter<L, R> {
    /// The next pair, or `None` once all are handed out.
    pub fn next(&mut self) -> (r: Option<(L, R)>)
        ensures
            match r {
                Some(pair) => old(self)@.len() > 0 && pair == old(self)@[0] && final(self)@ == old(
                    self,
                )@.drop_first(),
                None => old(self)@.len() == 0 && final(self)@ == old(self)@,
            },
    {
        let r = self.rest.pop();
        proof {
            if r is Some {
                assert(self@ =~= old(self)@.drop_first());
            } else {
                assert(self@ =~= old(self)@);
            }
        }
        r
    }
}

/// Borrowing iteration over a map's pairs, ascending by left value.
pub struct RefIter<'a, L, R> {
    map: &'a TwoWayMap<L, R>,
    pos: usize,
}

impl<'a, L, R> View for RefIter<'a, L, R> {
    type V = Seq<(L, R)>;

    /// The pairs still to come, in the order they come.
    closed spec fn view(&self) -> Seq<(L, R)> {
        self.map.by_left().subrange(self.pos as int, self.map.by_left().len() as int)
    }
}

impl<'a, L, R> RefIter<'a, L, R> {
    /// The position stays within the map's pairs.
    pub closed spec fn wf(&self) -> bool {
        self.pos <= self.map.by_left().len()
    }

    /// The next pair, or `None` once all were visited.
    pub fn next(&mut self) -> (r: Option<(&'a L, &'a R)>)
        requires
            old(self).wf(),
        ensures
            final(self).wf(),
            match r {
                Some(pair) => old(self)@.len() > 0 && (*pair.0, *pair.1) == old(self)@[0] && final(self)@
                    == old(self)@.drop_first(),
                None => old(self)@.len() == 0 && final(self)@ == old(self)@,
            },
    {
        if self.pos < self.map.entries.len() {
            let pair = &self.map.entries[self.pos];
            self.pos = self.pos + 1;
            assert(self@ =~= old(self)@.drop_first());
            Some((&pair.0, &pair.1))
        } else {
            None
        }
    }
}

} // verus!
