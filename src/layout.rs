//! How the pairs sit in the two orders: a strictly ascending sequence of
//! pairs, and a permutation of its positions that lists them by right value.
use vstd::prelude::*;
use vstd::set_lib::{lemma_int_range, set_int_range};

use crate::order::{precedes, total_order};

verus! {

/// `s` is strictly ascending in its first components.
pub open spec fn ascending<K: Ord, V>(s: Seq<(K, V)>) -> bool {
    forall|i: int, j: int| 0 <= i < j < s.len() ==> #[trigger] precedes(s[i].0, s[j].0)
}

/// The pair with its sides swapped.
pub open spec fn flip<A, B>(p: (A, B)) -> (B, A) {
    (p.1, p.0)
}

/// Position `i` is the value of some slot of `o`.
pub(crate) open spec fn ranked(o: Seq<usize>, i: int) -> bool {
    exists|k: int| 0 <= k < o.len() && #[trigger] o[k] as int == i
}

/// `o` lists each of `0..n` exactly once.
pub(crate) open spec fn permutation(o: Seq<usize>, n: int) -> bool {
    &&& o.len() == n
    &&& forall|k: int| 0 <= k < n ==> #[trigger] o[k] < n
    &&& forall|a: int, b: int|
        0 <= a < n && 0 <= b < n && a != b ==> #[trigger] o[a] != #[trigger] o[b]
    &&& forall|i: int| 0 <= i < n ==> #[trigger] ranked(o, i)
}

/// `o` with every position above `p` moved one down.
pub(crate) open spec fn shift_down(o: Seq<usize>, p: int) -> Seq<usize> {
    Seq::new(o.len(), |k: int| if o[k] > p { (o[k] - 1) as usize } else { o[k] })
}

/// `o` with every position from `p` on moved one up.
pub(crate) open spec fn shift_up(o: Seq<usize>, p: int) -> Seq<usize> {
    Seq::new(o.len(), |k: int| if o[k] >= p { (o[k] + 1) as usize } else { o[k] })
}

/// The pairs of `e` in the order that `o` lists their positions, sides swapped.
pub(crate) open spec fn reorder<L, R>(e: Seq<(L, R)>, o: Seq<usize>) -> Seq<(R, L)> {
    Seq::new(o.len(), |k: int| flip(e[o[k] as int]))
}

pub(crate) proof fn lemma_precedes_transitive<T: Ord>(a: T, b: T, c: T)
    requires
        total_order::<T>(),
        precedes(a, b),
        precedes(b, c),
    ensures
        precedes(a, c),
{
}

pub(crate) proof fn lemma_ascending_remove<K: Ord, V>(s: Seq<(K, V)>, i: int)
    requires
        ascending(s),
        0 <= i < s.len(),
    ensures
        ascending(s.remove(i)),
{
    let t = s.remove(i);
    assert forall|a: int, b: int| 0 <= a < b < t.len() implies #[trigger] precedes(t[a].0, t[b].0) by {
        let a2 = if a < i { a } else { a + 1 };
        let b2 = if b < i { b } else { b + 1 };
        assert(t[a] == s[a2]);
        assert(t[b] == s[b2]);
        assert(precedes(s[a2].0, s[b2].0));
    }
}

pub(crate) proof fn lemma_ascending_insert<K: Ord, V>(s: Seq<(K, V)>, i: int, x: (K, V))
    requires
        total_order::<K>(),
        ascending(s),
        0 <= i <= s.len(),
        forall|k: int| 0 <= k < i ==> precedes(#[trigger] s[k].0, x.0),
        forall|k: int| i <= k < s.len() ==> precedes(x.0, #[trigger] s[k].0),
    ensures
        ascending(s.insert(i, x)),
{
    let t = s.insert(i, x);
    assert forall|a: int, b: int| 0 <= a < b < t.len() implies #[trigger] precedes(t[a].0, t[b].0) by {
        if a < i && b < i {
            assert(precedes(s[a].0, s[b].0));
        } else if a < i && b == i {
        } else if a < i {
            assert(precedes(s[a].0, x.0));
            assert(precedes(x.0, s[b - 1].0));
            lemma_precedes_transitive(s[a].0, x.0, s[b - 1].0);
        } else if a == i {
        } else {
            assert(precedes(s[a - 1].0, s[b - 1].0));
        }
    }
}

pub(crate) proof fn lemma_permutation_remove(o: Seq<usize>, n: int, q: int)
    requires
        permutation(o, n),
        0 <= q < n,
    ensures
        permutation(shift_down(o.remove(q), o[q] as int), n - 1),
{
    let p = o[q] as int;
    let o1 = o.remove(q);
    let o2 = shift_down(o1, p);
    assert forall|k: int| 0 <= k < n - 1 implies o1[k] as int != p && #[trigger] o1[k] == o[if k < q { k } else { k + 1 }] by {
        let k2 = if k < q { k } else { k + 1 };
        assert(o[k2] != o[q]);
    }
    assert forall|k: int| 0 <= k < n - 1 implies #[trigger] o2[k] < n - 1 by {
        let k2 = if k < q { k } else { k + 1 };
        assert(o1[k] == o[k2]);
    }
    assert forall|a: int, b: int| 0 <= a < n - 1 && 0 <= b < n - 1 && a != b implies #[trigger] o2[a] != #[trigger] o2[b] by {
        let a2 = if a < q { a } else { a + 1 };
        let b2 = if b < q { b } else { b + 1 };
        assert(o1[a] == o[a2]);
        assert(o1[b] == o[b2]);
        assert(o[a2] != o[b2]);
    }
    assert forall|i: int| 0 <= i < n - 1 implies #[trigger] ranked(o2, i) by {
        let j = if i < p { i } else { i + 1 };
        assert(ranked(o, j));
        let k = choose|k: int| 0 <= k < o.len() && #[trigger] o[k] as int == j;
        assert(k != q);
        let k1 = if k < q { k } else { k - 1 };
        assert(o1[k1] == o[k]);
        assert(o2[k1] as int == i);
    }
}

pub(crate) proof fn lemma_permutation_insert(o: Seq<usize>, n: int, q: int, p: int)
    requires
        permutation(o, n),
        0 <= q <= n,
        0 <= p <= n,
        n < usize::MAX,
    ensures
        permutation(shift_up(o, p).insert(q, p as usize), n + 1),
{
    let o1 = shift_up(o, p);
    let o2 = o1.insert(q, p as usize);
    assert forall|k: int| 0 <= k < n + 1 implies #[trigger] o2[k] < n + 1 by {
        if k != q {
            let k2 = if k < q { k } else { k - 1 };
            assert(o[k2] < n);
        }
    }
    assert forall|a: int, b: int| 0 <= a < n + 1 && 0 <= b < n + 1 && a != b implies #[trigger] o2[a] != #[trigger] o2[b] by {
        let a2 = if a < q { a } else { a - 1 };
        let b2 = if b < q { b } else { b - 1 };
        if a != q && b != q {
            assert(o[a2] != o[b2]);
        }
    }
    assert forall|i: int| 0 <= i < n + 1 implies #[trigger] ranked(o2, i) by {
        if i == p {
            assert(o2[q] as int == i);
        } else {
            let j = if i < p { i } else { i - 1 };
            assert(ranked(o, j));
            let k = choose|k: int| 0 <= k < o.len() && #[trigger] o[k] as int == j;
            let k2 = if k < q { k } else { k + 1 };
            assert(o2[k2] == o1[k]);
            assert(o2[k2] as int == i);
        }
    }
}

/// No two pairs of `e` share a left value or a right value.
pub(crate) open spec fn distinct_sides<L, R>(e: Seq<(L, R)>) -> bool {
    &&& forall|i: int, j: int|
        0 <= i < e.len() && 0 <= j < e.len() && i != j ==> #[trigger] e[i].0 != #[trigger] e[j].0
    &&& forall|i: int, j: int|
        0 <= i < e.len() && 0 <= j < e.len() && i != j ==> #[trigger] e[i].1 != #[trigger] e[j].1
}

pub(crate) proof fn lemma_distinct_remove<L, R>(e: Seq<(L, R)>, p: int)
    requires
        distinct_sides(e),
        0 <= p < e.len(),
    ensures
        distinct_sides(e.remove(p)),
{
    let t = e.remove(p);
    assert forall|i: int, j: int|
        #![trigger t[i].0, t[j].0]
        #![trigger t[i].1, t[j].1]
        0 <= i < t.len() && 0 <= j < t.len() && i != j implies t[i].0 != t[j].0 && t[i].1 != t[j].1 by {
        let i2 = if i < p { i } else { i + 1 };
        let j2 = if j < p { j } else { j + 1 };
        assert(t[i] == e[i2]);
        assert(t[j] == e[j2]);
    }
}

pub(crate) proof fn lemma_distinct_insert<L, R>(e: Seq<(L, R)>, p: int, x: (L, R))
    requires
        distinct_sides(e),
        0 <= p <= e.len(),
        forall|i: int| 0 <= i < e.len() ==> #[trigger] e[i].0 != x.0 && e[i].1 != x.1,
    ensures
        distinct_sides(e.insert(p, x)),
{
    let t = e.insert(p, x);
    assert forall|i: int, j: int|
        #![trigger t[i].0, t[j].0]
        #![trigger t[i].1, t[j].1]
        0 <= i < t.len() && 0 <= j < t.len() && i != j implies t[i].0 != t[j].0 && t[i].1 != t[j].1 by {
        let i2 = if i < p { i } else { i - 1 };
        let j2 = if j < p { j } else { j - 1 };
        if i != p && j != p {
            assert(0 <= i2 < e.len() && 0 <= j2 < e.len());
            assert(t[i] == e[i2]);
            assert(t[j] == e[j2]);
            assert(e[i2].0 != e[j2].0 && e[i2].1 != e[j2].1);
        } else if i == p {
            assert(t[i] == x);
            assert(0 <= j2 < e.len());
            assert(t[j] == e[j2]);
            assert(e[j2].0 != x.0);
            assert(e[j2].0 != x.0 && e[j2].1 != x.1);
        } else {
            assert(t[j] == x);
            assert(0 <= i2 < e.len());
            assert(t[i] == e[i2]);
            assert(e[i2].0 != x.0);
            assert(e[i2].0 != x.0 && e[i2].1 != x.1);
        }
    }
}

/// Removing a pair from a sequence without repeats removes it from its set.
pub(crate) proof fn lemma_to_set_remove<L, R>(e: Seq<(L, R)>, p: int)
    requires
        distinct_sides(e),
        0 <= p < e.len(),
    ensures
        e.remove(p).to_set() == e.to_set().remove(e[p]),
{
    let t = e.remove(p);
    assert forall|x: (L, R)| t.to_set().contains(x) <==> e.to_set().remove(e[p]).contains(x) by {
        if t.contains(x) {
            let i = choose|i: int| 0 <= i < t.len() && t[i] == x;
            let i2 = if i < p { i } else { i + 1 };
            assert(e[i2] == x);
            assert(e[i2].0 != e[p].0);
            assert(e.contains(x));
        }
        if e.contains(x) && x != e[p] {
            let i = choose|i: int| 0 <= i < e.len() && e[i] == x;
            let i1 = if i < p { i } else { i - 1 };
            assert(t[i1] == x);
        }
    }
    assert(t.to_set() =~= e.to_set().remove(e[p]));
}

/// Inserting a pair into a sequence inserts it into its set.
pub(crate) proof fn lemma_to_set_insert<L, R>(e: Seq<(L, R)>, p: int, x: (L, R))
    requires
        0 <= p <= e.len(),
    ensures
        e.insert(p, x).to_set() == e.to_set().insert(x),
{
    let t = e.insert(p, x);
    assert forall|y: (L, R)| t.to_set().contains(y) <==> e.to_set().insert(x).contains(y) by {
        if t.contains(y) {
            let i = choose|i: int| 0 <= i < t.len() && t[i] == y;
            if i != p {
                let i2 = if i < p { i } else { i - 1 };
                assert(e[i2] == y);
            }
        }
        if e.contains(y) {
            let i = choose|i: int| 0 <= i < e.len() && e[i] == y;
            let i1 = if i < p { i } else { i + 1 };
            assert(t[i1] == y);
        }
        if y == x {
            assert(t[p] == x);
        }
    }
    assert(t.to_set() =~= e.to_set().insert(x));
}

pub(crate) proof fn lemma_reorder_remove<L, R>(e: Seq<(L, R)>, o: Seq<usize>, q: int)
    requires
        permutation(o, e.len() as int),
        0 <= q < o.len(),
    ensures
        reorder(e.remove(o[q] as int), shift_down(o.remove(q), o[q] as int)) == reorder(e, o).remove(q),
{
    let p = o[q] as int;
    let o1 = o.remove(q);
    let lhs = reorder(e.remove(p), shift_down(o1, p));
    let rhs = reorder(e, o).remove(q);
    assert forall|k: int| 0 <= k < lhs.len() implies lhs[k] == rhs[k] by {
        let k2 = if k < q { k } else { k + 1 };
        assert(o1[k] == o[k2]);
        assert(o[k2] != o[q]);
    }
    assert(lhs =~= rhs);
}

pub(crate) proof fn lemma_reorder_insert<L, R>(e: Seq<(L, R)>, o: Seq<usize>, q: int, p: int, x: (L, R))
    requires
        permutation(o, e.len() as int),
        0 <= q <= o.len(),
        0 <= p <= e.len(),
        e.len() < usize::MAX,
    ensures
        reorder(e.insert(p, x), shift_up(o, p).insert(q, p as usize)) == reorder(e, o).insert(q, flip(x)),
{
    let lhs = reorder(e.insert(p, x), shift_up(o, p).insert(q, p as usize));
    let rhs = reorder(e, o).insert(q, flip(x));
    assert forall|k: int| 0 <= k < lhs.len() implies lhs[k] == rhs[k] by {
        if k != q {
            let k2 = if k < q { k } else { k - 1 };
            assert(o[k2] < e.len());
        }
    }
    assert(lhs =~= rhs);
}

/// How many of the first `j` verdicts are `true`.
pub(crate) open spec fn count(v: Seq<bool>, j: int) -> int
    decreases j,
{
    if j <= 0 {
        0
    } else {
        count(v, j - 1) + if v[j - 1] {
            1int
        } else {
            0int
        }
    }
}

pub(crate) proof fn lemma_count_grows(v: Seq<bool>, a: int, b: int)
    requires
        0 <= a <= b,
    ensures
        0 <= count(v, a) <= count(v, b),
        count(v, b) - count(v, a) <= b - a,
        a < b && v[a] ==> count(v, a) < count(v, b),
    decreases b,
{
    if b > 0 {
        if a < b {
            lemma_count_grows(v, a, b - 1);
        } else {
            lemma_count_grows(v, a - 1, b - 1);
        }
    }
}

/// Distinct positions below `m` that reach each of `0..m` number exactly `m`.
pub(crate) proof fn lemma_cover_len(o: Seq<usize>, m: int)
    requires
        0 <= m,
        forall|a: int, b: int| 0 <= a < o.len() && 0 <= b < o.len() && a != b ==> #[trigger] o[a] != #[trigger] o[b],
        forall|k: int| 0 <= k < o.len() ==> #[trigger] o[k] < m,
        forall|i: int| 0 <= i < m ==> #[trigger] ranked(o, i),
    ensures
        o.len() == m,
{
    let s = o.map_values(|x: usize| x as int);
    assert forall|a: int, b: int| 0 <= a < s.len() && 0 <= b < s.len() && a != b implies s[a] != s[b] by {
        assert(o[a] != o[b]);
    }
    assert(s.no_duplicates());
    s.unique_seq_to_set();
    assert forall|i: int| s.to_set().contains(i) <==> set_int_range(0, m).contains(i) by {
        if s.contains(i) {
            let k = choose|k: int| 0 <= k < s.len() && s[k] == i;
            assert(o[k] < m);
        }
        if 0 <= i < m {
            assert(ranked(o, i));
            let k = choose|k: int| 0 <= k < o.len() && #[trigger] o[k] as int == i;
            assert(s[k] == i);
        }
    }
    assert(s.to_set() =~= set_int_range(0, m));
    lemma_int_range(0, m);
}

/// Filtering keeps exactly the window `a..b` when the predicate holds there and nowhere else.
pub(crate) proof fn lemma_filter_window<A>(s: Seq<A>, f: spec_fn(A) -> bool, a: int, b: int)
    requires
        0 <= a <= b <= s.len(),
        forall|i: int| 0 <= i < s.len() ==> (f(#[trigger] s[i]) <==> a <= i < b),
    ensures
        s.filter(f) == s.subrange(a, b),
    decreases s.len(),
{
    reveal(Seq::filter);
    if s.len() > 0 {
        let t = s.drop_last();
        let last = s.len() - 1;
        let b2 = if b < s.len() { b } else { last };
        let a2 = if a < b2 { a } else { b2 };
        assert forall|i: int| 0 <= i < t.len() implies (f(#[trigger] t[i]) <==> a2 <= i < b2) by {
            assert(t[i] == s[i]);
        }
        lemma_filter_window(t, f, a2, b2);
        assert(f(s[last]) <==> a <= last < b);
        assert(s.filter(f) == (if f(s.last()) { t.filter(f).push(s.last()) } else { t.filter(f) }));
        if a <= last && last < b {
            assert(s.subrange(a, b) =~= t.subrange(a2, b2).push(s.last()));
        } else {
            assert(s.subrange(a, b) =~= t.subrange(a2, b2));
        }
    } else {
        assert(s.subrange(a, b) =~= s);
    }
}

} // verus!
