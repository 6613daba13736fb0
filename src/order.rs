//! Orderings and interval edges on which the map's searches rest.
use core::cmp::Ordering;
use core::ops::Bound;
use vstd::prelude::*;
use vstd::std_specs::cmp::OrdSpec;

verus! {

#[verifier::external_type_specification]
#[verifier::reject_recursive_types(T)]
pub struct ExBound<T>(Bound<T>);

/// `a` comes strictly before `b` in `T`'s ordering.
pub open spec fn precedes<T: Ord>(a: T, b: T) -> bool {
    a.cmp_spec(&b) == Ordering::Less
}

/// `T`'s `cmp` computes a strict total order in which only identical values compare equal.
pub open spec fn total_order<T: Ord>() -> bool {
    &&& T::obeys_cmp_spec()
    &&& forall|a: T, b: T| #[trigger] a.cmp_spec(&b) == Ordering::Equal <==> a == b
    &&& forall|a: T, b: T|
        #[trigger] a.cmp_spec(&b) == Ordering::Less <==> b.cmp_spec(&a) == Ordering::Greater
    &&& forall|a: T, b: T, c: T|
        #[trigger] a.cmp_spec(&b) == Ordering::Less && #[trigger] b.cmp_spec(&c) == Ordering::Less
            ==> a.cmp_spec(&c) == Ordering::Less
}

/// `x` lies on the inner side of the lower edge `lower`.
pub open spec fn above<T: Ord>(lower: Bound<&T>, x: T) -> bool {
    match lower {
        Bound::Included(a) => !precedes(x, *a),
        Bound::Excluded(a) => precedes(*a, x),
        Bound::Unbounded => true,
    }
}

/// `x` lies on the inner side of the upper edge `upper`.
pub open spec fn below<T: Ord>(upper: Bound<&T>, x: T) -> bool {
    match upper {
        Bound::Included(b) => !precedes(*b, x),
        Bound::Excluded(b) => precedes(x, *b),
        Bound::Unbounded => true,
    }
}

/// `x` lies within the interval given by its two edges.
pub open spec fn within<T: Ord>(range: (Bound<&T>, Bound<&T>), x: T) -> bool {
    above(range.0, x) && below(range.1, x)
}

/// Two values are either ordered one way, the other way, or identical.
pub proof fn lemma_trichotomy<T: Ord>(a: T, b: T)
    requires
        total_order::<T>(),
    ensures
        precedes(a, b) || precedes(b, a) || a == b,
        !(precedes(a, b) && precedes(b, a)),
        precedes(a, b) ==> a != b,
{
    assert(a.cmp_spec(&a) == Ordering::Equal);
    assert(a.cmp_spec(&b) == Ordering::Less <==> b.cmp_spec(&a) == Ordering::Greater);
    assert(b.cmp_spec(&a) == Ordering::Less <==> a.cmp_spec(&b) == Ordering::Greater);
}

/// Exec counterpart of `above`.
pub fn is_above<T: Ord>(lower: Bound<&T>, x: &T) -> (r: bool)
    requires
        total_order::<T>(),
    ensures
        r == above(lower, *x),
{
    match lower {
        Bound::Included(a) => !matches!(x.cmp(a), Ordering::Less),
        Bound::Excluded(a) => matches!(a.cmp(x), Ordering::Less),
        Bound::Unbounded => true,
    }
}

/// Exec counterpart of `below`.
pub fn is_below<T: Ord>(upper: Bound<&T>, x: &T) -> (r: bool)
    requires
        total_order::<T>(),
    ensures
        r == below(upper, *x),
{
    match upper {
        Bound::Included(b) => !matches!(b.cmp(x), Ordering::Less),
        Bound::Excluded(b) => matches!(x.cmp(b), Ordering::Less),
        Bound::Unbounded => true,
    }
}

/// Above a lower edge stays above it further up.
pub proof fn lemma_above_upward<T: Ord>(lower: Bound<&T>, x: T, y: T)
    requires
        total_order::<T>(),
        above(lower, x),
        precedes(x, y),
    ensures
        above(lower, y),
{
    match lower {
        Bound::Included(a) => {
            lemma_trichotomy(x, *a);
            lemma_trichotomy(y, *a);
            if precedes(*a, x) {
                assert(precedes(*a, y));
            }
        },
        Bound::Excluded(a) => {
            assert(precedes(*a, y));
        },
        Bound::Unbounded => {},
    }
}

/// Past an upper edge stays past it further up.
pub proof fn lemma_below_downward<T: Ord>(upper: Bound<&T>, x: T, y: T)
    requires
        total_order::<T>(),
        !below(upper, x),
        precedes(x, y),
    ensures
        !below(upper, y),
{
    match upper {
        Bound::Included(b) => {
            assert(precedes(*b, y));
        },
        Bound::Excluded(b) => {
            lemma_trichotomy(x, *b);
            lemma_trichotomy(y, *b);
            if precedes(*b, x) {
                assert(precedes(*b, y));
            }
        },
        Bound::Unbounded => {},
    }
}

} // verus!
