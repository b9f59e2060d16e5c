//! The ordering that a sort relies on, stated over `Ord::cmp`.
use core::cmp::Ordering;
use vstd::laws_cmp::*;
use vstd::laws_eq::*;
use vstd::prelude::*;
use vstd::std_specs::cmp::{OrdSpec, PartialEqSpec, PartialOrdSpec};

verus! {

/// `T`'s comparison is a total order: `cmp` agrees with `partial_cmp` and `eq`,
/// and is antisymmetric and transitive.
pub open spec fn total_order<T: Ord>() -> bool {
    obeys_cmp::<T>()
}

/// `a` may stand before `b` in ascending order.
pub open spec fn leq<T: Ord>(a: T, b: T) -> bool {
    a.cmp_spec(&b) != Ordering::Greater
}

/// `a` and `b` have equal keys.
pub open spec fn same_key<T: Ord>(a: T, b: T) -> bool {
    a.cmp_spec(&b) == Ordering::Equal
}

/// `s` is in non-descending order.
pub open spec fn sorted<T: Ord>(s: Seq<T>) -> bool {
    forall|i: int, j: int| 0 <= i < j < s.len() ==> leq(#[trigger] s[i], #[trigger] s[j])
}

/// The elements of `s` whose key equals that of `x`, in their order in `s`.
pub open spec fn key_class<T: Ord>(s: Seq<T>, x: T) -> Seq<T> {
    s.filter(|y: T| same_key(y, x))
}

/// The laws of a total order, as the rest of the crate uses them.
pub proof fn lemma_total_order<T: Ord>()
    requires
        total_order::<T>(),
    ensures
        T::obeys_partial_cmp_spec(),
        forall|a: T, b: T| #[trigger] a.partial_cmp_spec(&b) == Some(a.cmp_spec(&b)),
        forall|a: T| #[trigger] leq(a, a),
        forall|a: T, b: T| !leq(a, b) ==> #[trigger] leq(b, a),
        forall|a: T, b: T, c: T| #[trigger] leq(a, b) && #[trigger] leq(b, c) ==> leq(a, c),
        forall|a: T, b: T| #[trigger] same_key(a, b) ==> leq(a, b) && leq(b, a),
        forall|a: T, b: T| leq(a, b) && leq(b, a) ==> #[trigger] same_key(a, b),
        forall|a: T, b: T| #[trigger] same_key(a, b) ==> same_key(b, a),
        forall|a: T, b: T, c: T|
            #[trigger] same_key(a, b) && #[trigger] same_key(b, c) ==> same_key(a, c),
{
    reveal(obeys_eq_spec_properties);
    reveal(obeys_partial_cmp_spec_properties);
    reveal(obeys_cmp_partial_ord);
    reveal(obeys_cmp_ord);
    assert forall|a: T, b: T| #[trigger] a.partial_cmp_spec(&b) == Some(a.cmp_spec(&b)) by {}
    assert forall|a: T| #[trigger] leq(a, a) by {
        assert(a.partial_cmp_spec(&a) == Some(a.cmp_spec(&a)));
    }
    assert forall|a: T, b: T| !leq(a, b) implies #[trigger] leq(b, a) by {
        assert(a.partial_cmp_spec(&b) == Some(a.cmp_spec(&b)));
        assert(b.partial_cmp_spec(&a) == Some(b.cmp_spec(&a)));
    }
    assert forall|a: T, b: T| #[trigger] same_key(a, b) implies same_key(b, a) by {
        assert(a.partial_cmp_spec(&b) == Some(a.cmp_spec(&b)));
        assert(b.partial_cmp_spec(&a) == Some(b.cmp_spec(&a)));
        assert(a.eq_spec(&b));
    }
    assert forall|a: T, b: T| #[trigger] same_key(a, b) implies leq(a, b) && leq(b, a) by {
        assert(b.partial_cmp_spec(&a) == Some(b.cmp_spec(&a)));
        assert(a.partial_cmp_spec(&b) == Some(a.cmp_spec(&b)));
        assert(a.eq_spec(&b));
    }
    assert forall|a: T, b: T| leq(a, b) && leq(b, a) implies #[trigger] same_key(a, b) by {
        assert(a.partial_cmp_spec(&b) == Some(a.cmp_spec(&b)));
        assert(b.partial_cmp_spec(&a) == Some(b.cmp_spec(&a)));
    }
    assert forall|a: T, b: T, c: T|
        #[trigger] same_key(a, b) && #[trigger] same_key(b, c) implies same_key(a, c) by {
        assert(a.partial_cmp_spec(&b) == Some(a.cmp_spec(&b)));
        assert(b.partial_cmp_spec(&c) == Some(b.cmp_spec(&c)));
        assert(a.partial_cmp_spec(&c) == Some(a.cmp_spec(&c)));
        assert(a.eq_spec(&b));
        assert(b.eq_spec(&c));
    }
    assert forall|a: T, b: T, c: T| #[trigger] leq(a, b) && #[trigger] leq(b, c) implies leq(
        a,
        c,
    ) by {
        assert(a.partial_cmp_spec(&b) == Some(a.cmp_spec(&b)));
        assert(b.partial_cmp_spec(&a) == Some(b.cmp_spec(&a)));
        assert(b.partial_cmp_spec(&c) == Some(b.cmp_spec(&c)));
        assert(c.partial_cmp_spec(&b) == Some(c.cmp_spec(&b)));
        assert(a.partial_cmp_spec(&c) == Some(a.cmp_spec(&c)));
        assert(c.partial_cmp_spec(&a) == Some(c.cmp_spec(&a)));
        if a.cmp_spec(&c) == Ordering::Greater {
            if a.cmp_spec(&b) == Ordering::Equal {
                assert(a.eq_spec(&b));
                assert(b.eq_spec(&a));
            }
            if b.cmp_spec(&c) == Ordering::Equal {
                assert(b.eq_spec(&c));
                assert(c.eq_spec(&b));
            }
        }
    }
}

} // verus!
