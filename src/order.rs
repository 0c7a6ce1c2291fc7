//! The order on keys, as given by `Ord::cmp`, and the facts about it that the
//! heap relies on.
use vstd::prelude::*;
use vstd::laws_cmp::*;
use vstd::laws_eq::*;
use core::cmp::Ordering;
use vstd::std_specs::cmp::{OrdSpec, PartialOrdSpec};

verus! {

/// `a` comes strictly before `b`.
pub open spec fn key_lt<T: Ord>(a: T, b: T) -> bool {
    a.cmp_spec(&b) == Ordering::Less
}

/// `a` comes before `b` or ties with it.
pub open spec fn key_le<T: Ord>(a: T, b: T) -> bool {
    a.cmp_spec(&b) != Ordering::Greater
}

/// Under the laws of `Ord`, `<=` on keys is a total preorder and `<` is its
/// strict part.
pub proof fn lemma_key_order<T: Ord>()
    requires
        obeys_cmp::<T>(),
    ensures
        forall|a: T, b: T| #[trigger] key_le(a, b) || key_le(b, a),
        forall|a: T, b: T| #[trigger] key_lt(a, b) <==> !key_le(b, a),
        forall|a: T, b: T, c: T| #[trigger] key_le(a, b) && #[trigger] key_le(b, c) ==> key_le(a, c),
        forall|a: T| #[trigger] key_le(a, a),
{
    reveal(obeys_eq_spec_properties);
    reveal(obeys_partial_cmp_spec_properties);
    reveal(obeys_cmp_partial_ord);
    reveal(obeys_cmp_ord);
    assert forall|a: T, b: T| key_lt(a, b) <==> !key_le(b, a) by {
        assert(a.partial_cmp_spec(&b) == Some(a.cmp_spec(&b)));
        assert(b.partial_cmp_spec(&a) == Some(b.cmp_spec(&a)));
    }
    assert forall|a: T| key_le(a, a) by {
        assert(a.partial_cmp_spec(&a) == Some(a.cmp_spec(&a)));
    }
    assert forall|a: T, b: T, c: T| key_le(a, b) && key_le(b, c) implies key_le(a, c) by {
        assert(a.partial_cmp_spec(&b) == Some(a.cmp_spec(&b)));
        assert(b.partial_cmp_spec(&c) == Some(b.cmp_spec(&c)));
        assert(a.partial_cmp_spec(&c) == Some(a.cmp_spec(&c)));
        assert(c.partial_cmp_spec(&a) == Some(c.cmp_spec(&a)));
        assert(c.partial_cmp_spec(&b) == Some(c.cmp_spec(&b)));
        assert(b.partial_cmp_spec(&a) == Some(b.cmp_spec(&a)));
    }
}

/// Compares two keys with `Ord::cmp`.
pub fn key_less<T: Ord>(a: &T, b: &T) -> (r: bool)
    requires
        obeys_cmp::<T>(),
    ensures
        r == key_lt(*a, *b),
{
    proof {
        reveal(obeys_cmp_ord);
    }
    match a.cmp(b) {
        Ordering::Less => true,
        _ => false,
    }
}

} // verus!
