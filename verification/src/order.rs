use vstd::prelude::*;

verus! {

/// A caller-supplied strict "less than" relation over `T`.
///
/// The mathematical relation is `lt_spec`; the executable comparison `lt`
/// must return exactly what `lt_spec` says. The engine asks nothing else of
/// an implementation; its analysis additionally assumes the relation is
/// transitive (see [`transitive`]), which every strict weak ordering is.
pub trait LessThan<T> {
    spec fn lt_spec(&self, a: T, b: T) -> bool;

    fn lt(&self, a: &T, b: &T) -> (r: bool)
        ensures
            r == self.lt_spec(*a, *b),
    ;
}

/// The natural order on `i64`, used by the high-level entry point.
pub struct NaturalOrder;

impl LessThan<i64> for NaturalOrder {
    open spec fn lt_spec(&self, a: i64, b: i64) -> bool {
        a < b
    }

    fn lt(&self, a: &i64, b: &i64) -> (r: bool)
        ensures
            r == self.lt_spec(*a, *b),
    {
        *a < *b
    }
}

/// The reversed natural order on `i64`: under it, the engine finds a longest
/// strictly *decreasing* run of the items.
pub struct ReverseOrder;

impl LessThan<i64> for ReverseOrder {
    open spec fn lt_spec(&self, a: i64, b: i64) -> bool {
        b < a
    }

    fn lt(&self, a: &i64, b: &i64) -> (r: bool)
        ensures
            r == self.lt_spec(*a, *b),
    {
        *b < *a
    }
}

/// Transitivity of the relation: the one consequence of the assumed strict
/// weak ordering that the engine's analysis leans on.
pub open spec fn transitive<T, C: LessThan<T>>(cmp: C) -> bool {
    forall|a: T, b: T, c: T|
        #[trigger] cmp.lt_spec(a, b) && #[trigger] cmp.lt_spec(b, c) ==> cmp.lt_spec(a, c)
}

/// A strict weak ordering: irreflexive, transitive, and with transitive
/// incomparability, so "neither less" behaves as an equivalence.
pub open spec fn strict_weak_order<T, C: LessThan<T>>(cmp: C) -> bool {
    &&& (forall|a: T| !(#[trigger] cmp.lt_spec(a, a)))
    &&& transitive(cmp)
    &&& (forall|a: T, b: T, c: T|
        #![trigger cmp.lt_spec(a, b), cmp.lt_spec(b, c)]
        !cmp.lt_spec(a, b) && !cmp.lt_spec(b, a) && !cmp.lt_spec(b, c) && !cmp.lt_spec(c, b)
            ==> !cmp.lt_spec(a, c) && !cmp.lt_spec(c, a))
}

/// In a strict weak ordering, anything sits either above `x` or below `z`
/// whenever `x` is below `z`.
pub proof fn lemma_swo_cross<T, C: LessThan<T>>(cmp: C, x: T, y: T, z: T)
    requires
        strict_weak_order(cmp),
        cmp.lt_spec(x, z),
    ensures
        cmp.lt_spec(x, y) || cmp.lt_spec(y, z),
{
    if !cmp.lt_spec(x, y) && !cmp.lt_spec(y, z) {
        if cmp.lt_spec(y, x) {
            assert(cmp.lt_spec(y, z));
        } else if cmp.lt_spec(z, y) {
            assert(cmp.lt_spec(x, y));
        } else {
            assert(!cmp.lt_spec(x, z) && !cmp.lt_spec(z, x));
        }
    }
}

/// The natural order on `i64` is transitive.
pub proof fn lemma_natural_order_transitive()
    ensures
        transitive::<i64, NaturalOrder>(NaturalOrder),
{
    assert forall|a: i64, b: i64, c: i64|
        #[trigger] NaturalOrder.lt_spec(a, b) && #[trigger] NaturalOrder.lt_spec(b, c)
        implies NaturalOrder.lt_spec(a, c) by {}
}

/// The natural order on `i64` is a strict weak ordering.
pub proof fn lemma_natural_order_swo()
    ensures
        strict_weak_order::<i64, NaturalOrder>(NaturalOrder),
{
    lemma_natural_order_transitive();
}

/// The reversed order on `i64` is transitive.
pub proof fn lemma_reverse_order_transitive()
    ensures
        transitive::<i64, ReverseOrder>(ReverseOrder),
{
    assert forall|a: i64, b: i64, c: i64|
        #[trigger] ReverseOrder.lt_spec(a, b) && #[trigger] ReverseOrder.lt_spec(b, c)
        implies ReverseOrder.lt_spec(a, c) by {}
}

} // verus!
