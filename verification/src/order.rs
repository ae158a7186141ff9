//! The total order on keys, taken from `Ord` through the specifications that
//! vstd gives to `Ord::cmp`.
use vstd::prelude::*;
use std::cmp::Ordering;
use vstd::std_specs::cmp::OrdSpec;

verus! {

/// The outcome of a three-way comparison of a probe with a stored key.
#[derive(Clone, Copy, Debug, PartialEq, Eq)]
pub enum Side {
    /// The probe is strictly smaller.
    Below,
    /// The probe and the stored key are the same.
    Same,
    /// The probe is strictly larger.
    Above,
}

/// `a` is strictly smaller than `b`.
pub open spec fn lt<K: Ord>(a: K, b: K) -> bool {
    a.cmp_spec(&b) == Ordering::Less
}

/// The comparison of `K` is a total order whose `Equal` is spec equality.
pub open spec fn total_order<K: Ord>() -> bool {
    &&& vstd::laws_cmp::obeys_cmp::<K>()
    &&& vstd::laws_eq::obeys_concrete_eq::<K>()
}

/// Cloning a `T` gives back an equal `T`.
pub open spec fn exact_clone<T: Clone>() -> bool {
    forall|a: T, b: T| #[trigger] cloned(a, b) ==> a == b
}

/// What the containers ask of their key and value types: keys are totally
/// ordered, and a clone of a key or of a value equals what it was cloned of.
pub open spec fn lawful<K: Ord + Clone, V: Clone>() -> bool {
    &&& total_order::<K>()
    &&& exact_clone::<K>()
    &&& exact_clone::<V>()
}

/// What the set asks of its element type: elements are totally ordered,
/// and a clone of an element equals what it was cloned of.
pub open spec fn lawful_key<K: Ord + Clone>() -> bool {
    &&& total_order::<K>()
    &&& exact_clone::<K>()
}

/// A set element type that is lawful makes a lawful key type for a map to
/// the unit type.
pub proof fn lemma_lawful_unit<K: Ord + Clone>()
    requires
        lawful_key::<K>(),
    ensures
        lawful::<K, ()>(),
{
    assert forall|a: (), b: ()| #[trigger] cloned(a, b) implies a == b by {}
}

/// The three outcomes of the comparison are `a < b`, `a == b` and `b < a`.
proof fn lemma_agrees<K: Ord>(a: K, b: K)
    requires
        total_order::<K>(),
    ensures
        K::obeys_cmp_spec(),
        a.cmp_spec(&b) == Ordering::Less <==> lt(a, b),
        a.cmp_spec(&b) == Ordering::Equal <==> a == b,
        a.cmp_spec(&b) == Ordering::Greater <==> lt(b, a),
{
    reveal(vstd::laws_cmp::obeys_partial_cmp_spec_properties);
    reveal(vstd::laws_cmp::obeys_cmp_partial_ord);
    reveal(vstd::laws_cmp::obeys_cmp_ord);
    reveal(vstd::laws_eq::obeys_concrete_eq);
}

/// `lt` is transitive.
pub proof fn lemma_lt_transitive<K: Ord>(a: K, b: K, c: K)
    requires
        total_order::<K>(),
        lt(a, b),
        lt(b, c),
    ensures
        lt(a, c),
{
    reveal(vstd::laws_cmp::obeys_partial_cmp_spec_properties);
    reveal(vstd::laws_cmp::obeys_cmp_partial_ord);
    reveal(vstd::laws_cmp::obeys_cmp_ord);
    reveal(vstd::laws_eq::obeys_concrete_eq);
}

/// Of `a < b`, `a == b` and `b < a` exactly one holds.
pub proof fn lemma_lt_trichotomy<K: Ord>(a: K, b: K)
    requires
        total_order::<K>(),
    ensures
        lt(a, b) || a == b || lt(b, a),
        !(lt(a, b) && a == b),
        !(lt(a, b) && lt(b, a)),
        !(lt(b, a) && a == b),
{
    lemma_agrees(a, b);
}

/// References are ordered as what they refer to.
pub proof fn lemma_total_order_ref<'a, K: Ord>()
    requires
        total_order::<K>(),
    ensures
        total_order::<&'a K>(),
        forall|a: &'a K, b: &'a K| lt::<&'a K>(a, b) == lt::<K>(*a, *b),
{
    reveal(vstd::laws_cmp::obeys_partial_cmp_spec_properties);
    reveal(vstd::laws_cmp::obeys_cmp_partial_ord);
    reveal(vstd::laws_cmp::obeys_cmp_ord);
    reveal(vstd::laws_eq::obeys_concrete_eq);
    reveal(vstd::laws_eq::obeys_eq_spec_properties);
}

/// Compares `a` with `b`.
pub fn compare<K: Ord>(a: &K, b: &K) -> (r: Side)
    requires
        total_order::<K>(),
    ensures
        match r {
            Side::Below => lt(*a, *b),
            Side::Same => *a == *b,
            Side::Above => lt(*b, *a),
        },
{
    let c = a.cmp(b);
    proof {
        lemma_agrees::<K>(*a, *b);
    }
    match c {
        Ordering::Less => Side::Below,
        Ordering::Equal => Side::Same,
        Ordering::Greater => Side::Above,
    }
}

/// A clone of `a` that is known to equal `a`.
pub fn duplicate<T: Clone>(a: &T) -> (r: T)
    requires
        exact_clone::<T>(),
    ensures
        r == *a,
{
    let r = a.clone();
    assert(cloned(*a, r));
    r
}

/// `usize` is a lawful key type, and a lawful value type.
pub proof fn lemma_lawful_usize()
    ensures
        lawful_key::<usize>(),
        exact_clone::<usize>(),
{
    broadcast use vstd::laws_cmp::group_laws_cmp;
    broadcast use vstd::laws_eq::group_laws_eq;
    assert(total_order::<usize>());
    assert forall|a: usize, b: usize| #[trigger] cloned(a, b) implies a == b by {}
}

/// `u64` is a lawful key type, and a lawful value type.
pub proof fn lemma_lawful_u64()
    ensures
        lawful_key::<u64>(),
        exact_clone::<u64>(),
{
    broadcast use vstd::laws_cmp::group_laws_cmp;
    broadcast use vstd::laws_eq::group_laws_eq;
    assert(total_order::<u64>());
    assert forall|a: u64, b: u64| #[trigger] cloned(a, b) implies a == b by {}
}

/// `u32` is a lawful key type, and a lawful value type.
pub proof fn lemma_lawful_u32()
    ensures
        lawful_key::<u32>(),
        exact_clone::<u32>(),
{
    broadcast use vstd::laws_cmp::group_laws_cmp;
    broadcast use vstd::laws_eq::group_laws_eq;
    assert(total_order::<u32>());
    assert forall|a: u32, b: u32| #[trigger] cloned(a, b) implies a == b by {}
}

/// `i64` is a lawful key type, and a lawful value type.
pub proof fn lemma_lawful_i64()
    ensures
        lawful_key::<i64>(),
        exact_clone::<i64>(),
{
    broadcast use vstd::laws_cmp::group_laws_cmp;
    broadcast use vstd::laws_eq::group_laws_eq;
    assert(total_order::<i64>());
    assert forall|a: i64, b: i64| #[trigger] cloned(a, b) implies a == b by {}
}

/// `i32` is a lawful key type, and a lawful value type.
pub proof fn lemma_lawful_i32()
    ensures
        lawful_key::<i32>(),
        exact_clone::<i32>(),
{
    broadcast use vstd::laws_cmp::group_laws_cmp;
    broadcast use vstd::laws_eq::group_laws_eq;
    assert(total_order::<i32>());
    assert forall|a: i32, b: i32| #[trigger] cloned(a, b) implies a == b by {}
}

} // verus!
