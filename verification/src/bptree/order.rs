//! The order of the keys, as the map uses it.
use vstd::prelude::*;
use vstd::std_specs::cmp::OrdSpec;
use vstd::std_specs::cmp::PartialOrdSpec;
use std::cmp::Ordering;

verus! {

/// Where one key stands relative to another.
#[derive(Clone, Copy, Debug, PartialEq, Eq, Structural)]
pub enum Place {
    Before,
    Same,
    After,
}

/// The `Ord` of the key type is a total order, and the comparison functions compute it.
pub open spec fn total_order<K: Ord>() -> bool {
    vstd::laws_cmp::obeys_cmp::<K>()
}

/// Key `a` comes strictly before key `b`.
pub open spec fn precedes<K: Ord>(a: K, b: K) -> bool {
    a.cmp_spec(&b) == Ordering::Less
}

/// The two keys take the same place in the order: to the map they are one key.
pub open spec fn same_key<K: Ord>(a: K, b: K) -> bool {
    !precedes(a, b) && !precedes(b, a)
}

/// No key precedes itself.
pub proof fn lemma_irreflexive<K: Ord>(a: K)
    requires
        total_order::<K>(),
    ensures
        !precedes(a, a),
{
    reveal(vstd::laws_cmp::obeys_cmp_ord);
    reveal(vstd::laws_cmp::obeys_partial_cmp_spec_properties);
    assert(a.partial_cmp_spec(&a) == Some(a.cmp_spec(&a)));
}

/// Of two keys at most one precedes the other.
pub proof fn lemma_asymmetric<K: Ord>(a: K, b: K)
    requires
        total_order::<K>(),
        precedes(a, b),
    ensures
        !precedes(b, a),
{
    lemma_irreflexive(a);
    lemma_transitive(a, b, a);
}

/// The order is transitive.
pub proof fn lemma_transitive<K: Ord>(a: K, b: K, c: K)
    requires
        total_order::<K>(),
    ensures
        precedes(a, b) && precedes(b, c) ==> precedes(a, c),
{
    reveal(vstd::laws_cmp::obeys_cmp_ord);
    reveal(vstd::laws_cmp::obeys_partial_cmp_spec_properties);
    assert(a.partial_cmp_spec(&b) == Some(a.cmp_spec(&b)));
    assert(b.partial_cmp_spec(&c) == Some(b.cmp_spec(&c)));
    assert(a.partial_cmp_spec(&c) == Some(a.cmp_spec(&c)));
}

/// What lies between two ordered keys cannot be out of reach of both.
pub proof fn lemma_between<K: Ord>(a: K, b: K, c: K)
    requires
        total_order::<K>(),
        precedes(a, c),
    ensures
        precedes(a, b) || precedes(b, c),
{
    reveal(vstd::laws_cmp::obeys_cmp_ord);
    reveal(vstd::laws_cmp::obeys_partial_cmp_spec_properties);
    reveal(vstd::laws_eq::obeys_eq_spec_properties);
    assert(a.partial_cmp_spec(&b) == Some(a.cmp_spec(&b)));
    assert(b.partial_cmp_spec(&a) == Some(b.cmp_spec(&a)));
    assert(b.partial_cmp_spec(&c) == Some(b.cmp_spec(&c)));
    assert(c.partial_cmp_spec(&b) == Some(c.cmp_spec(&b)));
    assert(a.partial_cmp_spec(&c) == Some(a.cmp_spec(&c)));
    if a.cmp_spec(&b) == Ordering::Greater && b.cmp_spec(&c) == Ordering::Greater {
    } else if a.cmp_spec(&b) == Ordering::Greater && b.cmp_spec(&c) == Ordering::Equal {
        lemma_transitive(b, a, c);
    } else if a.cmp_spec(&b) == Ordering::Equal && b.cmp_spec(&c) == Ordering::Greater {
        lemma_transitive(a, c, b);
    }
}

/// Compared the other way round, two keys compare the other way round.
pub proof fn lemma_reverse<K: Ord>(a: K, b: K)
    requires
        total_order::<K>(),
    ensures
        a.cmp_spec(&b) is Less <==> b.cmp_spec(&a) is Greater,
        a.cmp_spec(&b) is Greater <==> b.cmp_spec(&a) is Less,
        a.cmp_spec(&b) is Equal <==> b.cmp_spec(&a) is Equal,
{
    reveal(vstd::laws_cmp::obeys_cmp_ord);
    reveal(vstd::laws_cmp::obeys_partial_cmp_spec_properties);
    reveal(vstd::laws_eq::obeys_eq_spec_properties);
    assert(a.partial_cmp_spec(&b) == Some(a.cmp_spec(&b)));
    assert(b.partial_cmp_spec(&a) == Some(b.cmp_spec(&a)));
}

/// Compares two keys.
pub fn place_of<K: Ord>(a: &K, b: &K) -> (r: Place)
    requires
        total_order::<K>(),
    ensures
        r == Place::Before <==> precedes(*a, *b),
        r == Place::After <==> precedes(*b, *a),
        r == Place::Same <==> same_key(*a, *b),
        r == Place::Before <==> a.cmp_spec(b) is Less,
        r == Place::Same <==> a.cmp_spec(b) is Equal,
        r == Place::After <==> a.cmp_spec(b) is Greater,
{
    proof {
        reveal(vstd::laws_cmp::obeys_cmp_ord);
        reveal(vstd::laws_cmp::obeys_partial_cmp_spec_properties);
        assert(a.partial_cmp_spec(b) == Some(a.cmp_spec(b)));
        assert(b.partial_cmp_spec(a) == Some(b.cmp_spec(a)));
    }
    match a.cmp(b) {
        Ordering::Less => Place::Before,
        Ordering::Equal => Place::Same,
        Ordering::Greater => Place::After,
    }
}

} // verus!
