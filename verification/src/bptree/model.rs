//! What a map holds: its entries as a mathematical sequence, in key order.
//!
//! Every contract of the map is stated with the functions of this module.
use super::order;
use vstd::prelude::*;

verus! {

/// The keys stand in strictly ascending order.
pub open spec fn sorted<K: Ord, V>(s: Seq<(K, V)>) -> bool {
    forall|i: int, j: int|
        #![trigger s[i], s[j]]
        0 <= i < j < s.len() ==> order::precedes(s[i].0, s[j].0)
}

/// Every key of `s` comes before `k`.
pub open spec fn all_below<K: Ord, V>(s: Seq<(K, V)>, k: K) -> bool {
    forall|i: int| 0 <= i < s.len() ==> order::precedes((#[trigger] s[i]).0, k)
}

/// No key of `s` comes before `k`.
pub open spec fn none_below<K: Ord, V>(s: Seq<(K, V)>, k: K) -> bool {
    forall|i: int| 0 <= i < s.len() ==> !order::precedes((#[trigger] s[i]).0, k)
}

/// Every key of `s` comes after `k`.
pub open spec fn all_above<K: Ord, V>(s: Seq<(K, V)>, k: K) -> bool {
    forall|i: int| 0 <= i < s.len() ==> order::precedes(k, (#[trigger] s[i]).0)
}

/// The entries before position `i` are those whose keys come before `k`.
pub open spec fn is_rank<K: Ord, V>(s: Seq<(K, V)>, k: K, i: int) -> bool {
    &&& 0 <= i <= s.len()
    &&& forall|j: int| 0 <= j < i ==> order::precedes((#[trigger] s[j]).0, k)
    &&& forall|j: int| i <= j < s.len() ==> !order::precedes((#[trigger] s[j]).0, k)
}

/// The number of entries whose keys come before `k`.
pub open spec fn rank<K: Ord, V>(s: Seq<(K, V)>, k: K) -> int {
    choose|i: int| is_rank(s, k, i)
}

/// There is an entry for `k`.
pub open spec fn has_key<K: Ord, V>(s: Seq<(K, V)>, k: K) -> bool {
    let i = rank(s, k);
    i < s.len() && order::same_key(s[i].0, k)
}

/// The value of the entry for `k`.
pub open spec fn value_of<K: Ord, V>(s: Seq<(K, V)>, k: K) -> Option<V> {
    if has_key(s, k) {
        Some(s[rank(s, k)].1)
    } else {
        None
    }
}

/// `s` with `v` as the value for `k`. An entry that is there already keeps its key.
pub open spec fn with<K: Ord, V>(s: Seq<(K, V)>, k: K, v: V) -> Seq<(K, V)> {
    let i = rank(s, k);
    if has_key(s, k) {
        s.update(i, (s[i].0, v))
    } else {
        s.insert(i, (k, v))
    }
}

/// `s` without the entry for `k`.
pub open spec fn without<K: Ord, V>(s: Seq<(K, V)>, k: K) -> Seq<(K, V)> {
    if has_key(s, k) {
        s.remove(rank(s, k))
    } else {
        s
    }
}

/// The entries of `s` whose keys do not come before `k`.
pub open spec fn starting_at<K: Ord, V>(s: Seq<(K, V)>, k: K) -> Seq<(K, V)> {
    s.skip(rank(s, k))
}

/// `s` after each of `items` in turn has been made its key's value.
pub open spec fn with_all<K: Ord, V>(s: Seq<(K, V)>, items: Seq<(K, V)>) -> Seq<(K, V)>
    decreases items.len(),
{
    if items.len() == 0 {
        s
    } else {
        with_all(with(s, items[0].0, items[0].1), items.drop_first())
    }
}

/// The keys of the entries, in their order.
pub open spec fn keys_of<K, V>(s: Seq<(K, V)>) -> Seq<K> {
    Seq::new(s.len(), |i: int| s[i].0)
}

/// The values of the entries, in the order of their keys.
pub open spec fn values_of<K, V>(s: Seq<(K, V)>) -> Seq<V> {
    Seq::new(s.len(), |i: int| s[i].1)
}

/// Only one position can be the rank of a key.
pub proof fn lemma_rank_is<K: Ord, V>(s: Seq<(K, V)>, k: K, i: int)
    requires
        is_rank(s, k, i),
    ensures
        rank(s, k) == i,
{
    let r = rank(s, k);
    assert(is_rank(s, k, r));
    if r < i {
        assert(order::precedes(s[r].0, k));
    } else if i < r {
        assert(order::precedes(s[i].0, k));
    }
}

/// In a sorted sequence every key has a rank.
pub proof fn lemma_rank<K: Ord, V>(s: Seq<(K, V)>, k: K)
    requires
        order::total_order::<K>(),
        sorted(s),
    ensures
        is_rank(s, k, rank(s, k)),
    decreases s.len(),
{
    if s.len() == 0 {
        assert(is_rank(s, k, 0));
    } else if order::precedes(s.last().0, k) {
        assert forall|j: int| 0 <= j < s.len() implies order::precedes((#[trigger] s[j]).0, k) by {
            if j < s.len() - 1 {
                assert(order::precedes(s[j].0, s[s.len() - 1].0));
                order::lemma_transitive(s[j].0, s.last().0, k);
            }
        }
        assert(is_rank(s, k, s.len() as int));
    } else {
        let t = s.drop_last();
        assert(sorted(t)) by {
            assert forall|i: int, j: int|
                #![trigger t[i], t[j]]
                0 <= i < j < t.len() implies order::precedes(t[i].0, t[j].0) by {
                assert(t[i] == s[i] && t[j] == s[j]);
            }
        }
        lemma_rank(t, k);
        let i = rank(t, k);
        assert forall|j: int| 0 <= j < i implies order::precedes((#[trigger] s[j]).0, k) by {
            assert(t[j] == s[j]);
        }
        assert forall|j: int| i <= j < s.len() implies !order::precedes(
            (#[trigger] s[j]).0,
            k,
        ) by {
            if j < t.len() {
                assert(t[j] == s[j]);
            }
        }
        assert(is_rank(s, k, i));
    }
}

/// The rank of a key depends only on the part of the sequence round it.
pub proof fn lemma_rank_local<K: Ord, V>(p: Seq<(K, V)>, m: Seq<(K, V)>, q: Seq<(K, V)>, k: K)
    requires
        order::total_order::<K>(),
        sorted(m),
        all_below(p, k),
        all_above(q, k),
    ensures
        rank(p + m + q, k) == p.len() + rank(m, k),
        is_rank(m, k, rank(m, k)),
        has_key(p + m + q, k) == has_key(m, k),
        value_of(p + m + q, k) == value_of(m, k),
{
    let s = p + m + q;
    lemma_rank(m, k);
    let r = rank(m, k);
    assert forall|j: int| 0 <= j < p.len() + r implies order::precedes((#[trigger] s[j]).0, k) by {
        if j < p.len() {
            assert(s[j] == p[j]);
        } else {
            assert(s[j] == m[j - p.len()]);
        }
    }
    assert forall|j: int| p.len() + r <= j < s.len() implies !order::precedes(
        (#[trigger] s[j]).0,
        k,
    ) by {
        if j < p.len() + m.len() {
            assert(s[j] == m[j - p.len()]);
        } else {
            let e = q[j - p.len() - m.len()];
            assert(s[j] == e);
            order::lemma_asymmetric(k, e.0);
        }
    }
    assert(is_rank(s, k, p.len() + r));
    lemma_rank_is(s, k, p.len() + r);
    if r == m.len() && q.len() > 0 {
        assert(s[p.len() + r] == q[0]);
        assert(order::precedes(k, q[0].0));
    }
}

/// Setting a value changes only the part of the sequence round its key.
pub proof fn lemma_with_local<K: Ord, V>(
    p: Seq<(K, V)>,
    m: Seq<(K, V)>,
    q: Seq<(K, V)>,
    k: K,
    v: V,
)
    requires
        order::total_order::<K>(),
        sorted(m),
        all_below(p, k),
        all_above(q, k),
    ensures
        with(p + m + q, k, v) == p + with(m, k, v) + q,
{
    lemma_rank_local(p, m, q, k);
    assert(with(p + m + q, k, v) =~= p + with(m, k, v) + q);
}

/// Removing a key changes only the part of the sequence round it.
pub proof fn lemma_without_local<K: Ord, V>(
    p: Seq<(K, V)>,
    m: Seq<(K, V)>,
    q: Seq<(K, V)>,
    k: K,
)
    requires
        order::total_order::<K>(),
        sorted(m),
        all_below(p, k),
        all_above(q, k),
    ensures
        without(p + m + q, k) == p + without(m, k) + q,
{
    lemma_rank_local(p, m, q, k);
    assert(without(p + m + q, k) =~= p + without(m, k) + q);
}

/// Setting a value keeps the order.
pub proof fn lemma_with_sorted<K: Ord, V>(s: Seq<(K, V)>, k: K, v: V)
    requires
        order::total_order::<K>(),
        sorted(s),
    ensures
        sorted(with(s, k, v)),
{
    lemma_rank(s, k);
    let r = rank(s, k);
    let t = with(s, k, v);
    if has_key(s, k) {
        assert forall|i: int, j: int|
            #![trigger t[i], t[j]]
            0 <= i < j < t.len() implies order::precedes(t[i].0, t[j].0) by {
            assert(t[i].0 == s[i].0 && t[j].0 == s[j].0);
        }
    } else {
        assert forall|i: int, j: int|
            #![trigger t[i], t[j]]
            0 <= i < j < t.len() implies order::precedes(t[i].0, t[j].0) by {
            if j == r {
                assert(t[i] == s[i]);
            } else if i == r {
                assert(t[j] == s[j - 1]);
                let e = s[j - 1].0;
                assert(!order::precedes(e, k));
                if j - 1 == r {
                    assert(!order::same_key(e, k));
                } else {
                    assert(order::precedes(s[r].0, e));
                    assert(!order::precedes(s[r].0, k));
                    order::lemma_between(s[r].0, k, e);
                }
            } else {
                let a = if i < r { i } else { i - 1 };
                let b = if j < r { j } else { j - 1 };
                assert(t[i] == s[a] && t[j] == s[b]);
            }
        }
    }
}

/// Removing a key keeps the order.
pub proof fn lemma_without_sorted<K: Ord, V>(s: Seq<(K, V)>, k: K)
    requires
        order::total_order::<K>(),
        sorted(s),
    ensures
        sorted(without(s, k)),
{
    lemma_rank(s, k);
    let r = rank(s, k);
    let t = without(s, k);
    if has_key(s, k) {
        assert forall|i: int, j: int|
            #![trigger t[i], t[j]]
            0 <= i < j < t.len() implies order::precedes(t[i].0, t[j].0) by {
            let a = if i < r { i } else { i + 1 };
            let b = if j < r { j } else { j + 1 };
            assert(t[i] == s[a] && t[j] == s[b]);
        }
    }
}

/// Without its first entry, a sorted sequence has all but its first key.
pub proof fn lemma_without_first<K: Ord, V>(s: Seq<(K, V)>)
    requires
        order::total_order::<K>(),
        sorted(s),
        s.len() > 0,
    ensures
        without(s, s[0].0) == s.skip(1),
        has_key(s, s[0].0),
{
    order::lemma_irreflexive(s[0].0);
    assert forall|j: int| 0 <= j < s.len() implies !order::precedes(
        (#[trigger] s[j]).0,
        s[0].0,
    ) by {
        if j > 0 {
            assert(order::precedes(s[0].0, s[j].0));
            order::lemma_asymmetric(s[0].0, s[j].0);
        }
    }
    assert(is_rank(s, s[0].0, 0));
    lemma_rank_is(s, s[0].0, 0);
    assert(s.remove(0) =~= s.skip(1));
}

/// An entry that comes before `k` does not matter to what starts at `k`.
pub proof fn lemma_starting_at_skip<K: Ord, V>(s: Seq<(K, V)>, k: K)
    requires
        order::total_order::<K>(),
        sorted(s),
        s.len() > 0,
        order::precedes(s[0].0, k),
    ensures
        sorted(s.skip(1)),
        starting_at(s.skip(1), k) == starting_at(s, k),
{
    let t = s.skip(1);
    lemma_rank(s, k);
    let r = rank(s, k);
    assert forall|i: int, j: int|
        #![trigger t[i], t[j]]
        0 <= i < j < t.len() implies order::precedes(t[i].0, t[j].0) by {
        assert(t[i] == s[i + 1] && t[j] == s[j + 1]);
    }
    if r == 0 {
        assert(!order::precedes(s[0].0, k));
    }
    assert forall|j: int| 0 <= j < r - 1 implies order::precedes((#[trigger] t[j]).0, k) by {
        assert(t[j] == s[j + 1]);
    }
    assert forall|j: int| r - 1 <= j < t.len() implies !order::precedes(
        (#[trigger] t[j]).0,
        k,
    ) by {
        assert(t[j] == s[j + 1]);
    }
    assert(is_rank(t, k, r - 1));
    lemma_rank_is(t, k, r - 1);
    assert(starting_at(t, k) =~= starting_at(s, k));
}

/// Nothing is left out where no key comes before `k`.
pub proof fn lemma_starting_at_all<K: Ord, V>(s: Seq<(K, V)>, k: K)
    requires
        order::total_order::<K>(),
        sorted(s),
        s.len() > 0 ==> !order::precedes(s[0].0, k),
    ensures
        starting_at(s, k) == s,
{
    assert forall|j: int| 0 <= j < s.len() implies !order::precedes((#[trigger] s[j]).0, k) by {
        if j > 0 {
            assert(order::precedes(s[0].0, s[j].0));
            order::lemma_transitive(s[0].0, s[j].0, k);
        }
    }
    assert(is_rank(s, k, 0));
    lemma_rank_is(s, k, 0);
    assert(s.skip(0) =~= s);
}

/// Setting values takes nothing away, and adds no more than one entry for each.
pub proof fn lemma_with_all_grows<K: Ord, V>(s: Seq<(K, V)>, items: Seq<(K, V)>)
    requires
        order::total_order::<K>(),
        sorted(s),
    ensures
        sorted(with_all(s, items)),
        s.len() <= with_all(s, items).len() <= s.len() + items.len(),
    decreases items.len(),
{
    if items.len() > 0 {
        lemma_rank(s, items[0].0);
        lemma_with_sorted(s, items[0].0, items[0].1);
        lemma_with_all_grows(with(s, items[0].0, items[0].1), items.drop_first());
    }
}

} // verus!
