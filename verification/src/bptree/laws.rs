//! What holds of the map as a whole.
//!
//! A transaction has a version that the lock of its map handed out. Which one that was rests
//! on the threads, so the laws on several transactions say of which versions they are.
//!
//! The laws on entries are stated of any sorted sequence of entries; those of a transaction
//! are sorted (see [`law_read_sorted`] and its neighbours).
use super::model;
use super::order;
use super::{BptreeMap, BptreeMapReadSnapshot, BptreeMapReadTxn, BptreeMapWriteTxn, Committed};
use vstd::arithmetic::power2;
use vstd::prelude::*;
use vstd::std_specs::cmp::OrdSpec;

verus! {

/// The map asks of a key type that its `Ord` obeys the laws of a comparison, and no more.
pub proof fn law_total_order<K: Ord>()
    ensures
        order::total_order::<K>() <==> vstd::laws_cmp::obeys_cmp::<K>(),
{
}

/// The order of the map is the `Ord` of the key type: one key comes before another if it
/// compares as less, and two keys are one if they compare as equal.
pub proof fn law_order<K: Ord>(a: K, b: K)
    requires
        order::total_order::<K>(),
    ensures
        order::precedes(a, b) <==> a.cmp_spec(&b) is Less,
        order::precedes(b, a) <==> a.cmp_spec(&b) is Greater,
        order::same_key(a, b) <==> a.cmp_spec(&b) is Equal,
{
    order::lemma_reverse(a, b);
}

/// Entries are sorted exactly if every one compares as less than every one after it.
pub proof fn law_sorted<K: Ord, V>(s: Seq<(K, V)>)
    ensures
        model::sorted(s) <==> forall|i: int, j: int|
            #![trigger s[i], s[j]]
            0 <= i < j < s.len() ==> s[i].0.cmp_spec(&s[j].0) is Less,
{
}

/// Every key has one place among sorted entries: those before it compare as less than the
/// key, and none from it on does. The key is there exactly if the entry at its place compares
/// as equal; all others from there on compare as greater.
pub proof fn law_place<K: Ord, V>(s: Seq<(K, V)>, k: K) -> (i: int)
    requires
        order::total_order::<K>(),
        model::sorted(s),
    ensures
        0 <= i <= s.len(),
        forall|j: int| 0 <= j < i ==> (#[trigger] s[j]).0.cmp_spec(&k) is Less,
        forall|j: int| i < j < s.len() ==> (#[trigger] s[j]).0.cmp_spec(&k) is Greater,
        i < s.len() ==> !(s[i].0.cmp_spec(&k) is Less),
{
    model::lemma_rank(s, k);
    let r = model::rank(s, k);
    assert forall|j: int| r < j < s.len() implies (#[trigger] s[j]).0.cmp_spec(&k) is Greater by {
        assert(order::precedes(s[r].0, s[j].0));
        order::lemma_between(s[r].0, k, s[j].0);
        law_order(s[j].0, k);
    }
    r
}

/// A lookup finds a key exactly if there is an entry whose key compares as equal, and gives
/// the value of that entry.
pub proof fn law_get<K: Ord, V>(s: Seq<(K, V)>, k: K, i: int)
    requires
        order::total_order::<K>(),
        model::sorted(s),
    ensures
        model::has_key(s, k) <==> exists|j: int|
            0 <= j < s.len() && (#[trigger] s[j]).0.cmp_spec(&k) is Equal,
        model::value_of(s, k) is Some <==> model::has_key(s, k),
        0 <= i < s.len() && s[i].0.cmp_spec(&k) is Equal ==> model::value_of(s, k) == Some(s[i].1),
{
    model::lemma_rank(s, k);
    assert forall|j: int| 0 <= j < s.len() && (#[trigger] s[j]).0.cmp_spec(&k) is Equal implies
        model::value_of(s, k) == Some(s[j].1) by {
        law_order(s[j].0, k);
        law_lookup(s, k, j);
    }
    if model::has_key(s, k) {
        law_order(s[model::rank(s, k)].0, k);
    }
}

/// An insert gives the entry whose key compares as equal the new value and leaves its key;
/// where there is no such entry, it puts one between those that compare as less and those
/// that compare as greater. All other entries stay.
pub proof fn law_insert_entries<K: Ord, V>(s: Seq<(K, V)>, k: K, v: V, i: int)
    requires
        order::total_order::<K>(),
        model::sorted(s),
    ensures
        0 <= i < s.len() && s[i].0.cmp_spec(&k) is Equal ==> model::with(s, k, v) == s.update(
            i,
            (s[i].0, v),
        ),
        0 <= i <= s.len() && (forall|j: int|
            0 <= j < i ==> (#[trigger] s[j]).0.cmp_spec(&k) is Less) && (forall|j: int|
            i <= j < s.len() ==> (#[trigger] s[j]).0.cmp_spec(&k) is Greater) ==> model::with(
            s,
            k,
            v,
        ) == s.insert(i, (k, v)),
{
    lemma_place_is_rank(s, k, i);
}

/// A remove takes away the entry whose key compares as equal, and nothing where there is no
/// such entry.
pub proof fn law_remove_entries<K: Ord, V>(s: Seq<(K, V)>, k: K, i: int)
    requires
        order::total_order::<K>(),
        model::sorted(s),
    ensures
        0 <= i < s.len() && s[i].0.cmp_spec(&k) is Equal ==> model::without(s, k) == s.remove(i),
        (forall|j: int| 0 <= j < s.len() ==> !((#[trigger] s[j]).0.cmp_spec(&k) is Equal))
            ==> model::without(s, k) == s,
{
    lemma_place_is_rank(s, k, i);
    law_get(s, k, i);
}

/// After splitting off what comes before `k`, an entry is there exactly if it was there
/// before and its key does not compare as less than `k`. Those that are left are the last
/// ones, in the order that they had.
pub proof fn law_split_off_entries<K: Ord, V>(s: Seq<(K, V)>, k: K, e: (K, V), i: int)
    requires
        order::total_order::<K>(),
        model::sorted(s),
    ensures
        model::starting_at(s, k).contains(e) <==> s.contains(e) && !(e.0.cmp_spec(&k) is Less),
        0 <= i <= s.len() && (forall|j: int|
            0 <= j < i ==> (#[trigger] s[j]).0.cmp_spec(&k) is Less) && (forall|j: int|
            i <= j < s.len() ==> !((#[trigger] s[j]).0.cmp_spec(&k) is Less))
            ==> model::starting_at(s, k) == s.skip(i),
{
    lemma_place_is_rank(s, k, i);
    model::lemma_rank(s, k);
    let r = model::rank(s, k);
    let t = model::starting_at(s, k);
    if t.contains(e) {
        let j = t.index_of(e);
        assert(t[j] == s[j + r]);
    }
    if s.contains(e) && !(e.0.cmp_spec(&k) is Less) {
        let j = s.index_of(e);
        assert(s[j] == e);
        assert(t[j - r] == e);
    }
}

/// The items of an iterator are inserted one after the other, so that the last one comes on
/// top of all before it. Without items nothing changes.
pub proof fn law_extend_entries<K: Ord, V>(s: Seq<(K, V)>, items: Seq<(K, V)>, k: K, v: V)
    ensures
        model::with_all(s, Seq::<(K, V)>::empty()) == s,
        model::with_all(s, items.push((k, v))) == model::with(model::with_all(s, items), k, v),
    decreases items.len(),
{
    let all = items.push((k, v));
    if items.len() == 0 {
        reveal_with_fuel(model::with_all, 2);
    } else {
        let t = model::with(s, items[0].0, items[0].1);
        law_extend_entries(t, items.drop_first(), k, v);
        assert(all.drop_first() =~= items.drop_first().push((k, v)));
    }
}

/// There is one key and one value for each entry, in the order of the entries.
pub proof fn law_keys_values<K, V>(s: Seq<(K, V)>, i: int)
    ensures
        model::keys_of(s).len() == s.len(),
        model::values_of(s).len() == s.len(),
        0 <= i < s.len() ==> model::keys_of(s)[i] == s[i].0,
        0 <= i < s.len() ==> model::values_of(s)[i] == s[i].1,
{
}

/// What stands between the keys that compare as less and the others is the rank.
proof fn lemma_place_is_rank<K: Ord, V>(s: Seq<(K, V)>, k: K, i: int)
    requires
        order::total_order::<K>(),
        model::sorted(s),
    ensures
        0 <= i < s.len() && s[i].0.cmp_spec(&k) is Equal ==> model::has_key(s, k) && model::rank(
            s,
            k,
        ) == i,
        0 <= i <= s.len() && (forall|j: int|
            0 <= j < i ==> (#[trigger] s[j]).0.cmp_spec(&k) is Less) && (forall|j: int|
            i <= j < s.len() ==> !((#[trigger] s[j]).0.cmp_spec(&k) is Less)) ==> model::rank(s, k)
            == i,
        (forall|j: int| 0 <= j < s.len() ==> !((#[trigger] s[j]).0.cmp_spec(&k) is Equal))
            ==> !model::has_key(s, k),
{
    law_get(s, k, i);
    model::lemma_rank(s, k);
    let r = model::rank(s, k);
    if 0 <= i < s.len() && s[i].0.cmp_spec(&k) is Equal {
        law_order(s[i].0, k);
        lemma_one_entry(s, k, i, r);
    }
    if 0 <= i <= s.len() && (forall|j: int|
        0 <= j < i ==> (#[trigger] s[j]).0.cmp_spec(&k) is Less) && (forall|j: int|
        i <= j < s.len() ==> !((#[trigger] s[j]).0.cmp_spec(&k) is Less)) {
        assert(model::is_rank(s, k, i));
        model::lemma_rank_is(s, k, i);
    }
}

/// A key has an entry exactly if there is an entry with that key, and its value is that
/// entry's.
pub proof fn law_lookup<K: Ord, V>(s: Seq<(K, V)>, k: K, i: int)
    requires
        order::total_order::<K>(),
        model::sorted(s),
    ensures
        0 <= i < s.len() && order::same_key(s[i].0, k) ==> model::value_of(s, k) == Some(s[i].1),
        model::value_of(s, k) is None ==> forall|j: int|
            0 <= j < s.len() ==> !order::same_key((#[trigger] s[j]).0, k),
{
    model::lemma_rank(s, k);
    let r = model::rank(s, k);
    assert forall|j: int|
        0 <= j < s.len() && order::same_key((#[trigger] s[j]).0, k) implies j == r by {
        if r < j {
            assert(order::precedes(s[r].0, s[j].0));
            order::lemma_between(s[r].0, k, s[j].0);
        }
    }
}

/// No two entries have the same key.
pub proof fn law_keys_distinct<K: Ord, V>(s: Seq<(K, V)>, i: int, j: int)
    requires
        order::total_order::<K>(),
        model::sorted(s),
        0 <= i < s.len(),
        0 <= j < s.len(),
        order::same_key(s[i].0, s[j].0),
    ensures
        i == j,
{
    if i < j {
        assert(order::precedes(s[i].0, s[j].0));
    } else if j < i {
        assert(order::precedes(s[j].0, s[i].0));
    }
}

/// Two keys that are the same key to the map are looked up with the same result.
pub proof fn law_same_key_same_value<K: Ord, V>(s: Seq<(K, V)>, j: K, k: K)
    requires
        order::total_order::<K>(),
        model::sorted(s),
        order::same_key(j, k),
    ensures
        model::value_of(s, j) == model::value_of(s, k),
{
    model::lemma_rank(s, k);
    let r = model::rank(s, k);
    assert forall|i: int| 0 <= i < r implies order::precedes((#[trigger] s[i]).0, j) by {
        order::lemma_between(s[i].0, j, k);
    }
    assert forall|i: int| r <= i < s.len() implies !order::precedes((#[trigger] s[i]).0, j) by {
        if order::precedes(s[i].0, j) {
            order::lemma_between(s[i].0, k, j);
        }
    }
    assert(model::is_rank(s, j, r));
    model::lemma_rank_is(s, j, r);
    if r < s.len() {
        if order::precedes(k, s[r].0) {
            order::lemma_between(k, j, s[r].0);
        }
        if order::precedes(j, s[r].0) {
            order::lemma_between(j, k, s[r].0);
        }
    }
}

/// After an insert, a lookup of the key gives the value that was inserted, and a lookup of
/// any other key gives what it gave before. The entries stay sorted, and there is one more
/// if the key is new.
pub proof fn law_insert<K: Ord, V>(s: Seq<(K, V)>, k: K, v: V, j: K)
    requires
        order::total_order::<K>(),
        model::sorted(s),
    ensures
        model::sorted(model::with(s, k, v)),
        model::value_of(model::with(s, k, v), j) == if order::same_key(j, k) {
            Some(v)
        } else {
            model::value_of(s, j)
        },
        model::with(s, k, v).len() == s.len() + if model::has_key(s, k) {
            0int
        } else {
            1
        },
{
    let t = model::with(s, k, v);
    let r = model::rank(s, k);
    model::lemma_rank(s, k);
    model::lemma_with_sorted(s, k, v);
    if order::same_key(j, k) {
        order::lemma_irreflexive(k);
        assert(order::same_key(t[r].0, k));
        law_lookup(t, k, r);
        law_same_key_same_value(t, j, k);
    } else {
        if model::has_key(s, j) {
            model::lemma_rank(s, j);
            let i = model::rank(s, j);
            let e = if model::has_key(s, k) || i < r {
                i
            } else {
                i + 1
            };
            if model::has_key(s, k) && i == r {
                lemma_same_transitive(j, s[r].0, k);
            }
            assert(t[e] == s[i]);
            law_lookup(t, j, e);
        } else if model::has_key(t, j) {
            model::lemma_rank(t, j);
            let e = model::rank(t, j);
            if model::has_key(s, k) {
                assert(t[e].0 == s[e].0);
                law_lookup(s, j, e);
            } else if e < r {
                assert(t[e] == s[e]);
                law_lookup(s, j, e);
            } else if e > r {
                assert(t[e] == s[e - 1]);
                law_lookup(s, j, e - 1);
            }
        }
    }
}

/// Being the same key carries over.
proof fn lemma_same_transitive<K: Ord>(a: K, b: K, c: K)
    requires
        order::total_order::<K>(),
        order::same_key(b, a),
        order::same_key(b, c),
    ensures
        order::same_key(a, c),
{
    if order::precedes(a, c) {
        order::lemma_between(a, b, c);
    }
    if order::precedes(c, a) {
        order::lemma_between(c, b, a);
    }
}

/// After a remove, a lookup of the key finds nothing, and a lookup of any other key gives
/// what it gave before. The entries stay sorted, and there is one less if the key was there.
pub proof fn law_remove<K: Ord, V>(s: Seq<(K, V)>, k: K, j: K)
    requires
        order::total_order::<K>(),
        model::sorted(s),
    ensures
        model::sorted(model::without(s, k)),
        model::value_of(model::without(s, k), j) == if order::same_key(j, k) {
            None
        } else {
            model::value_of(s, j)
        },
        model::without(s, k).len() == s.len() - if model::has_key(s, k) {
            1int
        } else {
            0
        },
{
    let t = model::without(s, k);
    let r = model::rank(s, k);
    model::lemma_rank(s, k);
    model::lemma_without_sorted(s, k);
    if order::same_key(j, k) {
        law_same_key_same_value(s, j, k);
        if model::has_key(t, j) {
            model::lemma_rank(t, j);
            let e = model::rank(t, j);
            lemma_same_transitive(t[e].0, j, k);
            let i = if !model::has_key(s, k) || e < r {
                e
            } else {
                e + 1
            };
            assert(t[e] == s[i]);
            law_lookup(s, k, i);
            if model::has_key(s, k) {
                lemma_one_entry(s, k, i, r);
            }
        }
    } else if model::has_key(s, j) {
        model::lemma_rank(s, j);
        let i = model::rank(s, j);
        if model::has_key(s, k) && i == r {
            lemma_same_transitive(j, s[r].0, k);
        }
        let e = if !model::has_key(s, k) || i < r {
            i
        } else {
            i - 1
        };
        assert(t[e] == s[i]);
        law_lookup(t, j, e);
    } else if model::has_key(t, j) {
        model::lemma_rank(t, j);
        let e = model::rank(t, j);
        let i = if !model::has_key(s, k) || e < r {
            e
        } else {
            e + 1
        };
        assert(t[e] == s[i]);
        law_lookup(s, j, i);
    }
}

/// After splitting off what comes before `k`, a lookup of a key before `k` finds nothing,
/// and a lookup of any other key gives what it gave before.
pub proof fn law_split_off<K: Ord, V>(s: Seq<(K, V)>, k: K, j: K)
    requires
        order::total_order::<K>(),
        model::sorted(s),
    ensures
        model::sorted(model::starting_at(s, k)),
        model::value_of(model::starting_at(s, k), j) == if order::precedes(j, k) {
            None
        } else {
            model::value_of(s, j)
        },
{
    let t = model::starting_at(s, k);
    let r = model::rank(s, k);
    model::lemma_rank(s, k);
    assert forall|a: int, b: int|
        #![trigger t[a], t[b]]
        0 <= a < b < t.len() implies order::precedes(t[a].0, t[b].0) by {
        assert(t[a] == s[a + r] && t[b] == s[b + r]);
    }
    model::lemma_rank(s, j);
    model::lemma_rank(t, j);
    if order::precedes(j, k) {
        if model::has_key(t, j) {
            let e = model::rank(t, j);
            assert(t[e] == s[e + r]);
            order::lemma_between(j, t[e].0, k);
        }
    } else if model::has_key(s, j) {
        let i = model::rank(s, j);
        if i < r {
            order::lemma_between(s[i].0, j, k);
        }
        assert(t[i - r] == s[i]);
        law_lookup(t, j, i - r);
    } else if model::has_key(t, j) {
        let e = model::rank(t, j);
        assert(t[e] == s[e + r]);
        law_lookup(s, j, e + r);
    }
}

/// After the items of an iterator have been inserted, a lookup gives the value of the last
/// item with the key, and what it gave before if there is no such item. There is at most one
/// new entry for each item.
pub proof fn law_extend<K: Ord, V>(s: Seq<(K, V)>, items: Seq<(K, V)>, j: K, i: int)
    requires
        order::total_order::<K>(),
        model::sorted(s),
    ensures
        model::sorted(model::with_all(s, items)),
        s.len() <= model::with_all(s, items).len() <= s.len() + items.len(),
        0 <= i < items.len() && order::same_key(j, items[i].0) && (forall|a: int|
            i < a < items.len() ==> !order::same_key(j, (#[trigger] items[a]).0))
            ==> model::value_of(model::with_all(s, items), j) == Some(items[i].1),
        (forall|a: int| 0 <= a < items.len() ==> !order::same_key(j, (#[trigger] items[a]).0))
            ==> model::value_of(model::with_all(s, items), j) == model::value_of(s, j),
    decreases items.len(),
{
    if items.len() > 0 {
        let k = items[0].0;
        let v = items[0].1;
        let t = model::with(s, k, v);
        let rest = items.drop_first();
        law_insert(s, k, v, j);
        law_extend(t, rest, j, i - 1);
        if 0 <= i < items.len() && order::same_key(j, items[i].0) && (forall|a: int|
            i < a < items.len() ==> !order::same_key(j, (#[trigger] items[a]).0)) {
            assert forall|a: int| i - 1 < a < rest.len() implies !order::same_key(
                j,
                (#[trigger] rest[a]).0,
            ) by {
                assert(rest[a] == items[a + 1]);
            }
            if i > 0 {
                assert(rest[i - 1] == items[i]);
            }
        }
        if forall|a: int|
            0 <= a < items.len() ==> !order::same_key(j, (#[trigger] items[a]).0) {
            assert forall|a: int| 0 <= a < rest.len() implies !order::same_key(
                j,
                (#[trigger] rest[a]).0,
            ) by {
                assert(rest[a] == items[a + 1]);
            }
        }
    }
}

/// Removing a key takes back the insert of a new key.
pub proof fn law_remove_undoes_insert<K: Ord, V>(s: Seq<(K, V)>, k: K, v: V)
    requires
        order::total_order::<K>(),
        model::sorted(s),
        !model::has_key(s, k),
    ensures
        model::without(model::with(s, k, v), k) == s,
{
    let t = model::with(s, k, v);
    let r = model::rank(s, k);
    model::lemma_rank(s, k);
    model::lemma_with_sorted(s, k, v);
    order::lemma_irreflexive(k);
    law_lookup(t, k, r);
    model::lemma_rank(t, k);
    lemma_one_entry(t, k, model::rank(t, k), r);
    assert(t.remove(r) =~= s);
}

/// What a remove gives back of an insert. The value is that of the insert, or a clone of it,
/// and so the very value where a clone is always equal to what it is a clone of. The entries
/// are then those from before the insert, and a second remove finds nothing and changes
/// nothing.
pub proof fn law_remove_returns<K: Ord, V: Clone>(s: Seq<(K, V)>, k: K, v: V, removed: Option<V>)
    requires
        order::total_order::<K>(),
        model::sorted(s),
        !model::has_key(s, k),
        removed is Some <==> model::has_key(model::with(s, k, v), k),
        removed matches Some(p) ==> cloned(model::value_of(model::with(s, k, v), k)->0, p),
    ensures
        removed matches Some(p) && cloned(v, p),
        (forall|a: V, b: V| cloned(a, b) ==> a == b) ==> removed == Some(v),
        model::without(model::with(s, k, v), k) == s,
        model::without(s, k) == s,
        model::value_of(s, k) is None,
{
    order::lemma_irreflexive(k);
    law_insert(s, k, v, k);
    law_remove_undoes_insert(s, k, v);
}

/// A key has but one entry.
proof fn lemma_one_entry<K: Ord, V>(s: Seq<(K, V)>, k: K, i: int, j: int)
    requires
        order::total_order::<K>(),
        model::sorted(s),
        0 <= i < s.len(),
        0 <= j < s.len(),
        order::same_key(s[i].0, k),
        order::same_key(s[j].0, k),
    ensures
        i == j,
{
    lemma_same_transitive(s[i].0, k, s[j].0);
    law_keys_distinct(s, i, j);
}

/// Of two inserts of one key the second counts.
pub proof fn law_insert_twice<K: Ord, V>(s: Seq<(K, V)>, k: K, v: V, w: V)
    requires
        order::total_order::<K>(),
        model::sorted(s),
    ensures
        model::with(model::with(s, k, v), k, w) == model::with(s, k, w),
{
    let t = model::with(s, k, v);
    let r = model::rank(s, k);
    model::lemma_rank(s, k);
    model::lemma_with_sorted(s, k, v);
    order::lemma_irreflexive(k);
    assert(order::same_key(t[r].0, k));
    law_lookup(t, k, r);
    model::lemma_rank(t, k);
    lemma_one_entry(t, k, model::rank(t, k), r);
    assert(model::with(t, k, w) =~= model::with(s, k, w));
}

/// Writing back the value that is there, through a mutable reference or by an insert,
/// changes nothing.
pub proof fn law_write_back<K: Ord, V>(s: Seq<(K, V)>, k: K)
    requires
        order::total_order::<K>(),
        model::sorted(s),
        model::has_key(s, k),
    ensures
        model::with(s, k, model::value_of(s, k)->0) == s,
{
    model::lemma_rank(s, k);
    assert(model::with(s, k, model::value_of(s, k)->0) =~= s);
}

/// A read transaction gives its entries in ascending key order.
pub proof fn law_read_sorted<'a, K: Ord, V>(
    txn: BptreeMapReadTxn<'a, K, V>,
)
    requires
        order::total_order::<K>(),
        txn.well_formed(),
    ensures
        model::sorted(txn@),
        forall|i: int, j: int|
            #![trigger txn@[i], txn@[j]]
            0 <= i < j < txn@.len() ==> txn@[i].0.cmp_spec(&txn@[j].0) is Less,
{
    txn.lemma_sorted();
}

/// A write transaction gives its entries in ascending key order.
pub proof fn law_write_sorted<'a, K: Ord, V>(
    txn: BptreeMapWriteTxn<'a, K, V>,
)
    requires
        order::total_order::<K>(),
        txn.well_formed(),
    ensures
        model::sorted(txn@),
        forall|i: int, j: int|
            #![trigger txn@[i], txn@[j]]
            0 <= i < j < txn@.len() ==> txn@[i].0.cmp_spec(&txn@[j].0) is Less,
{
    txn.lemma_sorted();
}

/// A snapshot gives its entries in ascending key order.
pub proof fn law_snapshot_sorted<'a, K: Ord, V>(
    snapshot: BptreeMapReadSnapshot<'a, K, V>,
)
    requires
        order::total_order::<K>(),
        snapshot.well_formed(),
    ensures
        model::sorted(snapshot@),
        forall|i: int, j: int|
            #![trigger snapshot@[i], snapshot@[j]]
            0 <= i < j < snapshot@.len() ==> snapshot@[i].0.cmp_spec(&snapshot@[j].0) is Less,
{
    snapshot.lemma_sorted();
}

/// A read transaction that is found in order has its entries in ascending key order, and its
/// tree is flat.
pub proof fn law_read_verified<'a, K: Ord, V>(txn: BptreeMapReadTxn<'a, K, V>)
    requires
        order::total_order::<K>(),
        txn.in_order(),
    ensures
        forall|i: int, j: int|
            #![trigger txn@[i], txn@[j]]
            0 <= i < j < txn@.len() ==> txn@[i].0.cmp_spec(&txn@[j].0) is Less,
        txn@.len() == 0 ==> txn.depth() == 0,
        txn@.len() > 0 ==> power2::pow2(txn.depth()) <= txn@.len(),
{
    txn.lemma_sorted();
    txn.lemma_depth();
}

/// A write transaction that is found in order has its entries in ascending key order, and its
/// tree is flat.
pub proof fn law_write_verified<'a, K: Ord, V>(txn: BptreeMapWriteTxn<'a, K, V>)
    requires
        order::total_order::<K>(),
        txn.in_order(),
    ensures
        forall|i: int, j: int|
            #![trigger txn@[i], txn@[j]]
            0 <= i < j < txn@.len() ==> txn@[i].0.cmp_spec(&txn@[j].0) is Less,
        txn@.len() == 0 ==> txn.depth() == 0,
        txn@.len() > 0 ==> power2::pow2(txn.depth()) <= txn@.len(),
{
    txn.lemma_sorted();
    txn.lemma_depth();
}

/// A read transaction sees the last of the versions that it knows of.
pub proof fn law_reads_last<'a, K: Ord, V>(
    reader: BptreeMapReadTxn<'a, K, V>,
)
    requires
        reader.well_formed(),
    ensures
        reader@ == reader.versions().last(),
{
    reader.lemma_reads_last();
}

/// The transaction reads the version that `held` ends with, which comes from those before it
/// in `held`.
pub open spec fn reads<'a, K: Ord, V>(
    reader: BptreeMapReadTxn<'a, K, V>,
    held: Seq<Seq<(K, V)>>,
) -> bool {
    reader.well_formed() && reader.versions() == held
}

/// The transaction started from the version that `held` ends with, which comes from those
/// before it in `held`. It may have been changed since: every operation of a writer keeps its
/// `base()`.
pub open spec fn writes<'a, K: Ord, V>(
    writer: BptreeMapWriteTxn<'a, K, V>,
    held: Seq<Seq<(K, V)>>,
) -> bool {
    writer.well_formed() && writer.base() == held
}

/// The transaction started from the version that `held` ends with, and has the contents of
/// that version.
pub open spec fn starts<'a, K: Ord, V>(
    writer: BptreeMapWriteTxn<'a, K, V>,
    held: Seq<Seq<(K, V)>>,
) -> bool {
    writes(writer, held) && writer@ == held.last()
}

/// The version that was put in place is the one that the writer prepared.
pub open spec fn commits<'a, K: Ord, V>(
    writer: BptreeMapWriteTxn<'a, K, V>,
    committed: Committed<'a, K, V>,
) -> bool {
    committed.versions() == writer.base().push(writer@)
}

/// A reader that is opened after a commit perceives it: what the writer saw when it committed
/// is one of the versions that the reader's version comes from, and it is what the reader
/// sees, all of it and nothing else, if nothing was committed in between. That the reader is
/// opened after the commit is what [`Committed::read`] gives.
pub proof fn law_commit_visible<'a, 'b, K: Ord, V>(
    writer: BptreeMapWriteTxn<'a, K, V>,
    committed: Committed<'a, K, V>,
    reader: BptreeMapReadTxn<'b, K, V>,
)
    requires
        commits(writer, committed),
        reader.well_formed(),
        committed.versions().is_prefix_of(reader.versions()),
    ensures
        reader.versions()[writer.base().len() as int] == writer@,
        reader.versions().len() == committed.versions().len() ==> reader@ == writer@,
{
    reader.lemma_reads_last();
    let n = committed.versions().len() as int;
    assert(reader.versions().subrange(0, n)[n - 1] == committed.versions()[n - 1]);
}

/// A writer that is opened after a commit perceives it, as a reader does. That the writer is
/// opened after the commit is what [`Committed::write`] gives.
pub proof fn law_commit_continues<'a, 'b, K: Ord, V>(
    writer: BptreeMapWriteTxn<'a, K, V>,
    committed: Committed<'a, K, V>,
    next: BptreeMapWriteTxn<'b, K, V>,
)
    requires
        commits(writer, committed),
        committed.versions().is_prefix_of(next.base()),
        starts(next, next.base()),
    ensures
        next.base()[writer.base().len() as int] == writer@,
        next.base().len() == committed.versions().len() ==> next@ == writer@,
{
    let n = committed.versions().len() as int;
    assert(next.base().subrange(0, n)[n - 1] == committed.versions()[n - 1]);
}

/// The versions of a map follow one another on one line. A read transaction sees the version
/// of the map that comes after all the others that it knows of, and these are the versions of
/// the map in their order, with those that the map was made with at the front.
pub proof fn law_read_version<'a, K: Ord, V>(reader: BptreeMapReadTxn<'a, K, V>)
    requires
        reader.well_formed(),
    ensures
        reader.map().genesis().is_prefix_of(reader.versions()),
        reader@ == reader.map().version(reader.versions().len() - 1),
        forall|i: int|
            0 <= i < reader.versions().len() ==> #[trigger] reader.versions()[i]
                == reader.map().version(i),
{
    reader.lemma_nonempty();
    reader.lemma_reads_last();
    assert forall|i: int| 0 <= i < reader.versions().len() implies #[trigger] reader.versions()[i]
        == reader.map().version(i) by {
        reader.lemma_recorded(i);
    }
    reader.lemma_recorded(0);
}

/// Two readers of a map that know of equally many versions see the same; of two others, the
/// one that knows of fewer reads a version that the other's comes from.
pub proof fn law_readers_agree<'a, 'b, K: Ord, V>(
    one: BptreeMapReadTxn<'a, K, V>,
    other: BptreeMapReadTxn<'b, K, V>,
)
    requires
        one.well_formed(),
        other.well_formed(),
        one.map() == other.map(),
        one.versions().len() <= other.versions().len(),
    ensures
        one.versions().is_prefix_of(other.versions()),
        one.versions().len() == other.versions().len() ==> one@ == other@,
{
    law_read_version(one);
    law_read_version(other);
    assert(one.versions() =~= other.versions().take(one.versions().len() as int));
}

/// A writer has the versions of its map up to the one that it started from, and its commit
/// adds the one that comes next: the version of the map after those is what the writer saw
/// when it committed, whoever looks at it.
pub proof fn law_commit_version<'a, K: Ord, V>(
    writer: BptreeMapWriteTxn<'a, K, V>,
    committed: Committed<'a, K, V>,
)
    requires
        writer.well_formed(),
        committed.well_formed(),
        committed.map() == writer.map(),
        commits(writer, committed),
    ensures
        forall|i: int|
            0 <= i < writer.base().len() ==> #[trigger] writer.base()[i] == writer.map().version(i),
        writer.map().version(writer.base().len() as int) == writer@,
{
    assert forall|i: int| 0 <= i < writer.base().len() implies #[trigger] writer.base()[i]
        == writer.map().version(i) by {
        writer.lemma_recorded(i);
    }
    committed.lemma_recorded(writer.base().len() as int);
}

/// Every reader of a map, however it was opened, either reads one of the versions that a
/// writer started from, or a version that comes from what the writer committed. In the first
/// case it sees nothing of the writer's work, in the second it perceives the commit; and the
/// first that there is to see after those that the writer started from is the writer's work
/// itself, all of it and nothing else.
pub proof fn law_commit_seen<'a, 'b, K: Ord, V>(
    writer: BptreeMapWriteTxn<'a, K, V>,
    committed: Committed<'a, K, V>,
    reader: BptreeMapReadTxn<'b, K, V>,
)
    requires
        writer.well_formed(),
        committed.well_formed(),
        committed.map() == writer.map(),
        commits(writer, committed),
        reader.well_formed(),
        reader.map() == writer.map(),
    ensures
        reader.versions().len() <= writer.base().len() ==> reader.versions().is_prefix_of(
            writer.base(),
        ),
        reader.versions().len() > writer.base().len() ==> committed.versions().is_prefix_of(
            reader.versions(),
        ),
        reader.versions().len() == writer.base().len() + 1 ==> reader@ == writer@,
{
    law_read_version(reader);
    law_commit_version(writer, committed);
    if reader.versions().len() <= writer.base().len() {
        assert(reader.versions() =~= writer.base().take(reader.versions().len() as int));
    } else {
        assert(committed.versions() =~= reader.versions().take(
            committed.versions().len() as int,
        ));
    }
}

/// No two commits of a map are of the same version: one of two writers that committed started
/// from a version that comes from what the other committed.
pub proof fn law_commits_in_turn<'a, 'b, K: Ord, V>(
    one: BptreeMapWriteTxn<'a, K, V>,
    committed: Committed<'a, K, V>,
    other: BptreeMapWriteTxn<'b, K, V>,
)
    requires
        one.well_formed(),
        committed.well_formed(),
        committed.map() == one.map(),
        commits(one, committed),
        other.well_formed(),
        other.map() == one.map(),
        one.base().len() < other.base().len(),
    ensures
        committed.versions().is_prefix_of(other.base()),
        other.base()[one.base().len() as int] == one@,
{
    law_commit_version(one, committed);
    assert forall|i: int| 0 <= i < other.base().len() implies #[trigger] other.base()[i]
        == other.map().version(i) by {
        other.lemma_recorded(i);
    }
    assert(committed.versions() =~= other.base().take(committed.versions().len() as int));
}

/// A commit adds one version to those that the writer started from, and leaves them as they
/// were.
pub proof fn law_commit_adds<'a, K: Ord, V>(
    writer: BptreeMapWriteTxn<'a, K, V>,
    committed: Committed<'a, K, V>,
)
    requires
        commits(writer, committed),
    ensures
        committed.versions().len() == writer.base().len() + 1,
        writer.base().is_prefix_of(committed.versions()),
        committed.versions().last() == writer@,
{
}

/// A reader that gets either the version before a commit or the version that the commit
/// stores, as one does that is opened while the commit is under way, sees the one or the
/// other as a whole.
pub proof fn law_commit_whole<'a, 'b, K: Ord, V>(
    held: Seq<Seq<(K, V)>>,
    writer: BptreeMapWriteTxn<'a, K, V>,
    committed: Committed<'a, K, V>,
    reader: BptreeMapReadTxn<'b, K, V>,
)
    requires
        writes(writer, held),
        commits(writer, committed),
        reads(reader, held) || reads(reader, committed.versions()),
    ensures
        reader@ == held.last() || reader@ == writer@,
{
    reader.lemma_reads_last();
}

/// A commit of a writer that changed nothing leaves the contents as they were.
pub proof fn law_commit_unchanged<'a, 'b, 'c, K: Ord, V>(
    before: BptreeMapReadTxn<'a, K, V>,
    writer: BptreeMapWriteTxn<'b, K, V>,
    committed: Committed<'a, K, V>,
    after: BptreeMapReadTxn<'c, K, V>,
)
    requires
        reads(before, writer.base()),
        starts(writer, writer.base()),
        commits(writer, committed),
        reads(after, committed.versions()),
    ensures
        after@ == before@,
{
    before.lemma_reads_last();
    after.lemma_reads_last();
}

/// A writer starts from what a reader of the same version sees.
pub proof fn law_write_starts<'a, 'b, K: Ord, V>(
    held: Seq<Seq<(K, V)>>,
    reader: BptreeMapReadTxn<'a, K, V>,
    writer: BptreeMapWriteTxn<'b, K, V>,
)
    requires
        reads(reader, held),
        starts(writer, held),
    ensures
        writer@ == reader@,
{
    reader.lemma_reads_last();
}

/// Whatever a writer does, two readers of the version that it started from see the same, and
/// they see that version: also if one was opened before the writer changed anything, and the
/// other while the writer works or after it was dropped without a commit.
pub proof fn law_rollback<'a, 'b, 'c, K: Ord, V>(
    before: BptreeMapReadTxn<'a, K, V>,
    writer: BptreeMapWriteTxn<'b, K, V>,
    after: BptreeMapReadTxn<'c, K, V>,
)
    requires
        writer.well_formed(),
        reads(before, writer.base()),
        reads(after, writer.base()),
    ensures
        after@ == before@,
        after@ == writer.base().last(),
{
    before.lemma_reads_last();
    after.lemma_reads_last();
}

/// A reader of the version that a map was made with sees what the map was made with.
pub proof fn law_first_version<'a, K: Ord, V>(
    map: BptreeMap<K, V>,
    reader: BptreeMapReadTxn<'a, K, V>,
)
    requires
        reads(reader, map.genesis()),
    ensures
        reader@ == map.genesis().last(),
{
    reader.lemma_reads_last();
}

/// A reader of a map knows of no fewer versions than the map was made with. If it knows of no
/// more, it reads the version that the map was made with.
pub proof fn law_made<'a, K: Ord, V>(reader: BptreeMapReadTxn<'a, K, V>)
    requires
        reader.well_formed(),
    ensures
        reader.versions().len() >= reader.map().genesis().len(),
        reader.versions().len() == reader.map().genesis().len() ==> reader.versions()
            == reader.map().genesis() && reader@ == reader.map().genesis().last(),
{
    law_read_version(reader);
    reader.lemma_reads_last();
    let n = reader.map().genesis().len();
    assert(reader.versions().len() == n ==> reader.versions().take(n as int)
        =~= reader.versions());
}

/// Whether an attempt to start a writer can fail has nothing to do with what a map holds: to
/// every map there is one with the same versions on which no attempt fails, and one on which
/// some attempt does. [`BptreeMap::try_write`] gives a transaction on every map of the first
/// kind, so that no version of a map is a reason for it to give none.
pub proof fn law_contention<K: Ord, V>(map: BptreeMap<K, V>) -> (r: (
    BptreeMap<K, V>,
    BptreeMap<K, V>,
))
    ensures
        r.0.genesis() == map.genesis() && r.1.genesis() == map.genesis(),
        forall|i: int| #[trigger] r.0.version(i) == map.version(i),
        forall|i: int| #[trigger] r.1.version(i) == map.version(i),
        !r.0.contended(),
        r.1.contended(),
{
    (map.lemma_contention(false), map.lemma_contention(true))
}

/// A map made from items has the contents of a new map into which a writer put the items and
/// committed them. Without items both are empty.
pub proof fn law_from_iter<'a, 'b, 'c, K: Ord, V>(
    made: BptreeMap<K, V>,
    filled: BptreeMap<K, V>,
    items: Seq<(K, V)>,
    writer: BptreeMapWriteTxn<'a, K, V>,
    committed: Committed<'a, K, V>,
    of_made: BptreeMapReadTxn<'b, K, V>,
    of_filled: BptreeMapReadTxn<'c, K, V>,
)
    requires
        made.genesis() == seq![
            Seq::<(K, V)>::empty(),
            model::with_all(Seq::<(K, V)>::empty(), items),
        ],
        filled.genesis() == seq![Seq::<(K, V)>::empty()],
        writes(writer, filled.genesis()),
        writer@ == model::with_all(filled.genesis().last(), items),
        commits(writer, committed),
        reads(of_made, made.genesis()),
        reads(of_filled, committed.versions()),
    ensures
        of_made@ == of_filled@,
        items.len() == 0 ==> of_made@ == Seq::<(K, V)>::empty(),
{
    of_made.lemma_reads_last();
    of_filled.lemma_reads_last();
}

/// The tree of a read transaction is flat: a search goes through no more levels than the
/// logarithm of the number of entries.
pub proof fn law_read_depth<'a, K: Ord, V>(
    txn: BptreeMapReadTxn<'a, K, V>,
)
    requires
        txn.well_formed(),
    ensures
        txn@.len() == 0 ==> txn.depth() == 0,
        txn@.len() > 0 ==> power2::pow2(txn.depth()) <= txn@.len(),
{
    txn.lemma_depth();
}

/// The tree of a write transaction is flat, whatever has been done to it.
pub proof fn law_write_depth<'a, K: Ord, V>(
    txn: BptreeMapWriteTxn<'a, K, V>,
)
    requires
        txn.well_formed(),
    ensures
        txn@.len() == 0 ==> txn.depth() == 0,
        txn@.len() > 0 ==> power2::pow2(txn.depth()) <= txn@.len(),
{
    txn.lemma_depth();
}

} // verus!
