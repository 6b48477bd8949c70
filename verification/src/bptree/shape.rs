//! Facts about subtrees: how their entries are put together, and what keeps them in order.
use super::model;
use super::node;
use super::node::Node;
use super::order;
use std::sync::Arc;
use vstd::arithmetic::power2;
use vstd::prelude::*;

verus! {

/// Subtrees may be put together in two steps.
pub proof fn lemma_concat_add<K, V>(a: Seq<Arc<Node<K, V>>>, b: Seq<Arc<Node<K, V>>>)
    ensures
        node::concat(a + b) == node::concat(a) + node::concat(b),
    decreases b.len(),
{
    if b.len() == 0 {
        assert(a + b =~= a);
        assert(node::concat(a) + node::concat(b) =~= node::concat(a));
    } else {
        lemma_concat_add(a, b.drop_last());
        assert((a + b).drop_last() =~= a + b.drop_last());
        assert(node::concat(a + b) =~= node::concat(a) + node::concat(b));
    }
}

/// A subtree alone has its own entries.
pub proof fn lemma_concat_one<K, V>(x: Arc<Node<K, V>>)
    ensures
        node::concat(seq![x]) == x.entries(),
{
    assert(seq![x].drop_last() =~= Seq::<Arc<Node<K, V>>>::empty());
    assert(node::concat(seq![x].drop_last()) == Seq::<(K, V)>::empty());
    assert(node::concat(seq![x]) =~= x.entries());
}

/// The entries of child `i` lie between those of the children before and after it.
pub proof fn lemma_concat_split<K, V>(c: Seq<Arc<Node<K, V>>>, i: int)
    requires
        0 <= i < c.len(),
    ensures
        node::concat(c) == node::concat(c.take(i)) + c[i].entries() + node::concat(c.skip(i + 1)),
{
    lemma_concat_add(c.take(i) + seq![c[i]], c.skip(i + 1));
    lemma_concat_add(c.take(i), seq![c[i]]);
    lemma_concat_one(c[i]);
    assert(c =~= c.take(i) + seq![c[i]] + c.skip(i + 1));
}

/// What is below a key child by child is below it as a whole.
pub proof fn lemma_concat_below<K: Ord, V>(c: Seq<Arc<Node<K, V>>>, k: K)
    requires
        forall|j: int| 0 <= j < c.len() ==> model::all_below((#[trigger] c[j]).entries(), k),
    ensures
        model::all_below(node::concat(c), k),
    decreases c.len(),
{
    if c.len() > 0 {
        let d = c.drop_last();
        assert forall|j: int| 0 <= j < d.len() implies model::all_below(
            (#[trigger] d[j]).entries(),
            k,
        ) by {
            assert(d[j] == c[j]);
        }
        lemma_concat_below(d, k);
        assert(model::all_below(c[c.len() - 1].entries(), k));
        lemma_below_add(node::concat(d), node::behind(c.last()).entries(), k);
    }
}

/// What is not below a key child by child is not below it as a whole.
pub proof fn lemma_concat_none_below<K: Ord, V>(c: Seq<Arc<Node<K, V>>>, k: K)
    requires
        forall|j: int| 0 <= j < c.len() ==> model::none_below((#[trigger] c[j]).entries(), k),
    ensures
        model::none_below(node::concat(c), k),
    decreases c.len(),
{
    if c.len() > 0 {
        let d = c.drop_last();
        assert forall|j: int| 0 <= j < d.len() implies model::none_below(
            (#[trigger] d[j]).entries(),
            k,
        ) by {
            assert(d[j] == c[j]);
        }
        lemma_concat_none_below(d, k);
        assert(model::none_below(c[c.len() - 1].entries(), k));
        lemma_none_below_add(node::concat(d), node::behind(c.last()).entries(), k);
    }
}

/// Two runs are below a key if each is.
pub proof fn lemma_below_add<K: Ord, V>(a: Seq<(K, V)>, b: Seq<(K, V)>, k: K)
    ensures
        model::all_below(a + b, k) <==> model::all_below(a, k) && model::all_below(b, k),
{
    let s = a + b;
    if model::all_below(s, k) {
        assert forall|i: int| 0 <= i < a.len() implies order::precedes((#[trigger] a[i]).0, k) by {
            assert(s[i] == a[i]);
        }
        assert forall|i: int| 0 <= i < b.len() implies order::precedes((#[trigger] b[i]).0, k) by {
            assert(s[a.len() + i] == b[i]);
        }
    }
    if model::all_below(a, k) && model::all_below(b, k) {
        assert forall|i: int| 0 <= i < s.len() implies order::precedes((#[trigger] s[i]).0, k) by {
            if i < a.len() {
                assert(s[i] == a[i]);
            } else {
                assert(s[i] == b[i - a.len()]);
            }
        }
    }
}

/// Nothing of two runs is below a key if nothing of each is.
pub proof fn lemma_none_below_add<K: Ord, V>(a: Seq<(K, V)>, b: Seq<(K, V)>, k: K)
    ensures
        model::none_below(a + b, k) <==> model::none_below(a, k) && model::none_below(b, k),
{
    let s = a + b;
    if model::none_below(s, k) {
        assert forall|i: int| 0 <= i < a.len() implies !order::precedes(
            (#[trigger] a[i]).0,
            k,
        ) by {
            assert(s[i] == a[i]);
        }
        assert forall|i: int| 0 <= i < b.len() implies !order::precedes(
            (#[trigger] b[i]).0,
            k,
        ) by {
            assert(s[a.len() + i] == b[i]);
        }
    }
    if model::none_below(a, k) && model::none_below(b, k) {
        assert forall|i: int| 0 <= i < s.len() implies !order::precedes(
            (#[trigger] s[i]).0,
            k,
        ) by {
            if i < a.len() {
                assert(s[i] == a[i]);
            } else {
                assert(s[i] == b[i - a.len()]);
            }
        }
    }
}

/// Two sorted runs with a key between them are sorted as a whole.
pub proof fn lemma_sorted_add<K: Ord, V>(a: Seq<(K, V)>, b: Seq<(K, V)>, k: K)
    requires
        order::total_order::<K>(),
        model::sorted(a),
        model::sorted(b),
        model::all_below(a, k),
        model::none_below(b, k),
    ensures
        model::sorted(a + b),
{
    let s = a + b;
    assert forall|i: int, j: int|
        #![trigger s[i], s[j]]
        0 <= i < j < s.len() implies order::precedes(s[i].0, s[j].0) by {
        if j < a.len() {
            assert(s[i] == a[i] && s[j] == a[j]);
        } else if i < a.len() {
            assert(s[i] == a[i] && s[j] == b[j - a.len()]);
            order::lemma_between(s[i].0, s[j].0, k);
        } else {
            assert(s[i] == b[i - a.len()] && s[j] == b[j - a.len()]);
        }
    }
}

/// A part of a sorted run is sorted.
pub proof fn lemma_sorted_parts<K: Ord, V>(a: Seq<(K, V)>, b: Seq<(K, V)>)
    requires
        model::sorted(a + b),
    ensures
        model::sorted(a),
        model::sorted(b),
{
    let s = a + b;
    assert forall|i: int, j: int|
        #![trigger a[i], a[j]]
        0 <= i < j < a.len() implies order::precedes(a[i].0, a[j].0) by {
        assert(s[i] == a[i] && s[j] == a[j]);
    }
    assert forall|i: int, j: int|
        #![trigger b[i], b[j]]
        0 <= i < j < b.len() implies order::precedes(b[i].0, b[j].0) by {
        assert(s[a.len() + i] == b[i] && s[a.len() + j] == b[j]);
    }
}

/// A node below the root holds at least one entry.
pub proof fn lemma_not_empty<K: Ord, V>(n: Node<K, V>)
    requires
        n.ordered(),
        n.least() <= n.count(),
    ensures
        n.entries().len() > 0,
    decreases n,
{
    match n {
        Node::Leaf(_) => {},
        Node::Branch(b) => {
            assert(b.children@[0].ordered());
            lemma_not_empty(node::behind(b.children@[0]));
            lemma_concat_split(b.children@, 0);
        },
    }
}

/// A node with `h` levels below it holds at least `2` to the power `h` entries.
pub proof fn lemma_depth<K: Ord, V>(n: Node<K, V>)
    requires
        n.ordered(),
        n.least() <= n.count(),
    ensures
        power2::pow2(n.height()) <= n.entries().len(),
    decreases n,
{
    match n {
        Node::Leaf(_) => {
            power2::lemma2_to64();
        },
        Node::Branch(b) => {
            let c = b.children@;
            assert(c[0].ordered() && c[1].ordered());
            lemma_depth(node::behind(c[0]));
            lemma_depth(node::behind(c[1]));
            lemma_concat_split(c, 0);
            lemma_concat_split(c.skip(1), 0);
            assert(c.skip(1)[0] == c[1]);
            power2::lemma_pow2_unfold(n.height());
        },
    }
}

/// Every child of an ordered branch holds at least one entry.
pub proof fn lemma_children_filled<K: Ord, V>(n: Node<K, V>)
    requires
        n.ordered(),
        n is Branch,
    ensures
        forall|j: int|
            0 <= j < n->Branch_0.children@.len() ==> (
            #[trigger] n->Branch_0.children@[j]).entries().len() > 0,
{
    let c = n->Branch_0.children@;
    assert forall|j: int| 0 <= j < c.len() implies (#[trigger] c[j]).entries().len() > 0 by {
        lemma_not_empty(node::behind(c[j]));
    }
}

/// The entries of an ordered subtree are sorted.
pub proof fn lemma_sorted<K: Ord, V>(n: Node<K, V>)
    requires
        order::total_order::<K>(),
        n.ordered(),
    ensures
        model::sorted(n.entries()),
    decreases n, n.count() + 2,
{
    if let Node::Branch(b) = n {
        lemma_sorted_prefix(n, b.children@.len() as int);
        assert(b.children@.take(b.children@.len() as int) =~= b.children@);
    }
}

/// The entries of the first `m` children are sorted.
proof fn lemma_sorted_prefix<K: Ord, V>(n: Node<K, V>, m: int)
    requires
        order::total_order::<K>(),
        n.ordered(),
        n is Branch,
        0 <= m <= n->Branch_0.children@.len(),
    ensures
        model::sorted(node::concat(n->Branch_0.children@.take(m))),
    decreases n, m + 1,
{
    let b = n->Branch_0;
    let c = b.children@;
    if m > 0 {
        lemma_sorted_prefix(n, m - 1);
        assert(c[m - 1].ordered());
        lemma_sorted(node::behind(c[m - 1]));
        let d = c.take(m);
        assert(d.drop_last() =~= c.take(m - 1));
        assert(d.last() == c[m - 1]);
        if m == 1 {
            assert(node::concat(d) =~= c[0].entries());
        } else {
            let k = node::behind(b.keys@[m - 2]);
            let e = c.take(m - 1);
            assert forall|j: int| 0 <= j < e.len() implies model::all_below(
                (#[trigger] e[j]).entries(),
                k,
            ) by {
                assert(e[j] == c[j]);
            }
            lemma_concat_below(e, k);
            assert(model::none_below(c[m - 1].entries(), k));
            lemma_sorted_add(node::concat(e), node::behind(c[m - 1]).entries(), k);
        }
    }
}

/// A clone of a node is as good as the node.
pub proof fn lemma_cloned<K: Ord, V>(n: Node<K, V>, copy: Node<K, V>)
    requires
        cloned(n, copy),
    ensures
        copy.copies(n),
        copy.entries() == n.entries(),
        copy.height() == n.height(),
        copy.count() == n.count(),
        copy.least() == n.least(),
        copy.capacity() == n.capacity(),
        copy.ordered() == n.ordered(),
{
}

/// The keys of a branch stand in order, as there is something between any two of them.
pub proof fn lemma_keys_ascend<K: Ord, V>(
    keys: Seq<Arc<K>>,
    c: Seq<Arc<Node<K, V>>>,
    i: int,
    j: int,
)
    requires
        order::total_order::<K>(),
        keys.len() + 1 == c.len(),
        node::separated(keys, c),
        0 <= i < j < keys.len(),
        c[j].entries().len() > 0,
    ensures
        order::precedes(*keys[i], *keys[j]),
{
    let e = node::behind(c[j]).entries()[0].0;
    assert(model::all_below(c[j].entries(), *keys[j]));
    assert(model::none_below(c[j].entries(), *keys[i]));
    order::lemma_between(e, node::behind(keys[i]), node::behind(keys[j]));
}

/// Child `i` is where a search for `k` goes on: no key before it comes after `k`, and the
/// key at its right does.
pub open spec fn leads_to<K: Ord>(keys: Seq<Arc<K>>, k: K, i: int) -> bool {
    &&& 0 <= i <= keys.len()
    &&& forall|p: int| 0 <= p < i ==> !order::precedes(k, *(#[trigger] keys[p]))
    &&& i < keys.len() ==> order::precedes(k, *keys[i])
}

/// What stands outside the child that a search for `k` goes to is on the other side of a key
/// of the branch.
pub proof fn lemma_outside<K: Ord, V>(keys: Seq<Arc<K>>, c: Seq<Arc<Node<K, V>>>, k: K, i: int)
    requires
        order::total_order::<K>(),
        keys.len() + 1 == c.len(),
        node::separated(keys, c),
        forall|j: int| 0 <= j < c.len() ==> (#[trigger] c[j]).entries().len() > 0,
        leads_to(keys, k, i),
    ensures
        model::all_below(node::concat(c.take(i)), k),
        model::all_above(node::concat(c.skip(i + 1)), k),
        forall|p: int| i <= p < keys.len() ==> order::precedes(k, *(#[trigger] keys[p])),
{
    let l = c.take(i);
    assert forall|j: int| 0 <= j < l.len() implies model::all_below(
        (#[trigger] l[j]).entries(),
        k,
    ) by {
        assert(l[j] == c[j]);
        let q = node::behind(keys[i - 1]);
        let s = node::behind(c[j]).entries();
        assert(model::all_below(s, q));
        assert(!order::precedes(k, *keys[i - 1]));
        assert forall|t: int| 0 <= t < s.len() implies order::precedes((#[trigger] s[t]).0, k) by {
            order::lemma_between(s[t].0, k, q);
        }
    }
    lemma_concat_below(l, k);
    let r = c.skip(i + 1);
    assert forall|j: int| 0 <= j < r.len() implies model::all_above(
        (#[trigger] r[j]).entries(),
        k,
    ) by {
        assert(r[j] == c[i + 1 + j]);
        let q = node::behind(keys[i]);
        let s = node::behind(r[j]).entries();
        assert(model::none_below(c[i + 1 + j].entries(), *keys[i]));
        assert forall|t: int| 0 <= t < s.len() implies order::precedes(k, (#[trigger] s[t]).0) by {
            order::lemma_between(k, s[t].0, q);
        }
    }
    lemma_concat_above(r, k);
    assert forall|p: int| i <= p < keys.len() implies order::precedes(
        k,
        *(#[trigger] keys[p]),
    ) by {
        if i < p {
            assert(c[p].entries().len() > 0);
            lemma_keys_ascend(keys, c, i, p);
            order::lemma_transitive(k, node::behind(keys[i]), node::behind(keys[p]));
        }
    }
}

/// What a search for `k` finds in a branch is what it finds in the child that it goes to: the
/// other children hold nothing that matters to `k`.
pub proof fn lemma_descend<K: Ord, V>(n: Node<K, V>, k: K, i: int)
    requires
        order::total_order::<K>(),
        n.ordered(),
        n is Branch,
        leads_to(n->Branch_0.keys@, k, i),
    ensures
        ({
            let keys = n->Branch_0.keys@;
            let c = n->Branch_0.children@;
            let p = node::concat(c.take(i));
            let m = c[i].entries();
            let q = node::concat(c.skip(i + 1));
            &&& c[i].ordered()
            &&& c[i].sized()
            &&& c[i].height() + 1 == n.height()
            &&& n.entries() == p + m + q
            &&& model::sorted(m)
            &&& model::all_below(p, k)
            &&& model::all_above(q, k)
            &&& model::has_key(n.entries(), k) == model::has_key(m, k)
            &&& model::value_of(n.entries(), k) == model::value_of(m, k)
            &&& forall|t: int| i <= t < keys.len() ==> order::precedes(k, *(#[trigger] keys[t]))
        }),
{
    let keys = n->Branch_0.keys@;
    let c = n->Branch_0.children@;
    assert(c[i].ordered());
    lemma_children_filled(n);
    lemma_outside(keys, c, k, i);
    lemma_concat_split(c, i);
    lemma_sorted(node::behind(c[i]));
    model::lemma_rank_local(
        node::concat(c.take(i)),
        node::behind(c[i]).entries(),
        node::concat(c.skip(i + 1)),
        k,
    );
}

/// What is above a key child by child is above it as a whole.
pub proof fn lemma_concat_above<K: Ord, V>(c: Seq<Arc<Node<K, V>>>, k: K)
    requires
        forall|j: int| 0 <= j < c.len() ==> model::all_above((#[trigger] c[j]).entries(), k),
    ensures
        model::all_above(node::concat(c), k),
    decreases c.len(),
{
    if c.len() > 0 {
        let d = c.drop_last();
        assert forall|j: int| 0 <= j < d.len() implies model::all_above(
            (#[trigger] d[j]).entries(),
            k,
        ) by {
            assert(d[j] == c[j]);
        }
        lemma_concat_above(d, k);
        let a = node::concat(d);
        let b = node::behind(c.last()).entries();
        assert(model::all_above(c[c.len() - 1].entries(), k));
        let s = node::concat(c);
        assert(s == a + b);
        assert forall|i: int| 0 <= i < s.len() implies order::precedes(k, (#[trigger] s[i]).0) by {
            if i < a.len() {
                assert(s[i] == a[i]);
            } else {
                assert(s[i] == b[i - a.len()]);
            }
        }
    }
}

/// Setting a value keeps a run on its side of a key that its own key is on.
pub proof fn lemma_with_bounds<K: Ord, V>(s: Seq<(K, V)>, k: K, v: V, q: K)
    requires
        order::total_order::<K>(),
        model::sorted(s),
    ensures
        model::all_below(s, q) && order::precedes(k, q) ==> model::all_below(
            model::with(s, k, v),
            q,
        ),
        model::none_below(s, q) && !order::precedes(k, q) ==> model::none_below(
            model::with(s, k, v),
            q,
        ),
{
    model::lemma_rank(s, k);
    let r = model::rank(s, k);
    let t = model::with(s, k, v);
    assert forall|i: int| 0 <= i < t.len() implies (#[trigger] t[i]).0 == k || exists|j: int|
        0 <= j < s.len() && (#[trigger] s[j]).0 == t[i].0 by {
        if model::has_key(s, k) {
            assert(s[i].0 == t[i].0);
        } else if i < r {
            assert(s[i].0 == t[i].0);
        } else if i > r {
            assert(s[i - 1].0 == t[i].0);
        }
    }
}

/// Removing a key keeps a run on its side of any key.
pub proof fn lemma_without_bounds<K: Ord, V>(s: Seq<(K, V)>, k: K, q: K)
    requires
        order::total_order::<K>(),
        model::sorted(s),
    ensures
        model::all_below(s, q) ==> model::all_below(model::without(s, k), q),
        model::none_below(s, q) ==> model::none_below(model::without(s, k), q),
{
    model::lemma_rank(s, k);
    let r = model::rank(s, k);
    let t = model::without(s, k);
    assert forall|i: int| 0 <= i < t.len() implies exists|j: int|
        0 <= j < s.len() && (#[trigger] s[j]) == #[trigger] t[i] by {
        if !model::has_key(s, k) || i < r {
            assert(s[i] == t[i]);
        } else {
            assert(s[i + 1] == t[i]);
        }
    }
}

/// Another subtree may take the place of child `i` if it keeps to the same side of each key.
pub proof fn lemma_replace<K: Ord, V>(
    keys: Seq<Arc<K>>,
    c: Seq<Arc<Node<K, V>>>,
    i: int,
    x: Arc<Node<K, V>>,
)
    requires
        keys.len() + 1 == c.len(),
        node::separated(keys, c),
        0 <= i < c.len(),
        forall|p: int|
            0 <= p < i ==> model::none_below(x.entries(), *(#[trigger] keys[p])),
        forall|p: int|
            i <= p < keys.len() ==> model::all_below(x.entries(), *(#[trigger] keys[p])),
    ensures
        node::separated(keys, c.update(i, x)),
        node::concat(c.update(i, x)) == node::concat(c.take(i)) + x.entries() + node::concat(
            c.skip(i + 1),
        ),
{
    let d = c.update(i, x);
    lemma_concat_split(d, i);
    assert(d.take(i) =~= c.take(i));
    assert(d.skip(i + 1) =~= c.skip(i + 1));
    assert forall|a: int, b: int|
        #![trigger keys[a], d[b]]
        0 <= a < keys.len() && 0 <= b < d.len() implies if b <= a {
        model::all_below(d[b].entries(), *keys[a])
    } else {
        model::none_below(d[b].entries(), *keys[a])
    } by {
        if b != i {
            assert(d[b] == c[b]);
        }
    }
}

/// Child `i` may be parted in two, with the key that parts them between them.
pub proof fn lemma_part<K: Ord, V>(
    keys: Seq<Arc<K>>,
    c: Seq<Arc<Node<K, V>>>,
    i: int,
    l: Arc<Node<K, V>>,
    q: Arc<K>,
    r: Arc<Node<K, V>>,
)
    requires
        order::total_order::<K>(),
        keys.len() + 1 == c.len(),
        node::separated(keys, c),
        0 <= i < c.len(),
        c[i].entries() == l.entries() + r.entries(),
        l.entries().len() > 0,
        r.entries().len() > 0,
        model::all_below(l.entries(), *q),
        model::none_below(r.entries(), *q),
    ensures
        node::separated(keys.insert(i, q), c.update(i, l).insert(i + 1, r)),
        node::concat(c.update(i, l).insert(i + 1, r)) == node::concat(c),
{
    let ks = keys.insert(i, q);
    let d = c.update(i, l).insert(i + 1, r);
    lemma_concat_split(c, i);
    lemma_concat_split(d, i);
    lemma_concat_split(d.skip(i + 1), 0);
    assert(d.take(i) =~= c.take(i));
    assert(d.skip(i + 1).skip(1) =~= c.skip(i + 1));
    assert(d.skip(i + 1)[0] == r);
    assert(d.skip(i + 1).take(0) =~= Seq::<Arc<Node<K, V>>>::empty());
    assert(node::concat(d) =~= node::concat(c));
    let le = node::behind(l).entries();
    let re = node::behind(r).entries();
    let qk = node::behind(q);
    assert forall|a: int, b: int|
        #![trigger ks[a], d[b]]
        0 <= a < ks.len() && 0 <= b < d.len() implies if b <= a {
        model::all_below(d[b].entries(), *ks[a])
    } else {
        model::none_below(d[b].entries(), *ks[a])
    } by {
        let j = if b <= i { b } else { b - 1 };
        if a != i {
            let p = if a < i { a } else { a - 1 };
            assert(ks[a] == keys[p]);
            lemma_below_add(le, re, node::behind(keys[p]));
            lemma_none_below_add(le, re, node::behind(keys[p]));
            if b != i && b != i + 1 {
                assert(d[b] == c[j]);
            }
        } else if b < i {
            assert(d[b] == c[b]);
            let p = node::behind(keys[i - 1]);
            let s = node::behind(c[b]).entries();
            assert(model::all_below(c[b].entries(), *keys[i - 1]));
            assert(model::none_below(c[i].entries(), *keys[i - 1]));
            lemma_none_below_add(le, re, p);
            assert forall|t: int| 0 <= t < s.len() implies order::precedes(
                (#[trigger] s[t]).0,
                qk,
            ) by {
                order::lemma_between(s[t].0, le[0].0, p);
                order::lemma_transitive(s[t].0, le[0].0, qk);
            }
        } else if b > i + 1 {
            assert(d[b] == c[j]);
            let p = node::behind(keys[i]);
            let s = node::behind(c[j]).entries();
            assert(model::none_below(c[j].entries(), *keys[i]));
            assert(model::all_below(c[i].entries(), *keys[i]));
            lemma_below_add(le, re, p);
            assert forall|t: int| 0 <= t < s.len() implies !order::precedes(
                (#[trigger] s[t]).0,
                qk,
            ) by {
                order::lemma_between(re[0].0, s[t].0, p);
                order::lemma_transitive(re[0].0, s[t].0, qk);
            }
        }
    }
}

/// Two neighbouring children may become one.
pub proof fn lemma_join<K: Ord, V>(
    keys: Seq<Arc<K>>,
    c: Seq<Arc<Node<K, V>>>,
    i: int,
    m: Arc<Node<K, V>>,
)
    requires
        keys.len() + 1 == c.len(),
        node::separated(keys, c),
        0 <= i < keys.len(),
        m.entries() == c[i].entries() + c[i + 1].entries(),
    ensures
        node::separated(keys.remove(i), c.remove(i + 1).update(i, m)),
        node::concat(c.remove(i + 1).update(i, m)) == node::concat(c),
{
    let ks = keys.remove(i);
    let d = c.remove(i + 1).update(i, m);
    lemma_concat_split(d, i);
    lemma_concat_split(c, i);
    lemma_concat_split(c.skip(i + 1), 0);
    assert(d.take(i) =~= c.take(i));
    assert(d.skip(i + 1) =~= c.skip(i + 1).skip(1));
    assert(c.skip(i + 1)[0] == c[i + 1]);
    assert(c.skip(i + 1).take(0) =~= Seq::<Arc<Node<K, V>>>::empty());
    assert(node::concat(d) =~= node::concat(c));
    let le = node::behind(c[i]).entries();
    let re = node::behind(c[i + 1]).entries();
    assert forall|a: int, b: int|
        #![trigger ks[a], d[b]]
        0 <= a < ks.len() && 0 <= b < d.len() implies if b <= a {
        model::all_below(d[b].entries(), *ks[a])
    } else {
        model::none_below(d[b].entries(), *ks[a])
    } by {
        let p = if a < i { a } else { a + 1 };
        assert(ks[a] == keys[p]);
        if b == i {
            lemma_below_add(le, re, node::behind(keys[p]));
            lemma_none_below_add(le, re, node::behind(keys[p]));
        } else {
            let j = if b < i { b } else { b + 1 };
            assert(d[b] == c[j]);
        }
    }
}

/// Two branches may become one, with a key that parts them between them.
pub proof fn lemma_chain<K: Ord, V>(
    lk: Seq<Arc<K>>,
    lc: Seq<Arc<Node<K, V>>>,
    q: Arc<K>,
    rk: Seq<Arc<K>>,
    rc: Seq<Arc<Node<K, V>>>,
)
    requires
        order::total_order::<K>(),
        lk.len() + 1 == lc.len(),
        rk.len() + 1 == rc.len(),
        node::separated(lk, lc),
        node::separated(rk, rc),
        forall|j: int| 0 <= j < lc.len() ==> (#[trigger] lc[j]).entries().len() > 0,
        forall|j: int| 0 <= j < rc.len() ==> (#[trigger] rc[j]).entries().len() > 0,
        model::all_below(node::concat(lc), *q),
        model::none_below(node::concat(rc), *q),
    ensures
        node::separated(lk.push(q) + rk, lc + rc),
        node::concat(lc + rc) == node::concat(lc) + node::concat(rc),
{
    lemma_concat_add(lc, rc);
    let ks = lk.push(q) + rk;
    let d = lc + rc;
    let n = lk.len() as int;
    let qk = node::behind(q);
    assert forall|j: int| 0 <= j < lc.len() implies model::all_below(
        (#[trigger] lc[j]).entries(),
        qk,
    ) by {
        lemma_concat_split(lc, j);
        let p = node::concat(lc.take(j));
        let m = node::behind(lc[j]).entries();
        lemma_below_add(p + m, node::concat(lc.skip(j + 1)), qk);
        lemma_below_add(p, m, qk);
    }
    assert forall|j: int| 0 <= j < rc.len() implies model::none_below(
        (#[trigger] rc[j]).entries(),
        qk,
    ) by {
        lemma_concat_split(rc, j);
        let p = node::concat(rc.take(j));
        let m = node::behind(rc[j]).entries();
        lemma_none_below_add(p + m, node::concat(rc.skip(j + 1)), qk);
        lemma_none_below_add(p, m, qk);
    }
    assert forall|a: int, b: int|
        #![trigger ks[a], d[b]]
        0 <= a < ks.len() && 0 <= b < d.len() implies if b <= a {
        model::all_below(d[b].entries(), *ks[a])
    } else {
        model::none_below(d[b].entries(), *ks[a])
    } by {
        if b <= n {
            assert(d[b] == lc[b]);
            let s = node::behind(lc[b]).entries();
            if a < n {
                assert(ks[a] == lk[a]);
            } else if a == n {
                assert(ks[a] == q);
            } else {
                let t = a - n - 1;
                assert(ks[a] == rk[t]);
                let k = node::behind(rk[t]);
                let f = node::behind(rc[t]).entries();
                assert(rc[t].entries().len() > 0);
                assert(model::all_below(rc[t].entries(), *rk[t]));
                assert forall|x: int| 0 <= x < s.len() implies order::precedes(
                    (#[trigger] s[x]).0,
                    k,
                ) by {
                    order::lemma_between(s[x].0, f[0].0, qk);
                    order::lemma_transitive(s[x].0, f[0].0, k);
                }
            }
        } else {
            let j = b - n - 1;
            assert(d[b] == rc[j]);
            let s = node::behind(rc[j]).entries();
            if a > n {
                assert(ks[a] == rk[a - n - 1]);
            } else if a == n {
                assert(ks[a] == q);
            } else {
                assert(ks[a] == lk[a]);
                let k = node::behind(lk[a]);
                let f = node::behind(lc[a + 1]).entries();
                assert(lc[a + 1].entries().len() > 0);
                assert(model::none_below(lc[a + 1].entries(), *lk[a]));
                assert forall|x: int| 0 <= x < s.len() implies !order::precedes(
                    (#[trigger] s[x]).0,
                    k,
                ) by {
                    if order::precedes(s[x].0, k) {
                        order::lemma_between(s[x].0, f[0].0, k);
                        order::lemma_transitive(s[x].0, f[0].0, qk);
                    }
                }
            }
        }
    }
}

/// A branch may become two, parted by one of its keys.
pub proof fn lemma_cut<K: Ord, V>(keys: Seq<Arc<K>>, c: Seq<Arc<Node<K, V>>>, at: int)
    requires
        keys.len() + 1 == c.len(),
        node::separated(keys, c),
        0 < at < c.len(),
    ensures
        node::separated(keys.take(at - 1), c.take(at)),
        node::separated(keys.skip(at), c.skip(at)),
        model::all_below(node::concat(c.take(at)), *keys[at - 1]),
        model::none_below(node::concat(c.skip(at)), *keys[at - 1]),
        node::concat(c) == node::concat(c.take(at)) + node::concat(c.skip(at)),
{
    let l = c.take(at);
    let r = c.skip(at);
    let q = node::behind(keys[at - 1]);
    assert(c =~= l + r);
    lemma_concat_add(l, r);
    assert forall|j: int| 0 <= j < l.len() implies model::all_below(
        (#[trigger] l[j]).entries(),
        q,
    ) by {
        assert(l[j] == c[j]);
    }
    lemma_concat_below(l, q);
    assert forall|j: int| 0 <= j < r.len() implies model::none_below(
        (#[trigger] r[j]).entries(),
        q,
    ) by {
        assert(r[j] == c[at + j]);
    }
    lemma_concat_none_below(r, q);
    let kl = keys.take(at - 1);
    assert forall|a: int, b: int|
        #![trigger kl[a], l[b]]
        0 <= a < kl.len() && 0 <= b < l.len() implies if b <= a {
        model::all_below(l[b].entries(), *kl[a])
    } else {
        model::none_below(l[b].entries(), *kl[a])
    } by {
        assert(kl[a] == keys[a] && l[b] == c[b]);
    }
    let kr = keys.skip(at);
    assert forall|a: int, b: int|
        #![trigger kr[a], r[b]]
        0 <= a < kr.len() && 0 <= b < r.len() implies if b <= a {
        model::all_below(r[b].entries(), *kr[a])
    } else {
        model::none_below(r[b].entries(), *kr[a])
    } by {
        assert(kr[a] == keys[at + a] && r[b] == c[at + b]);
    }
}

} // verus!
