//! The nodes of the tree, and what each operation does to a subtree.
//!
//! A node is shared between the versions of a map until a writer changes it: the writer
//! then works on a copy of its own. Keys and values are shared in the same way.
use super::model;
use super::order;
use super::order::Place;
use super::shape;
use std::sync::Arc;
use vstd::prelude::*;

verus! {

/// The most entries that a leaf holds.
pub const L_CAPACITY: usize = 7;

/// The most children that a branch holds.
pub const BV_CAPACITY: usize = 8;

/// The bottom level of the tree: entries in key order.
pub struct Leaf<K, V> {
    pub entries: Vec<(Arc<K>, Arc<V>)>,
}

/// An inner level of the tree: child `i` holds what comes before key `i`, and child
/// `i + 1` holds what does not.
pub struct Branch<K, V> {
    pub keys: Vec<Arc<K>>,
    pub children: Vec<Arc<Node<K, V>>>,
}

/// A node of the tree.
pub enum Node<K, V> {
    Leaf(Leaf<K, V>),
    Branch(Branch<K, V>),
}

/// What a shared pointer points to.
pub open spec fn behind<T>(a: Arc<T>) -> T {
    *a
}

/// The entries of a leaf, seen through the pointers that share them.
pub open spec fn pairs<K, V>(s: Seq<(Arc<K>, Arc<V>)>) -> Seq<(K, V)> {
    Seq::new(s.len(), |i: int| (*s[i].0, *s[i].1))
}

/// The entries of several subtrees, one subtree after the other.
pub open spec fn concat<K, V>(c: Seq<Arc<Node<K, V>>>) -> Seq<(K, V)>
    decreases c,
{
    if c.len() == 0 {
        Seq::empty()
    } else {
        concat(c.drop_last()) + c.last().entries()
    }
}

/// Every key parts the children to its left from those to its right.
pub open spec fn separated<K: Ord, V>(keys: Seq<Arc<K>>, c: Seq<Arc<Node<K, V>>>) -> bool {
    forall|i: int, j: int|
        #![trigger keys[i], c[j]]
        0 <= i < keys.len() && 0 <= j < c.len() ==> if j <= i {
            model::all_below(c[j].entries(), *keys[i])
        } else {
            model::none_below(c[j].entries(), *keys[i])
        }
}

impl<K, V> Node<K, V> {
    /// The entries of the subtree, in the order in which they are stored.
    pub open spec fn entries(self) -> Seq<(K, V)>
        decreases self,
    {
        match self {
            Node::Leaf(l) => pairs(l.entries@),
            Node::Branch(b) => concat(b.children@),
        }
    }

    /// The number of levels below this one.
    pub open spec fn height(self) -> nat
        decreases self,
    {
        match self {
            Node::Leaf(_) => 0,
            Node::Branch(b) => if b.children@.len() == 0 {
                1
            } else {
                b.children@[0].height() + 1
            },
        }
    }

    /// How much the node itself holds: entries in a leaf, children in a branch.
    pub open spec fn count(self) -> nat {
        match self {
            Node::Leaf(l) => l.entries@.len(),
            Node::Branch(b) => b.children@.len(),
        }
    }

    /// The least that a node below the root holds.
    pub open spec fn least(self) -> nat {
        match self {
            Node::Leaf(_) => 1,
            Node::Branch(_) => 2,
        }
    }

    /// The most that a node holds.
    pub open spec fn capacity(self) -> nat {
        match self {
            Node::Leaf(_) => L_CAPACITY as nat,
            Node::Branch(_) => BV_CAPACITY as nat,
        }
    }

    /// The node holds neither too little nor too much.
    pub open spec fn sized(self) -> bool {
        self.least() <= self.count() <= self.capacity()
    }

    /// The two nodes hold the same things.
    pub open spec fn copies(self, other: Self) -> bool {
        match (self, other) {
            (Node::Leaf(a), Node::Leaf(b)) => a.entries@ == b.entries@,
            (Node::Branch(a), Node::Branch(b)) => {
                &&& a.keys@ == b.keys@
                &&& a.children@ == b.children@
            },
            _ => false,
        }
    }
}

impl<K: Ord, V> Node<K, V> {
    /// The subtree is a search tree with all its leaves on one level, and every node below
    /// this one is neither too empty nor too full.
    pub open spec fn ordered(self) -> bool
        decreases self,
    {
        match self {
            Node::Leaf(l) => model::sorted(pairs(l.entries@)),
            Node::Branch(b) => {
                &&& b.keys@.len() + 1 == b.children@.len()
                &&& separated(b.keys@, b.children@)
                &&& forall|i: int|
                    0 <= i < b.children@.len() ==> {
                        &&& (#[trigger] b.children@[i]).ordered()
                        &&& b.children@[i].sized()
                        &&& b.children@[i].height() + 1 == self.height()
                    }
            },
        }
    }
}

/// `Arc::make_mut` of std hands out the value behind the pointer for writing: the value
/// itself where no other pointer shares it, and a clone of it, which the pointer then owns
/// alone, where another does.
#[verifier::external_body]
pub(crate) fn make_mut<T: Clone>(this: &mut Arc<T>) -> (r: &mut T)
    ensures
        cloned(**old(this), *r),
        **final(this) == *final(r),
{
    Arc::make_mut(this)
}

impl<K, V> Clone for Node<K, V> {
    /// Copies the node. What it holds is shared, not copied.
    fn clone(&self) -> (r: Self)
        ensures
            r.copies(*self),
    {
        match self {
            Node::Leaf(l) => {
                let n: usize = l.entries.len();
                let mut entries: Vec<(Arc<K>, Arc<V>)> = Vec::with_capacity(n);
                let mut i: usize = 0;
                while i < n
                    invariant
                        i <= n == l.entries@.len(),
                        entries@ == l.entries@.take(i as int),
                    decreases n - i,
                {
                    entries.push((l.entries[i].0.clone(), l.entries[i].1.clone()));
                    i = i + 1;
                    assert(entries@ =~= l.entries@.take(i as int));
                }
                assert(entries@ =~= l.entries@);
                Node::Leaf(Leaf { entries })
            },
            Node::Branch(b) => {
                let n: usize = b.keys.len();
                let mut keys: Vec<Arc<K>> = Vec::with_capacity(n);
                let mut i: usize = 0;
                while i < n
                    invariant
                        i <= n == b.keys@.len(),
                        keys@ == b.keys@.take(i as int),
                    decreases n - i,
                {
                    keys.push(b.keys[i].clone());
                    i = i + 1;
                    assert(keys@ =~= b.keys@.take(i as int));
                }
                assert(keys@ =~= b.keys@);
                let m: usize = b.children.len();
                let mut children: Vec<Arc<Node<K, V>>> = Vec::with_capacity(m);
                let mut j: usize = 0;
                while j < m
                    invariant
                        j <= m == b.children@.len(),
                        children@ == b.children@.take(j as int),
                    decreases m - j,
                {
                    children.push(b.children[j].clone());
                    j = j + 1;
                    assert(children@ =~= b.children@.take(j as int));
                }
                assert(children@ =~= b.children@);
                Node::Branch(Branch { keys, children })
            },
        }
    }
}

impl<K, V> Node<K, V> {
    /// The node holds more than it should.
    pub fn is_over(&self) -> (r: bool)
        ensures
            r == (self.count() > self.capacity()),
    {
        match self {
            Node::Leaf(l) => l.entries.len() > L_CAPACITY,
            Node::Branch(b) => b.children.len() > BV_CAPACITY,
        }
    }

    /// The node holds less than a node below the root should.
    fn is_under(&self) -> (r: bool)
        ensures
            r == (self.count() < self.least()),
    {
        match self {
            Node::Leaf(l) => l.entries.len() < 1,
            Node::Branch(b) => b.children.len() < 2,
        }
    }
}

impl<K, V> Node<K, V> {
    /// Checks that the node holds no more than it should, and enough for a root.
    pub fn root_fits(&self) -> (r: bool)
        ensures
            r == (self.count() <= self.capacity() && (*self is Branch ==> self.least()
                <= self.count())),
    {
        match self {
            Node::Leaf(_) => !self.is_over(),
            Node::Branch(_) => !self.is_over() && !self.is_under(),
        }
    }
}

impl<K: Ord, V> Node<K, V> {
    /// Moves the upper part of a node that is one over its capacity into a node of its own.
    ///
    /// Where entries arrive in ascending order, `ascending` leaves the lower part well filled.
    pub fn split(&mut self, ascending: bool) -> (r: (Arc<K>, Node<K, V>))
        requires
            order::total_order::<K>(),
            old(self).ordered(),
            old(self).count() == old(self).capacity() + 1,
        ensures
            final(self).ordered(),
            final(self).sized(),
            final(self).height() == old(self).height(),
            r.1.ordered(),
            r.1.sized(),
            r.1.height() == old(self).height(),
            old(self).entries() == final(self).entries() + r.1.entries(),
            model::all_below(final(self).entries(), *r.0),
            model::none_below(r.1.entries(), *r.0),
    {
        let ghost old_self = *self;
        match self {
            Node::Leaf(l) => {
                let at: usize = if ascending {
                    L_CAPACITY
                } else {
                    (L_CAPACITY + 1) / 2
                };
                let ghost all = pairs(l.entries@);
                let right = l.entries.split_off(at);
                let q = right[0].0.clone();
                proof {
                    let a = pairs(l.entries@);
                    let b = pairs(right@);
                    assert(all =~= a + b);
                    shape::lemma_sorted_parts(a, b);
                    assert forall|i: int| 0 <= i < a.len() implies order::precedes(
                        (#[trigger] a[i]).0,
                        behind(q),
                    ) by {
                        assert(all[i] == a[i] && all[a.len() as int] == b[0]);
                    }
                    assert forall|i: int| 0 <= i < b.len() implies !order::precedes(
                        (#[trigger] b[i]).0,
                        behind(q),
                    ) by {
                        if i == 0 {
                            order::lemma_irreflexive(behind(q));
                        } else {
                            assert(b[0].0 == behind(q));
                            order::lemma_asymmetric(behind(q), b[i].0);
                        }
                    }
                }
                (q, Node::Leaf(Leaf { entries: right }))
            },
            Node::Branch(b) => {
                let at: usize = if ascending {
                    BV_CAPACITY - 1
                } else {
                    (BV_CAPACITY + 1) / 2
                };
                let ghost keys = b.keys@;
                let ghost c = b.children@;
                let ghost h = old_self.height();
                let children = b.children.split_off(at);
                let right = b.keys.split_off(at);
                let q = b.keys[at - 1].clone();
                b.keys.truncate(at - 1);
                proof {
                    shape::lemma_cut(keys, c, at as int);
                    assert(b.keys@ =~= keys.take(at - 1));
                    assert(b.children@ =~= c.take(at as int));
                    assert(right@ =~= keys.skip(at as int));
                    assert(children@ =~= c.skip(at as int));
                    assert forall|i: int| 0 <= i < b.children@.len() implies {
                        &&& (#[trigger] b.children@[i]).ordered()
                        &&& b.children@[i].sized()
                        &&& b.children@[i].height() + 1 == h
                    } by {
                        assert(b.children@[i] == c[i]);
                    }
                    assert forall|i: int| 0 <= i < children@.len() implies {
                        &&& (#[trigger] children@[i]).ordered()
                        &&& children@[i].sized()
                        &&& children@[i].height() + 1 == h
                    } by {
                        assert(children@[i] == c[at + i]);
                    }
                }
                (q, Node::Branch(Branch { keys: right, children }))
            },
        }
    }

    /// Adds what a neighbour on the same level holds, to whose left this node stands.
    fn absorb(&mut self, q: Arc<K>, right: Arc<Node<K, V>>)
        requires
            order::total_order::<K>(),
            old(self).ordered(),
            right.ordered(),
            old(self).height() == right.height(),
            model::all_below(old(self).entries(), *q),
            model::none_below(right.entries(), *q),
        ensures
            final(self).ordered(),
            final(self).height() == old(self).height(),
            final(self).entries() == old(self).entries() + right.entries(),
            final(self).count() == old(self).count() + right.count(),
            final(self).capacity() == old(self).capacity(),
            final(self).least() == old(self).least(),
            final(self).capacity() == right.capacity(),
    {
        let ghost old_self = *self;
        let mut right = right;
        let ghost old_right = behind(right);
        proof {
            shape::lemma_sorted(old_self);
            shape::lemma_sorted(old_right);
        }
        let other = make_mut(&mut right);
        proof {
            shape::lemma_cloned(old_right, *other);
        }
        match self {
            Node::Leaf(a) => {
                if let Node::Leaf(b) = other {
                    a.entries.append(&mut b.entries);
                    proof {
                        assert(pairs(a.entries@) =~= old_self.entries() + old_right.entries());
                        shape::lemma_sorted_add(
                            old_self.entries(),
                            old_right.entries(),
                            behind(q),
                        );
                    }
                }
            },
            Node::Branch(a) => {
                if let Node::Branch(b) = other {
                    let ghost lk = a.keys@;
                    let ghost lc = a.children@;
                    let ghost rk = b.keys@;
                    let ghost rc = b.children@;
                    let ghost h = old_self.height();
                    proof {
                        assert forall|j: int| 0 <= j < lc.len() implies (
                        #[trigger] lc[j]).entries().len() > 0 by {
                            shape::lemma_not_empty(behind(lc[j]));
                        }
                        assert forall|j: int| 0 <= j < rc.len() implies (
                        #[trigger] rc[j]).entries().len() > 0 by {
                            shape::lemma_not_empty(behind(rc[j]));
                        }
                        shape::lemma_chain(lk, lc, q, rk, rc);
                    }
                    a.keys.push(q);
                    a.keys.append(&mut b.keys);
                    a.children.append(&mut b.children);
                    proof {
                        assert forall|i: int| 0 <= i < a.children@.len() implies {
                            &&& (#[trigger] a.children@[i]).ordered()
                            &&& a.children@[i].sized()
                            &&& a.children@[i].height() + 1 == h
                        } by {
                            if i < lc.len() {
                                assert(a.children@[i] == lc[i]);
                            } else {
                                assert(a.children@[i] == rc[i - lc.len()]);
                            }
                        }
                        assert(a.children@[0] == lc[0]);
                    }
                }
            },
        }
    }
}

/// The number of entries whose keys come before `k`.
fn rank_in<K: Ord, V>(entries: &Vec<(Arc<K>, Arc<V>)>, k: &K) -> (i: usize)
    requires
        order::total_order::<K>(),
        model::sorted(pairs(entries@)),
    ensures
        i <= entries@.len(),
        model::is_rank(pairs(entries@), *k, i as int),
        model::rank(pairs(entries@), *k) == i,
{
    let n: usize = entries.len();
    let mut i: usize = 0;
    let ghost s = pairs(entries@);
    while i < n && matches!(order::place_of(&*entries[i].0, k), Place::Before)
        invariant
            order::total_order::<K>(),
            i <= n == entries@.len(),
            s == pairs(entries@),
            model::sorted(s),
            forall|j: int| 0 <= j < i ==> order::precedes((#[trigger] s[j]).0, *k),
        ensures
            i < n ==> !order::precedes(s[i as int].0, *k),
        decreases n - i,
    {
        i = i + 1;
    }
    proof {
        assert forall|j: int| i <= j < s.len() implies !order::precedes(
            (#[trigger] s[j]).0,
            *k,
        ) by {
            if i < j {
                assert(order::precedes(s[i as int].0, s[j].0));
                order::lemma_transitive(s[i as int].0, s[j].0, *k);
            }
        }
        assert(model::is_rank(s, *k, i as int));
        model::lemma_rank_is(s, *k, i as int);
    }
    i
}

/// The child that a search for `k` goes to.
fn child_for<K: Ord>(keys: &Vec<Arc<K>>, k: &K) -> (i: usize)
    requires
        order::total_order::<K>(),
    ensures
        shape::leads_to(keys@, *k, i as int),
{
    let n: usize = keys.len();
    let mut i: usize = 0;
    while i < n && !matches!(order::place_of(k, &*keys[i]), Place::Before)
        invariant
            order::total_order::<K>(),
            i <= n == keys@.len(),
            forall|p: int| 0 <= p < i ==> !order::precedes(*k, *(#[trigger] keys@[p])),
        ensures
            i < n ==> order::precedes(*k, *keys@[i as int]),
        decreases n - i,
    {
        i = i + 1;
    }
    i
}

impl<K: Ord, V> Node<K, V> {
    /// Looks up the value for a key.
    pub fn search(&self, k: &K) -> (r: Option<&V>)
        requires
            order::total_order::<K>(),
            self.ordered(),
        ensures
            r matches Some(v) ==> model::value_of(self.entries(), *k) == Some(*v),
            r is None ==> model::value_of(self.entries(), *k) is None,
        decreases self,
    {
        match self {
            Node::Leaf(l) => {
                let i: usize = rank_in(&l.entries, k);
                if i < l.entries.len() && matches!(
                    order::place_of(&*l.entries[i].0, k),
                    Place::Same
                ) {
                    Some(&*l.entries[i].1)
                } else {
                    None
                }
            },
            Node::Branch(b) => {
                let i: usize = child_for(&b.keys, k);
                proof {
                    shape::lemma_descend(*self, *k, i as int);
                }
                b.children[i].search(k)
            },
        }
    }

    /// Makes `v` the value for `k`, and returns the value that it replaces. The node may then
    /// hold one more than its capacity.
    pub fn insert(&mut self, k: K, v: V) -> (r: Option<Arc<V>>)
        requires
            order::total_order::<K>(),
            old(self).ordered(),
            old(self).count() <= old(self).capacity(),
        ensures
            final(self).ordered(),
            final(self).height() == old(self).height(),
            final(self).capacity() == old(self).capacity(),
            old(self).count() <= final(self).count() <= old(self).count() + 1,
            final(self).entries() == model::with(old(self).entries(), k, v),
            r matches Some(p) ==> model::value_of(old(self).entries(), k) == Some(*p),
            r is None ==> model::value_of(old(self).entries(), k) is None,
        decreases old(self).height(),
    {
        let ghost old_self = *self;
        proof {
            shape::lemma_sorted(old_self);
            model::lemma_with_sorted(old_self.entries(), k, v);
        }
        match self {
            Node::Leaf(l) => {
                let i: usize = rank_in(&l.entries, &k);
                if i < l.entries.len() && matches!(
                    order::place_of(&*l.entries[i].0, &k),
                    Place::Same
                ) {
                    let previous = l.entries[i].1.clone();
                    l.entries[i].1 = Arc::new(v);
                    assert(pairs(l.entries@) =~= model::with(old_self.entries(), k, v));
                    Some(previous)
                } else {
                    l.entries.insert(i, (Arc::new(k), Arc::new(v)));
                    assert(pairs(l.entries@) =~= model::with(old_self.entries(), k, v));
                    None
                }
            },
            Node::Branch(b) => {
                let i: usize = child_for(&b.keys, &k);
                let ghost keys = b.keys@;
                let ghost c = b.children@;
                let ghost m = behind(c[i as int]).entries();
                let ghost h = old_self.height();
                proof {
                    shape::lemma_descend(old_self, k, i as int);
                    let p = concat(c.take(i as int));
                    let q = concat(c.skip(i + 1));
                    model::lemma_with_local(p, m, q, k, v);
                }
                let child = make_mut(&mut b.children[i]);
                proof {
                    shape::lemma_cloned(behind(c[i as int]), *child);
                }
                let previous = child.insert(k, v);
                let ghost x = b.children@[i as int];
                proof {
                    assert(b.children@ =~= c.update(i as int, x));
                    assert forall|p: int| 0 <= p < i implies model::none_below(
                        x.entries(),
                        *(#[trigger] keys[p]),
                    ) by {
                        shape::lemma_with_bounds(m, k, v, behind(keys[p]));
                        assert(model::none_below(c[i as int].entries(), *keys[p]));
                    }
                    assert forall|p: int| i <= p < keys.len() implies model::all_below(
                        x.entries(),
                        *(#[trigger] keys[p]),
                    ) by {
                        shape::lemma_with_bounds(m, k, v, behind(keys[p]));
                        assert(model::all_below(c[i as int].entries(), *keys[p]));
                    }
                    shape::lemma_replace(keys, c, i as int, x);
                    shape::lemma_not_empty(behind(x));
                }
                b.relieve(i, Ghost((h - 1) as nat));
                previous
            },
        }
    }
}

impl<K: Ord, V> Branch<K, V> {
    /// The children are in order, and each but child `i` is fit to stand below this branch at
    /// height `h`.
    pub open spec fn fit_but(self, i: int, h: nat) -> bool {
        &&& self.keys@.len() + 1 == self.children@.len()
        &&& separated(self.keys@, self.children@)
        &&& 0 <= i < self.children@.len()
        &&& forall|j: int|
            0 <= j < self.children@.len() ==> {
                &&& (#[trigger] self.children@[j]).ordered()
                &&& self.children@[j].height() == h
                &&& j != i ==> self.children@[j].sized()
            }
    }

    /// Splits child `i` where it holds one more than its capacity.
    fn relieve(&mut self, i: usize, Ghost(h): Ghost<nat>)
        requires
            order::total_order::<K>(),
            old(self).fit_but(i as int, h),
            old(self).children@[i as int].least() <= old(self).children@[i as int].count(),
            old(self).children@[i as int].count() <= old(self).children@[i as int].capacity() + 1,
        ensures
            Node::Branch(*final(self)).ordered(),
            Node::Branch(*final(self)).height() == h + 1,
            concat(final(self).children@) == concat(old(self).children@),
            old(self).children@.len() <= final(self).children@.len(),
            final(self).children@.len() <= old(self).children@.len() + 1,
    {
        let ghost keys = self.keys@;
        let ghost c = self.children@;
        let n: usize = self.children.len();
        let last = i == n - 1;
        if self.children[i].is_over() {
            let child = make_mut(&mut self.children[i]);
            proof {
                shape::lemma_cloned(behind(c[i as int]), *child);
            }
            let (q, right) = child.split(last);
            let ghost l = self.children@[i as int];
            let right = Arc::new(right);
            proof {
                shape::lemma_not_empty(behind(l));
                shape::lemma_not_empty(behind(right));
                shape::lemma_part(keys, c, i as int, l, q, right);
                assert(self.children@ =~= c.update(i as int, l));
            }
            self.keys.insert(i, q);
            self.children.insert(i + 1, right);
            proof {
                let d = self.children@;
                assert forall|j: int| 0 <= j < d.len() implies {
                    &&& (#[trigger] d[j]).ordered()
                    &&& d[j].sized()
                    &&& d[j].height() == h
                } by {
                    if j < i {
                        assert(d[j] == c[j]);
                    } else if j > i + 1 {
                        assert(d[j] == c[j - 1]);
                    }
                }
            }
        }
    }
}

impl<K: Ord, V> Node<K, V> {
    /// Removes the entry for `k`, and returns its value. The node may then hold one less than
    /// the least that a node below the root holds.
    pub fn remove(&mut self, k: &K) -> (r: Option<Arc<V>>)
        requires
            order::total_order::<K>(),
            old(self).ordered(),
            old(self).count() <= old(self).capacity(),
            *old(self) is Branch ==> old(self).least() <= old(self).count(),
        ensures
            final(self).ordered(),
            final(self).height() == old(self).height(),
            final(self).capacity() == old(self).capacity(),
            final(self).least() == old(self).least(),
            final(self).count() <= old(self).count() <= final(self).count() + 1,
            final(self).entries() == model::without(old(self).entries(), *k),
            r matches Some(p) ==> model::value_of(old(self).entries(), *k) == Some(*p),
            r is None ==> model::value_of(old(self).entries(), *k) is None,
        decreases old(self).height(),
    {
        let ghost old_self = *self;
        proof {
            shape::lemma_sorted(old_self);
            model::lemma_without_sorted(old_self.entries(), *k);
        }
        match self {
            Node::Leaf(l) => {
                let i: usize = rank_in(&l.entries, k);
                if i < l.entries.len() && matches!(
                    order::place_of(&*l.entries[i].0, k),
                    Place::Same
                ) {
                    let entry = l.entries.remove(i);
                    assert(pairs(l.entries@) =~= model::without(old_self.entries(), *k));
                    Some(entry.1)
                } else {
                    None
                }
            },
            Node::Branch(b) => {
                let i: usize = child_for(&b.keys, k);
                let ghost keys = b.keys@;
                let ghost c = b.children@;
                let ghost m = behind(c[i as int]).entries();
                let ghost h = old_self.height();
                proof {
                    shape::lemma_descend(old_self, *k, i as int);
                    let p = concat(c.take(i as int));
                    let q = concat(c.skip(i + 1));
                    model::lemma_without_local(p, m, q, *k);
                }
                let child = make_mut(&mut b.children[i]);
                proof {
                    shape::lemma_cloned(behind(c[i as int]), *child);
                }
                let removed = child.remove(k);
                let ghost x = b.children@[i as int];
                proof {
                    assert(b.children@ =~= c.update(i as int, x));
                    assert forall|p: int| 0 <= p < i implies model::none_below(
                        x.entries(),
                        *(#[trigger] keys[p]),
                    ) by {
                        shape::lemma_without_bounds(m, *k, behind(keys[p]));
                        assert(model::none_below(c[i as int].entries(), *keys[p]));
                    }
                    assert forall|p: int| i <= p < keys.len() implies model::all_below(
                        x.entries(),
                        *(#[trigger] keys[p]),
                    ) by {
                        shape::lemma_without_bounds(m, *k, behind(keys[p]));
                        assert(model::all_below(c[i as int].entries(), *keys[p]));
                    }
                    shape::lemma_replace(keys, c, i as int, x);
                }
                b.mend(i, Ghost((h - 1) as nat));
                removed
            },
        }
    }

    /// Hands out the value for `k` for writing. A value that other versions share is copied
    /// first.
    pub fn get_mut(&mut self, k: &K) -> (r: Option<&mut V>) where V: Clone
        requires
            order::total_order::<K>(),
            old(self).ordered(),
        ensures
            final(self).ordered(),
            final(self).height() == old(self).height(),
            final(self).count() == old(self).count(),
            final(self).capacity() == old(self).capacity(),
            final(self).least() == old(self).least(),
            r is Some <==> model::has_key(old(self).entries(), *k),
            r matches Some(v) ==> {
                &&& cloned(model::value_of(old(self).entries(), *k)->0, *v)
                &&& final(self).entries() == model::with(old(self).entries(), *k, *final(v))
            },
            r is None ==> final(self).entries() == old(self).entries(),
        decreases old(self).height(),
    {
        let ghost old_self = *self;
        match self {
            Node::Leaf(l) => {
                let i: usize = rank_in(&l.entries, k);
                if i < l.entries.len() && matches!(
                    order::place_of(&*l.entries[i].0, k),
                    Place::Same
                ) {
                    let v = make_mut(&mut l.entries[i].1);
                    proof {
                        assert(pairs(after_borrow(self)->Leaf_0.entries@) =~= model::with(
                            old_self.entries(),
                            *k,
                            *final(v),
                        ));
                    }
                    Some(v)
                } else {
                    None
                }
            },
            Node::Branch(b) => {
                let i: usize = child_for(&b.keys, k);
                let ghost keys = b.keys@;
                let ghost c = b.children@;
                let ghost m = behind(c[i as int]).entries();
                let ghost p = concat(c.take(i as int));
                let ghost q = concat(c.skip(i + 1));
                proof {
                    shape::lemma_descend(old_self, *k, i as int);
                }
                let child = make_mut(&mut b.children[i]);
                proof {
                    shape::lemma_cloned(behind(c[i as int]), *child);
                }
                let r = child.get_mut(k);
                proof {
                    let after = after_borrow(self)->Branch_0;
                    let x = after.children@[i as int];
                    assert(after.children@ =~= c.update(i as int, x));
                    if r is Some {
                        let v = *final(r->0);
                        model::lemma_with_local(p, m, q, *k, v);
                        assert forall|t: int| 0 <= t < keys.len() implies if t < i {
                            model::none_below(x.entries(), *(#[trigger] keys[t]))
                        } else {
                            model::all_below(x.entries(), *keys[t])
                        } by {
                            shape::lemma_with_bounds(m, *k, v, behind(keys[t]));
                            assert(c[i as int].entries() == m);
                        }
                    } else {
                        assert(c[i as int].entries() == m);
                    }
                    shape::lemma_replace(keys, c, i as int, x);
                }
                r
            },
        }
    }
}

impl<K: Ord, V> Branch<K, V> {
    /// Joins child `i` with a neighbour where it holds too little.
    fn mend(&mut self, i: usize, Ghost(h): Ghost<nat>)
        requires
            order::total_order::<K>(),
            old(self).fit_but(i as int, h),
            old(self).children@.len() >= 2,
            old(self).children@[i as int].least() <= old(self).children@[i as int].count() + 1,
            old(self).children@[i as int].count() <= old(self).children@[i as int].capacity(),
        ensures
            Node::Branch(*final(self)).ordered(),
            Node::Branch(*final(self)).height() == h + 1,
            concat(final(self).children@) == concat(old(self).children@),
            final(self).children@.len() <= old(self).children@.len(),
            old(self).children@.len() <= final(self).children@.len() + 1,
    {
        let ghost keys = self.keys@;
        let ghost c = self.children@;
        if self.children[i].is_under() {
            let j: usize = if i == 0 {
                0
            } else {
                i - 1
            };
            let q = self.keys.remove(j);
            let right = self.children.remove(j + 1);
            let left = make_mut(&mut self.children[j]);
            proof {
                assert(c[j as int].ordered() && c[j + 1].ordered());
                assert(keys[j as int] == q);
                shape::lemma_cloned(behind(c[j as int]), *left);
            }
            left.absorb(q, right);
            let ghost m = self.children@[j as int];
            proof {
                shape::lemma_join(keys, c, j as int, m);
                assert(self.children@ =~= c.remove(j + 1).update(j as int, m));
                let d = self.children@;
                assert forall|t: int| 0 <= t < d.len() implies {
                    &&& (#[trigger] d[t]).ordered()
                    &&& d[t].height() == h
                    &&& t != j ==> d[t].sized()
                } by {
                    if t < j {
                        assert(d[t] == c[t]);
                    } else if t > j {
                        assert(d[t] == c[t + 1]);
                    }
                }
            }
            self.relieve(j, Ghost(h));
        }
    }
}

impl<K, V> Node<K, V> {
    /// Appends the entries of the subtree to a list.
    pub fn collect<'a>(&'a self, out: &mut Vec<(&'a K, &'a V)>)
        ensures
            final(out)@.unref() == old(out)@.unref() + self.entries(),
        decreases self,
    {
        let ghost before = out@.unref();
        match self {
            Node::Leaf(l) => {
                let n: usize = l.entries.len();
                let mut i: usize = 0;
                let ghost all = pairs(l.entries@);
                assert(before =~= before + all.take(0));
                while i < n
                    invariant
                        i <= n == l.entries@.len(),
                        all == pairs(l.entries@),
                        out@.unref() == before + all.take(i as int),
                    decreases n - i,
                {
                    let ghost s = out@.unref();
                    out.push((&*l.entries[i].0, &*l.entries[i].1));
                    i = i + 1;
                    assert(out@.unref() =~= s.push(all[i - 1]));
                    assert(out@.unref() =~= before + all.take(i as int));
                }
                assert(all.take(n as int) =~= all);
            },
            Node::Branch(b) => {
                let n: usize = b.children.len();
                let mut i: usize = 0;
                let ghost c = b.children@;
                assert(c.take(0) =~= Seq::<Arc<Node<K, V>>>::empty());
                assert(before =~= before + concat(c.take(0)));
                while i < n
                    invariant
                        i <= n == b.children@.len(),
                        c == b.children@,
                        *self == Node::Branch(*b),
                        out@.unref() == before + concat(c.take(i as int)),
                    decreases n - i,
                {
                    assert(decreases_to!(*self => (*self)->Branch_0.children@[i as int]));
                    b.children[i].collect(out);
                    proof {
                        let d = c.take(i + 1);
                        assert(d.drop_last() =~= c.take(i as int));
                        assert(d.last() == c[i as int]);
                        assert(out@.unref() =~= before + concat(d));
                    }
                    i = i + 1;
                }
                assert(c.take(n as int) =~= c);
            },
        }
    }
}

impl<K: Ord, V> Node<K, V> {
    /// The first key of the subtree.
    pub fn first_key(&self) -> (r: Option<&Arc<K>>)
        requires
            self.ordered(),
        ensures
            r is Some <==> self.entries().len() > 0,
            r matches Some(k) ==> **k == self.entries()[0].0,
        decreases self,
    {
        match self {
            Node::Leaf(l) => {
                if l.entries.len() == 0 {
                    None
                } else {
                    Some(&l.entries[0].0)
                }
            },
            Node::Branch(b) => {
                proof {
                    let c = b.children@;
                    assert(c[0].ordered());
                    shape::lemma_children_filled(*self);
                    shape::lemma_concat_split(c, 0);
                    assert(c.take(0) =~= Seq::<Arc<Node<K, V>>>::empty());
                    assert(concat(c.take(0)) =~= Seq::<(K, V)>::empty());
                    assert(concat(c)[0] == c[0].entries()[0]);
                }
                b.children[0].first_key()
            },
        }
    }

    /// The last key of the subtree.
    pub fn last_key(&self) -> (r: Option<&Arc<K>>)
        requires
            self.ordered(),
        ensures
            r is Some <==> self.entries().len() > 0,
            r matches Some(k) ==> **k == self.entries().last().0,
        decreases self,
    {
        match self {
            Node::Leaf(l) => {
                let n: usize = l.entries.len();
                if n == 0 {
                    None
                } else {
                    Some(&l.entries[n - 1].0)
                }
            },
            Node::Branch(b) => {
                let n: usize = b.children.len();
                proof {
                    let c = b.children@;
                    assert(c[n - 1].ordered());
                    shape::lemma_children_filled(*self);
                }
                b.children[n - 1].last_key()
            },
        }
    }

    /// The two subtrees have as many levels.
    fn same_height(&self, other: &Self) -> (r: bool)
        requires
            self.ordered(),
            other.ordered(),
        ensures
            r == (self.height() == other.height()),
        decreases self,
    {
        match (self, other) {
            (Node::Leaf(_), Node::Leaf(_)) => true,
            (Node::Branch(a), Node::Branch(b)) => {
                assert(a.children@[0].ordered() && b.children@[0].ordered());
                a.children[0].same_height(&b.children[0])
            },
            _ => false,
        }
    }

    /// Checks that the subtree is in order.
    pub fn verify(&self) -> (r: bool)
        requires
            order::total_order::<K>(),
        ensures
            r == self.ordered(),
        decreases self,
    {
        match self {
            Node::Leaf(l) => ascends(&l.entries),
            Node::Branch(b) => {
                let n: usize = b.children.len();
                if n == 0 || b.keys.len() != n - 1 {
                    return false;
                }
                let mut j: usize = 0;
                while j < n
                    invariant
                        order::total_order::<K>(),
                        *self == Node::Branch(*b),
                        j <= n == b.children@.len(),
                        b.keys@.len() + 1 == n,
                        forall|t: int|
                            0 <= t < j ==> {
                                &&& (#[trigger] b.children@[t]).ordered()
                                &&& b.children@[t].sized()
                                &&& b.children@[t].height() + 1 == self.height()
                            },
                        forall|p: int, t: int|
                            #![trigger b.keys@[p], b.children@[t]]
                            0 <= p < b.keys@.len() && 0 <= t < j ==> if t <= p {
                                model::all_below(b.children@[t].entries(), *b.keys@[p])
                            } else {
                                model::none_below(b.children@[t].entries(), *b.keys@[p])
                            },
                    decreases n - j,
                {
                    let child = &b.children[j];
                    assert(decreases_to!(*self => (*self)->Branch_0.children@[j as int]));
                    if !child.verify() || child.is_over() || child.is_under() {
                        return false;
                    }
                    if !b.children[0].same_height(child) || !b.parts(j) {
                        return false;
                    }
                    j = j + 1;
                }
                true
            },
        }
    }
}

/// Checks that the keys of a leaf ascend.
fn ascends<K: Ord, V>(entries: &Vec<(Arc<K>, Arc<V>)>) -> (r: bool)
    requires
        order::total_order::<K>(),
    ensures
        r == model::sorted(pairs(entries@)),
{
    let n: usize = entries.len();
    let ghost s = pairs(entries@);
    let mut i: usize = 1;
    while i < n
        invariant
            order::total_order::<K>(),
            1 <= i,
            n == entries@.len(),
            i <= n || n == 0,
            s == pairs(entries@),
            forall|a: int, b: int|
                #![trigger s[a], s[b]]
                0 <= a < b < i ==> b < s.len() ==> order::precedes(s[a].0, s[b].0),
        decreases n - i,
    {
        if !matches!(order::place_of(&*entries[i - 1].0, &*entries[i].0), Place::Before) {
            assert(!order::precedes(s[i - 1].0, s[i as int].0));
            return false;
        }
        proof {
            assert forall|a: int, b: int|
                #![trigger s[a], s[b]]
                0 <= a < b < i + 1 implies order::precedes(s[a].0, s[b].0) by {
                if b == i && a < i - 1 {
                    assert(order::precedes(s[a].0, s[i - 1].0));
                    order::lemma_transitive(s[a].0, s[i - 1].0, s[i as int].0);
                }
            }
        }
        i = i + 1;
    }
    true
}

impl<K: Ord, V> Branch<K, V> {
    /// Checks that every key has child `j` on its proper side.
    fn parts(&self, j: usize) -> (r: bool)
        requires
            order::total_order::<K>(),
            j < self.children@.len(),
            self.children@[j as int].ordered(),
            self.children@[j as int].sized(),
        ensures
            r == forall|p: int|
                0 <= p < self.keys@.len() ==> if j <= p {
                    model::all_below(
                        self.children@[j as int].entries(),
                        *(#[trigger] self.keys@[p]),
                    )
                } else {
                    model::none_below(self.children@[j as int].entries(), *self.keys@[p])
                },
    {
        let child = &self.children[j];
        let ghost s = behind(self.children@[j as int]).entries();
        proof {
            shape::lemma_not_empty(behind(self.children@[j as int]));
            shape::lemma_sorted(behind(self.children@[j as int]));
        }
        match (child.first_key(), child.last_key()) {
            (Some(first), Some(last)) => {
                let n: usize = self.keys.len();
                let mut p: usize = 0;
                while p < n
                    invariant
                        order::total_order::<K>(),
                        p <= n == self.keys@.len(),
                        j < self.children@.len(),
                        s == self.children@[j as int].entries(),
                        s.len() > 0,
                        model::sorted(s),
                        **first == s[0].0,
                        **last == s.last().0,
                        forall|t: int|
                            0 <= t < p ==> if j <= t {
                                model::all_below(s, *(#[trigger] self.keys@[t]))
                            } else {
                                model::none_below(s, *self.keys@[t])
                            },
                    decreases n - p,
                {
                    let ghost q = behind(self.keys@[p as int]);
                    if j <= p {
                        if !matches!(order::place_of(&**last, &*self.keys[p]), Place::Before) {
                            assert(!order::precedes(s[s.len() - 1].0, q));
                            return false;
                        }
                        assert forall|t: int| 0 <= t < s.len() implies order::precedes(
                            (#[trigger] s[t]).0,
                            q,
                        ) by {
                            if t < s.len() - 1 {
                                assert(order::precedes(s[t].0, s[s.len() - 1].0));
                                order::lemma_transitive(s[t].0, s.last().0, q);
                            }
                        }
                    } else {
                        if matches!(order::place_of(&**first, &*self.keys[p]), Place::Before) {
                            assert(order::precedes(s[0].0, q));
                            return false;
                        }
                        assert forall|t: int| 0 <= t < s.len() implies !order::precedes(
                            (#[trigger] s[t]).0,
                            q,
                        ) by {
                            if t > 0 {
                                assert(order::precedes(s[0].0, s[t].0));
                                order::lemma_transitive(s[0].0, s[t].0, q);
                            }
                        }
                    }
                    p = p + 1;
                }
                true
            },
            _ => false,
        }
    }
}

} // verus!
