//! One version of the map: a tree and the number of its entries.
use super::model;
use super::node;
use super::node::{Branch, Leaf, Node};
use super::order;
use super::order::Place;
use super::shape;
use std::sync::Arc;
use vstd::prelude::*;
use vstd::std_specs::iter::IteratorSpec;

verus! {

/// A tree and the number of its entries.
pub struct Tree<K, V> {
    pub root: Arc<Node<K, V>>,
    pub len: usize,
}

/// `Arc::unwrap_or_clone` of std gives the value behind the pointer: the value itself where
/// no other pointer shares it, and a clone of it where another does.
#[verifier::external_body]
fn unwrap_or_clone<T: Clone>(this: Arc<T>) -> (r: T)
    ensures
        cloned(*this, r),
{
    Arc::unwrap_or_clone(this)
}

impl<K, V> Tree<K, V> {
    /// The entries, in key order.
    pub open spec fn entries(self) -> Seq<(K, V)> {
        self.root.entries()
    }

    /// A tree without entries.
    pub fn new() -> (r: Self) where K: Ord
        ensures
            r.well_formed(),
            r.entries() == Seq::<(K, V)>::empty(),
    {
        let r = Tree { root: Arc::new(Node::Leaf(Leaf { entries: Vec::new() })), len: 0 };
        assert(r.entries() =~= Seq::<(K, V)>::empty());
        r
    }

    /// Another hold on the same tree. Nothing is copied until one of the two is changed.
    pub fn share(&self) -> (r: Self)
        ensures
            r == *self,
    {
        Tree { root: self.root.clone(), len: self.len }
    }

    /// The entries, in key order.
    pub fn kv_iter(&self) -> (r: Vec<(&K, &V)>)
        ensures
            r@.unref() == self.entries(),
            r@.len() == self.entries().len(),
            forall|i: int|
                0 <= i < self.entries().len() ==> *(#[trigger] r@[i]).0 == self.entries()[i].0
                    && *r@[i].1 == self.entries()[i].1,
    {
        let mut out: Vec<(&K, &V)> = Vec::new();
        self.root.collect(&mut out);
        assert(out@.unref() =~= self.entries());
        assert forall|i: int| 0 <= i < self.entries().len() implies *(#[trigger] out@[i]).0
            == self.entries()[i].0 && *out@[i].1 == self.entries()[i].1 by {
            assert(out@.unref()[i] == self.entries()[i]);
        }
        out
    }

    /// The keys, in order.
    pub fn k_iter(&self) -> (r: Vec<&K>)
        ensures
            r@.unref() == model::keys_of(self.entries()),
            r@.len() == self.entries().len(),
            forall|i: int|
                0 <= i < self.entries().len() ==> *(#[trigger] r@[i]) == self.entries()[i].0,
    {
        let all = self.kv_iter();
        let n: usize = all.len();
        let mut out: Vec<&K> = Vec::with_capacity(n);
        let mut i: usize = 0;
        let ghost keys = model::keys_of(self.entries());
        while i < n
            invariant
                i <= n == all@.len(),
                all@.unref() == self.entries(),
                keys == model::keys_of(self.entries()),
                out@.unref() == keys.take(i as int),
            decreases n - i,
        {
            let ghost s = out@.unref();
            out.push(all[i].0);
            assert(all@.unref()[i as int].0 == keys[i as int]);
            i = i + 1;
            assert(out@.unref() =~= s.push(keys[i - 1]));
            assert(out@.unref() =~= keys.take(i as int));
        }
        assert(keys.take(n as int) =~= keys);
        assert forall|i: int| 0 <= i < self.entries().len() implies *(#[trigger] out@[i])
            == self.entries()[i].0 by {
            assert(out@.unref()[i] == keys[i]);
        }
        out
    }

    /// The values, in the order of their keys.
    pub fn v_iter(&self) -> (r: Vec<&V>)
        ensures
            r@.unref() == model::values_of(self.entries()),
            r@.len() == self.entries().len(),
            forall|i: int|
                0 <= i < self.entries().len() ==> *(#[trigger] r@[i]) == self.entries()[i].1,
    {
        let all = self.kv_iter();
        let n: usize = all.len();
        let mut out: Vec<&V> = Vec::with_capacity(n);
        let mut i: usize = 0;
        let ghost values = model::values_of(self.entries());
        while i < n
            invariant
                i <= n == all@.len(),
                all@.unref() == self.entries(),
                values == model::values_of(self.entries()),
                out@.unref() == values.take(i as int),
            decreases n - i,
        {
            let ghost s = out@.unref();
            out.push(all[i].1);
            assert(all@.unref()[i as int].1 == values[i as int]);
            i = i + 1;
            assert(out@.unref() =~= s.push(values[i - 1]));
            assert(out@.unref() =~= values.take(i as int));
        }
        assert(values.take(n as int) =~= values);
        assert forall|i: int| 0 <= i < self.entries().len() implies *(#[trigger] out@[i])
            == self.entries()[i].1 by {
            assert(out@.unref()[i] == values[i]);
        }
        out
    }
}

impl<K: Ord, V> Tree<K, V> {
    /// The nodes are in order, the root is neither too full nor idle, and the number of
    /// entries is right.
    pub open spec fn well_formed(self) -> bool {
        &&& self.root.ordered()
        &&& self.root.count() <= self.root.capacity()
        &&& *self.root is Branch ==> self.root.least() <= self.root.count()
        &&& self.len == self.entries().len()
    }

    /// Looks up the value for a key.
    pub fn search(&self, k: &K) -> (r: Option<&V>)
        requires
            order::total_order::<K>(),
            self.well_formed(),
        ensures
            r matches Some(v) ==> model::value_of(self.entries(), *k) == Some(*v),
            r is None ==> model::value_of(self.entries(), *k) is None,
    {
        self.root.search(k)
    }

    /// Tells whether there is an entry for a key.
    pub fn contains_key(&self, k: &K) -> (r: bool)
        requires
            order::total_order::<K>(),
            self.well_formed(),
        ensures
            r == model::has_key(self.entries(), *k),
    {
        match self.root.search(k) {
            Some(_) => true,
            None => false,
        }
    }

    /// Checks that the tree is in order.
    pub fn verify(&self) -> (r: bool)
        requires
            order::total_order::<K>(),
        ensures
            r == self.well_formed(),
    {
        self.root.verify() && self.root.root_fits() && self.kv_iter().len() == self.len
    }

    /// Makes `v` the value for `k`.
    pub fn insert(&mut self, k: K, v: V) -> (r: Option<V>) where V: Clone
        requires
            order::total_order::<K>(),
            old(self).well_formed(),
            old(self).entries().len() < usize::MAX || model::has_key(old(self).entries(), k),
        ensures
            final(self).well_formed(),
            final(self).entries() == model::with(old(self).entries(), k, v),
            r is Some <==> model::has_key(old(self).entries(), k),
            r matches Some(p) ==> cloned(model::value_of(old(self).entries(), k)->0, p),
    {
        let ghost before = self.entries();
        proof {
            shape::lemma_sorted(node::behind(self.root));
            model::lemma_rank(before, k);
        }
        let ghost old_root = node::behind(self.root);
        let root = node::make_mut(&mut self.root);
        proof {
            shape::lemma_cloned(old_root, *root);
        }
        let previous = root.insert(k, v);
        if previous.is_none() {
            self.len = self.len + 1;
        }
        if self.root.is_over() {
            self.grow();
        }
        match previous {
            Some(p) => Some(unwrap_or_clone(p)),
            None => None,
        }
    }

    /// Puts a new root over the two halves of one that holds too much.
    fn grow(&mut self)
        requires
            order::total_order::<K>(),
            old(self).root.ordered(),
            old(self).root.count() == old(self).root.capacity() + 1,
            old(self).len == old(self).entries().len(),
        ensures
            final(self).well_formed(),
            final(self).entries() == old(self).entries(),
    {
        let ghost before = self.entries();
        let ghost old_root = node::behind(self.root);
        let root = node::make_mut(&mut self.root);
        proof {
            shape::lemma_cloned(old_root, *root);
        }
        let (q, right) = root.split(true);
        let left = self.root.clone();
        let right = Arc::new(right);
        let mut keys: Vec<Arc<K>> = Vec::new();
        keys.push(q);
        let mut children: Vec<Arc<Node<K, V>>> = Vec::new();
        children.push(left);
        children.push(right);
        proof {
            shape::lemma_concat_add(seq![left], seq![right]);
            shape::lemma_concat_one(left);
            shape::lemma_concat_one(right);
            assert(children@ =~= seq![left] + seq![right]);
            assert(node::separated(keys@, children@));
        }
        self.root = Arc::new(Node::Branch(Branch { keys, children }));
    }

    /// Removes the entry for `k`.
    pub fn remove(&mut self, k: &K) -> (r: Option<V>) where V: Clone
        requires
            order::total_order::<K>(),
            old(self).well_formed(),
        ensures
            final(self).well_formed(),
            final(self).entries() == model::without(old(self).entries(), *k),
            r is Some <==> model::has_key(old(self).entries(), *k),
            r matches Some(p) ==> cloned(model::value_of(old(self).entries(), *k)->0, p),
    {
        let ghost before = self.entries();
        proof {
            shape::lemma_sorted(node::behind(self.root));
            model::lemma_rank(before, *k);
        }
        let ghost old_root = node::behind(self.root);
        let root = node::make_mut(&mut self.root);
        proof {
            shape::lemma_cloned(old_root, *root);
        }
        let removed = root.remove(k);
        if removed.is_some() {
            self.len = self.len - 1;
        }
        self.shrink();
        match removed {
            Some(p) => Some(unwrap_or_clone(p)),
            None => None,
        }
    }

    /// Takes away a root that has but one child.
    fn shrink(&mut self)
        requires
            old(self).root.ordered(),
            old(self).root.count() <= old(self).root.capacity(),
            old(self).len == old(self).entries().len(),
        ensures
            final(self).well_formed(),
            final(self).entries() == old(self).entries(),
    {
        let only = match &*self.root {
            Node::Leaf(_) => None,
            Node::Branch(b) => {
                if b.children.len() == 1 {
                    proof {
                        shape::lemma_concat_one(b.children@[0]);
                        assert(b.children@ =~= seq![b.children@[0]]);
                        assert(b.children@[0].ordered());
                    }
                    Some(b.children[0].clone())
                } else {
                    None
                }
            },
        };
        if let Some(child) = only {
            self.root = child;
        }
    }

    /// Removes every entry whose key comes before `k`.
    pub fn split_off_lt(&mut self, k: &K) where V: Clone
        requires
            order::total_order::<K>(),
            old(self).well_formed(),
        ensures
            final(self).well_formed(),
            final(self).entries() == model::starting_at(old(self).entries(), *k),
    {
        let ghost want = model::starting_at(self.entries(), *k);
        loop
            invariant
                order::total_order::<K>(),
                self.well_formed(),
                model::starting_at(self.entries(), *k) == want,
            ensures
                self.entries() == want,
            decreases self.entries().len(),
        {
            let ghost s = self.entries();
            proof {
                shape::lemma_sorted(node::behind(self.root));
            }
            let first = match self.root.first_key() {
                Some(first) => first.clone(),
                None => {
                    proof {
                        model::lemma_starting_at_all(s, *k);
                    }
                    break ;
                },
            };
            if !matches!(order::place_of(&*first, k), Place::Before) {
                proof {
                    model::lemma_starting_at_all(s, *k);
                }
                break ;
            }
            proof {
                model::lemma_without_first(s);
                model::lemma_starting_at_skip(s, *k);
            }
            self.remove(&*first);
        }
    }

    /// Hands out the value for `k` for writing.
    pub fn get_mut_ref(&mut self, k: &K) -> (r: Option<&mut V>) where V: Clone
        requires
            order::total_order::<K>(),
            old(self).well_formed(),
        ensures
            final(self).well_formed(),
            r is Some <==> model::has_key(old(self).entries(), *k),
            r matches Some(v) ==> {
                &&& cloned(model::value_of(old(self).entries(), *k)->0, *v)
                &&& final(self).entries() == model::with(old(self).entries(), *k, *final(v))
            },
            r is None ==> final(self).entries() == old(self).entries(),
    {
        proof {
            shape::lemma_sorted(node::behind(self.root));
            model::lemma_rank(self.entries(), *k);
        }
        let ghost old_root = node::behind(self.root);
        let root = node::make_mut(&mut self.root);
        proof {
            shape::lemma_cloned(old_root, *root);
        }
        root.get_mut(k)
    }

    /// Makes each item in turn the value for its key.
    pub fn extend<I: Iterator<Item = (K, V)>>(&mut self, iter: I) where V: Clone
        requires
            order::total_order::<K>(),
            old(self).well_formed(),
            iter.obeys_prophetic_iter_laws(),
            iter.decrease() is Some,
            model::with_all(old(self).entries(), iter.remaining()).len() <= usize::MAX,
        ensures
            final(self).well_formed(),
            final(self).entries() == model::with_all(old(self).entries(), iter.remaining()),
    {
        let ghost want = model::with_all(self.entries(), iter.remaining());
        let mut iter = iter;
        loop
            invariant_except_break
                order::total_order::<K>(),
                self.well_formed(),
                iter.obeys_prophetic_iter_laws(),
                iter.decrease() is Some,
                want.len() <= usize::MAX,
                model::with_all(self.entries(), iter.remaining()) == want,
            ensures
                self.well_formed(),
                self.entries() == want,
            decreases iter.decrease()->0,
        {
            let ghost items = iter.remaining();
            match iter.next() {
                Some((k, v)) => {
                    proof {
                        shape::lemma_sorted(node::behind(self.root));
                        model::lemma_rank(self.entries(), k);
                        model::lemma_with_sorted(self.entries(), k, v);
                        model::lemma_with_all_grows(
                            model::with(self.entries(), k, v),
                            items.drop_first(),
                        );
                    }
                    self.insert(k, v);
                },
                None => {
                    break ;
                },
            }
        }
    }
}

} // verus!
