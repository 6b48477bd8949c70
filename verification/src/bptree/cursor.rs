//! The versions of a map, and the cursors that read and write them.
use super::model;
use super::node;
use super::order;
use super::shape;
use super::tree::Tree;
use vstd::arithmetic::power2;
use vstd::prelude::*;
use vstd::std_specs::iter::IteratorSpec;

verus! {

/// The number of transaction ids: they start over when they run out.
pub open spec fn txid_range() -> int {
    0x1_0000_0000_0000_0000
}

/// A committed version of the map.
///
/// A version remembers, for the proofs alone, the contents of every version that it came
/// from, and its own at the end.
pub struct SuperBlock<K: Ord, V> {
    tree: Tree<K, V>,
    txid: u64,
    versions: Ghost<Seq<Seq<(K, V)>>>,
}

impl<K: Ord, V> SuperBlock<K, V> {
    /// The tree is in order, it is the last of the versions, and the transaction id counts
    /// them.
    #[verifier::type_invariant]
    spec fn consistent(self) -> bool {
        &&& self.tree.well_formed()
        &&& self.versions@.len() > 0
        &&& self.versions@.last() == self.tree.entries()
        &&& self.txid == self.versions@.len() as int % txid_range()
    }

    /// The contents of the versions up to this one, oldest first.
    pub closed spec fn versions(self) -> Seq<Seq<(K, V)>> {
        self.versions@
    }
}

impl<K: Ord, V> Default for SuperBlock<K, V> {
    /// The first version of a map: it has no entries.
    fn default() -> (r: Self)
        ensures
            r.versions() == seq![Seq::<(K, V)>::empty()],
    {
        let ghost versions = seq![Seq::<(K, V)>::empty()];
        SuperBlock { tree: Tree::new(), txid: 1, versions: Ghost(versions) }
    }
}

/// Reads one committed version.
pub struct CursorRead<K: Ord, V> {
    tree: Tree<K, V>,
    txid: u64,
}

impl<K: Ord, V> View for CursorRead<K, V> {
    type V = Seq<(K, V)>;

    /// The entries of the version, in key order.
    closed spec fn view(&self) -> Seq<(K, V)> {
        self.tree.entries()
    }
}

impl<K: Ord, V> CursorRead<K, V> {
    /// The tree is in order.
    pub closed spec fn in_order(&self) -> bool {
        self.tree.well_formed()
    }

    /// The tree is in order, and what is recorded beside it is right.
    pub closed spec fn well_formed(&self) -> bool {
        self.tree.well_formed()
    }

    /// The id of the transaction.
    pub closed spec fn txid(&self) -> u64 {
        self.txid
    }

    /// The entries are in key order.
    pub proof fn lemma_sorted(&self)
        requires
            order::total_order::<K>(),
            self.in_order() || self.well_formed(),
        ensures
            model::sorted(self@),
    {
        shape::lemma_sorted(node::behind(self.tree.root));
    }

    /// The number of levels below the root.
    pub closed spec fn depth(&self) -> nat {
        self.tree.root.height()
    }

    /// The tree is flat.
    pub proof fn lemma_depth(&self)
        requires
            self.in_order() || self.well_formed(),
        ensures
            self@.len() == 0 ==> self.depth() == 0,
            self@.len() > 0 ==> power2::pow2(self.depth()) <= self@.len(),
    {
        let root = node::behind(self.tree.root);
        if root.least() <= root.count() {
            shape::lemma_depth(root);
            shape::lemma_not_empty(root);
        }
    }

    /// The cursor reads the version `sblock`.
    pub open spec fn reads(&self, sblock: SuperBlock<K, V>) -> bool {
        &&& self.well_formed()
        &&& sblock.versions().len() > 0
        &&& self@ == sblock.versions().last()
        &&& self.txid() == sblock.versions().len() as int % txid_range()
    }

    /// Starts a cursor on a committed version.
    pub fn new(sblock: &SuperBlock<K, V>) -> (r: Self)
        ensures
            r.reads(*sblock),
    {
        proof {
            use_type_invariant(sblock);
        }
        CursorRead { tree: sblock.tree.share(), txid: sblock.txid }
    }

    /// The tree that the cursor works on.
    pub fn tree(&self) -> (r: &Tree<K, V>)
        ensures
            r.entries() == self@,
            r.well_formed() == self.in_order(),
            self.well_formed() ==> r.well_formed(),
    {
        &self.tree
    }

    /// The id of the transaction.
    pub fn get_txid(&self) -> (r: u64)
        ensures
            r == self.txid(),
    {
        self.txid
    }
}

/// Prepares the version that is to follow a committed one.
pub struct CursorWrite<K: Ord, V> {
    tree: Tree<K, V>,
    txid: u64,
    base: Ghost<Seq<Seq<(K, V)>>>,
}

impl<K: Ord, V> View for CursorWrite<K, V> {
    type V = Seq<(K, V)>;

    /// The entries of the version as it stands, in key order.
    closed spec fn view(&self) -> Seq<(K, V)> {
        self.tree.entries()
    }
}

impl<K: Ord, V> CursorWrite<K, V> {
    /// The tree is in order.
    pub closed spec fn in_order(&self) -> bool {
        self.tree.well_formed()
    }

    /// The tree is in order, and what is recorded beside it is right.
    pub closed spec fn well_formed(&self) -> bool {
        &&& self.tree.well_formed()
        &&& self.base@.len() > 0
        &&& self.txid == (self.base@.len() + 1) as int % txid_range()
    }

    /// The contents of the versions that were committed before, oldest first.
    pub closed spec fn base(&self) -> Seq<Seq<(K, V)>> {
        self.base@
    }

    /// The id of the transaction.
    pub closed spec fn txid(&self) -> u64 {
        self.txid
    }

    /// The entries are in key order.
    pub proof fn lemma_sorted(&self)
        requires
            order::total_order::<K>(),
            self.in_order() || self.well_formed(),
        ensures
            model::sorted(self@),
    {
        shape::lemma_sorted(node::behind(self.tree.root));
    }

    /// The number of levels below the root.
    pub closed spec fn depth(&self) -> nat {
        self.tree.root.height()
    }

    /// The tree is flat.
    pub proof fn lemma_depth(&self)
        requires
            self.in_order() || self.well_formed(),
        ensures
            self@.len() == 0 ==> self.depth() == 0,
            self@.len() > 0 ==> power2::pow2(self.depth()) <= self@.len(),
    {
        let root = node::behind(self.tree.root);
        if root.least() <= root.count() {
            shape::lemma_depth(root);
            shape::lemma_not_empty(root);
        }
    }

    /// The cursor starts from the version `sblock`.
    pub open spec fn follows(&self, sblock: SuperBlock<K, V>) -> bool {
        &&& self.well_formed()
        &&& sblock.versions().len() > 0
        &&& self.base() == sblock.versions()
        &&& self.txid() == (sblock.versions().len() + 1) as int % txid_range()
    }

    /// The version `sblock` is what the cursor has prepared.
    pub open spec fn becomes(&self, sblock: SuperBlock<K, V>) -> bool {
        sblock.versions() == self.base().push(self@)
    }

    /// Starts a cursor on a committed version.
    pub fn new(sblock: &SuperBlock<K, V>) -> (r: Self)
        ensures
            r.follows(*sblock),
            r@ == sblock.versions().last(),
    {
        proof {
            use_type_invariant(sblock);
        }
        CursorWrite {
            tree: sblock.tree.share(),
            txid: sblock.txid.wrapping_add(1),
            base: Ghost(sblock.versions@),
        }
    }

    /// The tree that the cursor works on.
    pub fn tree(&self) -> (r: &Tree<K, V>)
        ensures
            r.entries() == self@,
            r.well_formed() == self.in_order(),
            self.well_formed() ==> r.well_formed(),
    {
        &self.tree
    }

    /// The id of the transaction.
    pub fn get_txid(&self) -> (r: u64)
        ensures
            r == self.txid(),
            self.well_formed() ==> r == (self.base().len() + 1) as int % txid_range(),
    {
        self.txid
    }

    /// Ends the work: what the cursor holds becomes a version of the map.
    pub fn finalise(self) -> (r: SuperBlock<K, V>)
        requires
            self.well_formed(),
        ensures
            self.becomes(r),
    {
        let ghost versions = self.base@.push(self.tree.entries());
        SuperBlock { tree: self.tree, txid: self.txid, versions: Ghost(versions) }
    }

    /// Removes every entry.
    pub fn clear(&mut self)
        requires
            old(self).well_formed(),
        ensures
            final(self).well_formed(),
            final(self).base() == old(self).base(),
            final(self).txid() == old(self).txid(),
            final(self)@ == Seq::<(K, V)>::empty(),
    {
        self.tree = Tree::new();
    }

    /// Makes `v` the value for `k`, and returns the value that it replaces.
    pub fn insert(&mut self, k: K, v: V) -> (r: Option<V>) where V: Clone
        requires
            order::total_order::<K>(),
            old(self).well_formed(),
            old(self)@.len() < usize::MAX || model::has_key(old(self)@, k),
        ensures
            final(self).well_formed(),
            final(self).base() == old(self).base(),
            final(self).txid() == old(self).txid(),
            final(self)@ == model::with(old(self)@, k, v),
            r is Some <==> model::has_key(old(self)@, k),
            r matches Some(p) ==> cloned(model::value_of(old(self)@, k)->0, p),
    {
        self.tree.insert(k, v)
    }

    /// Removes the entry for `k`, and returns its value.
    pub fn remove(&mut self, k: &K) -> (r: Option<V>) where V: Clone
        requires
            order::total_order::<K>(),
            old(self).well_formed(),
        ensures
            final(self).well_formed(),
            final(self).base() == old(self).base(),
            final(self).txid() == old(self).txid(),
            final(self)@ == model::without(old(self)@, *k),
            r is Some <==> model::has_key(old(self)@, *k),
            r matches Some(p) ==> cloned(model::value_of(old(self)@, *k)->0, p),
    {
        self.tree.remove(k)
    }

    /// Removes every entry whose key comes before `k`.
    pub fn split_off_lt(&mut self, k: &K) where V: Clone
        requires
            order::total_order::<K>(),
            old(self).well_formed(),
        ensures
            final(self).well_formed(),
            final(self).base() == old(self).base(),
            final(self).txid() == old(self).txid(),
            final(self)@ == model::starting_at(old(self)@, *k),
    {
        self.tree.split_off_lt(k)
    }

    /// Hands out the value for `k` for writing.
    pub fn get_mut_ref(&mut self, k: &K) -> (r: Option<&mut V>) where V: Clone
        requires
            order::total_order::<K>(),
            old(self).well_formed(),
        ensures
            final(self).well_formed(),
            final(self).base() == old(self).base(),
            final(self).txid() == old(self).txid(),
            r is Some <==> model::has_key(old(self)@, *k),
            r matches Some(v) ==> {
                &&& cloned(model::value_of(old(self)@, *k)->0, *v)
                &&& final(self)@ == model::with(old(self)@, *k, *final(v))
            },
            r is None ==> final(self)@ == old(self)@,
    {
        self.tree.get_mut_ref(k)
    }

    /// Makes each item in turn the value for its key.
    pub fn extend<I: Iterator<Item = (K, V)>>(&mut self, iter: I) where V: Clone
        requires
            order::total_order::<K>(),
            old(self).well_formed(),
            iter.obeys_prophetic_iter_laws(),
            iter.decrease() is Some,
            model::with_all(old(self)@, iter.remaining()).len() <= usize::MAX,
        ensures
            final(self).well_formed(),
            final(self).base() == old(self).base(),
            final(self).txid() == old(self).txid(),
            final(self)@ == model::with_all(old(self)@, iter.remaining()),
    {
        self.tree.extend(iter)
    }
}

} // verus!
