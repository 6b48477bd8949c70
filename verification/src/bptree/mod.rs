//! See the documentation for [`BptreeMap`].
//!
//! Each operation has its own bounds on keys and values. They keep apart what can be done at
//! the locks of a map, as the module `lock` tells: only `write` can wait for the writers' lock,
//! only `try_write` can try for it, and only `commit` can store a version.
mod cursor;
pub mod laws;
mod lock;
pub mod model;
mod node;
pub mod order;
mod shape;
mod tree;

use cursor::{CursorRead, CursorWrite, SuperBlock};
use lock::{Held, Locks, Pin, Stored, Turn};
use std::fmt::Debug;
use vstd::arithmetic::power2;
use vstd::prelude::*;
use vstd::std_specs::iter::IteratorSpec;

pub use node::L_CAPACITY;

verus! {

/// A concurrently readable map based on a modified B+Tree structure.
///
/// This structure can be used in locations where you would otherwise use
/// `RwLock<BTreeMap>` or `Mutex<BTreeMap>`.
///
/// This is a concurrently readable structure, meaning it has transactional properties.
/// Writers are serialised (one after the other), and readers can exist in parallel with
/// stable views of the structure at a point in time.
///
/// This is achieved through copy on write: as a write occurs, the nodes that it changes are
/// copied for the writer, and committed later. This may cause memory usage to increase in
/// exchange for a gain in concurrent behaviour.
///
/// Transactions can be rolled back (aborted) without penalty by dropping the
/// [`BptreeMapWriteTxn`] without calling `commit()`.
///
/// A map goes through versions. Its first version is the one that it was made with, and each
/// commit adds one. Which version is the current one when a transaction starts rests on the
/// other threads; the contracts say what holds of every version that a transaction can get.
#[verifier::reject_recursive_types(K)]
#[verifier::reject_recursive_types(V)]
pub struct BptreeMap<K: Ord, V> {
    locks: Locks<K, V>,
}

/// An active read transaction over a [`BptreeMap`]. The data in this tree is guaranteed to
/// not change and will remain consistent for the life of this transaction.
#[verifier::reject_recursive_types(K)]
#[verifier::reject_recursive_types(V)]
pub struct BptreeMapReadTxn<'a, K: Ord, V> {
    _caller: &'a BptreeMap<K, V>,
    pin: Pin<K, V>,
    work: CursorRead<K, V>,
}

/// An active write transaction for a [`BptreeMap`]. The data in this tree may be modified
/// exclusively through this transaction without affecting readers. The write may be
/// rolled back by dropping this guard without calling `commit()`. Once `commit()` is called,
/// readers will be able to access and perceive changes in new transactions.
#[verifier::reject_recursive_types(K)]
#[verifier::reject_recursive_types(V)]
pub struct BptreeMapWriteTxn<'a, K: Ord, V> {
    work: CursorWrite<K, V>,
    caller: &'a BptreeMap<K, V>,
    turn: Turn<'a, K, V>,
}

/// A commit: evidence that the version that a writer prepared was put in place.
///
/// A transaction that is opened through it is opened after the commit, as one is that is
/// opened later through the map, and perceives its changes. The version stays in memory as
/// long as this is kept.
#[verifier::reject_recursive_types(K)]
#[verifier::reject_recursive_types(V)]
pub struct Committed<'a, K: Ord, V> {
    caller: &'a BptreeMap<K, V>,
    stored: Stored<'a, K, V>,
}

/// The cursor that a snapshot looks through.
#[verifier::reject_recursive_types(K)]
#[verifier::reject_recursive_types(V)]
enum SnapshotType<'a, K: Ord, V> {
    R(&'a CursorRead<K, V>),
    W(&'a CursorWrite<K, V>),
}

/// A point-in-time snapshot of the tree from within a read OR write. This is useful for
/// building other transactional types on top of this structure, as you need a way to
/// downcast both [`BptreeMapReadTxn`] or [`BptreeMapWriteTxn`] to a singular reader type for
/// a number of `get_inner()` style patterns.
///
/// The snapshot borrows the transaction, so the tree cannot be changed while it is open.
#[verifier::reject_recursive_types(K)]
#[verifier::reject_recursive_types(V)]
pub struct BptreeMapReadSnapshot<'a, K: Ord, V> {
    work: SnapshotType<'a, K, V>,
}

impl<K: Ord, V> BptreeMap<K, V> {
    /// The contents of the versions up to the one that the map was made with, oldest first.
    /// Every version of the map comes from these.
    pub closed spec fn genesis(&self) -> Seq<Seq<(K, V)>> {
        self.locks.genesis()
    }

    /// The contents of version number `i` of the map, of all that it has in its life. The
    /// first has number 0.
    pub closed spec fn version(&self, i: int) -> Seq<(K, V)> {
        self.locks.nth(i)
    }

    /// At some time in the life of the map a writer is not let in, as another one is at work.
    pub closed spec fn contended(&self) -> bool {
        self.locks.contended()
    }

    /// Whether a writer is not let in does not follow from the versions.
    proof fn lemma_contention(&self, contended: bool) -> (r: Self)
        ensures
            r.genesis() == self.genesis(),
            forall|i: int| r.version(i) == self.version(i),
            r.contended() == contended,
    {
        BptreeMap { locks: self.locks.lemma_contention(contended) }
    }
}

impl<K: Ord, V> Default for BptreeMap<K, V> {
    fn default() -> (r: Self)
        ensures
            r.genesis() == seq![Seq::<(K, V)>::empty()],
    {
        Self::new()
    }
}

impl<K: Ord, V> BptreeMap<K, V> {
    /// Construct a new concurrent tree.
    pub fn new() -> (r: Self)
        ensures
            r.genesis() == seq![Seq::<(K, V)>::empty()],
    {
        BptreeMap { locks: Locks::new(SuperBlock::default()) }
    }

    /// Initiate a read transaction for the tree, concurrent to any other readers or writers.
    pub fn read<'a>(&'a self) -> (r: BptreeMapReadTxn<'a, K, V>)
        ensures
            r.well_formed(),
            r.map() == *self,
            self.genesis().is_prefix_of(r.versions()),
            r@ == r.versions().last(),
    {
        let pin = self.locks.load();
        let work = CursorRead::new(pin.sblock());
        BptreeMapReadTxn { _caller: self, pin, work }
    }

    /// Starts a writer if the writers' lock was got.
    fn begin_if<'a>(&'a self, held: Option<Held<'a, K, V>>) -> (r: Option<
        BptreeMapWriteTxn<'a, K, V>,
    >)
        requires
            held matches Some(h) ==> h.locks() == self.locks,
        ensures
            r is Some <==> held is Some,
            r matches Some(w) ==> {
                &&& w.well_formed()
                &&& w.map() == *self
                &&& self.genesis().is_prefix_of(w.base())
                &&& w@ == w.base().last()
            },
    {
        match held {
            Some(held) => Some(self.begin(held)),
            None => None,
        }
    }

    /// Starts the writer that holds the writers' lock.
    fn begin<'a>(&'a self, held: Held<'a, K, V>) -> (r: BptreeMapWriteTxn<'a, K, V>)
        requires
            held.locks() == self.locks,
        ensures
            r.well_formed(),
            r.map() == *self,
            self.genesis().is_prefix_of(r.base()),
            r@ == r.base().last(),
    {
        /* Only a share of the tree is taken: the nodes are copied as they are changed */
        let turn = held.load();
        let cursor = CursorWrite::new(turn.sblock());
        BptreeMapWriteTxn { work: cursor, caller: self, turn }
    }
}

impl<K: Ord, V: Clone> BptreeMap<K, V> {
    /// Construct a tree that holds the items of an iterator. Of several items with the same
    /// key the last one counts.
    pub fn from_iter<I: Iterator<Item = (K, V)>>(iter: I) -> (r: Self)
        requires
            order::total_order::<K>(),
            iter.obeys_prophetic_iter_laws(),
            iter.decrease() is Some,
            model::with_all(Seq::<(K, V)>::empty(), iter.remaining()).len() <= usize::MAX,
        ensures
            r.genesis() == seq![
                Seq::<(K, V)>::empty(),
                model::with_all(Seq::<(K, V)>::empty(), iter.remaining()),
            ],
    {
        let first: SuperBlock<K, V> = SuperBlock::default();
        let mut cursor = CursorWrite::new(&first);
        cursor.extend(iter);
        let sblock = cursor.finalise();
        assert(sblock.versions() =~= seq![first.versions()[0], cursor@]);
        BptreeMap { locks: Locks::new(sblock) }
    }

    /// Puts a finished version in place of the active one, and ends the turn of its writer.
    fn commit<'a>(&'a self, turn: Turn<'a, K, V>, newdata: SuperBlock<K, V>) -> (r: Committed<
        'a,
        K,
        V,
    >)
        requires
            turn.locks() == self.locks,
            self.genesis().is_prefix_of(newdata.versions()),
            newdata.versions() == turn.version().versions().push(newdata.versions().last()),
        ensures
            r.well_formed(),
            r.map() == *self,
            r.versions() == newdata.versions(),
    {
        Committed { caller: self, stored: turn.store(newdata) }
    }
}

impl<K: Ord + Debug, V> BptreeMap<K, V> {
    /// Initiate a write transaction for the tree, exclusive to this writer, and concurrently
    /// to all existing reads.
    pub fn write<'a>(&'a self) -> (r: BptreeMapWriteTxn<'a, K, V>)
        ensures
            r.well_formed(),
            r.map() == *self,
            self.genesis().is_prefix_of(r.base()),
            r@ == r.base().last(),
    {
        /* Take the exclusive write lock first */
        let held = self.locks.lock_writers();
        self.begin(held)
    }
}

impl<K: Ord + Clone, V> BptreeMap<K, V> {
    /// Attempt to create a new write, returns `None` if another writer already exists, and
    /// only then: where no writer ever is in the way of another, there always is a transaction.
    pub fn try_write<'a>(&'a self) -> (r: Option<BptreeMapWriteTxn<'a, K, V>>)
        ensures
            r is None ==> self.contended(),
            r matches Some(w) ==> {
                &&& w.well_formed()
                &&& w.map() == *self
                &&& self.genesis().is_prefix_of(w.base())
                &&& w@ == w.base().last()
            },
    {
        self.begin_if(self.locks.try_lock_writers())
    }
}

impl<'a, K: Ord, V> Committed<'a, K, V> {
    /// The version was put in place in the map that the commit is of, and is one of its
    /// versions.
    #[verifier::type_invariant]
    pub closed spec fn well_formed(&self) -> bool {
        &&& self.stored.locks() == self.caller.locks
        &&& self.caller.locks.records(self.stored.version())
    }

    /// The map that the commit is of.
    pub closed spec fn map(&self) -> BptreeMap<K, V> {
        *self.caller
    }

    /// The versions that the commit knows of are those of its map.
    proof fn lemma_recorded(&self, i: int)
        requires
            self.well_formed(),
            0 <= i < self.versions().len(),
        ensures
            self.versions()[i] == self.map().version(i),
    {
        assert(self.stored.version().versions()[i] == self.caller.locks.nth(i));
    }

    /// The contents of the versions up to the one that was put in place, oldest first.
    pub closed spec fn versions(&self) -> Seq<Seq<(K, V)>> {
        self.stored.version().versions()
    }

    /// Initiate a read transaction after the commit. It reads the version that was put in
    /// place, or a later one that comes from it.
    pub fn read(&self) -> (r: BptreeMapReadTxn<'a, K, V>)
        ensures
            r.well_formed(),
            r.map() == self.map(),
            self.versions().is_prefix_of(r.versions()),
            r@ == r.versions().last(),
    {
        proof {
            use_type_invariant(self);
        }
        let pin = self.stored.load();
        let work = CursorRead::new(pin.sblock());
        BptreeMapReadTxn { _caller: self.caller, pin, work }
    }

    /// Initiate a write transaction after the commit, exclusive to this writer. It starts from
    /// the version that was put in place, or from a later one that comes from it.
    pub fn write(&self) -> (r: BptreeMapWriteTxn<'a, K, V>) where K: Debug
        ensures
            r.well_formed(),
            r.map() == self.map(),
            self.versions().is_prefix_of(r.base()),
            r@ == r.base().last(),
    {
        proof {
            use_type_invariant(self);
        }
        let held = self.caller.locks.lock_writers();
        let turn = self.stored.load_for_write(held);
        let cursor = CursorWrite::new(turn.sblock());
        BptreeMapWriteTxn { work: cursor, caller: self.caller, turn }
    }
}

impl<'a, K: Ord, V> View for BptreeMapWriteTxn<'a, K, V> {
    type V = Seq<(K, V)>;

    /// The entries as this transaction sees them, in key order.
    closed spec fn view(&self) -> Seq<(K, V)> {
        self.work@
    }
}

impl<'a, K: Ord, V> BptreeMapWriteTxn<'a, K, V> {
    /// The tree is in order: the keys of its nodes part what is below them, its leaves are on
    /// one level, no node is too empty or too full, and the number of entries is right.
    pub closed spec fn in_order(&self) -> bool {
        self.work.in_order()
    }

    /// The tree is in order, and it started from the version of the map that was loaded with
    /// the writers' lock held.
    pub closed spec fn well_formed(&self) -> bool {
        &&& self.work.well_formed()
        &&& self.caller.genesis().is_prefix_of(self.work.base())
        &&& self.work.base() == self.turn.version().versions()
        &&& self.turn.locks() == self.caller.locks
        &&& self.caller.locks.records(self.turn.version())
    }

    /// The map that the transaction is of.
    pub closed spec fn map(&self) -> BptreeMap<K, V> {
        *self.caller
    }

    /// The versions that the transaction started from are those of its map.
    proof fn lemma_recorded(&self, i: int)
        requires
            self.well_formed(),
            0 <= i < self.base().len(),
        ensures
            self.base()[i] == self.map().version(i),
            self.map().genesis().is_prefix_of(self.base()),
    {
        assert(self.turn.version().versions()[i] == self.caller.locks.nth(i));
    }

    /// The entries are in key order.
    proof fn lemma_sorted(&self)
        requires
            order::total_order::<K>(),
            self.in_order() || self.well_formed(),
        ensures
            model::sorted(self@),
    {
        self.work.lemma_sorted();
    }

    /// The number of levels of the tree below its root.
    pub closed spec fn depth(&self) -> nat {
        self.work.depth()
    }

    /// The tree is flat.
    proof fn lemma_depth(&self)
        requires
            self.in_order() || self.well_formed(),
        ensures
            self@.len() == 0 ==> self.depth() == 0,
            self@.len() > 0 ==> power2::pow2(self.depth()) <= self@.len(),
    {
        self.work.lemma_depth();
    }

    /// The contents of the versions that were committed before, oldest first. The
    /// transaction started from the last of them.
    pub closed spec fn base(&self) -> Seq<Seq<(K, V)>> {
        self.work.base()
    }

    /// Retrieve a value from the tree. If the value exists, a reference is returned as
    /// `Some(&V)`, otherwise if not present `None` is returned.
    pub fn get(&self, k: &K) -> (r: Option<&V>)
        requires
            order::total_order::<K>(),
            self.well_formed(),
        ensures
            r is Some <==> model::has_key(self@, *k),
            r matches Some(v) ==> model::value_of(self@, *k) == Some(*v),
    {
        self.work.tree().search(k)
    }

    /// Assert if a key exists in the tree.
    pub fn contains_key(&self, k: &K) -> (r: bool)
        requires
            order::total_order::<K>(),
            self.well_formed(),
        ensures
            r == model::has_key(self@, *k),
    {
        self.work.tree().contains_key(k)
    }

    /// Returns the current number of k:v pairs in the tree.
    pub fn len(&self) -> (r: usize)
        requires
            self.well_formed(),
        ensures
            r == self@.len(),
    {
        self.work.tree().len
    }

    /// Determine if the set is currently empty.
    pub fn is_empty(&self) -> (r: bool)
        requires
            self.well_formed(),
        ensures
            r == (self@.len() == 0),
    {
        self.work.tree().len == 0
    }

    /// The entries of the set as `(&K, &V)`, in key order.
    pub fn iter(&self) -> (r: Vec<(&K, &V)>)
        ensures
            r@.unref() == self@,
            r@.len() == self@.len(),
            forall|i: int|
                0 <= i < self@.len() ==> *(#[trigger] r@[i]).0 == self@[i].0 && *r@[i].1
                    == self@[i].1,
    {
        self.work.tree().kv_iter()
    }

    /// The values of the set, in the order of their keys.
    pub fn values(&self) -> (r: Vec<&V>)
        ensures
            r@.unref() == model::values_of(self@),
            r@.len() == self@.len(),
            forall|i: int| 0 <= i < self@.len() ==> *(#[trigger] r@[i]) == self@[i].1,
    {
        self.work.tree().v_iter()
    }

    /// The keys of the set, in order.
    pub fn keys(&self) -> (r: Vec<&K>)
        ensures
            r@.unref() == model::keys_of(self@),
            r@.len() == self@.len(),
            forall|i: int| 0 <= i < self@.len() ==> *(#[trigger] r@[i]) == self@[i].0,
    {
        self.work.tree().k_iter()
    }

    /// The id of this transaction: one more than that of the version that it started from.
    pub fn get_txid(&self) -> (r: u64)
        requires
            self.well_formed(),
        ensures
            r == (self.base().len() + 1) % 0x1_0000_0000_0000_0000,
    {
        self.work.get_txid()
    }

    /// Reset this tree to an empty state. As this is within the transaction this change only
    /// takes effect once committed.
    pub fn clear(&mut self)
        requires
            old(self).well_formed(),
        ensures
            final(self).well_formed(),
            final(self).map() == old(self).map(),
            final(self).base() == old(self).base(),
            final(self)@ == Seq::<(K, V)>::empty(),
    {
        self.work.clear()
    }

    /// Insert or update a value by key. If the value previously existed it is returned as
    /// `Some(V)`. If the value did not previously exist this returns `None`.
    pub fn insert(&mut self, k: K, v: V) -> (r: Option<V>) where V: Clone
        requires
            order::total_order::<K>(),
            old(self).well_formed(),
            old(self)@.len() < usize::MAX || model::has_key(old(self)@, k),
        ensures
            final(self).well_formed(),
            final(self).map() == old(self).map(),
            final(self).base() == old(self).base(),
            final(self)@ == model::with(old(self)@, k, v),
            r is Some <==> model::has_key(old(self)@, k),
            r matches Some(p) ==> cloned(model::value_of(old(self)@, k)->0, p),
    {
        self.work.insert(k, v)
    }

    /// Insert or update the value of each item of an iterator, one after the other.
    pub fn extend<I: Iterator<Item = (K, V)>>(&mut self, iter: I) where V: Clone
        requires
            order::total_order::<K>(),
            old(self).well_formed(),
            iter.obeys_prophetic_iter_laws(),
            iter.decrease() is Some,
            model::with_all(old(self)@, iter.remaining()).len() <= usize::MAX,
        ensures
            final(self).well_formed(),
            final(self).map() == old(self).map(),
            final(self).base() == old(self).base(),
            final(self)@ == model::with_all(old(self)@, iter.remaining()),
    {
        self.work.extend(iter)
    }

    /// Remove a key if it exists in the tree. If the value exists, we return it as
    /// `Some(V)`, and if it did not exist, we return `None`.
    pub fn remove(&mut self, k: &K) -> (r: Option<V>) where V: Clone
        requires
            order::total_order::<K>(),
            old(self).well_formed(),
        ensures
            final(self).well_formed(),
            final(self).map() == old(self).map(),
            final(self).base() == old(self).base(),
            final(self)@ == model::without(old(self)@, *k),
            r is Some <==> model::has_key(old(self)@, *k),
            r matches Some(p) ==> cloned(model::value_of(old(self)@, *k)->0, p),
    {
        self.work.remove(k)
    }

    /// Remove all values less than (but not including) key from the map.
    pub fn split_off_lt(&mut self, key: &K) where V: Clone
        requires
            order::total_order::<K>(),
            old(self).well_formed(),
        ensures
            final(self).well_formed(),
            final(self).map() == old(self).map(),
            final(self).base() == old(self).base(),
            final(self)@ == model::starting_at(old(self)@, *key),
    {
        self.work.split_off_lt(key)
    }

    /// Get a mutable reference to a value in the tree. This is correctly, and safely cloned
    /// before you attempt to mutate the value, isolating it from other transactions.
    pub fn get_mut(&mut self, key: &K) -> (r: Option<&mut V>) where V: Clone
        requires
            order::total_order::<K>(),
            old(self).well_formed(),
        ensures
            final(self).well_formed(),
            final(self).map() == old(self).map(),
            final(self).base() == old(self).base(),
            r is Some <==> model::has_key(old(self)@, *key),
            r matches Some(v) ==> {
                &&& cloned(model::value_of(old(self)@, *key)->0, *v)
                &&& final(self)@ == model::with(old(self)@, *key, *final(v))
            },
            r is None ==> final(self)@ == old(self)@,
    {
        self.work.get_mut_ref(key)
    }

    /// Checks that the tree is in order. That of a well-formed transaction always is.
    pub fn verify(&self) -> (r: bool)
        requires
            order::total_order::<K>(),
        ensures
            r == self.in_order(),
            self.well_formed() ==> r,
    {
        self.work.tree().verify()
    }

    /// Create a read-snapshot of the current tree. The transaction cannot be changed while
    /// the snapshot is in use.
    pub fn to_snapshot<'b>(&'b self) -> (r: BptreeMapReadSnapshot<'b, K, V>)
        requires
            self.well_formed(),
        ensures
            r.well_formed(),
            r@ == self@,
    {
        BptreeMapReadSnapshot { work: SnapshotType::W(&self.work) }
    }

    /// Commit the changes from this write transaction. Readers after this point will be able
    /// to perceive these changes.
    ///
    /// To abort (unstage changes), just do not call this function.
    ///
    /// What is returned is evidence of the version that was stored for them: the versions
    /// that this transaction started from, and its own contents as a whole after them.
    pub fn commit(self) -> (r: Committed<'a, K, V>) where V: Clone
        requires
            self.well_formed(),
        ensures
            r.well_formed(),
            r.map() == self.map(),
            r.versions() == self.base().push(self@),
    {
        let newdata = self.work.finalise();
        assert(self.caller.genesis().is_prefix_of(newdata.versions()));
        self.caller.commit(self.turn, newdata)
    }
}

impl<'a, K: Ord, V> View for BptreeMapReadTxn<'a, K, V> {
    type V = Seq<(K, V)>;

    /// The entries of the version that this transaction reads, in key order.
    closed spec fn view(&self) -> Seq<(K, V)> {
        self.work@
    }
}

impl<'a, K: Ord, V> BptreeMapReadTxn<'a, K, V> {
    /// The tree is in order: the keys of its nodes part what is below them, its leaves are on
    /// one level, no node is too empty or too full, and the number of entries is right.
    pub closed spec fn in_order(&self) -> bool {
        self.work.in_order()
    }

    /// The tree is in order, and it is the pinned version, which is one of the map.
    pub closed spec fn well_formed(&self) -> bool {
        &&& self.work.reads(self.pin.version())
        &&& self._caller.locks.admits(self.pin.version())
        &&& self._caller.locks.records(self.pin.version())
    }

    /// The map that the transaction is of.
    pub closed spec fn map(&self) -> BptreeMap<K, V> {
        *self._caller
    }

    /// The versions that the transaction knows of are those of its map.
    proof fn lemma_recorded(&self, i: int)
        requires
            self.well_formed(),
            0 <= i < self.versions().len(),
        ensures
            self.versions()[i] == self.map().version(i),
            self.map().genesis().is_prefix_of(self.versions()),
    {
        assert(self.pin.version().versions()[i] == self._caller.locks.nth(i));
    }

    /// The entries are in key order.
    proof fn lemma_sorted(&self)
        requires
            order::total_order::<K>(),
            self.in_order() || self.well_formed(),
        ensures
            model::sorted(self@),
    {
        self.work.lemma_sorted();
    }

    /// There is a version that the transaction reads.
    proof fn lemma_nonempty(&self)
        requires
            self.well_formed(),
        ensures
            self.versions().len() > 0,
    {
    }

    /// The transaction sees the last of its versions.
    proof fn lemma_reads_last(&self)
        requires
            self.well_formed(),
        ensures
            self@ == self.versions().last(),
    {
    }

    /// The number of levels of the tree below its root.
    pub closed spec fn depth(&self) -> nat {
        self.work.depth()
    }

    /// The tree is flat.
    proof fn lemma_depth(&self)
        requires
            self.in_order() || self.well_formed(),
        ensures
            self@.len() == 0 ==> self.depth() == 0,
            self@.len() > 0 ==> power2::pow2(self.depth()) <= self@.len(),
    {
        self.work.lemma_depth();
    }

    /// The contents of the versions up to the one that this transaction reads, oldest first.
    pub closed spec fn versions(&self) -> Seq<Seq<(K, V)>> {
        self.pin.version().versions()
    }

    /// Retrieve a value from the tree. If the value exists, a reference is returned as
    /// `Some(&V)`, otherwise if not present `None` is returned.
    pub fn get(&self, k: &K) -> (r: Option<&V>)
        requires
            order::total_order::<K>(),
            self.well_formed(),
        ensures
            r is Some <==> model::has_key(self@, *k),
            r matches Some(v) ==> model::value_of(self@, *k) == Some(*v),
    {
        self.work.tree().search(k)
    }

    /// Assert if a key exists in the tree.
    pub fn contains_key(&self, k: &K) -> (r: bool)
        requires
            order::total_order::<K>(),
            self.well_formed(),
        ensures
            r == model::has_key(self@, *k),
    {
        self.work.tree().contains_key(k)
    }

    /// Returns the current number of k:v pairs in the tree.
    pub fn len(&self) -> (r: usize)
        requires
            self.well_formed(),
        ensures
            r == self@.len(),
    {
        self.work.tree().len
    }

    /// Determine if the set is currently empty.
    pub fn is_empty(&self) -> (r: bool)
        requires
            self.well_formed(),
        ensures
            r == (self@.len() == 0),
    {
        self.work.tree().len == 0
    }

    /// The id of the transaction that committed the version.
    pub fn get_txid(&self) -> (r: u64)
        requires
            self.well_formed(),
        ensures
            r == self.versions().len() % 0x1_0000_0000_0000_0000,
    {
        self.work.get_txid()
    }

    /// The entries of the set as `(&K, &V)`, in key order.
    pub fn iter(&self) -> (r: Vec<(&K, &V)>)
        ensures
            r@.unref() == self@,
            r@.len() == self@.len(),
            forall|i: int|
                0 <= i < self@.len() ==> *(#[trigger] r@[i]).0 == self@[i].0 && *r@[i].1
                    == self@[i].1,
    {
        self.work.tree().kv_iter()
    }

    /// The values of the set, in the order of their keys.
    pub fn values(&self) -> (r: Vec<&V>)
        ensures
            r@.unref() == model::values_of(self@),
            r@.len() == self@.len(),
            forall|i: int| 0 <= i < self@.len() ==> *(#[trigger] r@[i]) == self@[i].1,
    {
        self.work.tree().v_iter()
    }

    /// The keys of the set, in order.
    pub fn keys(&self) -> (r: Vec<&K>)
        ensures
            r@.unref() == model::keys_of(self@),
            r@.len() == self@.len(),
            forall|i: int| 0 <= i < self@.len() ==> *(#[trigger] r@[i]) == self@[i].0,
    {
        self.work.tree().k_iter()
    }

    /// Create a read-snapshot of the current tree. As this is the read variant, the tree will
    /// not change.
    pub fn to_snapshot<'b>(&'b self) -> (r: BptreeMapReadSnapshot<'b, K, V>)
        requires
            self.well_formed(),
        ensures
            r.well_formed(),
            r@ == self@,
    {
        BptreeMapReadSnapshot { work: SnapshotType::R(&self.work) }
    }

    /// Checks that the tree is in order. That of a well-formed transaction always is.
    pub fn verify(&self) -> (r: bool)
        requires
            order::total_order::<K>(),
        ensures
            r == self.in_order(),
            self.well_formed() ==> r,
    {
        self.work.tree().verify()
    }
}

impl<'a, K: Ord, V> View for BptreeMapReadSnapshot<'a, K, V> {
    type V = Seq<(K, V)>;

    /// The entries of the transaction, in key order.
    closed spec fn view(&self) -> Seq<(K, V)> {
        match self.work {
            SnapshotType::R(work) => work@,
            SnapshotType::W(work) => work@,
        }
    }
}

impl<'a, K: Ord, V> BptreeMapReadSnapshot<'a, K, V> {
    /// The tree is in order.
    pub closed spec fn well_formed(&self) -> bool {
        match self.work {
            SnapshotType::R(work) => work.well_formed(),
            SnapshotType::W(work) => work.well_formed(),
        }
    }

    /// The entries are in key order.
    proof fn lemma_sorted(&self)
        requires
            order::total_order::<K>(),
            self.well_formed(),
        ensures
            model::sorted(self@),
    {
        match self.work {
            SnapshotType::R(work) => work.lemma_sorted(),
            SnapshotType::W(work) => work.lemma_sorted(),
        }
    }

    /// Retrieve a value from the tree. If the value exists, a reference is returned as
    /// `Some(&V)`, otherwise if not present `None` is returned.
    pub fn get(&self, k: &K) -> (r: Option<&V>)
        requires
            order::total_order::<K>(),
            self.well_formed(),
        ensures
            r is Some <==> model::has_key(self@, *k),
            r matches Some(v) ==> model::value_of(self@, *k) == Some(*v),
    {
        match self.work {
            SnapshotType::R(work) => work.tree().search(k),
            SnapshotType::W(work) => work.tree().search(k),
        }
    }

    /// Assert if a key exists in the tree.
    pub fn contains_key(&self, k: &K) -> (r: bool)
        requires
            order::total_order::<K>(),
            self.well_formed(),
        ensures
            r == model::has_key(self@, *k),
    {
        match self.work {
            SnapshotType::R(work) => work.tree().contains_key(k),
            SnapshotType::W(work) => work.tree().contains_key(k),
        }
    }

    /// Returns the current number of k:v pairs in the tree.
    pub fn len(&self) -> (r: usize)
        requires
            self.well_formed(),
        ensures
            r == self@.len(),
    {
        match self.work {
            SnapshotType::R(work) => work.tree().len,
            SnapshotType::W(work) => work.tree().len,
        }
    }

    /// Determine if the set is currently empty.
    pub fn is_empty(&self) -> (r: bool)
        requires
            self.well_formed(),
        ensures
            r == (self@.len() == 0),
    {
        self.len() == 0
    }

    /// The entries of the set as `(&K, &V)`, in key order.
    pub fn iter(&self) -> (r: Vec<(&K, &V)>)
        ensures
            r@.unref() == self@,
            r@.len() == self@.len(),
            forall|i: int|
                0 <= i < self@.len() ==> *(#[trigger] r@[i]).0 == self@[i].0 && *r@[i].1
                    == self@[i].1,
    {
        match self.work {
            SnapshotType::R(work) => work.tree().kv_iter(),
            SnapshotType::W(work) => work.tree().kv_iter(),
        }
    }

    /// The values of the set, in the order of their keys.
    pub fn values(&self) -> (r: Vec<&V>)
        ensures
            r@.unref() == model::values_of(self@),
            r@.len() == self@.len(),
            forall|i: int| 0 <= i < self@.len() ==> *(#[trigger] r@[i]) == self@[i].1,
    {
        match self.work {
            SnapshotType::R(work) => work.tree().v_iter(),
            SnapshotType::W(work) => work.tree().v_iter(),
        }
    }

    /// The keys of the set, in order.
    pub fn keys(&self) -> (r: Vec<&K>)
        ensures
            r@.unref() == model::keys_of(self@),
            r@.len() == self@.len(),
            forall|i: int| 0 <= i < self@.len() ==> *(#[trigger] r@[i]) == self@[i].0,
    {
        match self.work {
            SnapshotType::R(work) => work.tree().k_iter(),
            SnapshotType::W(work) => work.tree().k_iter(),
        }
    }
}

} // verus!
