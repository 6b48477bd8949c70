//! The locks of a map: one that lets writers in one at a time, and one round the version
//! that readers get.
//!
//! The types here are made by the calls into the lock library alone. Whoever holds one has
//! made the call that it stands for.
//!
//! What a function can do to a map shows in the bounds that it puts on keys and values, as it
//! can only call what asks for no more. To wait for the writers' lock takes `K: Debug`, to try
//! for it `K: Clone`, and to store a version `V: Clone`. No function of the map has more than
//! one of these. So a commit, which has one turn and cannot get another, stores one version;
//! opening a writer stores none; and neither does a read or the making of a map, which have no
//! turn and cannot get one.
use super::cursor::SuperBlock;
use parking_lot::lock_api;
use std::fmt::Debug;
use std::sync::Arc;
use vstd::prelude::*;

verus! {

/// The lock word of `parking_lot`. Nothing is claimed of it.
#[verifier::external_type_specification]
#[verifier::external_body]
pub struct ExRawMutex(parking_lot::RawMutex);

/// `Mutex` of `lock_api`, which `parking_lot::Mutex` is with the lock word of `parking_lot`.
/// Nothing is claimed of what is inside one.
#[verifier::external_type_specification]
#[verifier::external_body]
#[verifier::reject_recursive_types(R)]
#[verifier::reject_recursive_types(T)]
pub struct ExMutex<R, T: ?Sized>(lock_api::Mutex<R, T>);

/// A `parking_lot::MutexGuard` of a writers' lock. The lock is released when this is dropped.
/// Nothing is claimed of it.
///
/// The guard has a type parameter that is bound by a trait of `lock_api`, so that it cannot
/// be declared as `Mutex` is.
#[verifier::external_body]
pub struct WriteGuard<'a> {
    _guard: parking_lot::MutexGuard<'a, ()>,
}

/// The locks of a map, with the version behind them that it hands to its readers and writers.
///
/// A version gets behind the lock in two ways alone: the map is made with it, or a writer
/// stores it whose turn it is.
#[verifier::reject_recursive_types(K)]
#[verifier::reject_recursive_types(V)]
pub struct Locks<K: Ord, V> {
    writers: parking_lot::Mutex<()>,
    active: parking_lot::Mutex<Arc<SuperBlock<K, V>>>,
    genesis: Ghost<Seq<Seq<(K, V)>>>,
    record: Ghost<spec_fn(int) -> Seq<(K, V)>>,
    contended: Ghost<bool>,
}

/// A version that was behind the lock of a map. Only a load gives one.
#[verifier::reject_recursive_types(K)]
#[verifier::reject_recursive_types(V)]
pub struct Pin<K: Ord, V> {
    sblock: Arc<SuperBlock<K, V>>,
}

/// The held writers' lock of a map.
#[verifier::reject_recursive_types(K)]
#[verifier::reject_recursive_types(V)]
pub struct Held<'a, K: Ord, V> {
    locks: &'a Locks<K, V>,
    guard: WriteGuard<'a>,
}

/// The turn of a writer: the held writers' lock of a map, and the version that was loaded from
/// behind the lock of that map while it was held. Storing a version uses the turn up.
#[verifier::reject_recursive_types(K)]
#[verifier::reject_recursive_types(V)]
pub struct Turn<'a, K: Ord, V> {
    locks: &'a Locks<K, V>,
    sblock: Arc<SuperBlock<K, V>>,
    _guard: WriteGuard<'a>,
}

/// A version that a writer stored behind the lock of a map. Only the store itself gives one.
#[verifier::reject_recursive_types(K)]
#[verifier::reject_recursive_types(V)]
pub struct Stored<'a, K: Ord, V> {
    locks: &'a Locks<K, V>,
    sblock: Arc<SuperBlock<K, V>>,
}

impl<K: Ord, V> Locks<K, V> {
    /// The contents of the versions up to the one that the map was made with.
    pub closed spec fn genesis(&self) -> Seq<Seq<(K, V)>> {
        self.genesis@
    }

    /// The contents of version number `i` of the map, of all that it has in its life.
    pub closed spec fn nth(&self, i: int) -> Seq<(K, V)> {
        (self.record@)(i)
    }

    /// At some time in the life of the map an attempt on the lock of the writers fails, as
    /// someone holds it.
    pub closed spec fn contended(&self) -> bool {
        self.contended@
    }

    /// The version is one of those that the map has in its life, and so are those that it
    /// comes from.
    pub open spec fn records(&self, sblock: SuperBlock<K, V>) -> bool {
        forall|i: int|
            0 <= i < sblock.versions().len() ==> #[trigger] sblock.versions()[i] == self.nth(i)
    }

    /// The version comes from the one that the map was made with.
    pub open spec fn admits(&self, sblock: SuperBlock<K, V>) -> bool {
        self.genesis().is_prefix_of(sblock.versions())
    }

    /// Whether an attempt on the lock of the writers fails does not follow from the versions.
    pub proof fn lemma_contention(&self, contended: bool) -> (r: Self)
        ensures
            r.genesis() == self.genesis(),
            forall|i: int| r.nth(i) == self.nth(i),
            r.contended() == contended,
    {
        Locks {
            writers: self.writers,
            active: self.active,
            genesis: self.genesis,
            record: self.record,
            contended: Ghost(contended),
        }
    }

    /// `parking_lot::Mutex::new`, for the lock of the writers, and to put the first version
    /// behind the other lock. The record of the versions that the map starts with is that of
    /// the version that went in. What comes after those, and whether an attempt on the lock of
    /// the writers ever fails, is left open.
    #[verifier::external_body]
    pub(crate) fn new(first: SuperBlock<K, V>) -> (r: Self)
        ensures
            r.genesis() == first.versions(),
            r.records(first),
    {
        let ghost genesis = first.versions();
        let ghost record = |i: int| genesis[i];
        Locks {
            writers: parking_lot::Mutex::new(()),
            active: parking_lot::Mutex::new(Arc::new(first)),
            genesis: Ghost(genesis),
            record: Ghost(record),
            contended: Ghost(arbitrary()),
        }
    }

    /// `parking_lot::Mutex::lock`, to get at the version behind the lock and share it. Which
    /// version that is rests on other threads. It is one that the map was made with or that a
    /// writer stored, and so it comes from the one that the map was made with and is on the
    /// record of the map: each store puts there the version that follows the one that was
    /// there, as the writer loaded that one with the writers' lock held and holds it still.
    #[verifier::external_body]
    pub(crate) fn load(&self) -> (r: Pin<K, V>)
        ensures
            self.admits(r.version()),
            self.records(r.version()),
    {
        Pin { sblock: self.active.lock().clone() }
    }

    /// `parking_lot::Mutex::lock` waits until no one else holds the lock of the writers, and
    /// takes it. When that is rests on other threads. A thread that holds the lock already
    /// waits for ever.
    #[verifier::external_body]
    pub(crate) fn lock_writers<'a>(&'a self) -> (r: Held<'a, K, V>) where K: Debug
        ensures
            r.locks() == *self,
    {
        Held { locks: self, guard: WriteGuard { _guard: self.writers.lock() } }
    }

    /// `parking_lot::Mutex::try_lock` takes the lock of the writers if no one holds it, and
    /// gives `None` only if someone does. Which it is rests on other threads.
    #[verifier::external_body]
    pub(crate) fn try_lock_writers<'a>(&'a self) -> (r: Option<Held<'a, K, V>>) where K: Clone
        ensures
            r is None ==> self.contended(),
            r matches Some(held) ==> held.locks() == *self,
    {
        match self.writers.try_lock() {
            Some(guard) => Some(Held { locks: self, guard: WriteGuard { _guard: guard } }),
            None => None,
        }
    }
}

impl<K: Ord, V> Pin<K, V> {
    /// The version.
    pub closed spec fn version(&self) -> SuperBlock<K, V> {
        *self.sblock
    }

    /// The version.
    pub fn sblock(&self) -> (r: &SuperBlock<K, V>)
        ensures
            *r == self.version(),
    {
        &*self.sblock
    }
}

impl<'a, K: Ord, V> Held<'a, K, V> {
    /// The locks that this one is of.
    pub closed spec fn locks(&self) -> Locks<K, V> {
        *self.locks
    }

    /// `parking_lot::Mutex::lock`, to get at the version behind the lock and share it, while
    /// the writers' lock of the same map is held. What is claimed of it is what
    /// `Locks::load` claims.
    #[verifier::external_body]
    pub(crate) fn load(self) -> (r: Turn<'a, K, V>)
        ensures
            r.locks() == self.locks(),
            self.locks().admits(r.version()),
            self.locks().records(r.version()),
    {
        Turn { locks: self.locks, sblock: self.locks.active.lock().clone(), _guard: self.guard }
    }
}

impl<'a, K: Ord, V> Turn<'a, K, V> {
    /// The locks that the turn is taken at.
    pub closed spec fn locks(&self) -> Locks<K, V> {
        *self.locks
    }

    /// The version that the writer starts from.
    pub closed spec fn version(&self) -> SuperBlock<K, V> {
        *self.sblock
    }

    /// The version that the writer starts from.
    pub fn sblock(&self) -> (r: &SuperBlock<K, V>)
        ensures
            *r == self.version(),
    {
        &*self.sblock
    }

    /// `parking_lot::Mutex::lock`, to put a version behind the lock in place of the one that
    /// is there. The version is one commit further than the one that the writer started from.
    /// It is then on the record of the map. How long it stays behind the lock rests on other
    /// threads. The writers' lock is held until the version is stored, and then released.
    #[verifier::external_body]
    pub(crate) fn store(self, sblock: SuperBlock<K, V>) -> (r: Stored<'a, K, V>) where V: Clone
        requires
            self.locks().admits(sblock),
            sblock.versions() == self.version().versions().push(sblock.versions().last()),
        ensures
            r.locks() == self.locks(),
            r.version() == sblock,
            self.locks().records(r.version()),
    {
        let sblock = Arc::new(sblock);
        *self.locks.active.lock() = sblock.clone();
        Stored { locks: self.locks, sblock }
    }
}

impl<'a, K: Ord, V> Stored<'a, K, V> {
    /// The locks that the version was stored behind.
    pub closed spec fn locks(&self) -> Locks<K, V> {
        *self.locks
    }

    /// The version that was stored.
    pub closed spec fn version(&self) -> SuperBlock<K, V> {
        *self.sblock
    }

    /// `parking_lot::Mutex::lock`, to get at the version behind the lock after one was stored
    /// there. Which version that is rests on other threads, but it is the one that was stored
    /// or comes from it, for the reason that `Locks::load` gives. What else is claimed of it is
    /// what `Locks::load` claims.
    #[verifier::external_body]
    pub(crate) fn load(&self) -> (r: Pin<K, V>)
        ensures
            self.locks().admits(r.version()),
            self.locks().records(r.version()),
            self.version().versions().is_prefix_of(r.version().versions()),
    {
        Pin { sblock: self.locks.active.lock().clone() }
    }

    /// `parking_lot::Mutex::lock`, to get at the version behind the lock after one was stored
    /// there, while the writers' lock of the same map is held. What is claimed of it is what
    /// `Held::load` and `load` claim.
    #[verifier::external_body]
    pub(crate) fn load_for_write(&self, held: Held<'a, K, V>) -> (r: Turn<'a, K, V>)
        requires
            held.locks() == self.locks(),
        ensures
            r.locks() == self.locks(),
            self.locks().admits(r.version()),
            self.locks().records(r.version()),
            self.version().versions().is_prefix_of(r.version().versions()),
    {
        Turn { locks: held.locks, sblock: held.locks.active.lock().clone(), _guard: held.guard }
    }
}

} // verus!
