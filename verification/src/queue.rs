//! The queue handles: [`Builder`], [`Producer`], [`Consumer`], and the [`Reserved`]
//! guard. They share one [`QueueState`] behind a lock; every decision is made by the
//! state's verified operations while the lock is held.

use vstd::prelude::*;
use vstd::rwlock::{RwLock, RwLockPredicate};
use std::sync::Arc;
use crate::error::{waiting_outcome, OpenError, PushError, TryPushError};
use crate::signal::{Doorbell, Returns};
use crate::state::{
    check_store, entries_of, entry_count, openable, recoverable, version_of, Durability, QueueState,
};
use crate::keys::meta_key;
use crate::store::Store;

verus! {

/// The lock's invariant: the state inside is well formed, its store is one that
/// never fails exactly when `infallible` says so, and it keeps the settings the
/// queue was opened with.
pub struct StateInv {
    pub infallible: bool,
    pub capacity: usize,
    pub durable: bool,
    pub acks_durable: bool,
    pub batched: bool,
}

impl<S: Store> RwLockPredicate<QueueState<S>> for StateInv {
    open spec fn inv(self, v: QueueState<S>) -> bool {
        &&& v.wf()
        &&& v.store_infallible() == self.infallible
        &&& v.limit() == self.capacity as nat
        &&& v.durable_writes() == self.durable
        &&& v.acks_durable() == self.acks_durable
        &&& v.batched() == self.batched
    }
}


/// What the handles of one queue share.
pub struct Shared<S: Store> {
    state: RwLock<QueueState<S>, StateInv>,
    bell: Doorbell,
    dropped: Returns,
}

/// The producer and consumer ends returned by [`Builder::open`].
pub type Ends<S> = (Producer<S>, Consumer<S>);

/// Builds a queue over a [`Store`].
pub struct Builder<S> {
    store: S,
    capacity: usize,
    durability: Durability,
    durable_acks: Option<bool>,
}

impl<S: Store> Builder<S> {
    /// The store the queue will be opened over.
    pub closed spec fn store_spec(&self) -> S {
        self.store
    }

    /// The configured capacity.
    pub closed spec fn capacity_spec(&self) -> usize {
        self.capacity
    }

    /// The configured durability policy.
    pub closed spec fn durability_spec(&self) -> Durability {
        self.durability
    }

    /// Whether `durable_acks` chose the acks' durability apart from the policy.
    pub closed spec fn acks_set_apart(&self) -> bool {
        self.durable_acks is Some
    }

    /// Whether acks will be written durably: as set by `durable_acks`, or else as the
    /// durability policy says.
    pub closed spec fn acks_durable_spec(&self) -> bool {
        match self.durable_acks {
            Some(d) => d,
            None => self.durability.writes_durably(),
        }
    }

    /// Start a builder over `store` (capacity 1024, [`Durability::Sync`]).
    pub fn new(store: S) -> (b: Self)
        ensures
            b.store_spec() == store,
            b.capacity_spec() == 1024,
            b.durability_spec() == Durability::Sync,
            b.acks_durable_spec() == Durability::Sync.writes_durably(),
            !b.acks_set_apart(),
    {
        Builder { store, capacity: 1024, durability: Durability::Sync, durable_acks: None }
    }

    /// Set the maximum number of unacked items before `push` blocks. Must be > 0.
    pub fn capacity(self, capacity: usize) -> (b: Self)
        requires
            capacity > 0,
        ensures
            b.store_spec() == self.store_spec(),
            b.capacity_spec() == capacity,
            b.durability_spec() == self.durability_spec(),
            b.acks_durable_spec() == self.acks_durable_spec(),
            b.acks_set_apart() == self.acks_set_apart(),
    {
        Builder { capacity, ..self }
    }

    /// Set the durability policy. Acks follow it unless set apart with
    /// [`durable_acks`](Builder::durable_acks).
    pub fn durability(self, durability: Durability) -> (b: Self)
        ensures
            b.store_spec() == self.store_spec(),
            b.capacity_spec() == self.capacity_spec(),
            b.durability_spec() == durability,
            self.acks_set_apart() ==> b.acks_durable_spec() == self.acks_durable_spec(),
            !self.acks_set_apart() ==> b.acks_durable_spec() == durability.writes_durably(),
            b.acks_set_apart() == self.acks_set_apart(),
    {
        Builder { durability, ..self }
    }

    /// Choose whether acks are written durably, apart from the durability policy.
    /// At-least-once already tolerates redelivery, so relaxed acks trade a lost ack
    /// on a crash (the item comes back) for one fsync less per item.
    pub fn durable_acks(self, durable: bool) -> (b: Self)
        ensures
            b.store_spec() == self.store_spec(),
            b.capacity_spec() == self.capacity_spec(),
            b.durability_spec() == self.durability_spec(),
            b.acks_durable_spec() == durable,
            b.acks_set_apart(),
    {
        Builder { durable_acks: Some(durable), ..self }
    }

    /// Whether `open` may be called: the capacity is above zero and a scan of the
    /// store's entry range finds only entry keys, no entry at the last sequence
    /// number, and items that can be counted.
    pub fn can_open(&self) -> (r: Result<bool, S::Error>)
        ensures
            r matches Ok(b) ==> (b <==> self.capacity_spec() > 0 && openable(self.store_spec().contents())),
            self.store_spec().infallible() ==> r is Ok,
    {
        if self.capacity == 0 {
            return Ok(false);
        }
        check_store(&self.store)
    }

    /// Open the queue, recovering any items already in the store.
    pub fn open(self) -> (r: Result<Ends<S>, OpenError<S::Error>>)
        requires
            self.capacity_spec() > 0,
            recoverable(self.store_spec().contents()),
            entry_count(entries_of(self.store_spec().contents())) < usize::MAX,
        ensures
            ({
                let m = self.store_spec().contents();
                &&& r matches Err(OpenError::UnsupportedVersion(v)) ==> {
                    &&& m.contains_key(meta_key())
                    &&& v == version_of(m[meta_key()])
                    &&& v != crate::keys::FORMAT_VERSION
                }
                &&& m.contains_key(meta_key()) && version_of(m[meta_key()]) != crate::keys::FORMAT_VERSION
                    ==> r is Err
                &&& r matches Err(OpenError::Store(_)) ==> !self.store_spec().infallible()
                &&& r matches Ok((p, c)) ==> {
                    &&& p.store_infallible() == self.store_spec().infallible()
                    &&& c.store_infallible() == self.store_spec().infallible()
                    &&& p.limit() == self.capacity_spec()
                    &&& p.durable_writes() == self.durability_spec().writes_durably()
                    &&& p.acks_durable() == self.acks_durable_spec()
                    &&& p.batched() == self.durability_spec().batches()
                    &&& c.limit() == self.capacity_spec()
                    &&& c.durable_writes() == self.durability_spec().writes_durably()
                    &&& c.acks_durable() == self.acks_durable_spec()
                    &&& c.batched() == self.durability_spec().batches()
                }
            }),
    {
        let durable_acks = match self.durable_acks {
            Some(d) => d,
            None => self.durability.durable(),
        };
        let state = QueueState::recover(self.store, self.capacity, self.durability, durable_acks)?;
        let ghost pred = StateInv {
            infallible: state.store_infallible(),
            capacity: self.capacity,
            durable: self.durability.writes_durably(),
            acks_durable: durable_acks,
            batched: self.durability.batches(),
        };
        let shared = Arc::new(
            Shared {
                state: RwLock::new(state, Ghost(pred)),
                bell: Doorbell::new(),
                dropped: Returns::new(),
            },
        );
        Ok((Producer { shared: shared.clone() }, Consumer { shared }))
    }
}

/// The producer half. Clone it for multiple producers.
pub struct Producer<S: Store> {
    shared: Arc<Shared<S>>,
}

impl<S: Store> Clone for Producer<S> {
    fn clone(&self) -> (p: Self)
        ensures
            p.store_infallible() == self.store_infallible(),
            p.limit() == self.limit(),
            p.durable_writes() == self.durable_writes(),
            p.acks_durable() == self.acks_durable(),
            p.batched() == self.batched(),
    {
        Producer { shared: self.shared.clone() }
    }
}

impl<S: Store> Producer<S> {
    /// Whether the queue's store never fails.
    pub closed spec fn store_infallible(&self) -> bool {
        self.shared.state.pred().infallible
    }

    /// The queue's capacity: unacked items allowed before a push waits.
    pub closed spec fn limit(&self) -> usize {
        self.shared.state.pred().capacity
    }

    /// Whether pushes ask the store for durable writes.
    pub closed spec fn durable_writes(&self) -> bool {
        self.shared.state.pred().durable
    }

    /// Whether acks ask the store for durable writes.
    pub closed spec fn acks_durable(&self) -> bool {
        self.shared.state.pred().acks_durable
    }

    /// Whether pushes are batched (group commit).
    pub closed spec fn batched(&self) -> bool {
        self.shared.state.pred().batched
    }

    /// One push attempt, without ringing: writes through the state's sync path, or
    /// through the batch when the queue groups its writes.
    fn attempt(&self, value: &[u8]) -> (r: Result<(), TryPushError<S::Error>>)
        ensures
            self.store_infallible() ==> !(r matches Err(TryPushError::Store(_))),
    {
        let (mut state, handle) = self.shared.state.acquire_write();
        if !state.grouped() {
            let r = state.try_push(value);
            handle.release_write(state);
            return r;
        }
        let claimed = state.try_enqueue(value);
        handle.release_write(state);
        let seq = match claimed {
            Err(refused) => {
                return Err(refused);
            },
            Ok(seq) => seq,
        };
        let (mut state, handle) = self.shared.state.acquire_write();
        let r = state.settle(seq, value);
        handle.release_write(state);
        match r {
            Ok(()) => Ok(()),
            Err(e) => Err(TryPushError::Store(e)),
        }
    }

    /// One push attempt for a caller that waits for room itself: `None` means the
    /// queue is full, and the caller should wait for an ack and try again.
    pub fn try_push_waiting(&self, value: &[u8]) -> (r: Option<Result<(), PushError<S::Error>>>)
        ensures
            self.store_infallible() ==> !(r matches Some(Err(PushError::Store(_)))),
    {
        waiting_outcome(self.attempt(value))
    }

    /// Append `value`, waiting while the queue is at capacity. If another thread
    /// panicked while it held the queue's doorbell, the wait ends and the queue is
    /// reported closed.
    pub fn push(&self, value: &[u8]) -> (r: Result<(), PushError<S::Error>>)
        ensures
            self.store_infallible() ==> !(r matches Err(PushError::Store(_))),
    {
        let first = self.try_push_waiting(value);
        let again = (|| -> (o: Option<Result<(), PushError<S::Error>>>)
            ensures
                self.store_infallible() ==> !(o matches Some(Err(PushError::Store(_)))),
            {
                self.try_push_waiting(value)
            });
        let r = match first {
            Some(r) => r,
            None => match self.shared.bell.wait_for(again) {
                Some(r) => r,
                // Another thread panicked while it held the doorbell: the queue can
                // take no more items through this wait.
                None => Err(PushError::Closed),
            },
        };
        if r.is_err() {
            // A failed write gave back its slot (or the queue closed): let other
            // waiting producers look again.
            self.shared.bell.ring();
        }
        r
    }

    /// Append `value`, or return [`TryPushError::Full`] instead of waiting.
    pub fn try_push(&self, value: &[u8]) -> (r: Result<(), TryPushError<S::Error>>)
        ensures
            self.store_infallible() ==> !(r matches Err(TryPushError::Store(_))),
    {
        let r = self.attempt(value);
        if r.is_err() {
            self.shared.bell.ring();
        }
        r
    }

    /// Close the queue. Further pushes fail; the consumer can still drain.
    pub fn close(&self) {
        let (mut state, handle) = self.shared.state.acquire_write();
        state.close();
        handle.release_write(state);
        self.shared.bell.ring();
    }

    /// Number of unacked items currently in the queue.
    pub fn len(&self) -> usize {
        let handle = self.shared.state.acquire_read();
        let n = handle.borrow().len();
        handle.release_read();
        n
    }

    /// Whether the queue holds no unacked items.
    pub fn is_empty(&self) -> bool {
        self.len() == 0
    }
}

/// The consumer half. Single consumer, so it does not implement `Clone`.
pub struct Consumer<S: Store> {
    shared: Arc<Shared<S>>,
}

impl<S: Store> Consumer<S> {
    /// Whether the queue's store never fails.
    pub closed spec fn store_infallible(&self) -> bool {
        self.shared.state.pred().infallible
    }

    /// The queue's capacity: unacked items allowed before a push waits.
    pub closed spec fn limit(&self) -> usize {
        self.shared.state.pred().capacity
    }

    /// Whether pushes ask the store for durable writes.
    pub closed spec fn durable_writes(&self) -> bool {
        self.shared.state.pred().durable
    }

    /// Whether acks ask the store for durable writes.
    pub closed spec fn acks_durable(&self) -> bool {
        self.shared.state.pred().acks_durable
    }

    /// Whether pushes are batched (group commit).
    pub closed spec fn batched(&self) -> bool {
        self.shared.state.pred().batched
    }

    /// Reserve the oldest unreserved item, or `None` if there is nothing to
    /// deliver. Ack or nack the returned [`Reserved`] to finish with it.
    pub fn reserve(&self) -> (r: Result<Option<Reserved<S>>, S::Error>)
        ensures
            self.store_infallible() ==> r is Ok,
            r matches Ok(Some(item)) ==> item.store_infallible() == self.store_infallible(),
    {
        let dropped = self.shared.dropped.take();
        let (mut state, handle) = self.shared.state.acquire_write();
        let r = state.reserve_after_returns(&dropped);
        handle.release_write(state);
        match r {
            Ok(Some((seq, value))) => Ok(
                Some(Reserved { shared: self.shared.clone(), seq, value, done: false }),
            ),
            Ok(None) => Ok(None),
            Err(e) => Err(e),
        }
    }

    /// One step of a reserve for a caller that waits for items itself: the oldest
    /// unreserved item, or `Drained` when there is none and the queue is closed and
    /// holds no unacked items, or `Wait` when there is none yet.
    pub fn reserve_step(&self) -> (r: Result<ReserveStep<S>, S::Error>)
        ensures
            self.store_infallible() ==> r is Ok,
            r matches Ok(ReserveStep::Item(item)) ==> item.store_infallible() == self.store_infallible(),
    {
        match self.reserve() {
            Err(e) => Err(e),
            Ok(Some(item)) => Ok(ReserveStep::Item(item)),
            Ok(None) => {
                if self.is_drained() {
                    Ok(ReserveStep::Drained)
                } else {
                    Ok(ReserveStep::Wait)
                }
            },
        }
    }

    /// Whether the queue is closed and holds no unacked items: nothing more will
    /// ever be delivered.
    pub fn is_drained(&self) -> bool {
        let handle = self.shared.state.acquire_read();
        let drained = handle.borrow().closed() && handle.borrow().len() == 0;
        handle.release_read();
        drained
    }
}

/// What one step of a reserve found.
pub enum ReserveStep<S: Store> {
    /// The oldest unreserved item, now reserved.
    Item(Reserved<S>),
    /// Nothing to deliver, and nothing ever will be: closed and drained.
    Drained,
    /// Nothing to deliver yet.
    Wait,
}

/// A reserved (in-flight) item. Derefs to its bytes; [`ack`](Reserved::ack)
/// removes it, [`nack`](Reserved::nack) or drop returns it for redelivery.
pub struct Reserved<S: Store> {
    shared: Arc<Shared<S>>,
    seq: u64,
    value: Vec<u8>,
    done: bool,
}

impl<S: Store> Reserved<S> {
    /// Whether the queue's store never fails.
    pub closed spec fn store_infallible(&self) -> bool {
        self.shared.state.pred().infallible
    }

    /// The item's sequence number.
    pub closed spec fn seq_spec(&self) -> u64 {
        self.seq
    }

    /// The item's bytes.
    pub closed spec fn bytes(&self) -> Seq<u8> {
        self.value@
    }

    /// The item's bytes, as a slice.
    pub fn bytes_slice(&self) -> (b: &[u8])
        ensures
            b@ == self.bytes(),
    {
        self.value.as_slice()
    }

    /// The item's sequence number: a stable id that survives redelivery.
    pub fn seq(&self) -> (s: u64)
        ensures
            s == self.seq_spec(),
    {
        self.seq
    }

    /// Remove the item from the queue, committed per the durability policy.
    pub fn ack(self) -> (r: Result<(), S::Error>)
        ensures
            self.store_infallible() ==> r is Ok,
    {
        let mut this = self;
        let (mut state, handle) = this.shared.state.acquire_write();
        let r = if state.holds(this.seq) {
            state.ack(this.seq)
        } else {
            Ok(())
        };
        handle.release_write(state);
        this.done = true;
        this.shared.bell.ring();
        r
    }

    /// Return the item for redelivery without removing it.
    pub fn nack(self) {
        let mut this = self;
        let (mut state, handle) = this.shared.state.acquire_write();
        state.release(this.seq);
        handle.release_write(state);
        this.done = true;
    }
}

impl<S: Store> std::ops::Deref for Reserved<S> {
    type Target = [u8];

    fn deref(&self) -> (b: &[u8])
        ensures
            b@ == self.bytes(),
    {
        self.value.as_slice()
    }
}

impl<S: Store> Drop for Reserved<S> {
    /// Dropping an item without ack or nack returns it for redelivery: its number is
    /// left for the consumer, which releases it before its next reserve.
    fn drop(&mut self)
        opens_invariants none
        no_unwind
    {
        if !self.done {
            self.shared.dropped.post(self.seq);
        }
    }
}

} // verus!
