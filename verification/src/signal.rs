//! Blocking hand-offs between the queue's handles, over std's mutex and condition
//! variable: producers wait on a [`Doorbell`] for room, and dropped reservations leave
//! their sequence numbers in [`Returns`] for the consumer to release.

use vstd::prelude::*;
use std::sync::{Condvar, Mutex, MutexGuard};

verus! {

#[verifier::external_type_specification]
#[verifier::external_body]
#[verifier::reject_recursive_types(T)]
pub struct ExMutex<T: ?Sized>(Mutex<T>);

#[verifier::external_type_specification]
#[verifier::external_body]
#[verifier::reject_recursive_types(T)]
pub struct ExMutexGuard<'a, T: ?Sized + 'a>(MutexGuard<'a, T>);

#[verifier::external_type_specification]
#[verifier::external_body]
pub struct ExCondvar(Condvar);

/// `std::sync::Mutex::new`: makes a mutex around `t`. Nothing is claimed of it.
pub assume_specification<T>[ Mutex::<T>::new ](t: T) -> Mutex<T>;

/// `std::sync::Condvar::new`: makes a condition variable. Nothing is claimed of it.
pub assume_specification[ Condvar::new ]() -> Condvar;

/// `std::sync::Condvar::notify_all`: wakes every thread waiting on `ring`. Nothing is
/// claimed.
#[verifier::external_body]
pub fn notify_all(ring: &Condvar) {
    ring.notify_all();
}

/// The doorbell's lock, held: made only by [`Doorbell::hold`], so the condition
/// variable is only ever waited on together with the mutex of its own doorbell.
pub struct Held<'a> {
    bell: &'a Doorbell,
    guard: MutexGuard<'a, ()>,
}

/// `std::sync::Condvar::wait_while` on the doorbell that `held` belongs to: with its
/// lock held, call `attempt` and, while it returns `None`, sleep until woken and call
/// it again; give back what it returned last and the lock. Claimed: a `Some` result is
/// one that `attempt` returned. The result is `None` only when the wait ended because
/// another thread panicked while it held the lock (std reports that as poisoning);
/// the lock is given back either way. A wake-up between a call and the sleep after it
/// is not lost, since both happen under the lock.
#[verifier::external_body]
fn wait_while<'a, R, F: Fn() -> Option<R>>(held: Held<'a>, attempt: F) -> (r: (Option<R>, Held<'a>))
    requires
        call_requires(attempt, ()),
    ensures
        r.0 matches Some(v) ==> call_ensures(attempt, (), Some(v)),
{
    let bell = held.bell;
    let mut found = None;
    let guard = match bell.ring.wait_while(held.guard, |_| {
        found = attempt();
        found.is_none()
    }) {
        Ok(guard) => guard,
        Err(poisoned) => poisoned.into_inner(),
    };
    (found, Held { bell, guard })
}

/// `Vec::push` on the list a guard holds. Claimed: nothing of the list (it is not
/// modelled), and that the call does not unwind: `Vec::push` panics only when the
/// list's capacity would pass `isize::MAX` bytes, a limit that the numbers of
/// outstanding reservations never come near.
#[verifier::external_body]
pub fn push_slot(held: &mut MutexGuard<'_, Vec<u64>>, seq: u64)
    opens_invariants none
    no_unwind
{
    held.push(seq);
}

/// `std::mem::take` of the list a guard holds. Nothing is claimed of the result:
/// which reservations were dropped depends on other threads.
#[verifier::external_body]
pub fn take_slots(held: &mut MutexGuard<'_, Vec<u64>>) -> Vec<u64> {
    std::mem::take(&mut **held)
}

/// Where producers wait for room, and where the handles that make room ring.
pub struct Doorbell {
    lock: Mutex<()>,
    ring: Condvar,
}

impl Doorbell {
    pub fn new() -> Self {
        Doorbell { lock: Mutex::new(()), ring: Condvar::new() }
    }

    /// `std::sync::Mutex::lock` on the doorbell's own mutex, taking the lock even when
    /// another holder panicked (the mutex guards no data). Nothing is claimed of it.
    #[verifier::external_body]
    fn hold(&self) -> Held<'_> {
        Held { bell: self, guard: self.lock.lock().unwrap_or_else(std::sync::PoisonError::into_inner) }
    }

    /// Wake every waiter. The lock is taken first, so a waiter that has just found
    /// the queue full and is about to sleep is not missed.
    pub fn ring(&self) {
        let _held = self.hold();
        notify_all(&self.ring);
    }

    /// Call `attempt` until it finds something, sleeping between calls until rung.
    /// `None` means the wait was cut short: another thread panicked while it held
    /// the doorbell's lock.
    pub fn wait_for<R, F: Fn() -> Option<R>>(&self, attempt: F) -> (r: Option<R>)
        requires
            call_requires(attempt, ()),
        ensures
            r matches Some(v) ==> call_ensures(attempt, (), Some(v)),
    {
        let held = self.hold();
        let (r, _held) = wait_while(held, attempt);
        r
    }
}

/// Sequence numbers of reservations that were dropped without ack or nack.
pub struct Returns {
    slots: Mutex<Vec<u64>>,
}

impl Returns {
    pub fn new() -> Self {
        Returns { slots: Mutex::new(Vec::new()) }
    }

    /// `std::sync::Mutex::lock` on the list's own mutex, taking the list even when
    /// another holder panicked (a list of numbers stays meaningful). Nothing is
    /// claimed of the guard. It is claimed not to unwind: std's `lock` fails to return
    /// only when the calling thread already holds this mutex, and this mutex is taken
    /// only by `post` and `take`, each of which holds it for one call on the list and
    /// takes no other lock meanwhile.
    #[verifier::external_body]
    fn hold(&self) -> MutexGuard<'_, Vec<u64>>
        opens_invariants none
        no_unwind
    {
        self.slots.lock().unwrap_or_else(std::sync::PoisonError::into_inner)
    }

    /// Leave `seq` for the consumer to release.
    pub fn post(&self, seq: u64)
        opens_invariants none
        no_unwind
    {
        let mut held = self.hold();
        push_slot(&mut held, seq);
    }

    /// Take every number left so far.
    pub fn take(&self) -> Vec<u64> {
        let mut held = self.hold();
        take_slots(&mut held)
    }
}

} // verus!
