//! What the library takes on trust from `std::sync`: a lock, the guard that
//! stands for holding it, and the condition variable to wait on.
//!
//! Nothing is claimed of what a lock holds. Whoever takes the lock finds
//! under it some value of the guarded type, and every operation of the
//! library is verified for whatever value that is.

use std::sync::{Condvar, Mutex, MutexGuard};
use vstd::prelude::*;

verus! {

#[verifier::external_type_specification]
#[verifier::external_body]
#[verifier::reject_recursive_types(T)]
pub struct ExMutex<T: ?Sized>(Mutex<T>);

#[verifier::external_type_specification]
#[verifier::external_body]
#[verifier::reject_recursive_types(T)]
pub struct ExMutexGuard<'a, T: ?Sized + 'a>(MutexGuard<'a, T>);

#[verifier::external_type_specification]
#[verifier::external_body]
pub struct ExCondvar(Condvar);

/// `Mutex::new` makes a lock around `value`.
pub assume_specification<T>[ Mutex::<T>::new ](value: T) -> (mutex: Mutex<T>);

/// `Condvar::new` makes a condition variable that nobody waits on.
pub assume_specification[ Condvar::new ]() -> (condvar: Condvar);

/// `Condvar::notify_one` wakes at most one thread that waits on the
/// condition variable.
pub assume_specification[ Condvar::notify_one ](condvar: &Condvar);

/// `Condvar::notify_all` wakes every thread that waits on the condition
/// variable.
pub assume_specification[ Condvar::notify_all ](condvar: &Condvar);

/// Calls `Mutex::lock`: blocks until the lock is free and takes it. The
/// answer is `None` where the lock is poisoned. Nothing is known of the value
/// under the lock.
#[verifier::external_body]
pub(crate) fn lock<'a, T>(mutex: &'a Mutex<T>) -> (guard: Option<MutexGuard<'a, T>>) {
    match mutex.lock() {
        Ok(guard) => Some(guard),
        Err(_) => None,
    }
}

/// Calls `DerefMut::deref_mut` of `MutexGuard`: lends the value under the
/// lock for as long as the guard is borrowed. Nothing is known of the value.
#[verifier::external_body]
pub(crate) fn held<'g, 'a, T>(guard: &'g mut MutexGuard<'a, T>) -> (value: &'g mut T) {
    &mut **guard
}

/// A step on a state of type `S` that may have to wait for the state to
/// allow it.
pub trait Attempt<S> {
    /// What holds of the step before every attempt and after it, whether it
    /// had to wait or not.
    spec fn intact(&self) -> bool;

    /// Whether the step has been taken.
    spec fn done(&self) -> bool;

    /// Tries the step on `state`. The answer is whether the step has to wait
    /// and be tried again; a step that does not have to wait has been taken.
    fn attempt(&mut self, state: &mut S) -> (wait: bool)
        requires
            old(self).intact(),
        ensures
            final(self).intact(),
            !wait ==> final(self).done(),
    ;
}

/// Calls `Condvar::wait_while` with `step.attempt` as the condition: tries
/// the step on the value under the lock and, for as long as the step has to
/// wait, gives up the lock, sleeps until woken and tries again. The lock is
/// held again at the end. The step is intact before the first attempt and
/// every attempt keeps it so, hence it is intact at the end, however many
/// attempts were made. The answer is `None` where the lock is poisoned; else
/// the last attempt did not have to wait, so the step has been taken.
#[verifier::external_body]
pub(crate) fn wait_until<'a, S, A: Attempt<S>>(
    condvar: &Condvar,
    guard: MutexGuard<'a, S>,
    step: &mut A,
) -> (after: Option<MutexGuard<'a, S>>)
    requires
        old(step).intact(),
    ensures
        final(step).intact(),
        after is Some ==> final(step).done(),
{
    match condvar.wait_while(guard, |state| step.attempt(state)) {
        Ok(guard) => Some(guard),
        Err(_) => None,
    }
}

} // verus!
