//! A cyclic barrier that gathers one value from each participant and hands
//! the values of the whole generation to every one of them.

use crate::monitor::{lock, wait_until, Attempt};
use crate::rendezvous::{copies, BarrierError, Departure, Rendezvous, Ticket};
use std::sync::{Arc, Condvar, Mutex};
use vstd::prelude::*;

verus! {

/// The step of a participant that reaches the barrier: to arrive with its
/// value.
pub struct Arrival<T> {
    slot: Option<T>,
    ticket: Option<Ticket<T>>,
}

impl<T> Arrival<T> {
    /// The value that has yet to be handed over, if any.
    pub closed spec fn offered(self) -> Option<T> {
        self.slot
    }

    /// What the participant has been told on arrival, if anything.
    pub closed spec fn told(self) -> Option<Ticket<T>> {
        self.ticket
    }
}

impl<T: Clone> Attempt<Rendezvous<T>> for Arrival<T> {
    /// There is a value to hand over, or the participant has been told
    /// what its arrival came to.
    open spec fn intact(&self) -> bool {
        self.offered() is Some || self.told() is Some
    }

    /// The value has been handed over.
    open spec fn done(&self) -> bool {
        self.offered() is None
    }

    /// One attempt to arrive at `state` with the value offered: it has to
    /// wait exactly while there is a value and an earlier generation is
    /// leaving, and then changes nothing; else the value joins the
    /// generation, and the participant is told either the values of the
    /// generation that it has completed or the generation to wait for.
    fn attempt(&mut self, state: &mut Rendezvous<T>) -> (wait: bool)
        ensures
            final(state)@.valid(),
            wait <==> old(self).offered() is Some && !old(state)@.is_open(),
            wait || old(self).offered() is None ==> {
                &&& final(state)@ == old(state)@
                &&& final(self).offered() == old(self).offered()
                &&& final(self).told() == old(self).told()
            },
            !wait && old(self).offered() is Some ==> {
                &&& final(self).offered() is None
                &&& final(state)@ == old(state)@.arrive(old(self).offered()->Some_0)
                &&& match final(self).told() {
                    Some(Ticket::Released(values)) => old(state)@.waiting.len() + 1 == old(
                        state,
                    )@.threshold && copies(final(state)@.released, values@),
                    Some(Ticket::Waiting(generation)) => old(state)@.waiting.len() + 1 != old(
                        state,
                    )@.threshold && generation == old(state)@.generation,
                    None => false,
                }
            },
    {
        state.try_arrive(&mut self.slot, &mut self.ticket)
    }
}

/// The step of a participant whose generation was not complete when it
/// arrived: to leave once the generation has been released.
pub struct Leave<T> {
    generation: u64,
    out: Option<Departure<T>>,
}

impl<T> Leave<T> {
    /// The generation in which the participant arrived.
    pub closed spec fn arrived_in(self) -> u64 {
        self.generation
    }

    /// What the participant has taken along, if it has left.
    pub closed spec fn taken(self) -> Option<Departure<T>> {
        self.out
    }
}

impl<T: Clone> Attempt<Rendezvous<T>> for Leave<T> {
    /// Nothing has to hold of the step.
    open spec fn intact(&self) -> bool {
        true
    }

    /// The participant has left, with the values of its generation.
    open spec fn done(&self) -> bool {
        self.taken() is Some
    }

    /// One attempt to leave `state`: it has to wait exactly while the
    /// generation counter stands at the generation of arrival, and then
    /// changes nothing; else the participant leaves with a copy of the values
    /// released last, and with the word whether the barrier is open again.
    fn attempt(&mut self, state: &mut Rendezvous<T>) -> (wait: bool)
        ensures
            final(state)@.valid(),
            final(self).arrived_in() == old(self).arrived_in(),
            wait <==> old(state)@.generation == old(self).arrived_in(),
            wait ==> final(state)@ == old(state)@ && final(self).taken() == old(self).taken(),
            !wait ==> {
                &&& final(state)@ == old(state)@.leave()
                &&& final(self).taken() is Some
                &&& copies(old(state)@.released, final(self).taken()->Some_0.values@)
                &&& final(self).taken()->Some_0.reopened == final(state)@.is_open()
            },
    {
        state.try_leave(self.generation, &mut self.out)
    }
}

/// A reusable rendezvous point at which every participant leaves a value
/// and takes the values of all.
#[verifier::reject_recursive_types(T)]
pub struct CyclicBarrier<T> {
    threshold: usize,
    state: Mutex<Rendezvous<T>>,
    condvar: Condvar,
}

impl<T> CyclicBarrier<T> {
    #[verifier::type_invariant]
    spec fn inv(self) -> bool {
        self.threshold >= 1
    }

    /// How many participants the barrier was made for.
    pub closed spec fn participants(self) -> nat {
        self.threshold as nat
    }

    /// How many participants the barrier was made for.
    pub fn threshold(&self) -> (n: usize)
        ensures
            n == self.participants(),
            n >= 1,
    {
        proof {
            use_type_invariant(self);
        }
        self.threshold
    }

    /// What a participant goes on with when it has been handed `values`:
    /// the values, where there is one for each participant. Anything else
    /// shows that the state under the lock is not that of this barrier.
    pub fn complete(&self, values: Vec<T>) -> (outcome: Result<Vec<T>, BarrierError>)
        ensures
            values@.len() == self.participants() ==> outcome == Ok::<Vec<T>, BarrierError>(
                values,
            ),
            values@.len() != self.participants() ==> outcome == Err::<Vec<T>, BarrierError>(
                BarrierError::BrokenBarrier,
            ),
            self.participants() >= 1,
    {
        proof {
            use_type_invariant(self);
        }
        if values.len() == self.threshold {
            Ok(values)
        } else {
            Err(BarrierError::BrokenBarrier)
        }
    }
}

impl<T: Clone> CyclicBarrier<T> {
    /// Makes a barrier for `threshold` participants; a barrier without
    /// participants is refused.
    pub fn new(threshold: usize) -> (made: Result<Arc<Self>, BarrierError>)
        ensures
            threshold == 0 <==> made == Err::<Arc<Self>, BarrierError>(
                BarrierError::InvalidConfiguration,
            ),
            threshold > 0 ==> made is Ok && made->Ok_0.participants() == threshold,
    {
        match Rendezvous::new(threshold) {
            Ok(state) => Ok(
                Arc::new(
                    CyclicBarrier { threshold, state: Mutex::new(state), condvar: Condvar::new() },
                ),
            ),
            Err(error) => Err(error),
        }
    }

    /// Arrives with `value` and waits until the generation is complete. The
    /// answer holds the values of the generation's participants in the order
    /// of their arrival, one for each participant. A thread that arrives
    /// while an earlier generation is still leaving waits for it to be gone
    /// first.
    pub fn wait(&self, value: T) -> (outcome: Result<Vec<T>, BarrierError>)
        ensures
            outcome is Err ==> outcome == Err::<Vec<T>, BarrierError>(
                BarrierError::BrokenBarrier,
            ),
            outcome matches Ok(values) ==> values@.len() == self.participants() && values@.len()
                >= 1,
    {
        let mut arrival = Arrival { slot: Some(value), ticket: None };
        match lock(&self.state) {
            None => Err(BarrierError::BrokenBarrier),
            Some(guard) => match wait_until(&self.condvar, guard, &mut arrival) {
                None => Err(BarrierError::BrokenBarrier),
                Some(guard) => match arrival.ticket.unwrap() {
                    Ticket::Released(values) => {
                        self.condvar.notify_all();
                        self.complete(values)
                    },
                    Ticket::Waiting(generation) => {
                        let mut leave = Leave { generation, out: None };
                        match wait_until(&self.condvar, guard, &mut leave) {
                            None => Err(BarrierError::BrokenBarrier),
                            Some(_guard) => {
                                let departure = leave.out.unwrap();
                                if departure.reopened {
                                    self.condvar.notify_all();
                                }
                                self.complete(departure.values)
                            },
                        }
                    },
                },
            },
        }
    }
}

} // verus!
