//! A ring buffer behind a lock, to be shared by threads: one form whose
//! operations answer at once, and one whose operations wait for room or for
//! an element.

use crate::monitor::{held, lock, wait_until, Attempt};
use crate::ring::{take_model, CircularBuffer, Error};
use std::sync::{Condvar, Mutex};
use vstd::prelude::*;

verus! {

/// A ring buffer that several threads may write to and read from; no
/// operation waits for another thread to make room or to deliver.
#[verifier::reject_recursive_types(T)]
pub struct SyncBuffer<T> {
    slots: usize,
    buf: Mutex<CircularBuffer<T>>,
}

impl<T> SyncBuffer<T> {
    /// The number of slots, fixed when the buffer was made.
    pub closed spec fn capacity(self) -> nat {
        self.slots as nat
    }

    /// The number of slots, fixed when the buffer was made.
    pub fn slots(&self) -> (n: usize)
        ensures
            n == self.capacity(),
    {
        self.slots
    }
}

impl<T: Default> SyncBuffer<T> {
    /// Makes an empty shared buffer of `capacity` slots; a buffer without
    /// slots is refused.
    pub fn new(capacity: usize) -> (made: Result<Self, Error>)
        ensures
            capacity == 0 <==> made == Err::<Self, Error>(Error::InvalidConfiguration),
            capacity > 0 ==> made is Ok && made->Ok_0.capacity() == capacity,
    {
        match CircularBuffer::new(capacity) {
            Ok(buffer) => Ok(SyncBuffer { slots: capacity, buf: Mutex::new(buffer) }),
            Err(error) => Err(error),
        }
    }

    /// Appends `element` unless every slot is taken at the moment the lock is
    /// held.
    pub fn write(&self, element: T) -> (done: Result<(), Error>)
        ensures
            done is Err ==> done == Err::<(), Error>(Error::FullBuffer) || done == Err::<
                (),
                Error,
            >(Error::Poisoned),
    {
        match lock(&self.buf) {
            None => Err(Error::Poisoned),
            Some(mut guard) => {
                let buffer = held(&mut guard);
                buffer.write(element)
            },
        }
    }

    /// Removes the oldest element unless nothing is held at the moment the
    /// lock is held.
    pub fn read(&self) -> (got: Result<T, Error>)
        ensures
            got is Err ==> got == Err::<T, Error>(Error::EmptyBuffer) || got == Err::<T, Error>(
                Error::Poisoned,
            ),
    {
        match lock(&self.buf) {
            None => Err(Error::Poisoned),
            Some(mut guard) => {
                let buffer = held(&mut guard);
                buffer.read()
            },
        }
    }
}

/// The step of a writer: to put an element into the buffer.
pub struct Offer<T> {
    slot: Option<T>,
}

impl<T> Offer<T> {
    /// The element that has yet to go into the buffer, if any.
    pub closed spec fn pending(self) -> Option<T> {
        self.slot
    }
}

impl<T: Default> Attempt<CircularBuffer<T>> for Offer<T> {
    /// Nothing has to hold of the step.
    open spec fn intact(&self) -> bool {
        true
    }

    /// The element has gone into the buffer.
    open spec fn done(&self) -> bool {
        self.pending() is None
    }

    /// One attempt to move the pending element into `state`: it has to wait
    /// exactly while there is an element and every slot is taken, and then
    /// changes nothing; else the element goes behind the newest one.
    fn attempt(&mut self, state: &mut CircularBuffer<T>) -> (wait: bool)
        ensures
            final(state).capacity() == old(state).capacity(),
            final(state)@.len() <= final(state).capacity(),
            wait <==> old(self).pending() is Some && old(state)@.len() == old(state).capacity(),
            wait ==> final(state)@ == old(state)@ && final(self).pending() == old(self).pending(),
            !wait ==> final(self).pending() is None,
            !wait && old(self).pending() is Some ==> final(state)@ == old(state)@.push(
                old(self).pending()->Some_0,
            ),
            old(self).pending() is None ==> final(state)@ == old(state)@,
    {
        state.offer(&mut self.slot)
    }
}

/// The step of a reader: to take the oldest element out of the buffer.
pub struct Poll<T> {
    out: Option<T>,
}

impl<T> Poll<T> {
    /// The element that has come out of the buffer, if any.
    pub closed spec fn taken(self) -> Option<T> {
        self.out
    }
}

impl<T: Default> Attempt<CircularBuffer<T>> for Poll<T> {
    /// Nothing has to hold of the step.
    open spec fn intact(&self) -> bool {
        true
    }

    /// An element has come out of the buffer.
    open spec fn done(&self) -> bool {
        self.taken() is Some
    }

    /// One attempt to take the oldest element out of `state`: it has to wait
    /// exactly while nothing is held, and then changes nothing; else the
    /// oldest element leaves the buffer and is the one taken.
    fn attempt(&mut self, state: &mut CircularBuffer<T>) -> (wait: bool)
        ensures
            final(state).capacity() == old(state).capacity(),
            final(state)@ == take_model(old(state)@),
            final(state)@.len() <= final(state).capacity(),
            wait <==> old(state)@.len() == 0,
            wait ==> final(self).taken() == old(self).taken(),
            !wait ==> final(self).taken() == Some(old(state)@[0]),
    {
        state.poll(&mut self.out)
    }
}

/// A ring buffer that several threads may write to and read from; a writer
/// waits while every slot is taken, a reader while nothing is held.
#[verifier::reject_recursive_types(T)]
pub struct BlockingSyncBuf<T> {
    slots: usize,
    buf: Mutex<CircularBuffer<T>>,
    room: Condvar,
    stock: Condvar,
}

impl<T> BlockingSyncBuf<T> {
    /// The number of slots, fixed when the buffer was made.
    pub closed spec fn capacity(self) -> nat {
        self.slots as nat
    }

    /// The number of slots, fixed when the buffer was made.
    pub fn slots(&self) -> (n: usize)
        ensures
            n == self.capacity(),
    {
        self.slots
    }
}

impl<T: Default> BlockingSyncBuf<T> {
    /// Makes an empty shared buffer of `capacity` slots; a buffer without
    /// slots is refused.
    pub fn new(capacity: usize) -> (made: Result<Self, Error>)
        ensures
            capacity == 0 <==> made == Err::<Self, Error>(Error::InvalidConfiguration),
            capacity > 0 ==> made is Ok && made->Ok_0.capacity() == capacity,
    {
        match CircularBuffer::new(capacity) {
            Ok(buffer) => Ok(
                BlockingSyncBuf {
                    slots: capacity,
                    buf: Mutex::new(buffer),
                    room: Condvar::new(),
                    stock: Condvar::new(),
                },
            ),
            Err(error) => Err(error),
        }
    }

    /// Appends `element`, waiting for as long as every slot is taken, and
    /// wakes one waiting reader.
    pub fn write_blocking(&self, element: T) -> (done: Result<(), Error>)
        ensures
            done is Err ==> done == Err::<(), Error>(Error::Poisoned),
    {
        let mut step = Offer { slot: Some(element) };
        match lock(&self.buf) {
            None => Err(Error::Poisoned),
            Some(guard) => match wait_until(&self.room, guard, &mut step) {
                None => Err(Error::Poisoned),
                Some(_guard) => {
                    self.stock.notify_one();
                    Ok(())
                },
            },
        }
    }

    /// Removes the oldest element, waiting for as long as nothing is held,
    /// and wakes one waiting writer.
    pub fn read_blocking(&self) -> (got: Result<T, Error>)
        ensures
            got is Err ==> got == Err::<T, Error>(Error::Poisoned),
    {
        let mut step = Poll { out: None };
        match lock(&self.buf) {
            None => Err(Error::Poisoned),
            Some(guard) => match wait_until(&self.stock, guard, &mut step) {
                None => Err(Error::Poisoned),
                Some(_guard) => {
                    self.room.notify_one();
                    Ok(step.out.unwrap())
                },
            },
        }
    }
}

} // verus!
