//! A fixed-capacity first-in, first-out ring of slots.
//!
//! The ring is viewed as the sequence of the elements it holds, oldest first.
//! Every operation is stated over that sequence, the capacity and the two
//! slots of the backing storage at its ends: the one in which the oldest
//! element lies, and the one that the next element goes into.

use vstd::prelude::*;

verus! {

/// Why an operation on a buffer was refused.
#[derive(Debug, PartialEq, Eq, Structural, Clone, Copy)]
pub enum Error {
    /// Nothing is stored, so nothing can be read.
    EmptyBuffer,
    /// Every slot is taken, so nothing can be written.
    FullBuffer,
    /// A buffer needs at least one slot.
    InvalidConfiguration,
    /// The lock around a shared buffer was poisoned by a panicking holder.
    Poisoned,
}

/// Where the live elements lie in the backing storage.
#[derive(Clone, Copy)]
struct Span {
    head: usize,
    tail: usize,
    len: usize,
}

/// The slot that lies `offset` places after `start` in a ring of `cap` slots.
pub open spec fn slot_after(start: int, offset: int, cap: int) -> int {
    if start + offset < cap {
        start + offset
    } else {
        start + offset - cap
    }
}

/// What a queue holds after an attempt to append `element`.
pub open spec fn put_model<T>(queue: Seq<T>, capacity: nat, element: T) -> Seq<T> {
    if queue.len() < capacity {
        queue.push(element)
    } else {
        queue
    }
}

/// What a queue holds after an attempt to remove its oldest element.
pub open spec fn take_model<T>(queue: Seq<T>) -> Seq<T> {
    if queue.len() > 0 {
        queue.drop_first()
    } else {
        queue
    }
}

/// A bounded FIFO queue over a ring of default-initialised slots.
pub struct CircularBuffer<T> {
    data: Vec<T>,
    span: Span,
}

impl<T> CircularBuffer<T> {
    #[verifier::type_invariant]
    spec fn inv(self) -> bool {
        &&& self.data.len() >= 1
        &&& self.span.head < self.data.len()
        &&& self.span.len <= self.data.len()
        &&& self.span.tail == slot_after(
            self.span.head as int,
            self.span.len as int,
            self.data.len() as int,
        )
    }

    /// The elements held, oldest first.
    pub closed spec fn view(self) -> Seq<T> {
        Seq::new(
            self.span.len as nat,
            |i: int| self.data@[slot_after(self.span.head as int, i, self.data.len() as int)],
        )
    }

    /// The number of slots.
    pub closed spec fn capacity(self) -> nat {
        self.data.len() as nat
    }

    /// The slot of the backing storage that holds the oldest element.
    pub closed spec fn front_slot(self) -> nat {
        self.span.head as nat
    }

    /// The slot of the backing storage that the next element goes into.
    pub closed spec fn back_slot(self) -> nat {
        self.span.tail as nat
    }

    /// Whether the two ends lie where the elements held put them: the front
    /// within the storage, and the back as many places behind it as there
    /// are elements.
    pub open spec fn ends_agree(self) -> bool {
        &&& self.front_slot() < self.capacity()
        &&& self@.len() <= self.capacity()
        &&& self.back_slot() == slot_after(
            self.front_slot() as int,
            self@.len() as int,
            self.capacity() as int,
        )
    }
}

/// The slot after `slot` in a ring of `cap` slots.
fn next_slot(slot: usize, cap: usize) -> (next: usize)
    requires
        slot < cap,
    ensures
        next == slot_after(slot as int, 1, cap as int),
        next < cap,
{
    proof {
        if slot + 1 < cap {
            vstd::arithmetic::div_mod::lemma_small_mod((slot + 1) as nat, cap as nat);
        } else {
            vstd::arithmetic::div_mod::lemma_mod_self_0(cap as int);
        }
    }
    (slot + 1) % cap
}

/// Calls `IndexMut::index_mut` of `Vec` with the range of its first `len`
/// places: lends these places as one slice, to be changed in place. A slice
/// keeps its length, the places behind the range stay as they are, and with
/// `len` within the vector the call does not panic.
#[verifier::external_body]
fn first_places<T>(data: &mut Vec<T>, len: usize) -> (stretch: &mut [T])
    requires
        len <= old(data)@.len(),
    ensures
        stretch@ == old(data)@.subrange(0, len as int),
        final(stretch)@.len() == len,
        final(data)@ == final(stretch)@ + old(data)@.subrange(len as int, old(data)@.len() as int),
    no_unwind
{
    &mut data[..len]
}

impl<T: Default> CircularBuffer<T> {
    /// Makes an empty buffer of `capacity` slots; a buffer without slots is
    /// refused.
    pub fn new(capacity: usize) -> (made: Result<Self, Error>)
        ensures
            capacity == 0 <==> made == Err::<Self, Error>(Error::InvalidConfiguration),
            capacity > 0 ==> made is Ok && made->Ok_0@ == Seq::<T>::empty()
                && made->Ok_0.capacity() == capacity && made->Ok_0.front_slot() == 0
                && made->Ok_0.back_slot() == 0,
    {
        if capacity == 0 {
            return Err(Error::InvalidConfiguration);
        }
        let mut buf: Vec<T> = Vec::with_capacity(capacity);
        let mut filled: usize = 0;
        while filled < capacity
            invariant
                filled <= capacity,
                buf.len() == filled,
            decreases capacity - filled,
        {
            buf.push(T::default());
            filled = filled + 1;
        }
        let made = CircularBuffer { data: buf, span: Span { head: 0, tail: 0, len: 0 } };
        assert(made@ =~= Seq::<T>::empty());
        Ok(made)
    }

    /// Appends `element` behind the newest one, unless every slot is taken.
    pub fn write(&mut self, element: T) -> (done: Result<(), Error>)
        ensures
            final(self).capacity() == old(self).capacity(),
            final(self)@ == put_model(old(self)@, old(self).capacity(), element),
            final(self)@.len() <= final(self).capacity(),
            old(self)@.len() < old(self).capacity() ==> done == Ok::<(), Error>(()),
            old(self)@.len() >= old(self).capacity() ==> done == Err::<(), Error>(
                Error::FullBuffer,
            ),
            final(self).front_slot() == old(self).front_slot(),
            final(self).back_slot() == (if old(self)@.len() < old(self).capacity() {
                slot_after(old(self).back_slot() as int, 1, old(self).capacity() as int)
            } else {
                old(self).back_slot() as int
            }),
            final(self).ends_agree(),
    {
        proof {
            use_type_invariant(&*self);
        }
        if self.span.len == self.data.len() {
            Err(Error::FullBuffer)
        } else {
            let Span { head, tail, len } = self.span;
            let next = next_slot(tail, self.data.len());
            self.data[tail] = element;
            self.span = Span { head, tail: next, len: len + 1 };
            assert(self@ =~= old(self)@.push(element));
            Ok(())
        }
    }

    /// Removes the oldest element and hands it out, unless nothing is held.
    pub fn read(&mut self) -> (got: Result<T, Error>)
        ensures
            final(self).capacity() == old(self).capacity(),
            final(self)@ == take_model(old(self)@),
            final(self)@.len() <= final(self).capacity(),
            old(self)@.len() > 0 ==> got == Ok::<T, Error>(old(self)@[0]),
            old(self)@.len() == 0 ==> got == Err::<T, Error>(Error::EmptyBuffer),
            final(self).front_slot() == (if old(self)@.len() > 0 {
                slot_after(old(self).front_slot() as int, 1, old(self).capacity() as int)
            } else {
                old(self).front_slot() as int
            }),
            final(self).back_slot() == old(self).back_slot(),
            final(self).ends_agree(),
    {
        proof {
            use_type_invariant(&*self);
        }
        if self.span.len == 0 {
            Err(Error::EmptyBuffer)
        } else {
            let Span { head, tail, len } = self.span;
            let next = next_slot(head, self.data.len());
            let mut element = T::default();
            std::mem::swap(&mut self.data[head], &mut element);
            self.span = Span { head: next, tail, len: len - 1 };
            assert(self@ =~= old(self)@.drop_first());
            Ok(element)
        }
    }

    /// Drops every element held, oldest first. The front slot moves on by
    /// as many places as there were elements; an empty buffer is left as it
    /// was.
    pub fn clear(&mut self)
        ensures
            final(self).capacity() == old(self).capacity(),
            final(self)@ == Seq::<T>::empty(),
            final(self).front_slot() == slot_after(
                old(self).front_slot() as int,
                old(self)@.len() as int,
                old(self).capacity() as int,
            ),
            final(self).back_slot() == old(self).back_slot(),
            final(self).ends_agree(),
    {
        proof {
            use_type_invariant(&*self);
        }
        while self.span.len > 0
            invariant
                self.capacity() == old(self).capacity(),
                self@.len() <= old(self)@.len() <= old(self).capacity(),
                old(self).front_slot() < old(self).capacity(),
                self.back_slot() == old(self).back_slot(),
                self.ends_agree(),
                self.front_slot() == slot_after(
                    old(self).front_slot() as int,
                    old(self)@.len() - self@.len(),
                    old(self).capacity() as int,
                ),
            decreases self@.len(),
        {
            let _ = self.read();
        }
        assert(self@ =~= Seq::<T>::empty());
    }

    /// Appends `element`; where every slot is taken, the oldest element is
    /// dropped to make room.
    pub fn overwrite(&mut self, element: T)
        ensures
            final(self).capacity() == old(self).capacity(),
            final(self)@ == (if old(self)@.len() == old(self).capacity() {
                old(self)@.drop_first()
            } else {
                old(self)@
            }).push(element),
            final(self)@.len() <= final(self).capacity(),
            final(self).front_slot() == (if old(self)@.len() == old(self).capacity() {
                slot_after(old(self).front_slot() as int, 1, old(self).capacity() as int)
            } else {
                old(self).front_slot() as int
            }),
            final(self).back_slot() == slot_after(
                old(self).back_slot() as int,
                1,
                old(self).capacity() as int,
            ),
            final(self).ends_agree(),
    {
        proof {
            use_type_invariant(&*self);
        }
        if self.span.len == self.data.len() {
            let _ = self.read();
        }
        let _ = self.write(element);
    }

    /// One attempt to move the element out of `slot` into the buffer. The
    /// answer is whether the caller has to wait for room and try again; an
    /// empty `slot` asks for nothing.
    pub fn offer(&mut self, slot: &mut Option<T>) -> (wait: bool)
        ensures
            final(self).capacity() == old(self).capacity(),
            final(self)@.len() <= final(self).capacity(),
            wait <==> *old(slot) is Some && old(self)@.len() == old(self).capacity(),
            wait ==> final(self)@ == old(self)@ && *final(slot) == *old(slot),
            !wait ==> *final(slot) is None,
            !wait && *old(slot) is Some ==> final(self)@ == old(self)@.push(old(slot)->Some_0),
            *old(slot) is None ==> final(self)@ == old(self)@,
            final(self).front_slot() == old(self).front_slot(),
            final(self).ends_agree(),
    {
        proof {
            use_type_invariant(&*self);
        }
        if self.span.len == self.data.len() {
            slot.is_some()
        } else {
            match slot.take() {
                Some(element) => {
                    let _ = self.write(element);
                },
                None => {},
            }
            false
        }
    }

    /// One attempt to move the oldest element into `out`. The answer is
    /// whether the caller has to wait for an element and try again.
    pub fn poll(&mut self, out: &mut Option<T>) -> (wait: bool)
        ensures
            final(self).capacity() == old(self).capacity(),
            final(self)@ == take_model(old(self)@),
            final(self)@.len() <= final(self).capacity(),
            wait <==> old(self)@.len() == 0,
            wait ==> *final(out) == *old(out),
            !wait ==> *final(out) == Some(old(self)@[0]),
            final(self).front_slot() == (if old(self)@.len() > 0 {
                slot_after(old(self).front_slot() as int, 1, old(self).capacity() as int)
            } else {
                old(self).front_slot() as int
            }),
            final(self).ends_agree(),
    {
        match self.read() {
            Ok(element) => {
                *out = Some(element);
                false
            },
            Err(_) => true,
        }
    }

    /// The slot of the backing storage that holds the element at `index`,
    /// counted from the oldest.
    pub fn real_index(&self, index: usize) -> (slot: usize)
        requires
            index < self@.len(),
        ensures
            slot == slot_after(self.front_slot() as int, index as int, self.capacity() as int),
            slot < self.capacity(),
            self.ends_agree(),
    {
        proof {
            use_type_invariant(self);
        }
        let cap = self.data.len();
        let head = self.span.head;
        if index < cap - head {
            head + index
        } else {
            index - (cap - head)
        }
    }

    /// The element at `index`, counted from the oldest.
    pub fn get(&self, index: usize) -> (element: &T)
        requires
            index < self@.len(),
        ensures
            *element == self@[index as int],
    {
        let slot = self.real_index(index);
        &self.data[slot]
    }

    /// The element at `index`, counted from the oldest, to be changed in
    /// place.
    pub fn get_mut(&mut self, index: usize) -> (element: &mut T)
        requires
            index < old(self)@.len(),
        ensures
            *element == old(self)@[index as int],
            final(self)@ == old(self)@.update(index as int, *final(element)),
            final(self).capacity() == old(self).capacity(),
            final(self).front_slot() == old(self).front_slot(),
            final(self).back_slot() == old(self).back_slot(),
    {
        proof {
            use_type_invariant(&*self);
        }
        let slot = self.real_index(index);
        &mut self.data[slot]
    }

    /// Moves the elements held to the start of the backing storage, so that
    /// the oldest lies in slot 0 and the others behind it in order. What is
    /// held, and in which order, stays as it was.
    pub fn make_contiguous(&mut self)
        ensures
            final(self).capacity() == old(self).capacity(),
            final(self).front_slot() == 0,
            final(self)@ == old(self)@,
            final(self).ends_agree(),
    {
        proof {
            use_type_invariant(&*self);
        }
        if self.span.head == 0 {
            return ;
        }
        let mut kept: Vec<T> = Vec::new();
        while self.span.len > 0
            invariant
                self.capacity() == old(self).capacity(),
                kept@ + self@ == old(self)@,
            decreases self@.len(),
        {
            let ghost before = self@;
            let element = self.read().unwrap();
            kept.push(element);
            assert(kept@ + self@ =~= (kept@.drop_last() + before));
        }
        assert(kept@ =~= old(self)@);
        proof {
            use_type_invariant(&*self);
        }
        self.span = Span { head: 0, tail: 0, len: 0 };
        assert(self@ =~= Seq::<T>::empty());
        let ghost all = kept@;
        for element in it: kept
            invariant
                it.seq() == all,
                all == old(self)@,
                all.len() <= old(self).capacity(),
                self.capacity() == old(self).capacity(),
                self.front_slot() == 0,
                self.ends_agree(),
                self@ == all.subrange(0, it.index() as int),
        {
            self.write(element).unwrap();
            assert(self@ =~= all.subrange(0, it.index() + 1));
        }
        assert(self@ =~= old(self)@);
    }

    /// The elements held as one stretch of the backing storage, oldest
    /// first.
    pub fn deref(&self) -> (stretch: &[T])
        requires
            self.front_slot() + self@.len() <= self.capacity(),
        ensures
            stretch@ == self@,
    {
        proof {
            use_type_invariant(self);
        }
        let stretch = vstd::slice::slice_subrange(
            self.data.as_slice(),
            self.span.head,
            self.span.head + self.span.len,
        );
        assert(stretch@ =~= self@);
        stretch
    }

    /// The elements held as one stretch of the backing storage, oldest
    /// first, to be changed in place; they are moved to the start of the
    /// storage first.
    pub fn deref_mut(&mut self) -> (stretch: &mut [T])
        ensures
            stretch@ == old(self)@,
            final(self)@ == final(stretch)@,
            final(self).capacity() == old(self).capacity(),
            final(self).front_slot() == 0,
            final(self).ends_agree(),
    {
        self.make_contiguous();
        proof {
            use_type_invariant(&*self);
            assert(self@ =~= self.data@.subrange(0, self.span.len as int));
        }
        let len = self.span.len;
        first_places(&mut self.data, len)
    }

    /// The number of elements held.
    pub fn len(&self) -> (n: usize)
        ensures
            n == self@.len(),
            n <= self.capacity(),
            self.ends_agree(),
    {
        proof {
            use_type_invariant(self);
        }
        self.span.len
    }

    /// The number of slots, fixed when the buffer was made.
    pub fn slots(&self) -> (n: usize)
        ensures
            n == self.capacity(),
            n >= 1,
            self.ends_agree(),
    {
        proof {
            use_type_invariant(self);
        }
        self.data.len()
    }

    /// Whether nothing is held.
    pub fn is_empty(&self) -> (empty: bool)
        ensures
            empty <==> self@.len() == 0,
            self.ends_agree(),
    {
        proof {
            use_type_invariant(self);
        }
        self.span.len == 0
    }

    /// Whether every slot is taken.
    pub fn is_full(&self) -> (full: bool)
        ensures
            full <==> self@.len() == self.capacity(),
            self.ends_agree(),
    {
        proof {
            use_type_invariant(self);
        }
        self.span.len == self.data.len()
    }
}

impl<T: Default> std::ops::Index<usize> for CircularBuffer<T> {
    type Output = T;

    /// The element at `index`, counted from the oldest.
    fn index(&self, index: usize) -> (element: &T)
        ensures
            *element == self@[index as int],
    {
        self.get(index)
    }
}

impl<T: Default> vstd::std_specs::core::IndexSpecImpl<usize> for CircularBuffer<T> {
    open spec fn index_req(&self, index: &usize) -> bool {
        *index < self@.len()
    }
}

/// A view of a value as a borrowed stretch of data that may be refused.
pub trait TryDeref {
    type Target: ?Sized;

    fn try_deref(&self) -> Result<&Self::Target, String>;
}

impl<T: Default> TryDeref for CircularBuffer<T> {
    type Target = [T];

    /// The elements held as one stretch of the backing storage, oldest first.
    /// It is refused where the elements run over the end of the storage and
    /// go on at its start.
    fn try_deref(&self) -> (stretch: Result<&[T], String>)
        ensures
            stretch is Ok <==> self.front_slot() + self@.len() <= self.capacity(),
            stretch matches Ok(s) ==> s@ == self@,
            stretch matches Err(message) ==> message@ == "not contiguous"@,
            self.ends_agree(),
    {
        proof {
            use_type_invariant(self);
        }
        if self.span.len > self.data.len() - self.span.head {
            return Err("not contiguous".to_string());
        }
        Ok(self.deref())
    }
}

/// One request in the history of a queue.
pub enum Request<T> {
    /// An attempt to append the element.
    Write(T),
    /// An attempt to remove the oldest element.
    Read,
}

/// What a queue of `capacity` slots holds after `history`, starting empty.
pub open spec fn held_after<T>(capacity: nat, history: Seq<Request<T>>) -> Seq<T>
    decreases history.len(),
{
    if history.len() == 0 {
        Seq::empty()
    } else {
        let before = held_after(capacity, history.drop_last());
        match history.last() {
            Request::Write(element) => put_model(before, capacity, element),
            Request::Read => take_model(before),
        }
    }
}

/// The elements that the writes of `history` got into the queue, in order.
pub open spec fn accepted<T>(capacity: nat, history: Seq<Request<T>>) -> Seq<T>
    decreases history.len(),
{
    if history.len() == 0 {
        Seq::empty()
    } else {
        let before = held_after(capacity, history.drop_last());
        let earlier = accepted(capacity, history.drop_last());
        match history.last() {
            Request::Write(element) => if before.len() < capacity {
                earlier.push(element)
            } else {
                earlier
            },
            Request::Read => earlier,
        }
    }
}

/// The elements that the reads of `history` handed out, in order.
pub open spec fn delivered<T>(capacity: nat, history: Seq<Request<T>>) -> Seq<T>
    decreases history.len(),
{
    if history.len() == 0 {
        Seq::empty()
    } else {
        let before = held_after(capacity, history.drop_last());
        let earlier = delivered(capacity, history.drop_last());
        match history.last() {
            Request::Write(_) => earlier,
            Request::Read => if before.len() > 0 {
                earlier.push(before[0])
            } else {
                earlier
            },
        }
    }
}

/// Whatever writes and reads are made of a queue, in whatever order, it
/// never holds more elements than it has slots, and what has been handed out
/// followed by what is still held is exactly what was accepted, in the order
/// of acceptance.
pub proof fn lemma_first_in_first_out<T>(capacity: nat, history: Seq<Request<T>>)
    ensures
        held_after(capacity, history).len() <= capacity,
        accepted(capacity, history) == delivered(capacity, history) + held_after(
            capacity,
            history,
        ),
    decreases history.len(),
{
    if history.len() == 0 {
        assert(accepted(capacity, history) =~= delivered(capacity, history) + held_after(
            capacity,
            history,
        ));
    } else {
        lemma_first_in_first_out(capacity, history.drop_last());
        assert(accepted(capacity, history) =~= delivered(capacity, history) + held_after(
            capacity,
            history,
        ));
    }
}

} // verus!
