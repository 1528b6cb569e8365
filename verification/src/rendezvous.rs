//! The state of a reusable rendezvous point for a fixed number of
//! participants, and the steps that change it.
//!
//! The state is one block, meant to live under one lock. A participant first
//! arrives, which it may do only while the barrier is open; the arrival that
//! completes the count releases the generation and closes the barrier until
//! the others of that generation have left. Whoever arrived earlier leaves once
//! the generation counter has moved on from the value it saw on arrival.
//! Each step is a total function of the state: a step that has to wait says so
//! and changes nothing.

use vstd::prelude::*;

verus! {

/// Why a barrier could not be made or a wait could not be completed.
#[derive(Debug, PartialEq, Eq, Structural, Clone, Copy)]
pub enum BarrierError {
    /// A barrier needs at least one participant.
    InvalidConfiguration,
    /// The lock around the barrier's state was poisoned, so the generation
    /// can never complete.
    BrokenBarrier,
}

/// The largest generation number before the counter starts over.
pub const LAST_GENERATION: u64 = 0xffff_ffff_ffff_ffff;

/// The generation that follows `generation`.
pub open spec fn next_generation(generation: nat) -> nat {
    if generation >= LAST_GENERATION {
        0
    } else {
        generation + 1
    }
}

/// Whether `to` holds a clone of each element of `from`, place by place.
pub open spec fn copies<T: Clone>(from: Seq<T>, to: Seq<T>) -> bool {
    &&& from.len() == to.len()
    &&& forall|i: int| 0 <= i < from.len() ==> cloned(#[trigger] from[i], to[i])
}

/// The barrier's state as mathematics.
pub struct BarrierView<T> {
    /// How many arrivals complete a generation.
    pub threshold: nat,
    /// How many generations have been released, counted up to
    /// `LAST_GENERATION` and then from 0 again.
    pub generation: nat,
    /// What the participants of the current generation contributed so far, in
    /// the order of their arrival.
    pub waiting: Seq<T>,
    /// What the participants of the generation released last contributed, in
    /// the order of their arrival.
    pub released: Seq<T>,
    /// How many participants of the generation released last have yet to
    /// leave.
    pub leaving: nat,
}

impl<T> BarrierView<T> {
    /// Whether arrivals are accepted: nobody of an earlier generation is
    /// still on the way out.
    pub open spec fn is_open(self) -> bool {
        self.leaving == 0
    }

    /// Whether the state is one that a barrier can be in between two steps.
    pub open spec fn valid(self) -> bool {
        &&& self.threshold >= 1
        &&& self.waiting.len() < self.threshold
        &&& self.leaving < self.threshold
        &&& self.generation <= LAST_GENERATION
        &&& self.leaving > 0 ==> self.waiting.len() == 0
    }

    /// The state after an arrival that contributes `value` to an open
    /// barrier.
    pub open spec fn arrive(self, value: T) -> Self {
        if self.waiting.len() + 1 == self.threshold {
            BarrierView {
                threshold: self.threshold,
                generation: next_generation(self.generation),
                waiting: Seq::empty(),
                released: self.waiting.push(value),
                leaving: (self.threshold - 1) as nat,
            }
        } else {
            BarrierView { waiting: self.waiting.push(value), ..self }
        }
    }

    /// The state after one participant of the released generation has left.
    pub open spec fn leave(self) -> Self {
        if self.leaving > 0 {
            BarrierView { leaving: (self.leaving - 1) as nat, ..self }
        } else {
            self
        }
    }
}

/// What an arrival is told.
pub enum Ticket<T> {
    /// The arrival completed the generation; these are the values of all its
    /// participants, in the order of their arrival.
    Released(Vec<T>),
    /// The generation is not complete; the holder leaves once the
    /// generation counter differs from this value.
    Waiting(u64),
}

/// What a participant takes along when it leaves.
pub struct Departure<T> {
    /// The values of all participants of the generation, in the order of
    /// their arrival.
    pub values: Vec<T>,
    /// Whether this was the last participant to leave, so that the barrier
    /// is open again.
    pub reopened: bool,
}

/// The state block of a barrier.
pub struct Rendezvous<T> {
    threshold: usize,
    generation: u64,
    arrived: Vec<T>,
    released: Vec<T>,
    leaving: usize,
}

impl<T> Rendezvous<T> {
    #[verifier::type_invariant]
    spec fn inv(self) -> bool {
        self@.valid()
    }

    /// The state as mathematics.
    pub closed spec fn view(self) -> BarrierView<T> {
        BarrierView {
            threshold: self.threshold as nat,
            generation: self.generation as nat,
            waiting: self.arrived@,
            released: self.released@,
            leaving: self.leaving as nat,
        }
    }

    /// Makes the state of a barrier for `threshold` participants, open and in
    /// generation 0; a barrier without participants is refused.
    pub fn new(threshold: usize) -> (made: Result<Self, BarrierError>)
        ensures
            threshold == 0 <==> made == Err::<Self, BarrierError>(
                BarrierError::InvalidConfiguration,
            ),
            threshold > 0 ==> made is Ok && made->Ok_0@ == (BarrierView::<T> {
                threshold: threshold as nat,
                generation: 0,
                waiting: Seq::empty(),
                released: Seq::empty(),
                leaving: 0,
            }),
    {
        if threshold == 0 {
            Err(BarrierError::InvalidConfiguration)
        } else {
            Ok(
                Rendezvous {
                    threshold,
                    generation: 0,
                    arrived: Vec::new(),
                    released: Vec::new(),
                    leaving: 0,
                },
            )
        }
    }

    /// How many arrivals complete a generation.
    pub fn threshold(&self) -> (n: usize)
        ensures
            n == self@.threshold,
            n >= 1,
    {
        proof {
            use_type_invariant(self);
        }
        self.threshold
    }

    /// The number of the generation that is gathering.
    pub fn generation(&self) -> (g: u64)
        ensures
            g == self@.generation,
    {
        self.generation
    }

    /// How many participants of the current generation have arrived.
    pub fn waiting(&self) -> (n: usize)
        ensures
            n == self@.waiting.len(),
            n < self@.threshold,
    {
        proof {
            use_type_invariant(self);
        }
        self.arrived.len()
    }

    /// Whether participants of the generation released last have yet to
    /// leave, so that arrivals have to wait.
    pub fn is_releasing(&self) -> (releasing: bool)
        ensures
            releasing == !self@.is_open(),
    {
        self.leaving > 0
    }
}

impl<T: Clone> Rendezvous<T> {
    /// One attempt to arrive with the value in `slot`. The answer is whether
    /// the caller has to wait for the barrier to open and try again. An
    /// arrival that is accepted takes the value out of `slot` and puts into
    /// `ticket` what the participant is told; an empty `slot` asks for
    /// nothing.
    pub fn try_arrive(&mut self, slot: &mut Option<T>, ticket: &mut Option<Ticket<T>>) -> (wait:
        bool)
        ensures
            final(self)@.valid(),
            wait <==> *old(slot) is Some && !old(self)@.is_open(),
            wait || *old(slot) is None ==> final(self)@ == old(self)@ && *final(slot) == *old(slot)
                && *final(ticket) == *old(ticket),
            !wait && *old(slot) is Some ==> {
                &&& *final(slot) is None
                &&& final(self)@ == old(self)@.arrive(old(slot)->Some_0)
                &&& match *final(ticket) {
                    Some(Ticket::Released(values)) => old(self)@.waiting.len() + 1 == old(
                        self,
                    )@.threshold && copies(final(self)@.released, values@),
                    Some(Ticket::Waiting(generation)) => old(self)@.waiting.len() + 1 != old(
                        self,
                    )@.threshold && generation == old(self)@.generation,
                    None => false,
                }
            },
    {
        proof {
            use_type_invariant(&*self);
        }
        if self.leaving > 0 {
            return slot.is_some();
        }
        match slot.take() {
            None => {},
            Some(value) => {
                let mut gathered: Vec<T> = Vec::new();
                std::mem::swap(&mut self.arrived, &mut gathered);
                gathered.push(value);
                if gathered.len() == self.threshold {
                    let handed = gathered.clone();
                    self.released = gathered;
                    self.generation = if self.generation == LAST_GENERATION {
                        0
                    } else {
                        self.generation + 1
                    };
                    self.leaving = self.threshold - 1;
                    *ticket = Some(Ticket::Released(handed));
                } else {
                    *ticket = Some(Ticket::Waiting(self.generation));
                    self.arrived = gathered;
                }
            },
        }
        false
    }

    /// One attempt to leave, by a participant that arrived in `generation`.
    /// The answer is whether the caller has to wait for its generation to be
    /// released and try again. A participant that leaves finds in `out` the
    /// values of its generation and whether it was the last to leave.
    pub fn try_leave(&mut self, generation: u64, out: &mut Option<Departure<T>>) -> (wait: bool)
        ensures
            final(self)@.valid(),
            wait <==> old(self)@.generation == generation,
            wait ==> final(self)@ == old(self)@ && *final(out) == *old(out),
            !wait ==> {
                &&& final(self)@ == old(self)@.leave()
                &&& *final(out) is Some
                &&& copies(old(self)@.released, final(out)->Some_0.values@)
                &&& final(out)->Some_0.reopened == final(self)@.is_open()
            },
    {
        proof {
            use_type_invariant(&*self);
        }
        if self.generation == generation {
            return true;
        }
        if self.leaving > 0 {
            self.leaving = self.leaving - 1;
        }
        let values = self.released.clone();
        *out = Some(Departure { values, reopened: self.leaving == 0 });
        false
    }
}

/// The state after the participants that contribute `values`, in this
/// order, have arrived one after the other.
pub open spec fn arrive_all<T>(state: BarrierView<T>, values: Seq<T>) -> BarrierView<T>
    decreases values.len(),
{
    if values.len() == 0 {
        state
    } else {
        arrive_all(state, values.drop_last()).arrive(values.last())
    }
}

/// The state after `count` participants have left one after the other.
pub open spec fn leave_times<T>(state: BarrierView<T>, count: nat) -> BarrierView<T>
    decreases count,
{
    if count == 0 {
        state
    } else {
        leave_times(state, (count - 1) as nat).leave()
    }
}

/// The state after one whole generation: the participants that contribute
/// `values` arrive, and all but the one that completed the count leave.
pub open spec fn full_round<T>(state: BarrierView<T>, values: Seq<T>) -> BarrierView<T> {
    leave_times(arrive_all(state, values), (state.threshold - 1) as nat)
}

/// The state after one whole generation for each entry of `rounds`.
pub open spec fn after_rounds<T>(state: BarrierView<T>, rounds: Seq<Seq<T>>) -> BarrierView<T>
    decreases rounds.len(),
{
    if rounds.len() == 0 {
        state
    } else {
        full_round(after_rounds(state, rounds.drop_last()), rounds.last())
    }
}

/// The generation number reached from `start` after `releases` releases.
pub open spec fn generation_after(start: nat, releases: nat) -> nat
    decreases releases,
{
    if releases == 0 {
        start
    } else {
        next_generation(generation_after(start, (releases - 1) as nat))
    }
}

/// Nobody gets past the barrier before everybody has reached it. While
/// fewer participants than the threshold have arrived at an open, empty
/// barrier, the generation counter stands still, so each of them is told to
/// wait; the arrival that completes the count moves the counter on, and the
/// values released are those contributed, in the order of arrival.
pub proof fn lemma_released_together<T>(state: BarrierView<T>, values: Seq<T>)
    requires
        state.valid(),
        state.is_open(),
        state.waiting.len() == 0,
        values.len() <= state.threshold,
    ensures
        arrive_all(state, values).valid(),
        values.len() < state.threshold ==> arrive_all(state, values) == (BarrierView {
            waiting: values,
            ..state
        }),
        values.len() == state.threshold ==> arrive_all(state, values) == (BarrierView {
            threshold: state.threshold,
            generation: next_generation(state.generation),
            waiting: Seq::empty(),
            released: values,
            leaving: (state.threshold - 1) as nat,
        }),
        values.len() == state.threshold ==> arrive_all(state, values).generation
            != state.generation,
    decreases values.len(),
{
    if values.len() == 0 {
        assert(state.waiting =~= values);
    } else {
        lemma_released_together(state, values.drop_last());
        assert(values.drop_last().push(values.last()) =~= values);
    }
}

/// While participants of a released generation leave, nothing changes but
/// the count of those still to leave.
pub proof fn lemma_leaving<T>(state: BarrierView<T>, count: nat)
    requires
        count <= state.leaving,
    ensures
        leave_times(state, count) == (BarrierView {
            leaving: (state.leaving - count) as nat,
            ..state
        }),
    decreases count,
{
    if count > 0 {
        lemma_leaving(state, (count - 1) as nat);
    }
}

/// A barrier can be used over and over. After any number of whole
/// generations it is open and empty again, for the same number of
/// participants; the generation counter has moved on by exactly one for each
/// generation, and the values released last are those of the last generation.
pub proof fn lemma_reusable<T>(state: BarrierView<T>, rounds: Seq<Seq<T>>)
    requires
        state.valid(),
        state.is_open(),
        state.waiting.len() == 0,
        forall|i: int| 0 <= i < rounds.len() ==> (#[trigger] rounds[i]).len() == state.threshold,
    ensures
        after_rounds(state, rounds).valid(),
        after_rounds(state, rounds).is_open(),
        after_rounds(state, rounds).waiting.len() == 0,
        after_rounds(state, rounds).threshold == state.threshold,
        after_rounds(state, rounds).generation == generation_after(
            state.generation,
            rounds.len(),
        ),
        state.generation + rounds.len() <= LAST_GENERATION ==> after_rounds(
            state,
            rounds,
        ).generation == state.generation + rounds.len(),
        rounds.len() > 0 ==> after_rounds(state, rounds).released == rounds.last(),
    decreases rounds.len(),
{
    if rounds.len() > 0 {
        let earlier = rounds.drop_last();
        lemma_reusable(state, earlier);
        let before = after_rounds(state, earlier);
        lemma_released_together(before, rounds.last());
        lemma_leaving(arrive_all(before, rounds.last()), (before.threshold - 1) as nat);
    }
}

/// What a participant does at the barrier.
pub enum Move<T> {
    /// It tries to arrive with a value; while the barrier is not open the
    /// try changes nothing.
    Arrive(T),
    /// It leaves, as one of the generation released last.
    Leave,
}

/// The state after `step`.
pub open spec fn moved<T>(state: BarrierView<T>, step: Move<T>) -> BarrierView<T> {
    match step {
        Move::Arrive(value) => if state.is_open() {
            state.arrive(value)
        } else {
            state
        },
        Move::Leave => state.leave(),
    }
}

/// The state after the steps of `moves`, in this order.
pub open spec fn after_moves<T>(state: BarrierView<T>, moves: Seq<Move<T>>) -> BarrierView<T>
    decreases moves.len(),
{
    if moves.len() == 0 {
        state
    } else {
        moved(after_moves(state, moves.drop_last()), moves.last())
    }
}

/// How many of `moves` are arrivals that complete a generation.
pub open spec fn releases<T>(state: BarrierView<T>, moves: Seq<Move<T>>) -> nat
    decreases moves.len(),
{
    if moves.len() == 0 {
        0
    } else {
        let before = after_moves(state, moves.drop_last());
        releases(state, moves.drop_last()) + (if moves.last() is Arrive && before.is_open()
            && before.waiting.len() + 1 == before.threshold {
            1nat
        } else {
            0nat
        })
    }
}

/// Whatever the participants do, in whatever order, the barrier stays one
/// for the same number of participants, fewer than that number are counted
/// as waiting, and the generation counter has moved on by exactly one for
/// each generation that was completed, never back and never by more.
pub proof fn lemma_generation_counts_releases<T>(state: BarrierView<T>, moves: Seq<Move<T>>)
    requires
        state.valid(),
    ensures
        after_moves(state, moves).valid(),
        after_moves(state, moves).threshold == state.threshold,
        after_moves(state, moves).waiting.len() < state.threshold,
        after_moves(state, moves).generation == generation_after(
            state.generation,
            releases(state, moves),
        ),
        state.generation + releases(state, moves) <= LAST_GENERATION ==> after_moves(
            state,
            moves,
        ).generation == state.generation + releases(state, moves),
    decreases moves.len(),
{
    if moves.len() > 0 {
        lemma_generation_counts_releases(state, moves.drop_last());
    }
}

} // verus!
