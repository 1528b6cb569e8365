//! A cyclic barrier made of message channels: every participant tells every
//! other one that it has arrived, and goes on once it has heard from all.
//!
//! A message carries the number of the round it belongs to. A participant
//! that is fast may already send its message of the next round while a slow
//! one still gathers those of the current round; the slow one counts such a
//! message for the round it is meant for, never for the current one.

use crate::monitor::{held, lock};
use crate::rendezvous::{next_generation, BarrierError, LAST_GENERATION};
use std::sync::mpsc::{Receiver, Sender};
use std::sync::{Arc, Mutex};
use vstd::prelude::*;

verus! {

#[verifier::external_type_specification]
#[verifier::external_body]
#[verifier::reject_recursive_types(T)]
pub struct ExSender<T>(Sender<T>);

#[verifier::external_type_specification]
#[verifier::external_body]
#[verifier::reject_recursive_types(T)]
pub struct ExReceiver<T>(Receiver<T>);

/// `std::sync::mpsc::channel` makes a channel and hands out its two ends.
pub assume_specification<T>[ std::sync::mpsc::channel::<T> ]() -> (ends: (Sender<T>, Receiver<T>));

/// Calls `Sender::send`: puts `round` into the channel without waiting. The
/// answer is whether the message went in, which it does unless the receiving
/// end is gone.
#[verifier::external_body]
fn send_token(sender: &Sender<u64>, round: u64) -> (sent: bool) {
    match sender.send(round) {
        Ok(()) => true,
        Err(_) => false,
    }
}

/// Calls `Receiver::recv`: waits for the next message of the channel and
/// takes it out. The answer is `None` where every sending end is gone and
/// nothing is left in the channel.
#[verifier::external_body]
fn receive_token(receiver: &Receiver<u64>) -> (token: Option<u64>) {
    match receiver.recv() {
        Ok(token) => Some(token),
        Err(_) => None,
    }
}

/// Calls `Clone::clone` of `Sender`: makes one more sending end of the same
/// channel.
#[verifier::external_body]
fn another_sender(sender: &Sender<u64>) -> (same: Sender<u64>) {
    sender.clone()
}

/// Calls `Clone::clone` of `Arc`: makes one more pointer to the same value.
#[verifier::external_body]
fn share<T>(pointer: &Arc<T>) -> (same: Arc<T>)
    ensures
        same == *pointer,
{
    pointer.clone()
}

/// A participant's count of the messages it has received.
#[derive(Clone, Copy)]
pub struct Tally {
    peers: usize,
    round: u64,
    seen: usize,
    early: usize,
}

/// A tally as mathematics.
pub struct TallyView {
    /// How many other participants there are.
    pub peers: nat,
    /// The round that is being gathered.
    pub round: nat,
    /// How many messages of the current round have come in.
    pub seen: nat,
    /// How many messages of the next round have come in already.
    pub early: nat,
}

impl TallyView {
    /// Whether every other participant has been heard from in this round.
    pub open spec fn complete(self) -> bool {
        self.seen == self.peers
    }

    /// Whether a message of round `token` can be counted.
    pub open spec fn counts(self, token: nat) -> bool {
        (token == self.round && self.seen < self.peers) || (token != self.round && token
            == next_generation(self.round) && self.early < self.peers)
    }

    /// The tally after a message of round `token` has come in. A message
    /// that cannot be counted changes nothing.
    pub open spec fn note(self, token: nat) -> Self {
        if token == self.round && self.seen < self.peers {
            TallyView { seen: self.seen + 1, ..self }
        } else if token != self.round && token == next_generation(self.round) && self.early
            < self.peers {
            TallyView { early: self.early + 1, ..self }
        } else {
            self
        }
    }

    /// The tally at the start of the next round: what came in early is what
    /// has been seen of it.
    pub open spec fn advance(self) -> Self {
        TallyView {
            peers: self.peers,
            round: next_generation(self.round),
            seen: self.early,
            early: 0,
        }
    }
}

impl Tally {
    #[verifier::type_invariant]
    spec fn inv(self) -> bool {
        self.seen <= self.peers && self.early <= self.peers
    }

    /// The tally as mathematics.
    pub closed spec fn view(self) -> TallyView {
        TallyView {
            peers: self.peers as nat,
            round: self.round as nat,
            seen: self.seen as nat,
            early: self.early as nat,
        }
    }

    /// Makes the tally of a participant with `peers` others, at the start of
    /// round 0.
    pub fn new(peers: usize) -> (tally: Tally)
        ensures
            tally@ == (TallyView { peers: peers as nat, round: 0, seen: 0, early: 0 }),
    {
        Tally { peers, round: 0, seen: 0, early: 0 }
    }

    /// The round that is being gathered.
    pub fn round(&self) -> (round: u64)
        ensures
            round == self@.round,
    {
        self.round
    }

    /// Whether every other participant has been heard from in this round.
    pub fn complete(&self) -> (done: bool)
        ensures
            done == self@.complete(),
    {
        self.seen == self.peers
    }

    /// Counts a message of round `token`. The answer is whether it could be
    /// counted: it belongs to the current round, which still misses
    /// messages, or to the next one, of which not every participant has sent
    /// its message yet.
    pub fn note(&mut self, token: u64) -> (counted: bool)
        ensures
            counted == old(self)@.counts(token as nat),
            final(self)@ == old(self)@.note(token as nat),
    {
        proof {
            use_type_invariant(&*self);
        }
        let Tally { peers, round, seen, early } = *self;
        let next = if round == LAST_GENERATION {
            0
        } else {
            round + 1
        };
        if token == round && seen < peers {
            *self = Tally { peers, round, seen: seen + 1, early };
            true
        } else if token != round && token == next && early < peers {
            *self = Tally { peers, round, seen, early: early + 1 };
            true
        } else {
            false
        }
    }

    /// Starts the next round.
    pub fn advance(&mut self)
        ensures
            final(self)@ == old(self)@.advance(),
    {
        proof {
            use_type_invariant(&*self);
        }
        let Tally { peers, round, seen, early } = *self;
        let next = if round == LAST_GENERATION {
            0
        } else {
            round + 1
        };
        *self = Tally { peers, round: next, seen: early, early: 0 };
    }
}

/// The tally after the messages of the rounds `tokens` have come in, in this
/// order.
pub open spec fn note_all(tally: TallyView, tokens: Seq<nat>) -> TallyView
    decreases tokens.len(),
{
    if tokens.len() == 0 {
        tally
    } else {
        note_all(tally, tokens.drop_last()).note(tokens.last())
    }
}

/// How many of `tokens` belong to `round`.
pub open spec fn of_round(tokens: Seq<nat>, round: nat) -> nat
    decreases tokens.len(),
{
    if tokens.len() == 0 {
        0
    } else {
        of_round(tokens.drop_last(), round) + (if tokens.last() == round {
            1nat
        } else {
            0nat
        })
    }
}

/// A round is complete only when every other participant has sent its
/// message of that very round. Whatever messages come in, in whatever order,
/// those of other rounds never stand in for a missing one: the count for the
/// current round grows by the messages of the current round alone.
pub proof fn lemma_waits_for_all(tally: TallyView, tokens: Seq<nat>)
    requires
        tally.seen <= tally.peers,
        tally.early <= tally.peers,
    ensures
        note_all(tally, tokens).peers == tally.peers,
        note_all(tally, tokens).round == tally.round,
        note_all(tally, tokens).early <= tally.peers,
        note_all(tally, tokens).seen == (if tally.seen + of_round(tokens, tally.round)
            <= tally.peers {
            tally.seen + of_round(tokens, tally.round)
        } else {
            tally.peers
        }),
        note_all(tally, tokens).complete() <==> tally.seen + of_round(tokens, tally.round)
            >= tally.peers,
    decreases tokens.len(),
{
    if tokens.len() > 0 {
        lemma_waits_for_all(tally, tokens.drop_last());
    }
}

/// What a participant receives into: the end of its channel and its tally.
pub struct Inbox {
    receiver: Receiver<u64>,
    tally: Tally,
}

/// A participant's handle on the barrier.
pub struct Waiter {
    index: usize,
    inbox: Arc<Mutex<Inbox>>,
    senders: Vec<Sender<u64>>,
}

impl Waiter {
    /// The participant's number, counted from 0.
    pub closed spec fn index(self) -> nat {
        self.index as nat
    }

    /// How many other participants the handle sends to.
    pub closed spec fn peers(self) -> nat {
        self.senders@.len()
    }

    /// Tells every other participant that this one has arrived, then waits
    /// until each of them has said the same of the current round.
    pub fn wait(&self) -> (outcome: Result<(), BarrierError>)
        ensures
            outcome is Err ==> outcome == Err::<(), BarrierError>(BarrierError::BrokenBarrier),
    {
        match lock(&self.inbox) {
            None => Err(BarrierError::BrokenBarrier),
            Some(mut guard) => {
                let inbox = held(&mut guard);
                let round = inbox.tally.round();
                let mut told: usize = 0;
                while told < self.senders.len()
                    invariant
                        told <= self.senders.len(),
                    decreases self.senders.len() - told,
                {
                    if !send_token(&self.senders[told], round) {
                        return Err(BarrierError::BrokenBarrier);
                    }
                    told = told + 1;
                }
                proof {
                    use_type_invariant(&inbox.tally);
                }
                while !inbox.tally.complete()
                    invariant
                        inbox.tally@.seen <= inbox.tally@.peers,
                        inbox.tally@.early <= inbox.tally@.peers,
                    decreases 2 * inbox.tally@.peers - inbox.tally@.seen - inbox.tally@.early,
                {
                    match receive_token(&inbox.receiver) {
                        None => {
                            return Err(BarrierError::BrokenBarrier);
                        },
                        Some(token) => {
                            if !inbox.tally.note(token) {
                                return Err(BarrierError::BrokenBarrier);
                            }
                        },
                    }
                }
                inbox.tally.advance();
                Ok(())
            },
        }
    }
}

impl Clone for Waiter {
    /// Another handle of the same participant: it receives from the same
    /// channel and sends to the same others.
    fn clone(&self) -> (same: Self)
        ensures
            same.index() == self.index(),
            same.peers() == self.peers(),
    {
        let mut senders: Vec<Sender<u64>> = Vec::with_capacity(self.senders.len());
        let mut copied: usize = 0;
        while copied < self.senders.len()
            invariant
                copied <= self.senders.len(),
                senders.len() == copied,
            decreases self.senders.len() - copied,
        {
            senders.push(another_sender(&self.senders[copied]));
            copied = copied + 1;
        }
        Waiter { index: self.index, inbox: share(&self.inbox), senders }
    }
}

/// A reusable rendezvous point whose participants signal each other over
/// channels.
pub struct CyclicBarrier {
    waiters: Vec<Waiter>,
}

impl CyclicBarrier {
    /// How many participants the barrier was made for.
    pub closed spec fn participants(self) -> nat {
        self.waiters@.len()
    }

    /// Every participant's handle carries its number and sends to all the
    /// others.
    #[verifier::type_invariant]
    spec fn wired(self) -> bool {
        forall|i: int|
            0 <= i < self.waiters@.len() ==> (#[trigger] self.waiters@[i]).index() == i
                && self.waiters@[i].peers() == self.waiters@.len() - 1
    }

    /// Makes a barrier for `n` participants, with a channel into each of
    /// them and, for each, a sending end of the channel of every other one. A
    /// barrier without participants is refused.
    pub fn new(n: usize) -> (made: Result<Arc<Self>, BarrierError>)
        ensures
            n == 0 <==> made == Err::<Arc<Self>, BarrierError>(BarrierError::InvalidConfiguration),
            n > 0 ==> made is Ok && made->Ok_0.participants() == n,
    {
        if n == 0 {
            return Err(BarrierError::InvalidConfiguration);
        }
        let mut senders: Vec<Sender<u64>> = Vec::with_capacity(n);
        let mut receivers: Vec<Receiver<u64>> = Vec::with_capacity(n);
        let mut made: usize = 0;
        while made < n
            invariant
                made <= n,
                senders.len() == made,
                receivers.len() == made,
            decreases n - made,
        {
            let (sender, receiver) = std::sync::mpsc::channel();
            senders.push(sender);
            receivers.push(receiver);
            made = made + 1;
        }
        let mut waiters: Vec<Waiter> = Vec::with_capacity(n);
        let mut i: usize = 0;
        while i < n
            invariant
                i <= n,
                n >= 1,
                senders.len() == n,
                receivers.len() == n - i,
                waiters.len() == i,
                forall|k: int|
                    0 <= k < i ==> (#[trigger] waiters@[k]).index() == k && waiters@[k].peers() == n
                        - 1,
            decreases n - i,
        {
            let mut links: Vec<Sender<u64>> = Vec::with_capacity(n - 1);
            let mut j: usize = 0;
            while j < n
                invariant
                    j <= n,
                    i < n,
                    senders.len() == n,
                    links.len() == (if j > i {
                        j - 1
                    } else {
                        j as int
                    }),
                decreases n - j,
            {
                if i != j {
                    links.push(another_sender(&senders[j]));
                }
                j = j + 1;
            }
            let receiver = receivers.remove(0);
            let inbox = Inbox { receiver, tally: Tally::new(n - 1) };
            waiters.push(Waiter { index: i, inbox: Arc::new(Mutex::new(inbox)), senders: links });
            i = i + 1;
        }
        Ok(Arc::new(CyclicBarrier { waiters }))
    }

    /// A handle for the participant with the number `index`.
    pub fn get_waiter(&self, index: usize) -> (waiter: Waiter)
        requires
            index < self.participants(),
        ensures
            waiter.index() == index,
            waiter.peers() == self.participants() - 1,
    {
        proof {
            use_type_invariant(self);
        }
        self.waiters[index].clone()
    }
}

} // verus!
