//! The decisions of a worker pool: what goes into the dispatch channel when
//! work is submitted or the pool is shut down, and what a worker does with
//! what it takes out.
//!
//! The pool is a fixed set of workers that share one first-in, first-out
//! channel. Whoever runs the threads sends the messages that the dispatcher
//! hands out, in the order in which it hands them out, and lets each worker
//! act on each message it receives as `react` says. The laws at the end are
//! stated over that arrangement.

use vstd::prelude::*;

verus! {

/// Why a pool could not be made or work was not taken on.
#[derive(Debug, PartialEq, Eq, Structural, Clone, Copy)]
pub enum PoolError {
    /// A pool needs at least one worker.
    InvalidConfiguration,
    /// The pool has been shut down and takes on no more work.
    ShutDown,
}

/// What travels through the dispatch channel.
pub enum Message<J> {
    /// A unit of work for whichever worker receives it.
    NewJob(J),
    /// The order to stop, for the one worker that receives it.
    JobDone,
}

/// What a worker does next.
pub enum Step<J> {
    /// Run this unit of work, then receive again.
    Run(J),
    /// Stop receiving and end.
    Exit,
}

/// What a worker does with `message`.
pub open spec fn reaction<J>(message: Message<J>) -> Step<J> {
    match message {
        Message::NewJob(job) => Step::Run(job),
        Message::JobDone => Step::Exit,
    }
}

/// What goes into the channel when `job` is submitted: the job, as long as
/// the pool is accepting work.
pub open spec fn dispatch<J>(accepting: bool, job: J) -> Option<Message<J>> {
    if accepting {
        Some(Message::NewJob(job))
    } else {
        None
    }
}

/// What goes into the channel when the pool is shut down: one order to stop
/// for each worker, the first time; nothing after that.
pub open spec fn farewell<J>(accepting: bool, workers: nat) -> Seq<Message<J>> {
    if accepting {
        Seq::new(workers, |i: int| Message::JobDone)
    } else {
        Seq::empty()
    }
}

/// What a worker does with `message`.
pub fn react<J>(message: Message<J>) -> (step: Step<J>)
    ensures
        step == reaction(message),
{
    match message {
        Message::NewJob(job) => Step::Run(job),
        Message::JobDone => Step::Exit,
    }
}

/// The owner's side of a pool: how many workers there are and whether work
/// is still taken on.
pub struct Dispatcher {
    workers: usize,
    accepting: bool,
}

impl Dispatcher {
    #[verifier::type_invariant]
    spec fn inv(self) -> bool {
        self.workers >= 1
    }

    /// How many workers the pool was made with.
    pub closed spec fn workers(self) -> nat {
        self.workers as nat
    }

    /// Whether the pool takes on work.
    pub closed spec fn accepting(self) -> bool {
        self.accepting
    }

    /// Makes the dispatcher of a pool of `size` workers that takes on work; a
    /// pool without workers is refused.
    pub fn new(size: usize) -> (made: Result<Dispatcher, PoolError>)
        ensures
            size == 0 <==> made == Err::<Dispatcher, PoolError>(PoolError::InvalidConfiguration),
            size > 0 ==> made is Ok && made->Ok_0.workers() == size && made->Ok_0.accepting(),
    {
        if size == 0 {
            Err(PoolError::InvalidConfiguration)
        } else {
            Ok(Dispatcher { workers: size, accepting: true })
        }
    }

    /// How many workers the pool was made with.
    pub fn size(&self) -> (n: usize)
        ensures
            n == self.workers(),
            n >= 1,
    {
        proof {
            use_type_invariant(self);
        }
        self.workers
    }

    /// Whether the pool has been shut down.
    pub fn is_shut_down(&self) -> (down: bool)
        ensures
            down == !self.accepting(),
    {
        !self.accepting
    }

    /// Wraps `job` into the message to send to the workers. After a shutdown
    /// the job is refused.
    pub fn execute<J>(&self, job: J) -> (message: Result<Message<J>, PoolError>)
        ensures
            match dispatch(self.accepting(), job) {
                Some(sent) => message == Ok::<Message<J>, PoolError>(sent),
                None => message == Err::<Message<J>, PoolError>(PoolError::ShutDown),
            },
    {
        if self.accepting {
            Ok(Message::NewJob(job))
        } else {
            Err(PoolError::ShutDown)
        }
    }

    /// Stops taking on work and hands out the messages that end the workers:
    /// one for each of them. A second shutdown hands out nothing.
    pub fn shutdown<J>(&mut self) -> (messages: Vec<Message<J>>)
        ensures
            messages@ == farewell::<J>(old(self).accepting(), old(self).workers()),
            !final(self).accepting(),
            final(self).workers() == old(self).workers(),
    {
        proof {
            use_type_invariant(&*self);
        }
        let mut messages: Vec<Message<J>> = Vec::new();
        if self.accepting {
            let mut made: usize = 0;
            while made < self.workers
                invariant
                    made <= self.workers,
                    messages@ == Seq::new(made as nat, |i: int| Message::<J>::JobDone),
                decreases self.workers - made,
            {
                messages.push(Message::JobDone);
                made = made + 1;
                assert(messages@ =~= Seq::new(made as nat, |i: int| Message::<J>::JobDone));
            }
            self.accepting = false;
        } else {
            assert(messages@ =~= Seq::<Message<J>>::empty());
        }
        messages
    }
}

/// A pool as mathematics: the dispatcher, the channel and the workers.
pub struct PoolView<J> {
    /// How many workers have not ended.
    pub workers: nat,
    /// Whether work is taken on.
    pub accepting: bool,
    /// What is in the channel, the message to be received next first.
    pub queue: Seq<Message<J>>,
    /// The units of work that workers have taken out to run, in that order.
    pub executed: Seq<J>,
}

/// What can happen to a pool.
pub enum Event<J> {
    /// A unit of work is submitted.
    Submit(J),
    /// The pool is shut down.
    Shutdown,
    /// Some worker asks the channel for a message.
    Receive,
}

/// A pool of `size` workers to which nothing has happened yet.
pub open spec fn fresh<J>(size: nat) -> PoolView<J> {
    PoolView { workers: size, accepting: true, queue: Seq::empty(), executed: Seq::empty() }
}

/// The pool after `event`. A worker that finds the channel empty goes on
/// waiting, which changes nothing.
pub open spec fn step<J>(pool: PoolView<J>, event: Event<J>) -> PoolView<J> {
    match event {
        Event::Submit(job) => match dispatch(pool.accepting, job) {
            Some(message) => PoolView { queue: pool.queue.push(message), ..pool },
            None => pool,
        },
        Event::Shutdown => PoolView {
            accepting: false,
            queue: pool.queue + farewell(pool.accepting, pool.workers),
            ..pool
        },
        Event::Receive => if pool.queue.len() == 0 || pool.workers == 0 {
            pool
        } else {
            match reaction(pool.queue[0]) {
                Step::Run(job) => PoolView {
                    queue: pool.queue.drop_first(),
                    executed: pool.executed.push(job),
                    ..pool
                },
                Step::Exit => PoolView {
                    queue: pool.queue.drop_first(),
                    workers: (pool.workers - 1) as nat,
                    ..pool
                },
            }
        },
    }
}

/// The pool after the events of `history`, in this order.
pub open spec fn run<J>(pool: PoolView<J>, history: Seq<Event<J>>) -> PoolView<J>
    decreases history.len(),
{
    if history.len() == 0 {
        pool
    } else {
        step(run(pool, history.drop_last()), history.last())
    }
}

/// The units of work that a pool, accepting at first, takes on in the course
/// of `history`: those submitted before the first shutdown.
pub open spec fn taken_on<J>(history: Seq<Event<J>>) -> Seq<J>
    decreases history.len(),
{
    if history.len() == 0 {
        Seq::empty()
    } else {
        let earlier = taken_on(history.drop_last());
        match history.last() {
            Event::Submit(job) => if shut_down_in(history.drop_last()) {
                earlier
            } else {
                earlier.push(job)
            },
            _ => earlier,
        }
    }
}

/// Whether `history` holds a shutdown.
pub open spec fn shut_down_in<J>(history: Seq<Event<J>>) -> bool {
    exists|i: int| 0 <= i < history.len() && #[trigger] history[i] is Shutdown
}

/// The channel's content when `jobs` wait in it, followed by `orders`
/// orders to stop.
pub open spec fn lined_up<J>(jobs: Seq<J>, orders: nat) -> Seq<Message<J>> {
    Seq::new(jobs.len(), |i: int| Message::NewJob(jobs[i])) + Seq::new(
        orders,
        |i: int| Message::JobDone,
    )
}

/// Every unit of work that the pool takes on is run exactly once, none is
/// lost, and a shutdown ends every worker. Whatever is submitted, whenever
/// the pool is shut down and whenever the workers receive: what has been run,
/// followed by what still waits in the channel, is exactly what was taken
/// on, in the order of submission. Until the shutdown no worker has ended
/// and the channel holds work alone; from then on nothing more is taken on,
/// and the channel holds, behind the work that is left, as many orders to
/// stop as there are workers that have not ended. So once the channel is
/// empty after a shutdown, everything taken on has been run and no worker is
/// left.
pub proof fn lemma_every_job_once<J>(size: nat, history: Seq<Event<J>>)
    requires
        size >= 1,
    ensures
        ({
            let pool = run(fresh::<J>(size), history);
            let waiting = taken_on(history).subrange(
                pool.executed.len() as int,
                taken_on(history).len() as int,
            );
            &&& pool.executed.len() <= taken_on(history).len()
            &&& pool.executed == taken_on(history).subrange(0, pool.executed.len() as int)
            &&& pool.accepting == !shut_down_in(history)
            &&& pool.accepting ==> pool.workers == size && pool.queue == lined_up(waiting, 0)
            &&& !pool.accepting ==> pool.workers <= size && pool.queue == lined_up(
                waiting,
                pool.workers,
            )
            &&& !pool.accepting && pool.queue.len() == 0 ==> pool.workers == 0 && pool.executed
                == taken_on(history)
        }),
    decreases history.len(),
{
    if history.len() == 0 {
        let pool = run(fresh::<J>(size), history);
        assert(pool.executed =~= taken_on(history).subrange(0, 0));
        assert(pool.queue =~= lined_up(taken_on(history).subrange(0, 0), 0));
    } else {
        let earlier = history.drop_last();
        lemma_every_job_once(size, earlier);
        let before = run(fresh::<J>(size), earlier);
        let pool = run(fresh::<J>(size), history);
        let jobs_before = taken_on(earlier);
        let jobs = taken_on(history);
        let waiting_before = jobs_before.subrange(
            before.executed.len() as int,
            jobs_before.len() as int,
        );
        let waiting = jobs.subrange(pool.executed.len() as int, jobs.len() as int);
        assert(shut_down_in(history) <==> shut_down_in(earlier) || history.last() is Shutdown) by {
            if shut_down_in(earlier) {
                let i = choose|i: int| 0 <= i < earlier.len() && #[trigger] earlier[i] is Shutdown;
                assert(history[i] is Shutdown);
            }
            if history.last() is Shutdown {
                assert(history[history.len() - 1] is Shutdown);
            }
            if shut_down_in(history) {
                let i = choose|i: int| 0 <= i < history.len() && #[trigger] history[i] is Shutdown;
                if i < earlier.len() {
                    assert(earlier[i] is Shutdown);
                }
            }
        }
        match history.last() {
            Event::Submit(job) => {
                if before.accepting {
                    assert(waiting =~= waiting_before.push(job));
                    assert(pool.queue =~= lined_up(waiting, 0));
                    assert(pool.executed =~= jobs.subrange(0, pool.executed.len() as int));
                } else {
                    assert(waiting =~= waiting_before);
                }
            },
            Event::Shutdown => {
                assert(waiting =~= waiting_before);
                assert(pool.queue =~= lined_up(waiting, pool.workers));
            },
            Event::Receive => {
                if before.queue.len() == 0 || before.workers == 0 {
                    assert(waiting =~= waiting_before);
                    if before.workers == 0 && !before.accepting {
                        assert(before.queue.len() == waiting_before.len());
                    }
                } else if waiting_before.len() > 0 {
                    assert(before.queue[0] == Message::NewJob(waiting_before[0]));
                    assert(waiting =~= waiting_before.drop_first());
                    assert(pool.executed =~= jobs.subrange(0, pool.executed.len() as int));
                    assert(pool.queue =~= lined_up(waiting, if pool.accepting {
                        0
                    } else {
                        pool.workers
                    }));
                } else {
                    assert(!before.accepting);
                    assert(before.queue[0] == Message::<J>::JobDone);
                    assert(waiting =~= waiting_before);
                    assert(pool.queue =~= lined_up(waiting, pool.workers));
                }
            },
        }
        if !pool.accepting && pool.queue.len() == 0 {
            assert(waiting.len() == 0);
            assert(pool.executed =~= jobs);
        }
    }
}

} // verus!
