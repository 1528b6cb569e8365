//! A cyclic barrier: a rendezvous point that lets nobody pass until a fixed
//! number of threads have reached it, and that can be used again and again.

use crate::rendezvous::BarrierError;
use std::sync::Arc;
use vstd::prelude::*;

verus! {

/// A reusable rendezvous point for a fixed number of threads.
pub struct CyclicBarrier {
    size: usize,
    gate: Arc<crate::collect::CyclicBarrier<()>>,
}

impl CyclicBarrier {
    /// How many threads the barrier was made for.
    pub closed spec fn participants(self) -> nat {
        self.size as nat
    }

    /// How many threads the barrier was made for.
    pub fn size(&self) -> (n: usize)
        ensures
            n == self.participants(),
    {
        self.size
    }

    /// Makes a barrier for `n` threads; a barrier for no thread is refused.
    pub fn new(n: usize) -> (made: Result<CyclicBarrier, BarrierError>)
        ensures
            n == 0 <==> made == Err::<CyclicBarrier, BarrierError>(
                BarrierError::InvalidConfiguration,
            ),
            n > 0 ==> made is Ok && made->Ok_0.participants() == n,
    {
        match crate::collect::CyclicBarrier::new(n) {
            Ok(gate) => Ok(CyclicBarrier { size: n, gate }),
            Err(error) => Err(error),
        }
    }

    /// Waits until as many threads as the barrier was made for have called
    /// `wait`, then lets them all go on.
    pub fn wait(&self) -> (outcome: Result<(), BarrierError>)
        ensures
            outcome is Err ==> outcome == Err::<(), BarrierError>(BarrierError::BrokenBarrier),
    {
        match self.gate.wait(()) {
            Ok(_) => Ok(()),
            Err(error) => Err(error),
        }
    }
}

} // verus!
