//! Thread-coordination primitives, and the small sequential models that go with
//! them, each with machine-checked contracts.

pub mod barrier;
pub mod board;
pub mod collect;
pub mod dna;
pub mod filesystem;
pub mod monitor;
pub mod pool;
pub mod relay;
pub mod rendezvous;
pub mod ring;
pub mod sync_ring;
