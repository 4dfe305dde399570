//! What a pool of worker threads offers, and what a worker of the shared
//! queue does with what it takes from the queue. The threads and the
//! queue themselves are the driver's.

use vstd::prelude::*;
use crate::error::EngineError;

verus! {

/// A pool of threads that run jobs.
pub trait ThreadPool {
    /// A pool of `threads` workers.
    fn new(threads: u32) -> Result<Self, EngineError> where Self: Sized;

    /// Hands a job to the pool; does not wait for it.
    fn spawn<F>(&self, job: F) where F: FnOnce() + Send + 'static;
}

/// What a worker got when it asked the queue for a message.
#[derive(Debug, Clone, Copy, PartialEq, Eq, Structural)]
pub enum Received {
    /// A job to run.
    Job,
    /// The word to stop.
    Shutdown,
    /// Nothing: the queue is closed.
    Closed,
}

/// What a worker does next.
#[derive(Debug, Clone, Copy, PartialEq, Eq, Structural)]
pub enum WorkerStep {
    /// Run the job to its end, then ask the queue again.
    Run,
    /// Leave.
    Exit,
}

/// What a worker does with what it got: it runs a job, and leaves when
/// it is told to or when the queue is closed.
pub fn worker_step(received: Received) -> (r: WorkerStep)
    ensures
        r == match received {
            Received::Job => WorkerStep::Run,
            Received::Shutdown => WorkerStep::Exit,
            Received::Closed => WorkerStep::Exit,
        },
{
    match received {
        Received::Job => WorkerStep::Run,
        Received::Shutdown => WorkerStep::Exit,
        Received::Closed => WorkerStep::Exit,
    }
}

/// Whether a worker that leaves is replaced: it is where a job's panic
/// took it down, so that a pool keeps its size; a worker that left of
/// itself is not.
pub fn replaces(panicking: bool) -> (r: bool)
    ensures
        r == panicking,
{
    panicking
}

} // verus!
