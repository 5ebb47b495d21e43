//! Stopping long computations early.

use std::sync::Arc;
use std::sync::atomic::AtomicBool;
use std::sync::atomic::Ordering;

use vstd::prelude::*;

verus! {

/// A flag that lets a caller stop a long-running computation between units of work. The flag is
/// shared between threads, so what it holds is not tracked.
#[derive(Clone, Debug)]
pub struct CancellationFlag(Arc<AtomicBool>);

impl Default for CancellationFlag {
    /// A flag that nothing has set yet.
    fn default() -> (flag: CancellationFlag) {
        CancellationFlag(Arc::new(AtomicBool::new(false)))
    }
}

impl CancellationFlag {
    /// Request that the computations holding this flag stop at their next opportunity.
    pub fn cancel(&self) {
        self.0.store(true, Ordering::Relaxed);
    }

    /// Determine whether cancellation was requested. Relaxed ordering suffices because the flag
    /// guards no other data and observing it late only costs one more unit of work.
    pub fn is_cancelled(&self) -> (result: bool) {
        self.0.load(Ordering::Relaxed)
    }
}

/// Whether a computation ran to completion or stopped early.
#[derive(Debug)]
pub enum Outcome<T> {
    Completed(T),
    Cancelled,
}

impl<T> Outcome<T> {
    /// Transform the value of a completed computation, preserving cancellation.
    pub fn map<U, F: FnOnce(T) -> U>(self, function: F) -> (result: Outcome<U>)
        requires
            self matches Outcome::Completed(value) ==> function.requires((value,)),
        ensures
            match (self, result) {
                (Outcome::Completed(value), Outcome::Completed(image)) => function.ensures(
                    (value,),
                    image,
                ),
                (Outcome::Cancelled, Outcome::Cancelled) => true,
                _ => false,
            },
    {
        match self {
            Outcome::Completed(value) => Outcome::Completed(function(value)),
            Outcome::Cancelled => Outcome::Cancelled,
        }
    }

    /// Retrieve the value of a computation that was not cancelled.
    pub fn assume_completed(self) -> (value: T)
        requires
            self is Completed,
        ensures
            self == Outcome::Completed(value),
    {
        match self {
            Outcome::Completed(value) => value,
            Outcome::Cancelled => vstd::pervasive::unreached(),
        }
    }
}

} // verus!
