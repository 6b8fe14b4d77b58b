//! Hooks and stop rules of the run coordinator.
use vstd::prelude::*;

verus! {

/// Registers a handler for the interrupt signal. No handler is installed:
/// the call always succeeds and the handler is dropped unused.
pub fn set_handler<F>(handler: F) -> (r: Result<(), &'static str>)
    where
        F: Fn() + Send + 'static,
    ensures
        r is Ok,
{
    Ok(())
}

/// Whether a run has reached its iteration limit: the highest iteration
/// reported so far is at least `max_iters`; never when there is no limit.
pub fn iteration_limit_reached(total_iters: u64, max_iters: Option<u64>) -> (r: bool)
    ensures
        r == match max_iters {
            Some(m) => total_iters >= m,
            None => false,
        },
{
    match max_iters {
        Some(m) => total_iters >= m,
        None => false,
    }
}

/// Whether a run has reached its time limit: at least `max_seconds` whole
/// seconds have elapsed; never when there is no limit.
pub fn time_limit_reached(elapsed_secs: u64, max_seconds: Option<u64>) -> (r: bool)
    ensures
        r == match max_seconds {
            Some(m) => elapsed_secs >= m,
            None => false,
        },
{
    match max_seconds {
        Some(m) => elapsed_secs >= m,
        None => false,
    }
}

} // verus!
