//! The work list of a temperature sweep and the sizes that a sweep is
//! configured with.
//!
//! The temperatures wait in a queue. Every worker takes the one at the front
//! when it is ready for more, so each is handed out exactly once, lowest
//! first.

use crate::system::MAX_SIDE;
use std::collections::VecDeque;
use vstd::prelude::*;

verus! {

/// Why the sizes of a sweep are refused.
#[derive(Clone, Copy, Debug, PartialEq, Eq)]
pub enum ConfigError {
    /// The side of the lattice is zero or beyond `MAX_SIDE`.
    Side,
    /// There is no temperature to sweep over.
    Steps,
    /// There is no worker to do the work.
    Workers,
}

/// Checks the sizes of a sweep before any work is started: the side `n` of
/// the lattices, the number `steps` of temperatures and the number `workers`
/// of workers. The first fault in this order is reported.
pub fn check_sizes(n: usize, steps: usize, workers: usize) -> (r: Result<(), ConfigError>)
    ensures
        r is Ok <==> 1 <= n <= MAX_SIDE && steps >= 1 && workers >= 1,
        r == Err::<(), ConfigError>(ConfigError::Side) <==> !(1 <= n <= MAX_SIDE),
        r == Err::<(), ConfigError>(ConfigError::Steps) <==> 1 <= n <= MAX_SIDE && steps == 0,
        r == Err::<(), ConfigError>(ConfigError::Workers) <==> 1 <= n <= MAX_SIDE && steps >= 1
            && workers == 0,
{
    if n < 1 || n > MAX_SIDE {
        Err(ConfigError::Side)
    } else if steps < 1 {
        Err(ConfigError::Steps)
    } else if workers < 1 {
        Err(ConfigError::Workers)
    } else {
        Ok(())
    }
}

/// Fetches the next temperature to be calculated: the front of the queue,
/// which is removed, or `None` where the queue is empty.
pub fn next_t<T>(ts: &mut VecDeque<T>) -> (t: Option<T>)
    ensures
        old(ts)@.len() == 0 ==> t is None && final(ts)@ == old(ts)@,
        old(ts)@.len() > 0 ==> t == Some(old(ts)@[0]) && final(ts)@ == old(ts)@.skip(1),
{
    ts.pop_front()
}

} // verus!
