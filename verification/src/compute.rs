//! How wide a batch of independent solves may run.
//!
//! The pool itself, and the work handed to its threads, live with the
//! application; what is decided here is the width: one thread when
//! sequential, otherwise every core or the configured cap, clamped to
//! `1..=cores`.
use vstd::prelude::*;

verus! {

/// Where a compute pool runs its work.
#[derive(Clone, Copy, PartialEq, Eq, Debug, Structural)]
pub enum Execution {
    /// Fan the batch out across the pool's worker threads.
    Parallel,
    /// Run every item on the calling thread, in order.
    Sequential,
}

/// Construction options for a compute pool.
#[derive(Clone, Copy, Debug)]
pub struct PoolConfig {
    pub execution: Execution,
    /// Upper bound on worker threads. `None` uses every logical core the
    /// machine reports.
    pub max_threads: Option<usize>,
}

impl Default for PoolConfig {
    /// All cores, in parallel: the intended production configuration.
    fn default() -> (r: Self)
        ensures
            r.execution == Execution::Parallel,
            r.max_threads is None,
    {
        Self { execution: Execution::Parallel, max_threads: None }
    }
}

/// The worker threads a pool built from `config` uses on a machine with
/// `cores` logical cores.
pub open spec fn spec_pool_threads(config: PoolConfig, cores: int) -> int {
    match config.execution {
        Execution::Sequential => 1,
        Execution::Parallel => match config.max_threads {
            None => cores,
            Some(cap) => if cap < 1 {
                1
            } else if cap > cores {
                cores
            } else {
                cap as int
            },
        },
    }
}

/// The worker threads a pool built from `config` uses on a machine with
/// `cores` logical cores: one when sequential, otherwise every core, or the
/// cap clamped into `1..=cores`.
pub fn pool_threads(config: PoolConfig, cores: usize) -> (r: usize)
    requires
        cores >= 1,
    ensures
        r as int == spec_pool_threads(config, cores as int),
        1 <= r <= cores,
{
    match config.execution {
        Execution::Sequential => 1,
        Execution::Parallel => match config.max_threads {
            None => cores,
            Some(cap) => if cap < 1 {
                1
            } else if cap > cores {
                cores
            } else {
                cap
            },
        },
    }
}

} // verus!
