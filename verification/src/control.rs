//! Limits of the keep-alive connections and the bookkeeping shared by the
//! worker threads to decide which idle connection gives way.
use vstd::prelude::*;

verus! {

/// Requests served on one connection before it is closed.
pub const MAX_KEEP_ALIVE_REQUESTS: u16 = 50;

/// Seconds a connection may stay idle.
pub const KEEP_ALIVE_TIMEOUT: u8 = 5;

/// Seconds the control thread sleeps between rounds.
pub const CONTROL_THREAD_SLEEP: u8 = 5;

/// The idle connection that gives way when every worker is busy: the thread
/// serving it and how long it has been idle.
pub struct ControlStat {
    /// The worker thread that holds the longest idle connection;
    /// `usize::MAX` when none does.
    pub thread_index: usize,
    /// How long that connection has been idle, in nanoseconds.
    pub idle_time: u128,
}

/// No connection is marked: no thread, no idle time.
pub open spec fn is_unmarked(s: ControlStat) -> bool {
    s.thread_index == usize::MAX && s.idle_time == 0
}

impl ControlStat {
    /// The bookkeeping with no connection marked.
    pub fn new() -> (res: ControlStat)
        ensures
            is_unmarked(res),
    {
        ControlStat { thread_index: usize::MAX, idle_time: 0 }
    }

    /// Forgets the marked connection, as `new` starts.
    pub fn reset(&mut self)
        ensures
            is_unmarked(*final(self)),
    {
        self.thread_index = usize::MAX;
        self.idle_time = 0;
    }
}

} // verus!
