//! The pace of the program.

use vstd::prelude::*;

use crate::runtime::app_state::AppState;

verus! {

/// The pause while detection is off, in milliseconds.
pub const IDLE_INTERVAL_MS: u64 = 1000;

#[derive(Debug, Clone, Copy, PartialEq, Eq, Structural)]
pub struct Scheduler {
    pub running: bool,
}

impl Scheduler {
    pub fn new() -> (r: Self)
        ensures
            !r.running,
    {
        Scheduler { running: false }
    }

    pub fn start(&mut self)
        ensures
            final(self).running,
    {
        self.running = true;
    }

    pub fn stop(&mut self)
        ensures
            !final(self).running,
    {
        self.running = false;
    }

    /// The pause before the next turn, in milliseconds; `None` after the scheduler was stopped.
    pub fn next_interval(&self, state: &AppState) -> (r: Option<u64>)
        ensures
            r == if !self.running {
                None
            } else if state.is_active {
                Some(state.config.detection.active_timeout_ms)
            } else {
                Some(IDLE_INTERVAL_MS)
            },
    {
        if !self.running {
            return None;
        }
        if state.is_active {
            Some(state.detection_interval_ms())
        } else {
            Some(IDLE_INTERVAL_MS)
        }
    }
}

} // verus!
