//! The record kept for one process of a scheduling exercise.

use vstd::prelude::*;

verus! {

/// One process: its sequential identifier, its arrival and burst times, and
/// the times that a scheduling pass would fill in.
#[derive(Clone, Copy, Debug, PartialEq, Eq, Structural)]
pub struct ProcessRecord {
    pub id: u32,
    pub arrival_time: u32,
    pub burst_time: u32,
    pub completion_time: u32,
    pub waiting_time: u32,
    pub turnaround_time: u32,
}

/// A record that no scheduling pass has touched yet: its derived times are 0.
pub open spec fn unscheduled(id: u32, arrival_time: u32, burst_time: u32) -> ProcessRecord {
    ProcessRecord {
        id,
        arrival_time,
        burst_time,
        completion_time: 0,
        waiting_time: 0,
        turnaround_time: 0,
    }
}

impl ProcessRecord {
    /// A fresh record with the given identifier and times; completion,
    /// waiting and turnaround times start at 0.
    pub fn new(id: u32, arrival_time: u32, burst_time: u32) -> (r: ProcessRecord)
        ensures
            r == unscheduled(id, arrival_time, burst_time),
            r.completion_time == 0,
            r.waiting_time == 0,
            r.turnaround_time == 0,
    {
        ProcessRecord {
            id,
            arrival_time,
            burst_time,
            completion_time: 0,
            waiting_time: 0,
            turnaround_time: 0,
        }
    }
}

} // verus!
