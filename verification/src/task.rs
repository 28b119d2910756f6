//! The task model.

use vstd::prelude::*;

verus! {

/// Type of time instants and durations.
///
/// The intended semantics of this type are left to the user and do not
/// interfere with use of this library as long as it relates to integral
/// multiples of a constant time interval; in most cases it is an integral
/// number of milliseconds or microseconds.
pub type Time = u64;

/// A single recurring real-time task.
///
/// All time quantities are integral multiples of one fixed interval
/// (microseconds in the intended use); their unit does not matter to
/// the analysis.
#[derive(Clone, Copy, PartialEq, Eq, Structural, Debug)]
pub struct Task {
    /// The task's period.
    pub period: u64,
    /// The task's cost, also known as WCET (worst-case execution time).
    pub cost: u64,
    /// The task's absolute deadline.
    pub deadline: u64,
    /// The task's priority; smaller values mean higher priority.
    pub priority: u64,
}

impl Task {
    /// Constructs a new `Task` with the given `cost` and `period`, implicit
    /// deadline (equal to `period`) and maximum priority.
    pub fn new(cost: u64, period: u64) -> (t: Task)
        ensures
            t.cost == cost,
            t.period == period,
            t.deadline == period,
            t.priority == 0,
    {
        Task { period, cost, deadline: period, priority: 0 }
    }

    /// Returns the task with new deadline `deadline`.
    pub fn with_deadline(self, deadline: u64) -> (t: Task)
        ensures
            t == (Task { deadline, ..self }),
    {
        Task { deadline, ..self }
    }

    /// Returns the task with EDF-like priority.
    ///
    /// The priority is set to the task's absolute deadline; it is the measure
    /// used to compute arrival blocking for priority-donation protocols run
    /// under EDF.
    pub fn edf(self) -> (t: Task)
        ensures
            t == (Task { priority: self.deadline, ..self }),
    {
        Task { priority: self.deadline, ..self }
    }

    /// Whether the task's deadline is implicit, i.e. equal to its period.
    pub fn implicit(&self) -> (r: bool)
        ensures
            r == (self.period == self.deadline),
    {
        self.period == self.deadline
    }

    /// Whether the task can meet its period on its own, i.e. its cost does
    /// not exceed its period.
    pub fn feasible(&self) -> (r: bool)
        ensures
            r == (self.cost <= self.period),
    {
        self.cost <= self.period
    }
}

} // verus!
