//! Worst-case blocking analysis for multiprocessor real-time task systems
//! that share mutually-exclusive or read/write-locked resources.
//!
//! A [`System`](rsrc::System) holds a fixed task-set and, per task and
//! resource, the number and maximum length of the task's requests, either
//! as plain mutex requests or split into read and write components. The
//! analyzers of [`proto`] bound, task by task, how long competing
//! requests can delay a task under several published FIFO-ordered locking
//! protocols, and [`bound::soft`] turns these bounds into a
//! bounded-response-time verdict under global EDF or FIFO scheduling.

pub mod bound;
pub mod gen;
pub mod proto;
pub mod rsrc;
pub mod sharing;
pub mod task;

use vstd::prelude::*;

verus! {

} // verus!
