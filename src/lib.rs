//! Deadlock avoidance and scheduling core of a small teaching kernel.
//!
//! - `banker`: the safe-state model and the verified Banker's safety check.
//! - `detector`: the resource tracker (availability, allocation, need) built on it.
//! - `manager`: the ready queue, with FIFO and stride-ordered dispatch.
//! - `mm`: checks on memory-mapping requests.
//! - `sync`: mutexes, semaphores and condition variables with FIFO wait lists.
//! - `process`: per-process state and the synchronisation system calls.
//! - `info`: time values and per-task statistics.
//! - `sysrec`: per-process counts of system calls.
pub mod banker;
pub mod detector;
pub mod info;
pub mod manager;
pub mod mm;
pub mod process;
pub mod sync;
pub mod sysrec;
