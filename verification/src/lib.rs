//! A verified model of a small teaching-kernel's core subsystems: a
//! stride-based CPU scheduler, mutex/semaphore/condition-variable
//! synchronization with a banker-style deadlock detector, a per-process
//! bounded mailbox for message passing, and the process/thread lifecycle
//! that composes them behind a syscall-shaped interface.

pub mod mailbox;
pub mod stride;
pub mod sync;
pub mod detect;
pub mod kernel;
pub mod coroutine;
pub mod race;
