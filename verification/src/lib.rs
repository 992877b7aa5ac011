//! Process and memory management core of a small single-core teaching kernel.
//!
//! The kernel state is an explicit value: an arena of tasks, each owning an
//! address space made of disjoint page regions, a ready queue ordered by a
//! stride scheduler, and mutexes whose wait queues hold process identifiers.

pub mod memory;
pub mod task;
pub mod syscall;
pub mod sync;
