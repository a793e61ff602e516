//! Verified core of a small teaching kernel: task scheduling and per-task
//! bookkeeping, a model of the user address space, the process and
//! synchronisation system calls, and banker's-algorithm deadlock detection.
pub mod banker;
pub mod sync;
pub mod config;
pub mod mm;
pub mod seq_util;
pub mod task;
pub mod process;
