//! The inode and directory layer of a small block-based filesystem, with the
//! kernel-side decisions built on it: path-level system calls over an open
//! file table, memory request checks, and a stride scheduler's ready queue.
//!
//! `fs` holds the filesystem state (inode table, free blocks, block bytes)
//! and its invariant; `vfs` the inode handles that operate on it; `laws`
//! what holds across operations.

pub mod fs;
pub mod laws;
pub mod layout;
pub mod manager;
pub mod process;
pub mod syscall;
pub mod task;
pub mod vfs;
