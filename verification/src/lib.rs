//! Resource management for a small kernel: a free-block bitmap allocator over
//! cached disk blocks, a stride scheduler, and the file-descriptor bookkeeping
//! of the file system calls.
pub mod bitmap;
pub mod fairness;
pub mod manager;
pub mod syscall;
