//! The logic of a small teaching kernel, verified: three heap allocators (bump, buddy and
//! segregated free lists), a simulated block device and the file system on it, a line-editing
//! shell, an in-memory text console, and a round-robin run queue.

pub mod allocator;
pub mod fs;
pub mod shell;
pub mod task;
pub mod vgabuf;
