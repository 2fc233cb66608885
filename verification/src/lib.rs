//! Verified decision logic of a teaching kernel: deadlock detection by the
//! banker's algorithm, file-descriptor and memory syscalls, and the directory
//! operations of a simple file system.

pub mod dead_lock;
pub mod syscall_fs;
pub mod syscall_process;
pub mod vfs;
