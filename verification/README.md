# rcore_kernel_logic

Verified decision logic of a small teaching kernel, written in Verus.

- `src/dead_lock.rs`: deadlock detection for mutexes and semaphores with the
  banker's safety check. The check answers `Safe` exactly when some safe sequence
  lets every existing task finish.
- `src/syscall_fs.rs`: the file-descriptor syscalls (`read`, `write`, `fstat`,
  `open`, `close`) as checks and updates of a descriptor table, the status record
  `fstat` copies to the user's buffer, and `linkat` / `unlinkat` on the root
  directory.
- `src/syscall_process.rs`: `get_time`, `trace`, `mmap`, `munmap` and `sbrk` as
  argument checks and the values they compute.
- `src/vfs.rs`: the inode operations of the file system (find, create, list,
  read, write, clear, link, stat, unlink) over a plain-value model of the disk:
  the inode and data-block bitmaps and each inode's type, link count, bytes and
  blocks, directories being sequences of 32-byte entries.
- `app/lib.rs`: the file system behind a `spin::Mutex`, with inode handles that
  take the lock, check what each verified operation requires, and call it.
- `tests/`: concrete scenarios for each operation and law.
