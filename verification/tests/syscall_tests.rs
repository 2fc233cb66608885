use rcore_kernel_logic::syscall_fs::{
    copy_to_user, sys_close, sys_fstat, sys_fstat_reply, sys_open, sys_read, sys_write,
    FileDescriptor, Stat,
};
use rcore_kernel_logic::syscall_process::{
    sys_get_time, sys_get_time_reply, sys_mmap, sys_munmap, sys_sbrk, sys_trace,
    sys_trace_reply, MapPermission, PteFlags, TimeVal, TraceAction,
};

fn desc(readable: bool, writable: bool, file: u32) -> Option<FileDescriptor<u32>> {
    Some(FileDescriptor { readable, writable, file })
}

fn table() -> Vec<Option<FileDescriptor<u32>>> {
    vec![desc(true, false, 10), desc(false, true, 11), None, desc(true, true, 13)]
}

#[test]
fn write_needs_open_writable_fd() {
    let t = table();
    assert_eq!(sys_write(&t, 1), Some(&11));
    assert_eq!(sys_write(&t, 3), Some(&13));
    assert_eq!(sys_write(&t, 0), None);
    assert_eq!(sys_write(&t, 2), None);
    assert_eq!(sys_write(&t, 4), None);
}

#[test]
fn read_needs_open_readable_fd() {
    let t = table();
    assert_eq!(sys_read(&t, 0), Some(&10));
    assert_eq!(sys_read(&t, 3), Some(&13));
    assert_eq!(sys_read(&t, 1), None);
    assert_eq!(sys_read(&t, 2), None);
    assert_eq!(sys_read(&t, 100), None);
}

#[test]
fn fstat_needs_open_fd() {
    let t = table();
    assert_eq!(sys_fstat(&t, 1), Some(&11));
    assert_eq!(sys_fstat(&t, 2), None);
    assert_eq!(sys_fstat(&t, 4), None);
}

#[test]
fn open_takes_lowest_free_fd() {
    let mut t = table();
    assert_eq!(sys_open(&mut t, desc(true, false, 20)), 2);
    assert_eq!(t[2].as_ref().map(|d| d.file), Some(20));
    assert_eq!(sys_open(&mut t, desc(true, false, 21)), 4);
    assert_eq!(t.len(), 5);
    assert_eq!(t[4].as_ref().map(|d| d.file), Some(21));
}

#[test]
fn open_failure_returns_minus_one() {
    let mut t = table();
    assert_eq!(sys_open(&mut t, None), -1);
    assert_eq!(t.len(), 4);
    assert!(t[2].is_none());
}

#[test]
fn close_frees_open_fd_only() {
    let mut t = table();
    assert_eq!(sys_close(&mut t, 1), 0);
    assert!(t[1].is_none());
    assert_eq!(sys_close(&mut t, 1), -1);
    assert_eq!(sys_close(&mut t, 9), -1);
    assert_eq!(sys_open(&mut t, desc(false, true, 30)), 1);
}

#[test]
fn get_time_splits_microseconds() {
    assert_eq!(sys_get_time(1_234_567), TimeVal { sec: 1, usec: 234_567 });
    assert_eq!(sys_get_time(999_999), TimeVal { sec: 0, usec: 999_999 });
    assert_eq!(sys_get_time(5_000_000), TimeVal { sec: 5, usec: 0 });
}

fn pte(valid: bool, readable: bool, writable: bool, user_accessible: bool) -> Option<PteFlags> {
    Some(PteFlags { valid, readable, writable, user_accessible })
}

#[test]
fn trace_read_checks_page() {
    assert_eq!(sys_trace(0, 0x1000, 0, pte(true, true, false, true)), TraceAction::ReadByte(0x1000));
    assert_eq!(sys_trace(0, 0x1000, 0, pte(true, false, true, true)), TraceAction::Fail);
    assert_eq!(sys_trace(0, 0x1000, 0, pte(false, true, true, true)), TraceAction::Fail);
    assert_eq!(sys_trace(0, 0x1000, 0, pte(true, true, true, false)), TraceAction::Fail);
    assert_eq!(sys_trace(0, 0x1000, 0, None), TraceAction::Fail);
}

#[test]
fn trace_write_keeps_low_byte() {
    assert_eq!(sys_trace(1, 0x2000, 0x1234, pte(true, false, true, true)), TraceAction::WriteByte(0x2000, 0x34));
    assert_eq!(sys_trace(1, 0x2000, 0x1234, pte(true, true, false, true)), TraceAction::Fail);
    assert_eq!(sys_trace(1, 0x2000, 0x1234, None), TraceAction::Fail);
}

#[test]
fn trace_count_and_unknown_request() {
    assert_eq!(sys_trace(2, 64, 0, None), TraceAction::SyscallCount(64));
    assert_eq!(sys_trace(3, 64, 0, pte(true, true, true, true)), TraceAction::Fail);
}

#[test]
fn mmap_checks_alignment_and_port() {
    assert_eq!(
        sys_mmap(0x10000, 4096, 3),
        Some(MapPermission { read: true, write: true, execute: false, user: true })
    );
    assert_eq!(
        sys_mmap(0, 1, 4),
        Some(MapPermission { read: false, write: false, execute: true, user: true })
    );
    assert_eq!(sys_mmap(0x10001, 4096, 3), None);
    assert_eq!(sys_mmap(0x10000, 4096, 0), None);
    assert_eq!(sys_mmap(0x10000, 4096, 8), None);
    assert_eq!(sys_mmap(0x10000, 4096, 0x9), None);
}

#[test]
fn munmap_checks_alignment_and_length() {
    assert!(sys_munmap(0x10000, 8192));
    assert!(!sys_munmap(0x10000, 0));
    assert!(!sys_munmap(0x10000, 100));
    assert!(!sys_munmap(0x10010, 4096));
}

#[test]
fn sbrk_returns_old_break_or_minus_one() {
    assert_eq!(sys_sbrk(Some(0x8000)), 0x8000);
    assert_eq!(sys_sbrk(None), -1);
}

#[test]
fn fstat_reply_without_status_fails() {
    let mut user = vec![vec![9u8; 80]];
    assert_eq!(sys_fstat_reply(None, &mut user), -1);
    assert_eq!(user, vec![vec![9u8; 80]]);
}

#[test]
fn fstat_reply_writes_status_across_pages() {
    let mut user = vec![vec![9u8; 10], vec![9u8; 100]];
    let s = Stat { dev: 0, ino: 0x0102, mode: 0o100000, nlink: 3 };
    assert_eq!(sys_fstat_reply(Some(s), &mut user), 0);
    let mut flat: Vec<u8> = user.concat();
    let mut expected = Vec::new();
    expected.extend_from_slice(&0u64.to_le_bytes());
    expected.extend_from_slice(&0x0102u64.to_le_bytes());
    expected.extend_from_slice(&0o100000u32.to_le_bytes());
    expected.extend_from_slice(&3u32.to_le_bytes());
    expected.extend_from_slice(&[0u8; 56]);
    assert_eq!(&flat[..80], &expected[..]);
    assert!(flat[80..].iter().all(|b| *b == 9));
    flat.truncate(0);
    assert_eq!(user[0].len(), 10);
    assert_eq!(user[1].len(), 100);
}

#[test]
fn copy_stops_at_shorter_side() {
    let mut user = vec![vec![0u8; 2], vec![0u8; 2]];
    copy_to_user(&mut user, &vec![1, 2, 3]);
    assert_eq!(user, vec![vec![1, 2], vec![3, 0]]);
    let mut small = vec![vec![0u8; 1]];
    copy_to_user(&mut small, &vec![5, 6, 7]);
    assert_eq!(small, vec![vec![5]]);
}

#[test]
fn get_time_reply_writes_time_across_pages() {
    let mut user = vec![vec![9u8; 5], vec![9u8; 20]];
    assert_eq!(sys_get_time_reply(1_234_567, &mut user), 0);
    let flat: Vec<u8> = user.concat();
    let mut expected = Vec::new();
    expected.extend_from_slice(&1u64.to_le_bytes());
    expected.extend_from_slice(&234_567u64.to_le_bytes());
    assert_eq!(&flat[..16], &expected[..]);
    assert!(flat[16..].iter().all(|b| *b == 9));
    assert_eq!(user[0].len(), 5);
    assert_eq!(user[1].len(), 20);
}

#[test]
fn trace_reply_reads_first_byte() {
    let mut user = vec![vec![], vec![0xab, 1], vec![2]];
    assert_eq!(sys_trace_reply(TraceAction::ReadByte(0x1000), &mut user, 0), 0xab);
    assert_eq!(user, vec![vec![], vec![0xab, 1], vec![2]]);
    let mut empty: Vec<Vec<u8>> = vec![vec![], vec![]];
    assert_eq!(sys_trace_reply(TraceAction::ReadByte(0x1000), &mut empty, 0), -1);
    let mut none: Vec<Vec<u8>> = Vec::new();
    assert_eq!(sys_trace_reply(TraceAction::ReadByte(0x1000), &mut none, 0), -1);
}

#[test]
fn trace_reply_writes_first_byte() {
    let mut user = vec![vec![1, 2], vec![3]];
    assert_eq!(sys_trace_reply(TraceAction::WriteByte(0x2000, 0x34), &mut user, 0), 0);
    assert_eq!(user, vec![vec![0x34, 2], vec![3]]);
    let mut empty_first = vec![vec![], vec![3]];
    assert_eq!(sys_trace_reply(TraceAction::WriteByte(0x2000, 0x34), &mut empty_first, 0), -1);
    assert_eq!(empty_first, vec![vec![], vec![3]]);
}

#[test]
fn trace_reply_count_and_failure() {
    let mut user = vec![vec![7u8]];
    assert_eq!(sys_trace_reply(TraceAction::SyscallCount(64), &mut user, 12), 12);
    assert_eq!(sys_trace_reply(TraceAction::Fail, &mut user, 12), -1);
    assert_eq!(user, vec![vec![7u8]]);
}
