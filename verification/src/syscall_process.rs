//! Process and memory syscalls: argument checks and the values they compute.
use vstd::prelude::*;
use crate::syscall_fs::{copied_to_user, copy_to_user, le_bytes, push_le_bytes};

verus! {

/// Size of a page in bytes.
pub const PAGE_SIZE: usize = 4096;

/// Microseconds in a second.
pub const MICROS_PER_SEC: usize = 1_000_000;

/// A point in time, as `get_time` reports it.
#[derive(Debug, Clone, Copy, PartialEq, Eq, Structural)]
pub struct TimeVal {
    /// Whole seconds.
    pub sec: usize,
    /// Microseconds past `sec`.
    pub usec: usize,
}

/// The time value that `get_time` writes to user memory when the clock reads
/// `now_us` microseconds (the call itself returns 0).
pub fn sys_get_time(now_us: usize) -> (t: TimeVal)
    ensures
        t.sec == now_us / MICROS_PER_SEC,
        t.usec == now_us % MICROS_PER_SEC,
        t.sec * MICROS_PER_SEC + t.usec == now_us,
{
    let t = TimeVal { sec: now_us / MICROS_PER_SEC, usec: now_us % MICROS_PER_SEC };
    assert(t.sec * MICROS_PER_SEC + t.usec == now_us) by (nonlinear_arith)
        requires
            t.sec == now_us / MICROS_PER_SEC,
            t.usec == now_us % MICROS_PER_SEC,
    ;
    t
}

/// The bytes of a time value as it lies in memory on the kernel's 64-bit target:
/// seconds, then microseconds, each eight bytes, least significant first.
pub open spec fn time_val_bytes(t: TimeVal) -> Seq<u8> {
    le_bytes(t.sec as nat, 8) + le_bytes(t.usec as nat, 8)
}

/// Finishes `get_time` when the clock reads `now_us` microseconds: copies the time
/// value into the user buffer `user` (whose chunks may lie on different pages) and
/// returns 0.
pub fn sys_get_time_reply(now_us: usize, user: &mut Vec<Vec<u8>>) -> (r: isize)
    ensures
        r == 0,
        copied_to_user(
            old(user)@,
            final(user)@,
            le_bytes((now_us / MICROS_PER_SEC) as nat, 8) + le_bytes(
                (now_us % MICROS_PER_SEC) as nat,
                8,
            ),
        ),
{
    let t = sys_get_time(now_us);
    let mut bytes: Vec<u8> = Vec::new();
    push_le_bytes(&mut bytes, t.sec as u64, 8);
    push_le_bytes(&mut bytes, t.usec as u64, 8);
    assert(bytes@ =~= le_bytes((now_us / MICROS_PER_SEC) as nat, 8) + le_bytes(
        (now_us % MICROS_PER_SEC) as nat,
        8,
    ));
    copy_to_user(user, &bytes);
    0
}

/// Access bits of the page-table entry that maps an address.
#[derive(Debug, Clone, Copy, PartialEq, Eq, Structural)]
pub struct PteFlags {
    /// The entry is valid.
    pub valid: bool,
    /// The page may be read.
    pub readable: bool,
    /// The page may be written.
    pub writable: bool,
    /// User mode may access the page.
    pub user_accessible: bool,
}

/// What a `trace` call does next.
#[derive(Debug, Clone, Copy, PartialEq, Eq, Structural)]
pub enum TraceAction {
    /// The call fails with -1.
    Fail,
    /// Return the byte at this user address.
    ReadByte(usize),
    /// Store the byte at this user address and return 0.
    WriteByte(usize, u8),
    /// Return how many times the syscall with this id has been made.
    SyscallCount(usize),
}

/// Decides a `trace` call. `pte` is the page-table entry of the page that holds
/// address `id`, or `None` when that page is not mapped.
///
/// Request 0 reads the byte at address `id`, which must be valid, readable and
/// user-accessible; request 1 writes the low byte of `data` there, which must be
/// valid, writable and user-accessible; request 2 reports the call count of syscall
/// `id`; any other request fails.
pub fn sys_trace(trace_request: usize, id: usize, data: usize, pte: Option<PteFlags>) -> (r:
    TraceAction)
    ensures
        trace_request == 0 ==> r == match pte {
            Some(f) => if f.valid && f.readable && f.user_accessible {
                TraceAction::ReadByte(id)
            } else {
                TraceAction::Fail
            },
            None => TraceAction::Fail,
        },
        trace_request == 1 ==> r == match pte {
            Some(f) => if f.valid && f.writable && f.user_accessible {
                TraceAction::WriteByte(id, (data % 256) as u8)
            } else {
                TraceAction::Fail
            },
            None => TraceAction::Fail,
        },
        trace_request == 2 ==> r == TraceAction::SyscallCount(id),
        trace_request > 2 ==> r == TraceAction::Fail,
{
    match trace_request {
        0 => {
            let Some(f) = pte else {
                return TraceAction::Fail;
            };
            if !f.valid || !f.readable || !f.user_accessible {
                return TraceAction::Fail;
            }
            TraceAction::ReadByte(id)
        },
        1 => {
            let data_byte = (data & 0xff) as u8;
            assert(data_byte == data % 256) by (bit_vector)
                requires
                    data_byte == (data & 0xff) as u8,
            ;
            let Some(f) = pte else {
                return TraceAction::Fail;
            };
            if !f.valid || !f.writable || !f.user_accessible {
                return TraceAction::Fail;
            }
            TraceAction::WriteByte(id, data_byte)
        },
        2 => TraceAction::SyscallCount(id),
        _ => TraceAction::Fail,
    }
}

/// The first byte of the user buffer `chunks` from chunk `c` on, skipping empty
/// chunks.
pub open spec fn first_byte_from(chunks: Seq<Vec<u8>>, c: int) -> Option<u8>
    decreases chunks.len() - c,
{
    if c < 0 || c >= chunks.len() {
        None
    } else if chunks[c].len() > 0 {
        Some(chunks[c]@[0])
    } else {
        first_byte_from(chunks, c + 1)
    }
}

/// Carries out a `trace` action and returns the call's result. `user` is the user
/// buffer at the traced address (its chunks may lie on different pages) and
/// `syscall_count` the count that a `SyscallCount` action asked for.
///
/// `ReadByte` returns the first byte of the buffer, or -1 when it has none;
/// `WriteByte` stores its byte at the start of the first chunk and returns 0, or -1
/// when that chunk is missing or empty; `SyscallCount` returns the count; `Fail`
/// returns -1. Only a successful `WriteByte` changes the buffer.
pub fn sys_trace_reply(action: TraceAction, user: &mut Vec<Vec<u8>>, syscall_count: isize) -> (r:
    isize)
    ensures
        match action {
            TraceAction::WriteByte(_, b) => if old(user).len() > 0 && old(user)@[0].len() > 0 {
                &&& r == 0
                &&& final(user).len() == old(user).len()
                &&& final(user)@[0]@ == old(user)@[0]@.update(0, b)
                &&& forall|c: int|
                    1 <= c < old(user).len() ==> (#[trigger] final(user)@[c])@ == old(user)@[c]@
            } else {
                r == -1 && final(user)@ == old(user)@
            },
            TraceAction::ReadByte(_) => final(user)@ == old(user)@ && r == match first_byte_from(
                old(user)@,
                0,
            ) {
                Some(b) => b as isize,
                None => -1isize,
            },
            TraceAction::SyscallCount(_) => r == syscall_count && final(user)@ == old(user)@,
            TraceAction::Fail => r == -1 && final(user)@ == old(user)@,
        },
{
    match action {
        TraceAction::ReadByte(addr) => {
            let mut c: usize = 0;
            while c < user.len()
                invariant
                    action == TraceAction::ReadByte(addr),
                    user@ == old(user)@,
                    c <= user.len(),
                    first_byte_from(user@, 0) == first_byte_from(user@, c as int),
                decreases user.len() - c,
            {
                if user[c].len() > 0 {
                    return user[c][0] as isize;
                }
                c = c + 1;
            }
            -1
        },
        TraceAction::WriteByte(_, b) => {
            if user.len() > 0 && user[0].len() > 0 {
                user[0][0] = b;
                0
            } else {
                -1
            }
        },
        TraceAction::SyscallCount(_) => syscall_count,
        TraceAction::Fail => -1,
    }
}

/// Permissions of a new memory area.
#[derive(Debug, Clone, Copy, PartialEq, Eq, Structural)]
pub struct MapPermission {
    /// Readable.
    pub read: bool,
    /// Writable.
    pub write: bool,
    /// Executable.
    pub execute: bool,
    /// Accessible from user mode.
    pub user: bool,
}

/// Checks an `mmap` request. `start` must be page-aligned and `port` must set some of
/// its low three bits (read, write, execute) and no other bit. Returns the permission
/// of the new area, always user-accessible, or `None` when the call fails with -1.
pub fn sys_mmap(start: usize, len: usize, port: usize) -> (r: Option<MapPermission>)
    ensures
        r is Some <==> (start % PAGE_SIZE == 0 && 0 < port < 8),
        r is Some ==> r->Some_0 == (MapPermission {
            read: port % 2 == 1,
            write: (port / 2) % 2 == 1,
            execute: (port / 4) % 2 == 1,
            user: true,
        }),
{
    proof {
        assert((port & !0x7usize == 0 && port & 0x7usize != 0) <==> (0 < port < 8)) by (bit_vector);
        assert((port & 0x1usize != 0) <==> (port % 2 == 1)) by (bit_vector);
        assert((port & 0x2usize != 0) <==> ((port / 2) % 2 == 1)) by (bit_vector);
        assert((port & 0x4usize != 0) <==> ((port / 4) % 2 == 1)) by (bit_vector);
    }
    if start % PAGE_SIZE != 0 || port & !0x7 != 0 || port & 0x7 == 0 || start % 4096 != 0 {
        return None;
    }
    Some(
        MapPermission {
            read: port & 0x1 != 0,
            write: port & 0x2 != 0,
            execute: port & 0x4 != 0,
            user: true,
        },
    )
}

/// Checks a `munmap` request: `start` and `len` must be page-aligned and `len`
/// nonzero. `false` means that the call fails with -1.
pub fn sys_munmap(start: usize, len: usize) -> (ok: bool)
    ensures
        ok <==> (start % PAGE_SIZE == 0 && len != 0 && len % PAGE_SIZE == 0),
{
    !(start % PAGE_SIZE != 0 || len == 0 || len % PAGE_SIZE != 0)
}

/// The value `sbrk` returns given what moving the program break gave back: the old
/// break, or `None` when the break could not move.
pub fn sys_sbrk(old_brk: Option<usize>) -> (r: isize)
    ensures
        r == match old_brk {
            Some(b) => b as isize,
            None => -1isize,
        },
{
    if let Some(b) = old_brk {
        b as isize
    } else {
        -1
    }
}

} // verus!
