//! File-descriptor syscalls: the checks and table updates they make.
use vstd::prelude::*;
use crate::vfs::{
    can_grow, lookup, linked, record, record_inode, releasable, scan_ok, unlinked, DiskInodeType,
    EasyFileSystem, Inode, DIRENT_SZ, NAME_LENGTH_LIMIT, entry_count,
};

verus! {

/// An entry of a task's file-descriptor table.
pub struct FileDescriptor<T> {
    /// The open file may be read.
    pub readable: bool,
    /// The open file may be written.
    pub writable: bool,
    /// The open file itself.
    pub file: T,
}

/// `fd` names an open file of the table.
pub open spec fn fd_is_open<T>(fd_table: Seq<Option<FileDescriptor<T>>>, fd: int) -> bool {
    0 <= fd < fd_table.len() && fd_table[fd] is Some
}

/// The descriptor behind an open `fd`.
pub open spec fn fd_entry<T>(fd_table: Seq<Option<FileDescriptor<T>>>, fd: int) -> FileDescriptor<
    T,
> {
    fd_table[fd]->Some_0
}

/// The file that a `write` on `fd` goes to: `fd` must be open for writing.
/// `None` means that the call fails with -1.
pub fn sys_write<T>(fd_table: &Vec<Option<FileDescriptor<T>>>, fd: usize) -> (r: Option<&T>)
    ensures
        match r {
            Some(f) => fd_is_open(fd_table@, fd as int) && fd_entry(fd_table@, fd as int).writable
                && *f == fd_entry(fd_table@, fd as int).file,
            None => !(fd_is_open(fd_table@, fd as int) && fd_entry(fd_table@, fd as int).writable),
        },
{
    if fd >= fd_table.len() {
        return None;
    }
    match &fd_table[fd] {
        Some(entry) => {
            if !entry.writable {
                return None;
            }
            Some(&entry.file)
        },
        None => None,
    }
}

/// The file that a `read` on `fd` comes from: `fd` must be open for reading.
/// `None` means that the call fails with -1.
pub fn sys_read<T>(fd_table: &Vec<Option<FileDescriptor<T>>>, fd: usize) -> (r: Option<&T>)
    ensures
        match r {
            Some(f) => fd_is_open(fd_table@, fd as int) && fd_entry(fd_table@, fd as int).readable
                && *f == fd_entry(fd_table@, fd as int).file,
            None => !(fd_is_open(fd_table@, fd as int) && fd_entry(fd_table@, fd as int).readable),
        },
{
    if fd >= fd_table.len() {
        return None;
    }
    match &fd_table[fd] {
        Some(entry) => {
            if !entry.readable {
                return None;
            }
            Some(&entry.file)
        },
        None => None,
    }
}

/// The file whose status `fstat` on `fd` reports: `fd` must be open.
/// `None` means that the call fails with -1.
pub fn sys_fstat<T>(fd_table: &Vec<Option<FileDescriptor<T>>>, fd: usize) -> (r: Option<&T>)
    ensures
        match r {
            Some(f) => fd_is_open(fd_table@, fd as int) && *f == fd_entry(fd_table@, fd as int).file,
            None => !fd_is_open(fd_table@, fd as int),
        },
{
    if fd >= fd_table.len() {
        return None;
    }
    match &fd_table[fd] {
        Some(entry) => Some(&entry.file),
        None => None,
    }
}

/// A file's status as `fstat` reports it. In memory it is the device, inode number,
/// mode and link count, followed by seven zero padding words.
#[derive(Debug, Clone, Copy, PartialEq, Eq, Structural)]
pub struct Stat {
    /// Device the file lies on.
    pub dev: u64,
    /// Inode number.
    pub ino: u64,
    /// Kind of file.
    pub mode: u32,
    /// Number of hard links.
    pub nlink: u32,
}

/// Size in bytes of a status record in memory.
pub const STAT_SIZE: usize = 80;

/// The `n` low bytes of `v`, least significant first.
pub open spec fn le_bytes(v: nat, n: nat) -> Seq<u8>
    decreases n,
{
    if n == 0 {
        Seq::empty()
    } else {
        seq![(v % 256) as u8] + le_bytes(v / 256, (n - 1) as nat)
    }
}

/// The bytes of a status record as it lies in memory (little-endian).
pub open spec fn stat_bytes(s: Stat) -> Seq<u8> {
    le_bytes(s.dev as nat, 8) + le_bytes(s.ino as nat, 8) + le_bytes(s.mode as nat, 4) + le_bytes(
        s.nlink as nat,
        4,
    ) + Seq::new(56, |i: int| 0u8)
}

proof fn lemma_le_bytes_len(v: nat, n: nat)
    ensures
        le_bytes(v, n).len() == n,
    decreases n,
{
    if n > 0 {
        lemma_le_bytes_len(v / 256, (n - 1) as nat);
    }
}

/// Appends the `n` low bytes of `v` to `out`, least significant first.
pub(crate) fn push_le_bytes(out: &mut Vec<u8>, v: u64, n: usize)
    ensures
        final(out)@ == old(out)@ + le_bytes(v as nat, n as nat),
{
    let mut x = v;
    let mut k: usize = 0;
    while k < n
        invariant
            k <= n,
            old(out)@ + le_bytes(v as nat, n as nat) == out@ + le_bytes(
                x as nat,
                (n - k) as nat,
            ),
        decreases n - k,
    {
        let ghost rest = le_bytes((x / 256) as nat, (n - k - 1) as nat);
        assert(le_bytes(x as nat, (n - k) as nat) == seq![(x % 256) as u8] + rest);
        out.push((x % 256) as u8);
        x = x / 256;
        k = k + 1;
        assert(out@ + rest =~= old(out)@ + le_bytes(v as nat, n as nat)) by {
            assert(out@ + rest =~= out@.drop_last() + (seq![out@.last()] + rest));
        }
    }
    assert(out@ =~= old(out)@ + le_bytes(v as nat, n as nat));
}

/// The bytes of a status record.
fn stat_to_bytes(s: &Stat) -> (r: Vec<u8>)
    ensures
        r@ == stat_bytes(*s),
        r.len() == STAT_SIZE,
{
    let mut r: Vec<u8> = Vec::new();
    push_le_bytes(&mut r, s.dev, 8);
    push_le_bytes(&mut r, s.ino, 8);
    push_le_bytes(&mut r, s.mode as u64, 4);
    push_le_bytes(&mut r, s.nlink as u64, 4);
    let ghost head = r@;
    let mut k: usize = 0;
    while k < 56
        invariant
            k <= 56,
            r@ == head + Seq::new(k as nat, |i: int| 0u8),
        decreases 56 - k,
    {
        r.push(0);
        k = k + 1;
        assert(r@ =~= head + Seq::new(k as nat, |i: int| 0u8));
    }
    proof {
        lemma_le_bytes_len(s.dev as nat, 8);
        lemma_le_bytes_len(s.ino as nat, 8);
        lemma_le_bytes_len(s.mode as nat, 4);
        lemma_le_bytes_len(s.nlink as nat, 4);
    }
    r
}

/// Where chunk `c` of a user buffer starts in the byte stream the chunks make up.
pub open spec fn chunk_start(chunks: Seq<Vec<u8>>, c: int) -> int
    decreases c,
{
    if c <= 0 {
        0
    } else {
        chunk_start(chunks, c - 1) + chunks[c - 1].len()
    }
}

/// The user buffer `new` is `old` with its leading bytes replaced by `src`, as far as
/// either reaches; chunk sizes stay.
pub open spec fn copied_to_user(old: Seq<Vec<u8>>, new: Seq<Vec<u8>>, src: Seq<u8>) -> bool {
    &&& new.len() == old.len()
    &&& forall|c: int| 0 <= c < old.len() ==> (#[trigger] new[c]).len() == old[c].len()
    &&& forall|c: int, k: int|
        0 <= c < old.len() && 0 <= k < old[c].len() ==> (#[trigger] new[c]@[k]) == if chunk_start(
            old,
            c,
        ) + k < src.len() {
            src[chunk_start(old, c) + k]
        } else {
            old[c]@[k]
        }
}

proof fn lemma_chunk_start_mono(chunks: Seq<Vec<u8>>, a: int, b: int)
    requires
        0 <= a <= b,
    ensures
        chunk_start(chunks, a) <= chunk_start(chunks, b),
    decreases b - a,
{
    if a < b {
        lemma_chunk_start_mono(chunks, a, b - 1);
    }
}

/// Copies `src` into the user buffer made of `chunks`, byte after byte, until one
/// of them runs out (the chunks may lie on different pages).
pub fn copy_to_user(chunks: &mut Vec<Vec<u8>>, src: &Vec<u8>)
    ensures
        copied_to_user(old(chunks)@, final(chunks)@, src@),
{
    let ghost old_chunks = chunks@;
    let mut pos: usize = 0;
    let mut c: usize = 0;
    while c < chunks.len()
        invariant
            c <= chunks.len(),
            old_chunks == old(chunks)@,
            chunks.len() == old_chunks.len(),
            pos == chunk_start(old_chunks, c as int),
            pos <= src.len(),
            forall|d: int| 0 <= d < old_chunks.len() ==> (#[trigger] chunks@[d]).len() == old_chunks[d].len(),
            forall|d: int, k: int|
                0 <= d < old_chunks.len() && 0 <= k < old_chunks[d].len() ==> (#[trigger] chunks@[d]@[k])
                    == if d < c && chunk_start(old_chunks, d) + k < src.len() {
                    src@[chunk_start(old_chunks, d) + k]
                } else {
                    old_chunks[d]@[k]
                },
        decreases chunks.len() - c,
    {
        let len = chunks[c].len();
        let mut k: usize = 0;
        while k < len && pos + k < src.len()
            invariant
                c < chunks.len(),
                old_chunks == old(chunks)@,
                chunks.len() == old_chunks.len(),
                len == old_chunks[c as int].len(),
                pos == chunk_start(old_chunks, c as int),
                pos <= src.len(),
                k <= len,
                pos + k <= src.len(),
                forall|d: int| 0 <= d < old_chunks.len() ==> (#[trigger] chunks@[d]).len() == old_chunks[d].len(),
                forall|d: int, x: int|
                    0 <= d < old_chunks.len() && 0 <= x < old_chunks[d].len() ==> (#[trigger] chunks@[d]@[x])
                        == if (d < c && chunk_start(old_chunks, d) + x < src.len()) || (d == c && x < k) {
                        src@[chunk_start(old_chunks, d) + x]
                    } else {
                        old_chunks[d]@[x]
                    },
            decreases len - k,
        {
            let b = src[pos + k];
            chunks[c][k] = b;
            k = k + 1;
        }
        if k < len {
            proof {
                assert forall|d: int, x: int|
                    0 <= d < old_chunks.len() && 0 <= x < old_chunks[d].len() implies (
                    #[trigger] chunks@[d]@[x]) == if chunk_start(old_chunks, d) + x < src.len() {
                    src@[chunk_start(old_chunks, d) + x]
                } else {
                    old_chunks[d]@[x]
                } by {
                    if d > c {
                        lemma_chunk_start_mono(old_chunks, c as int + 1, d);
                    }
                }
            }
            return;
        }
        pos = pos + len;
        c = c + 1;
        if pos >= src.len() {
            proof {
                assert forall|d: int, x: int|
                    0 <= d < old_chunks.len() && 0 <= x < old_chunks[d].len() implies (
                    #[trigger] chunks@[d]@[x]) == if chunk_start(old_chunks, d) + x < src.len() {
                    src@[chunk_start(old_chunks, d) + x]
                } else {
                    old_chunks[d]@[x]
                } by {
                    if d >= c {
                        lemma_chunk_start_mono(old_chunks, c as int, d);
                    }
                }
            }
            return;
        }
    }
}

/// Finishes an `fstat` on an open file given the status the file reports: with no
/// status the call fails with -1 and writes nothing; otherwise the status record is
/// copied into the user buffer `user` and the call returns 0.
pub fn sys_fstat_reply(status: Option<Stat>, user: &mut Vec<Vec<u8>>) -> (r: isize)
    ensures
        match status {
            None => r == -1 && final(user)@ == old(user)@,
            Some(s) => r == 0 && copied_to_user(old(user)@, final(user)@, stat_bytes(s)),
        },
{
    match status {
        None => -1,
        Some(s) => {
            let bytes = stat_to_bytes(&s);
            copy_to_user(user, &bytes);
            0
        },
    }
}

/// The descriptor that a new file gets: the lowest free slot, or a new slot at the end.
pub open spec fn lowest_free_fd<T>(fd_table: Seq<Option<FileDescriptor<T>>>, fd: int) -> bool {
    &&& 0 <= fd <= fd_table.len()
    &&& forall|i: int| 0 <= i < fd ==> (#[trigger] fd_table[i]) is Some
    &&& fd < fd_table.len() ==> fd_table[fd] is None
}

/// Index of the lowest free slot of the table, which grows by a free slot when full.
fn alloc_fd<T>(fd_table: &mut Vec<Option<FileDescriptor<T>>>) -> (fd: usize)
    ensures
        lowest_free_fd(old(fd_table)@, fd as int),
        fd < final(fd_table).len(),
        final(fd_table)@ == if fd < old(fd_table).len() {
            old(fd_table)@
        } else {
            old(fd_table)@.push(None)
        },
{
    let mut i: usize = 0;
    while i < fd_table.len()
        invariant
            i <= fd_table.len(),
            fd_table@ == old(fd_table)@,
            forall|k: int| 0 <= k < i ==> (#[trigger] fd_table[k]) is Some,
        decreases fd_table.len() - i,
    {
        if fd_table[i].is_none() {
            return i;
        }
        i = i + 1;
    }
    fd_table.push(None);
    fd_table.len() - 1
}

/// Installs a file that was opened in the lowest free descriptor and returns that
/// descriptor; when opening failed (`opened` is `None`) returns -1 and changes nothing.
pub fn sys_open<T>(
    fd_table: &mut Vec<Option<FileDescriptor<T>>>,
    opened: Option<FileDescriptor<T>>,
) -> (r: isize)
    requires
        old(fd_table).len() < isize::MAX,
    ensures
        match opened {
            None => r == -1 && final(fd_table)@ == old(fd_table)@,
            Some(desc) => {
                &&& lowest_free_fd(old(fd_table)@, r as int)
                &&& final(fd_table)@ == if r < old(fd_table).len() {
                    old(fd_table)@.update(r as int, Some(desc))
                } else {
                    old(fd_table)@.push(Some(desc))
                }
            },
        },
{
    match opened {
        Some(desc) => {
            let fd = alloc_fd(fd_table);
            fd_table[fd] = Some(desc);
            proof {
                if fd < old(fd_table).len() {
                    assert(fd_table@ =~= old(fd_table)@.update(fd as int, fd_table@[fd as int]));
                } else {
                    assert(fd_table@ =~= old(fd_table)@.push(fd_table@[fd as int]));
                }
            }
            fd as isize
        },
        None => -1,
    }
}

/// Closes `fd`: returns 0 and frees its slot when it is open, otherwise returns -1
/// and changes nothing.
pub fn sys_close<T>(fd_table: &mut Vec<Option<FileDescriptor<T>>>, fd: usize) -> (r: isize)
    ensures
        fd_is_open(old(fd_table)@, fd as int) ==> r == 0 && final(fd_table)@ == old(
            fd_table,
        )@.update(fd as int, None),
        !fd_is_open(old(fd_table)@, fd as int) ==> r == -1 && final(fd_table)@ == old(fd_table)@,
{
    if fd >= fd_table.len() {
        return -1;
    }
    if fd_table[fd].is_none() {
        return -1;
    }
    fd_table[fd] = None;
    0
}


/// Whether two names are the same bytes.
fn same_name(a: &[u8], b: &[u8]) -> (r: bool)
    ensures
        r == (a@ == b@),
{
    if a.len() != b.len() {
        return false;
    }
    let mut k: usize = 0;
    while k < a.len()
        invariant
            k <= a.len(),
            a.len() == b.len(),
            forall|x: int| 0 <= x < k ==> a@[x] == b@[x],
        decreases a.len() - k,
    {
        if a[k] != b[k] {
            return false;
        }
        k = k + 1;
    }
    assert(a@ =~= b@);
    true
}

/// Hard-links `new_name` to the file `old_name` in the root directory `root`.
/// Fails with -1, changing nothing, when the names are equal, `old_name` does not
/// exist or `new_name` does; otherwise returns the file's new link count.
pub fn sys_linkat(fs: &mut EasyFileSystem, root: &Inode, old_name: &[u8], new_name: &[u8]) -> (r:
    isize)
    requires
        old(fs).wf(),
        old(fs).holds(*root),
        old(fs).disk_inode(*root).type_ == DiskInodeType::Directory,
        old_name@ != new_name@ ==> scan_ok(old(fs).disk_inode(*root).data@, old_name@, 0),
        old_name@ != new_name@ && lookup(old(fs).disk_inode(*root).data@, old_name@) is Some ==> {
            let data = old(fs).disk_inode(*root).data@;
            let t = record_inode(record(data, lookup(data, old_name@)->Some_0)) as int;
            &&& old(fs).inode_block(t) <= u32::MAX
            &&& scan_ok(data, new_name@, 0)
            &&& (lookup(data, new_name@) is None ==> {
                &&& new_name.len() <= NAME_LENGTH_LIMIT + 1
                &&& DIRENT_SZ * entry_count(data) + DIRENT_SZ <= u32::MAX
                &&& can_grow(
                    old(fs),
                    old(fs).id_of(*root),
                    DIRENT_SZ * entry_count(data) + DIRENT_SZ,
                )
                &&& t < old(fs).inodes.len()
                &&& old(fs).inodes[t].links < u32::MAX
                &&& old(fs).inode_block(t) != root.block()
            })
        },
    ensures
        final(fs).wf(),
        ({
            let data = old(fs).disk_inode(*root).data@;
            if old_name@ == new_name@ || lookup(data, old_name@) is None || lookup(
                data,
                new_name@,
            ) is Some {
                r == -1 && *final(fs) == *old(fs)
            } else {
                let t = record_inode(record(data, lookup(data, old_name@)->Some_0)) as int;
                &&& r == ((old(fs).inodes[t].links + 1) as u32) as isize
                &&& linked(old(fs), final(fs), old(fs).id_of(*root), new_name@, t)
            }
        }),
{
    if same_name(old_name, new_name) {
        return -1;
    }
    if root.find(fs, old_name).is_none() {
        return -1;
    }
    match root.link_file(fs, old_name, new_name) {
        Ok(links) => links as isize,
        Err(_) => -1,
    }
}

/// Removes the entry `name` from the root directory `root`: 0 on success, -1 when
/// there is no such entry.
pub fn sys_unlinkat(fs: &mut EasyFileSystem, root: &Inode, name: &[u8]) -> (r: isize)
    requires
        old(fs).wf(),
        old(fs).holds(*root),
        old(fs).disk_inode(*root).type_ == DiskInodeType::Directory,
        scan_ok(old(fs).disk_inode(*root).data@, name@, 0),
        lookup(old(fs).disk_inode(*root).data@, name@) matches Some(k) ==> {
            let t = record_inode(record(old(fs).disk_inode(*root).data@, k)) as int;
            &&& t < old(fs).inodes.len()
            &&& old(fs).inodes[t].type_ == DiskInodeType::File
            &&& old(fs).inodes[t].links >= 1
            &&& old(fs).inodes[t].links == 1 ==> {
                &&& old(fs).inode_bitmap[t]
                &&& releasable(
                    old(fs).data_bitmap@,
                    old(fs).inodes[t].blocks@,
                    old(fs).data_area_start_block as int,
                )
            }
        },
    ensures
        final(fs).wf(),
        ({
            let data = old(fs).disk_inode(*root).data@;
            match lookup(data, name@) {
                None => r == -1 && *final(fs) == *old(fs),
                Some(k) => r == 0 && unlinked(
                    old(fs),
                    final(fs),
                    old(fs).id_of(*root),
                    k,
                    record_inode(record(data, k)) as int,
                ),
            }
        }),
{
    match root.unlink(fs, name) {
        Ok(()) => 0,
        Err(()) => -1,
    }
}

} // verus!
