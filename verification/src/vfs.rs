//! The directory and file operations of an inode of the simple file system.
//!
//! The disk is held as plain values: a bitmap of allocated inodes and, for each
//! inode, its type, link count and content bytes. A directory's content is a
//! sequence of fixed-size entries; each entry holds a NUL-terminated name field
//! followed by the little-endian number of the inode it names.
use vstd::prelude::*;

verus! {

/// Size of a disk block in bytes.
pub const BLOCK_SZ: usize = 512;

/// Size of a directory entry in bytes.
pub const DIRENT_SZ: usize = 32;

/// Longest name a directory entry holds; its name field has one more byte.
pub const NAME_LENGTH_LIMIT: usize = 27;

/// Kind of an inode.
#[derive(PartialEq, Eq, Structural, Debug, Clone, Copy)]
pub enum DiskInodeType {
    /// A regular file.
    File,
    /// A directory.
    Directory,
}

/// An inode on disk. The length of `data` is the inode's size.
pub struct DiskInode {
    /// File or directory.
    pub type_: DiskInodeType,
    /// Number of directory entries that name the inode.
    pub links: u32,
    /// The content.
    pub data: Vec<u8>,
    /// The blocks the inode holds, data and index blocks alike, in the order they
    /// were taken; the first `total_blocks(size)` of them are the ones in use.
    pub blocks: Vec<u32>,
}

/// The file system: the inode bitmap, the inodes, and where they lie on disk.
pub struct EasyFileSystem {
    /// First block of the inode area.
    pub inode_area_start_block: u32,
    /// Inodes stored in one block.
    pub inodes_per_block: u32,
    /// Bytes one inode takes in its block.
    pub disk_inode_size: usize,
    /// Block pointers held in an inode itself, before the index blocks.
    pub inode_direct_count: u32,
    /// First block of the data area.
    pub data_area_start_block: u32,
    /// Which blocks of the data area are allocated.
    pub data_bitmap: Vec<bool>,
    /// Which inodes are allocated.
    pub inode_bitmap: Vec<bool>,
    /// The inodes, by number.
    pub inodes: Vec<DiskInode>,
}

/// A handle on an inode: the block that holds it and its offset in that block.
#[derive(Clone, Copy, Debug)]
pub struct Inode {
    block_id: usize,
    block_offset: usize,
}

impl Inode {
    /// The block that holds the inode.
    pub closed spec fn block(&self) -> int {
        self.block_id as int
    }

    /// The inode's offset in its block.
    pub closed spec fn offset(&self) -> int {
        self.block_offset as int
    }
}

// ---------------------------------------------------------------------------
// Directory entries as bytes.

/// Number of whole entries in a directory of content `data`.
pub open spec fn entry_count(data: Seq<u8>) -> int {
    data.len() as int / DIRENT_SZ as int
}

/// The bytes of entry `i`.
pub open spec fn record(data: Seq<u8>, i: int) -> Seq<u8> {
    data.subrange(DIRENT_SZ as int * i, DIRENT_SZ as int * i + DIRENT_SZ as int)
}

/// Index of the first NUL byte of the name field at or after `k`, or the field's
/// length when there is none.
pub open spec fn name_end(rec: Seq<u8>, k: int) -> int
    decreases NAME_LENGTH_LIMIT + 1 - k,
{
    if k >= NAME_LENGTH_LIMIT + 1 || k < 0 {
        NAME_LENGTH_LIMIT as int + 1
    } else if rec[k] == 0 {
        k
    } else {
        name_end(rec, k + 1)
    }
}

/// The name field of the entry is NUL-terminated, so its name can be read.
pub open spec fn record_well_formed(rec: Seq<u8>) -> bool {
    name_end(rec, 0) < NAME_LENGTH_LIMIT + 1
}

/// The name an entry holds.
pub open spec fn record_name(rec: Seq<u8>) -> Seq<u8> {
    rec.take(name_end(rec, 0))
}

/// The inode number an entry holds.
pub open spec fn record_inode(rec: Seq<u8>) -> u32 {
    (rec[28] as int + rec[29] as int * 0x100 + rec[30] as int * 0x10000 + rec[31] as int
        * 0x1000000) as u32
}

/// The bytes of an entry for `name` and inode `id`: the name, NUL padding up to the
/// end of the name field, then the inode number in little-endian order.
pub open spec fn encode_record(name: Seq<u8>, id: u32) -> Seq<u8> {
    Seq::new(
        DIRENT_SZ as nat,
        |k: int|
            if k < name.len() && k < 28 {
                name[k]
            } else if k < 28 {
                0u8
            } else if k == 28 {
                (id % 0x100) as u8
            } else if k == 29 {
                ((id / 0x100) % 0x100) as u8
            } else if k == 30 {
                ((id / 0x10000) % 0x100) as u8
            } else {
                (id / 0x1000000) as u8
            },
    )
}

/// Scanning the entries from `i` on for `name` reads only well-formed entries:
/// each entry before the first match, and the match itself.
pub open spec fn scan_ok(data: Seq<u8>, name: Seq<u8>, i: int) -> bool
    decreases entry_count(data) - i,
{
    if i >= entry_count(data) || i < 0 {
        true
    } else {
        record_well_formed(record(data, i)) && (record_name(record(data, i)) == name || scan_ok(
            data,
            name,
            i + 1,
        ))
    }
}

/// Index of the first entry at or after `i` named `name`.
pub open spec fn lookup_from(data: Seq<u8>, name: Seq<u8>, i: int) -> Option<int>
    decreases entry_count(data) - i,
{
    if i >= entry_count(data) || i < 0 {
        None
    } else if record_name(record(data, i)) == name {
        Some(i)
    } else {
        lookup_from(data, name, i + 1)
    }
}

/// Index of the first entry of the directory named `name`.
pub open spec fn lookup(data: Seq<u8>, name: Seq<u8>) -> Option<int> {
    lookup_from(data, name, 0)
}

/// Every entry of the directory is well formed.
pub open spec fn entries_well_formed(data: Seq<u8>) -> bool {
    forall|i: int| 0 <= i < entry_count(data) ==> record_well_formed(#[trigger] record(data, i))
}

proof fn lemma_lookup_from_range(data: Seq<u8>, name: Seq<u8>, i: int)
    requires
        0 <= i,
    ensures
        lookup_from(data, name, i) matches Some(k) ==> i <= k < entry_count(data) && record_name(
            record(data, k),
        ) == name,
        lookup_from(data, name, i) is None ==> forall|k: int|
            i <= k < entry_count(data) ==> record_name(#[trigger] record(data, k)) != name,
        forall|k: int|
            i <= k < entry_count(data) && (lookup_from(data, name, i) is None || k
                < lookup_from(data, name, i)->Some_0) ==> record_name(#[trigger] record(data, k))
                != name,
    decreases entry_count(data) - i,
{
    if i < entry_count(data) {
        lemma_lookup_from_range(data, name, i + 1);
    }
}

proof fn lemma_record_bytes(data: Seq<u8>, i: int, k: int)
    requires
        0 <= i < entry_count(data),
        0 <= k < DIRENT_SZ,
    ensures
        0 <= DIRENT_SZ * i + k < data.len(),
        record(data, i)[k] == data[DIRENT_SZ * i + k],
{
    assert(DIRENT_SZ * i + DIRENT_SZ <= data.len()) by (nonlinear_arith)
        requires
            0 <= i < data.len() as int / 32,
    ;
}

proof fn lemma_name_end_bounds(rec: Seq<u8>, k: int)
    requires
        0 <= k,
    ensures
        k <= name_end(rec, k) <= NAME_LENGTH_LIMIT + 1 || (k > NAME_LENGTH_LIMIT + 1 && name_end(
            rec,
            k,
        ) == NAME_LENGTH_LIMIT + 1),
        name_end(rec, k) < NAME_LENGTH_LIMIT + 1 ==> rec[name_end(rec, k)] == 0,
        forall|x: int| k <= x < name_end(rec, k) ==> rec[x] != 0,
    decreases NAME_LENGTH_LIMIT + 1 - k,
{
    if k < NAME_LENGTH_LIMIT + 1 && rec[k] != 0 {
        lemma_name_end_bounds(rec, k + 1);
    }
}

/// Whether entry `i` of `data` is named `name`.
fn record_has_name(data: &Vec<u8>, i: usize, name: &[u8]) -> (r: bool)
    requires
        i < entry_count(data@),
        record_well_formed(record(data@, i as int)),
    ensures
        r == (record_name(record(data@, i as int)) == name@),
{
    let ghost rec = record(data@, i as int);
    proof {
        lemma_name_end_bounds(rec, 0);
        lemma_record_bytes(data@, i as int, 0);
        assert(32 * i < data.len());
    }
    let base = DIRENT_SZ * i;
    let mut len: usize = 0;
    while data[base + len] != 0
        invariant
            0 <= len <= name_end(rec, 0),
            name_end(rec, 0) < NAME_LENGTH_LIMIT + 1,
            base == DIRENT_SZ * i,
            i < entry_count(data@),
            rec == record(data@, i as int),
            rec[name_end(rec, 0)] == 0,
            forall|x: int| 0 <= x < name_end(rec, 0) ==> rec[x] != 0,
        decreases name_end(rec, 0) - len,
    {
        proof {
            lemma_record_bytes(data@, i as int, len as int);
        }
        len = len + 1;
        proof {
            lemma_record_bytes(data@, i as int, len as int);
        }
    }
    proof {
        lemma_record_bytes(data@, i as int, len as int);
    }
    assert(len == name_end(rec, 0));
    if len != name.len() {
        return false;
    }
    let mut k: usize = 0;
    while k < len
        invariant
            k <= len,
            len == name.len(),
            len == name_end(rec, 0),
            len < NAME_LENGTH_LIMIT + 1,
            base == DIRENT_SZ * i,
            i < entry_count(data@),
            rec == record(data@, i as int),
            forall|x: int| 0 <= x < k ==> rec[x] == name@[x],
        decreases len - k,
    {
        proof {
            lemma_record_bytes(data@, i as int, k as int);
        }
        if data[base + k] != name[k] {
            assert(record_name(rec)[k as int] != name@[k as int]);
            return false;
        }
        k = k + 1;
    }
    assert(record_name(rec) =~= name@);
    true
}

/// The inode number held by entry `i` of `data`.
fn record_inode_exec(data: &Vec<u8>, i: usize) -> (r: u32)
    requires
        i < entry_count(data@),
    ensures
        r == record_inode(record(data@, i as int)),
{
    let ghost rec = record(data@, i as int);
    proof {
        lemma_record_bytes(data@, i as int, 28);
        lemma_record_bytes(data@, i as int, 29);
        lemma_record_bytes(data@, i as int, 30);
        lemma_record_bytes(data@, i as int, 31);
        assert(32 * i < data.len());
    }
    let base = DIRENT_SZ * i;
    let b0 = data[base + 28] as u32;
    let b1 = data[base + 29] as u32;
    let b2 = data[base + 30] as u32;
    let b3 = data[base + 31] as u32;
    b0 + b1 * 0x100 + b2 * 0x10000 + b3 * 0x1000000
}

/// Index of the first entry of the directory named `name`.
fn find_entry_index(data: &Vec<u8>, name: &[u8]) -> (r: Option<usize>)
    requires
        scan_ok(data@, name@, 0),
    ensures
        r == match lookup(data@, name@) {
            Some(k) => Some(k as usize),
            None => None::<usize>,
        },
{
    let file_count = data.len() / DIRENT_SZ;
    let mut i: usize = 0;
    while i < file_count
        invariant
            i <= file_count,
            file_count == entry_count(data@),
            scan_ok(data@, name@, i as int),
            lookup(data@, name@) == lookup_from(data@, name@, i as int),
        decreases file_count - i,
    {
        if record_has_name(data, i, name) {
            return Some(i);
        }
        i = i + 1;
    }
    None
}

/// The inode number of the first entry of the directory named `name`.
pub fn find_inode_id(data: &Vec<u8>, name: &[u8]) -> (r: Option<u32>)
    requires
        scan_ok(data@, name@, 0),
    ensures
        r == match lookup(data@, name@) {
            Some(k) => Some(record_inode(record(data@, k))),
            None => None::<u32>,
        },
{
    proof {
        lemma_lookup_from_range(data@, name@, 0);
    }
    match find_entry_index(data, name) {
        Some(k) => {
            let ghost k0 = lookup(data@, name@)->Some_0;
            assert(0 <= k0 < entry_count(data@));
            assert(k0 <= data.len());
            assert(k0 == k as int);
            Some(record_inode_exec(data, k))
        },
        None => None,
    }
}

proof fn lemma_name_end_at_most(rec: Seq<u8>, j: int, k: int)
    requires
        0 <= j <= k < NAME_LENGTH_LIMIT + 1,
        rec[k] == 0,
    ensures
        name_end(rec, j) <= k,
    decreases k - j,
{
    if rec[j] != 0 {
        lemma_name_end_at_most(rec, j + 1, k);
    }
}

/// Whether the name field of entry `i` of `data` is NUL-terminated.
fn record_is_well_formed(data: &Vec<u8>, i: usize) -> (r: bool)
    requires
        i < entry_count(data@),
    ensures
        r == record_well_formed(record(data@, i as int)),
{
    let ghost rec = record(data@, i as int);
    proof {
        lemma_name_end_bounds(rec, 0);
        lemma_record_bytes(data@, i as int, 0);
        assert(32 * i < data.len());
    }
    let base = DIRENT_SZ * i;
    let mut k: usize = 0;
    while k < NAME_LENGTH_LIMIT + 1
        invariant
            k <= NAME_LENGTH_LIMIT + 1,
            base == DIRENT_SZ * i,
            i < entry_count(data@),
            rec == record(data@, i as int),
            forall|x: int| 0 <= x < k ==> rec[x] != 0,
        decreases NAME_LENGTH_LIMIT + 1 - k,
    {
        proof {
            lemma_record_bytes(data@, i as int, k as int);
        }
        if data[base + k] == 0 {
            proof {
                lemma_name_end_at_most(rec, 0, k as int);
            }
            return true;
        }
        k = k + 1;
    }
    false
}

/// Whether looking `name` up in a directory of content `data` reads only
/// well-formed entries.
pub fn lookup_is_readable(data: &Vec<u8>, name: &[u8]) -> (r: bool)
    ensures
        r == scan_ok(data@, name@, 0),
{
    let file_count = data.len() / DIRENT_SZ;
    let mut i: usize = 0;
    while i < file_count
        invariant
            i <= file_count,
            file_count == entry_count(data@),
            scan_ok(data@, name@, 0) == scan_ok(data@, name@, i as int),
        decreases file_count - i,
    {
        if !record_is_well_formed(data, i) {
            return false;
        }
        if record_has_name(data, i, name) {
            return true;
        }
        i = i + 1;
    }
    true
}

/// Whether every entry of a directory of content `data` is well formed.
pub fn entries_are_well_formed(data: &Vec<u8>) -> (r: bool)
    ensures
        r == entries_well_formed(data@),
{
    let file_count = data.len() / DIRENT_SZ;
    let mut i: usize = 0;
    while i < file_count
        invariant
            i <= file_count,
            file_count == entry_count(data@),
            forall|k: int| 0 <= k < i ==> record_well_formed(#[trigger] record(data@, k)),
        decreases file_count - i,
    {
        if !record_is_well_formed(data, i) {
            return false;
        }
        i = i + 1;
    }
    true
}

// ---------------------------------------------------------------------------
// Data blocks.

/// Block pointers that one index block holds.
pub const INODE_INDIRECT1_COUNT: usize = 128;

/// Data blocks that `size` bytes take.
pub open spec fn data_blocks(size: int) -> int {
    (size + BLOCK_SZ - 1) / (BLOCK_SZ as int)
}

/// Blocks, data and index, that an inode of `size` bytes holds when `direct` block
/// pointers lie in the inode itself: the data blocks, one index block past the
/// direct ones, and past those a doubly indirect block and its index blocks.
pub open spec fn total_blocks(size: int, direct: int) -> int {
    let d = data_blocks(size);
    d + (if d > direct {
        1int
    } else {
        0int
    }) + (if d > direct + INODE_INDIRECT1_COUNT {
        1 + (d - direct - INODE_INDIRECT1_COUNT + INODE_INDIRECT1_COUNT - 1) / (
        INODE_INDIRECT1_COUNT as int)
    } else {
        0int
    })
}

/// An inode can grow to `size` bytes: its data blocks fit the direct, indirect and
/// doubly indirect pointers.
pub open spec fn size_supported(size: int, direct: int) -> bool {
    data_blocks(size) <= direct + INODE_INDIRECT1_COUNT + INODE_INDIRECT1_COUNT
        * INODE_INDIRECT1_COUNT
}

/// Fresh blocks that growing an inode of `size` bytes to `new_size` bytes takes.
pub open spec fn blocks_num_needed(size: int, new_size: int, direct: int) -> int {
    if new_size < size {
        0
    } else {
        total_blocks(new_size, direct) - total_blocks(size, direct)
    }
}

proof fn lemma_total_blocks_mono(a: int, b: int, direct: int)
    requires
        0 <= a <= b,
        0 <= direct,
    ensures
        0 <= total_blocks(a, direct) <= total_blocks(b, direct),
{
    vstd::arithmetic::div_mod::lemma_div_is_ordered(a + 511, b + 511, 512);
    vstd::arithmetic::div_mod::lemma_div_pos_is_pos(a + 511, 512);
    let da = data_blocks(a);
    let db = data_blocks(b);
    if da > direct + 128 {
        vstd::arithmetic::div_mod::lemma_div_is_ordered(da - direct - 1, db - direct - 1, 128);
    }
    if db > direct + 128 {
        vstd::arithmetic::div_mod::lemma_div_pos_is_pos(db - direct - 1, 128);
    }
}

/// Blocks an inode of `size` bytes holds (see `total_blocks`).
fn total_blocks_exec(size: u32, direct: u32) -> (r: u32)
    ensures
        r == total_blocks(size as int, direct as int),
{
    proof {
        vstd::arithmetic::div_mod::lemma_div_pos_is_pos(size as int + 511, 512);
        vstd::arithmetic::div_mod::lemma_div_is_ordered(size as int + 511, u32::MAX as int + 511, 512);
    }
    let d: u64 = (size as u64 + 511) / 512;
    let direct = direct as u64;
    let mut total: u64 = d;
    if d > direct {
        total = total + 1;
    }
    if d > direct + 128 {
        proof {
            vstd::arithmetic::div_mod::lemma_div_is_ordered(d - direct - 1, d as int, 128);
        }
        total = total + 1 + (d - direct - 128 + 128 - 1) / 128;
    }
    total as u32
}

/// Index of the first free bit of `b` at or after `j`, or the length of `b` when
/// there is none.
pub open spec fn first_free(b: Seq<bool>, j: int) -> int
    decreases b.len() - j,
{
    if j < 0 || j >= b.len() {
        b.len() as int
    } else if !b[j] {
        j
    } else {
        first_free(b, j + 1)
    }
}

/// Number of free bits of `b`.
pub open spec fn free_count(b: Seq<bool>) -> nat
    decreases b.len(),
{
    if b.len() == 0 {
        0
    } else {
        free_count(b.drop_last()) + if b.last() {
            0nat
        } else {
            1nat
        }
    }
}

/// Taking `k` bits of `b`, each time the lowest free one: the bitmap afterwards and
/// the bits taken, in order.
pub open spec fn take_bits(b: Seq<bool>, k: nat) -> (Seq<bool>, Seq<int>)
    decreases k,
{
    if k == 0 {
        (b, Seq::empty())
    } else {
        let prev = take_bits(b, (k - 1) as nat);
        let i = first_free(prev.0, 0);
        (prev.0.update(i, true), prev.1.push(i))
    }
}

/// Block numbers of the bits `got` of a bitmap whose first bit is block `start`.
pub open spec fn block_ids(got: Seq<int>, start: int) -> Seq<u32> {
    got.map_values(|i: int| (i + start) as u32)
}

/// `b` with the bits of `blocks` (block numbers, the first bit being block `start`)
/// cleared.
pub open spec fn freed(b: Seq<bool>, blocks: Seq<u32>, start: int) -> Seq<bool> {
    Seq::new(b.len(), |i: int| b[i] && !blocks.contains((i + start) as u32))
}

/// `blocks` are distinct blocks of the data area whose bits are set.
pub open spec fn releasable(b: Seq<bool>, blocks: Seq<u32>, start: int) -> bool {
    &&& blocks.no_duplicates()
    &&& forall|t: int|
        0 <= t < blocks.len() ==> start <= #[trigger] blocks[t] < start + b.len() && b[blocks[t]
            - start]
}

proof fn lemma_first_free(b: Seq<bool>, j: int)
    requires
        0 <= j <= b.len(),
    ensures
        j <= first_free(b, j) <= b.len(),
        first_free(b, j) < b.len() ==> !b[first_free(b, j)],
        forall|x: int| j <= x < first_free(b, j) ==> b[x],
    decreases b.len() - j,
{
    if j < b.len() && b[j] {
        lemma_first_free(b, j + 1);
    }
}

proof fn lemma_free_count_has_free(b: Seq<bool>)
    requires
        free_count(b) > 0,
    ensures
        first_free(b, 0) < b.len(),
    decreases b.len(),
{
    lemma_first_free(b, 0);
    if first_free(b, 0) == b.len() {
        lemma_all_set_none_free(b);
    }
}

proof fn lemma_all_set_none_free(b: Seq<bool>)
    requires
        forall|x: int| 0 <= x < b.len() ==> b[x],
    ensures
        free_count(b) == 0,
    decreases b.len(),
{
    if b.len() > 0 {
        lemma_all_set_none_free(b.drop_last());
    }
}

proof fn lemma_free_count_take(b: Seq<bool>, i: int)
    requires
        0 <= i < b.len(),
        !b[i],
    ensures
        free_count(b.update(i, true)) + 1 == free_count(b),
    decreases b.len(),
{
    let u = b.update(i, true);
    if i == b.len() - 1 {
        assert(u.drop_last() =~= b.drop_last());
    } else {
        assert(u.drop_last() =~= b.drop_last().update(i, true));
        lemma_free_count_take(b.drop_last(), i);
    }
}

proof fn lemma_take_bits(b: Seq<bool>, k: nat)
    requires
        free_count(b) >= k,
    ensures
        take_bits(b, k).0.len() == b.len(),
        take_bits(b, k).1.len() == k,
        free_count(take_bits(b, k).0) + k == free_count(b),
        forall|t: int| 0 <= t < k ==> 0 <= #[trigger] take_bits(b, k).1[t] < b.len(),
    decreases k,
{
    if k > 0 {
        let prev = take_bits(b, (k - 1) as nat);
        lemma_take_bits(b, (k - 1) as nat);
        lemma_free_count_has_free(prev.0);
        lemma_first_free(prev.0, 0);
        lemma_free_count_take(prev.0, first_free(prev.0, 0));
    }
}

/// Takes the lowest free data block and returns its number.
fn alloc_data(fs: &mut EasyFileSystem) -> (r: u32)
    requires
        old(fs).data_area_start_block + old(fs).data_bitmap.len() <= u32::MAX,
        free_count(old(fs).data_bitmap@) > 0,
    ensures
        final(fs).data_bitmap@ == old(fs).data_bitmap@.update(first_free(old(fs).data_bitmap@, 0), true),
        r == first_free(old(fs).data_bitmap@, 0) + old(fs).data_area_start_block,
        final(fs).inodes@ == old(fs).inodes@,
        final(fs).inode_bitmap@ == old(fs).inode_bitmap@,
        final(fs).inode_area_start_block == old(fs).inode_area_start_block,
        final(fs).inodes_per_block == old(fs).inodes_per_block,
        final(fs).disk_inode_size == old(fs).disk_inode_size,
        final(fs).inode_direct_count == old(fs).inode_direct_count,
        final(fs).data_area_start_block == old(fs).data_area_start_block,
{
    proof {
        lemma_free_count_has_free(fs.data_bitmap@);
        lemma_first_free(fs.data_bitmap@, 0);
    }
    let ghost b = fs.data_bitmap@;
    let mut i: usize = 0;
    while fs.data_bitmap[i]
        invariant
            fs.data_bitmap@ == b,
            b.len() == fs.data_bitmap.len(),
            0 <= i <= first_free(b, 0) < b.len(),
            !b[first_free(b, 0)],
        decreases first_free(b, 0) - i,
    {
        i = i + 1;
    }
    proof {
        lemma_first_free(b, 0);
    }
    assert(i == first_free(b, 0));
    fs.data_bitmap[i] = true;
    fs.data_area_start_block + i as u32
}

proof fn lemma_block_ids_push(got: Seq<int>, i: int, start: int)
    ensures
        block_ids(got.push(i), start) == block_ids(got, start).push((i + start) as u32),
{
    assert(block_ids(got.push(i), start) =~= block_ids(got, start).push((i + start) as u32));
}

/// `new` is `old` after inode `id` grew towards `new_size` bytes: it took
/// `blocks_num_needed` fresh data blocks, the lowest free one each time.
pub open spec fn grown(old: &EasyFileSystem, new: &EasyFileSystem, id: int, new_size: int) -> bool {
    let k = blocks_num_needed(
        old.inodes[id].data.len() as int,
        new_size,
        old.inode_direct_count as int,
    ) as nat;
    &&& new.data_bitmap@ == take_bits(old.data_bitmap@, k).0
    &&& new.inodes[id].blocks@ == old.inodes[id].blocks@ + block_ids(
        take_bits(old.data_bitmap@, k).1,
        old.data_area_start_block as int,
    )
}

/// Inode `id` can grow to `new_size` bytes: the size is supported and enough data
/// blocks are free.
pub open spec fn can_grow(fs: &EasyFileSystem, id: int, new_size: int) -> bool {
    new_size >= fs.inodes[id].data.len() ==> {
        &&& size_supported(new_size, fs.inode_direct_count as int)
        &&& free_count(fs.data_bitmap@) >= blocks_num_needed(
            fs.inodes[id].data.len() as int,
            new_size,
            fs.inode_direct_count as int,
        )
    }
}

// ---------------------------------------------------------------------------
// The file system and inode handles.

impl EasyFileSystem {
    /// The layout fields are consistent, inode numbers and block numbers fit in
    /// `u32`, and every inode's size fits in `u32`.
    pub open spec fn wf(&self) -> bool {
        &&& self.inode_bitmap.len() == self.inodes.len()
        &&& self.inodes.len() <= u32::MAX
        &&& self.inodes_per_block >= 1
        &&& self.disk_inode_size >= 1
        &&& self.inodes_per_block * self.disk_inode_size <= BLOCK_SZ
        &&& self.inode_area_start_block + (self.inodes.len() as int) / (self.inodes_per_block as int) <= u32::MAX
        &&& self.data_area_start_block + self.data_bitmap.len() <= u32::MAX
        &&& forall|i: int| 0 <= i < self.inodes.len() ==> (#[trigger] self.inodes[i]).data.len() <= u32::MAX
        &&& forall|i: int|
            0 <= i < self.inodes.len() ==> (#[trigger] self.inodes[i]).blocks.len() == total_blocks(
                self.inodes[i].data.len() as int,
                self.inode_direct_count as int,
            )
    }

    /// Block of inode `id`.
    pub open spec fn inode_block(&self, id: int) -> int {
        self.inode_area_start_block + id / (self.inodes_per_block as int)
    }

    /// Offset of inode `id` in its block.
    pub open spec fn inode_offset(&self, id: int) -> int {
        (id % (self.inodes_per_block as int)) * self.disk_inode_size
    }

    /// The handle `h` is the position of inode `id`.
    pub open spec fn refers_to(&self, h: Inode, id: int) -> bool {
        h.block() == self.inode_block(id) && h.offset() == self.inode_offset(id)
    }

    /// The inode number that the position of `h` belongs to.
    pub open spec fn id_of(&self, h: Inode) -> int {
        (h.block() - self.inode_area_start_block) * (self.inodes_per_block as int) + h.offset()
            / self.disk_inode_size as int
    }

    /// `h` is the position of an inode, allocated or not.
    pub open spec fn locates(&self, h: Inode) -> bool {
        let id = self.id_of(h);
        &&& 0 <= id < self.inodes.len()
        &&& self.refers_to(h, id)
    }

    /// `h` is the position of an allocated inode.
    pub open spec fn holds(&self, h: Inode) -> bool {
        &&& self.locates(h)
        &&& self.inode_bitmap[self.id_of(h)]
    }

    /// The disk inode that `h` is the position of.
    pub open spec fn disk_inode(&self, h: Inode) -> DiskInode {
        self.inodes[self.id_of(h)]
    }

    /// Whether the file system satisfies `wf`.
    pub fn is_well_formed(&self) -> (r: bool)
        ensures
            r == self.wf(),
    {
        if self.inode_bitmap.len() != self.inodes.len() || self.inodes.len() > u32::MAX as usize
            || self.inodes_per_block == 0 || self.disk_inode_size == 0 {
            return false;
        }
        match (self.inodes_per_block as usize).checked_mul(self.disk_inode_size) {
            Some(bytes) => {
                if bytes > BLOCK_SZ {
                    return false;
                }
            },
            None => {
                return false;
            },
        }
        let reach = self.inode_area_start_block as u64 + (self.inodes.len() / self.inodes_per_block as usize) as u64;
        if reach > u32::MAX as u64 {
            return false;
        }
        if self.data_bitmap.len() > u32::MAX as usize || self.data_area_start_block as u64
            + self.data_bitmap.len() as u64 > u32::MAX as u64 {
            return false;
        }
        let mut i: usize = 0;
        while i < self.inodes.len()
            invariant
                i <= self.inodes.len(),
                forall|k: int| 0 <= k < i ==> (#[trigger] self.inodes[k]).data.len() <= u32::MAX,
                forall|k: int|
                    0 <= k < i ==> (#[trigger] self.inodes[k]).blocks.len() == total_blocks(
                        self.inodes[k].data.len() as int,
                        self.inode_direct_count as int,
                    ),
            decreases self.inodes.len() - i,
        {
            if self.inodes[i].data.len() > u32::MAX as usize {
                return false;
            }
            if self.inodes[i].blocks.len() != total_blocks_exec(
                self.inodes[i].data.len() as u32,
                self.inode_direct_count,
            ) as usize {
                return false;
            }
            i = i + 1;
        }
        true
    }

    /// Number of free data blocks.
    pub fn free_data_blocks(&self) -> (r: usize)
        ensures
            r == free_count(self.data_bitmap@),
    {
        let mut n: usize = 0;
        let mut i: usize = 0;
        while i < self.data_bitmap.len()
            invariant
                i <= self.data_bitmap.len(),
                n == free_count(self.data_bitmap@.take(i as int)),
                n <= i,
            decreases self.data_bitmap.len() - i,
        {
            assert(self.data_bitmap@.take(i as int + 1).drop_last() =~= self.data_bitmap@.take(
                i as int,
            ));
            if !self.data_bitmap[i] {
                n = n + 1;
            }
            i = i + 1;
        }
        assert(self.data_bitmap@.take(i as int) =~= self.data_bitmap@);
        n
    }

    /// Whether inode `id` can grow to `new_size` bytes (see `can_grow`).
    pub fn can_grow_to(&self, id: usize, new_size: usize) -> (r: bool)
        requires
            self.wf(),
            id < self.inodes.len(),
            new_size <= u32::MAX,
        ensures
            r == can_grow(self, id as int, new_size as int),
    {
        let size = self.inodes[id].data.len();
        if new_size < size {
            return true;
        }
        let d: u64 = (new_size as u64 + 511) / 512;
        if d > self.inode_direct_count as u64 + 128 + 128 * 128 {
            return false;
        }
        proof {
            lemma_total_blocks_mono(size as int, new_size as int, self.inode_direct_count as int);
        }
        let needed = total_blocks_exec(new_size as u32, self.inode_direct_count)
            - total_blocks_exec(size as u32, self.inode_direct_count);
        self.free_data_blocks() >= needed as usize
    }

    /// Whether the blocks of inode `id` can all be given back (see `releasable`).
    pub fn blocks_are_releasable(&self, id: usize) -> (r: bool)
        requires
            self.wf(),
            id < self.inodes.len(),
        ensures
            r == releasable(
                self.data_bitmap@,
                self.inodes[id as int].blocks@,
                self.data_area_start_block as int,
            ),
    {
        let blocks = &self.inodes[id].blocks;
        let start = self.data_area_start_block;
        let mut t: usize = 0;
        while t < blocks.len()
            invariant
                t <= blocks.len(),
                blocks == &self.inodes[id as int].blocks,
                start == self.data_area_start_block,
                forall|x: int|
                    0 <= x < t ==> start <= #[trigger] blocks@[x] < start + self.data_bitmap.len()
                        && self.data_bitmap@[blocks@[x] - start],
                forall|x: int, y: int| 0 <= x < y < t ==> blocks@[x] != blocks@[y],
            decreases blocks.len() - t,
        {
            let blk = blocks[t];
            if blk < start || (blk - start) as usize >= self.data_bitmap.len() {
                return false;
            }
            if !self.data_bitmap[(blk - start) as usize] {
                return false;
            }
            let mut u: usize = 0;
            while u < t
                invariant
                    u <= t,
                    t < blocks.len(),
                    blocks == &self.inodes[id as int].blocks,
                    blk == blocks@[t as int],
                    forall|x: int| 0 <= x < u ==> blocks@[x] != blk,
                decreases t - u,
            {
                if blocks[u] == blk {
                    assert(blocks@[u as int] == blocks@[t as int]);
                    assert(!blocks@.no_duplicates());
                    return false;
                }
                u = u + 1;
            }
            t = t + 1;
        }
        true
    }

    /// The number of the inode that `h` is the position of, or `None` when `h` is
    /// not the position of any inode.
    pub fn inode_of(&self, h: &Inode) -> (r: Option<usize>)
        requires
            self.wf(),
        ensures
            match r {
                Some(id) => id == self.id_of(*h) && id < self.inodes.len() && self.refers_to(
                    *h,
                    id as int,
                ),
                None => !(0 <= self.id_of(*h) < self.inodes.len() && self.refers_to(
                    *h,
                    self.id_of(*h),
                )),
            },
    {
        if h.block_id < self.inode_area_start_block as usize {
            return None;
        }
        let q = h.block_id - self.inode_area_start_block as usize;
        let id = match q.checked_mul(self.inodes_per_block as usize) {
            Some(x) => match x.checked_add(h.block_offset / self.disk_inode_size) {
                Some(y) => y,
                None => {
                    return None;
                },
            },
            None => {
                return None;
            },
        };
        if id >= self.inodes.len() {
            return None;
        }
        proof {
            lemma_inode_block_fits(*self, id as int);
        }
        let (block_id, block_offset) = self.get_disk_inode_pos(id as u32);
        if block_id as usize != h.block_id || block_offset != h.block_offset {
            return None;
        }
        Some(id)
    }

    /// Where inode `inode_id` lies on disk: its block and its offset in that block.
    pub fn get_disk_inode_pos(&self, inode_id: u32) -> (r: (u32, usize))
        requires
            self.wf(),
            self.inode_block(inode_id as int) <= u32::MAX,
        ensures
            r.0 == self.inode_block(inode_id as int),
            r.1 == self.inode_offset(inode_id as int),
    {
        let ipb = self.inodes_per_block;
        proof {
            vstd::arithmetic::div_mod::lemma_mod_bound(inode_id as int, ipb as int);
            assert((inode_id % ipb) * self.disk_inode_size <= ipb * self.disk_inode_size)
                by (nonlinear_arith)
                requires
                    inode_id % ipb < ipb,
            ;
        }
        let block_id = self.inode_area_start_block + inode_id / ipb;
        let block_offset = (inode_id % ipb) as usize * self.disk_inode_size;
        (block_id, block_offset)
    }
}

proof fn lemma_inode_block_fits(fs: EasyFileSystem, id: int)
    requires
        fs.wf(),
        0 <= id < fs.inodes.len(),
    ensures
        fs.inode_block(id) <= u32::MAX,
{
    vstd::arithmetic::div_mod::lemma_div_is_ordered(
        id,
        fs.inodes.len() as int,
        fs.inodes_per_block as int,
    );
}

proof fn lemma_id_of_handle(fs: EasyFileSystem, h: Inode, id: int)
    requires
        fs.wf(),
        0 <= id,
        fs.refers_to(h, id),
    ensures
        fs.id_of(h) == id,
{
    let ipb = fs.inodes_per_block as int;
    let sz = fs.disk_inode_size as int;
    vstd::arithmetic::div_mod::lemma_fundamental_div_mod(id, ipb);
    vstd::arithmetic::div_mod::lemma_div_multiples_vanish(id % ipb, sz);
    assert((id % ipb) * sz == sz * (id % ipb)) by (nonlinear_arith);
    assert((id / ipb) * ipb == ipb * (id / ipb)) by (nonlinear_arith);
}

/// Two disk inodes agree in type, link count, content and blocks.
pub open spec fn same_disk_inode(a: DiskInode, b: DiskInode) -> bool {
    a.type_ == b.type_ && a.links == b.links && a.data@ == b.data@ && a.blocks@ == b.blocks@
}

/// `new` is `old` with the content of inode `id` changed to `data`; other inodes
/// and the inode bitmap are kept.
pub open spec fn content_changed(
    old: &EasyFileSystem,
    new: &EasyFileSystem,
    id: int,
    data: Seq<u8>,
) -> bool {
    &&& same_layout(old, new)
    &&& new.inode_bitmap@ == old.inode_bitmap@
    &&& others_unchanged(old, new, id, id)
    &&& new.inodes[id].type_ == old.inodes[id].type_
    &&& new.inodes[id].links == old.inodes[id].links
    &&& new.inodes[id].data@ == data
}

/// Content of an inode after writing `buf` at `offset`: the content grows to reach
/// the end of the write, new bytes that the write does not cover are zero.
pub open spec fn written(data: Seq<u8>, offset: int, buf: Seq<u8>) -> Seq<u8> {
    let end = offset + buf.len();
    Seq::new(
        if data.len() >= end {
            data.len()
        } else {
            end as nat
        },
        |k: int|
            if offset <= k < end {
                buf[k - offset]
            } else if k < data.len() {
                data[k]
            } else {
                0u8
            },
    )
}

/// Grows `data` to `new_size` bytes with zeros; does nothing when it is already
/// at least that long.
fn extend_with_zeros(data: &mut Vec<u8>, new_size: usize)
    ensures
        final(data)@ == if new_size <= old(data).len() {
            old(data)@
        } else {
            old(data)@ + Seq::new((new_size - old(data).len()) as nat, |k: int| 0u8)
        },
{
    if new_size < data.len() {
        return;
    }
    while data.len() < new_size
        invariant
            old(data).len() <= data.len() <= if old(data).len() >= new_size {
                old(data).len() as int
            } else {
                new_size as int
            },
            forall|k: int| 0 <= k < old(data).len() ==> data[k] == old(data)[k],
            forall|k: int| old(data).len() <= k < data.len() ==> data[k] == 0,
        decreases new_size - data.len(),
    {
        data.push(0);
    }
    proof {
        if new_size <= old(data).len() {
            assert(data@ =~= old(data)@);
        } else {
            assert(data@ =~= old(data)@ + Seq::new(
                (new_size - old(data).len()) as nat,
                |k: int| 0u8,
            ));
        }
    }
}

/// Overwrites the bytes of `data` from `offset` on with `buf`.
fn write_in_place(data: &mut Vec<u8>, offset: usize, buf: &[u8])
    requires
        offset + buf.len() <= old(data).len(),
    ensures
        final(data).len() == old(data).len(),
        forall|x: int|
            0 <= x < old(data).len() ==> final(data)@[x] == if offset <= x < offset + buf.len() {
                buf@[x - offset]
            } else {
                old(data)@[x]
            },
{
    let mut k: usize = 0;
    while k < buf.len()
        invariant
            k <= buf.len(),
            offset + buf.len() <= old(data).len(),
            data.len() == old(data).len(),
            forall|x: int|
                0 <= x < data.len() ==> data[x] == if offset <= x < offset + k {
                    buf@[x - offset]
                } else {
                    old(data)@[x]
                },
        decreases buf.len() - k,
    {
        data[offset + k] = buf[k];
        k = k + 1;
    }
}

/// After a change that left every inode but `x` and `y` alone and kept the layout,
/// the other inodes are unchanged, and the file system stays well formed when `x`
/// and `y` are.
proof fn lemma_rest_kept(old: EasyFileSystem, new: EasyFileSystem, x: int, y: int)
    requires
        old.wf(),
        same_layout(&old, &new),
        new.inode_bitmap.len() == new.inodes.len(),
        forall|j: int| 0 <= j < old.inodes.len() && j != x && j != y ==> new.inodes[j] == old.inodes[j],
        forall|j: int|
            0 <= j < old.inodes.len() && (j == x || j == y) ==> {
                &&& (#[trigger] new.inodes[j]).data.len() <= u32::MAX
                &&& new.inodes[j].blocks.len() == total_blocks(
                    new.inodes[j].data.len() as int,
                    new.inode_direct_count as int,
                )
            },
    ensures
        new.wf(),
        others_unchanged(&old, &new, x, y),
{
    assert forall|j: int| 0 <= j < new.inodes.len() implies (#[trigger] new.inodes[j]).data.len()
        <= u32::MAX && new.inodes[j].blocks.len() == total_blocks(
        new.inodes[j].data.len() as int,
        new.inode_direct_count as int,
    ) by {
        if j != x && j != y {
            assert(new.inodes[j] == old.inodes[j]);
        }
    }
}

/// Inodes other than `x` and `y` that two steps each left alone are unchanged
/// across both.
proof fn lemma_others_chain(
    a: &EasyFileSystem,
    b: &EasyFileSystem,
    c: &EasyFileSystem,
    x1: int,
    y1: int,
    x2: int,
    y2: int,
    x: int,
    y: int,
)
    requires
        same_layout(a, b),
        others_unchanged(a, b, x1, y1),
        others_unchanged(b, c, x2, y2),
        x1 == x || x1 == y,
        y1 == x || y1 == y,
        x2 == x || x2 == y,
        y2 == x || y2 == y,
    ensures
        others_unchanged(a, c, x, y),
{
    assert forall|j: int| 0 <= j < a.inodes.len() && j != x && j != y implies same_disk_inode(
        #[trigger] c.inodes[j],
        a.inodes[j],
    ) by {
        assert(same_disk_inode(c.inodes[j], b.inodes[j]));
        assert(same_disk_inode(b.inodes[j], a.inodes[j]));
    }
}

/// Grows inode `id` to `new_size` bytes: when that is not smaller than its size, it
/// takes the fresh data blocks it needs, the lowest free one each time, and its new
/// bytes are zero.
fn increase_size(fs: &mut EasyFileSystem, id: usize, new_size: usize)
    requires
        old(fs).wf(),
        id < old(fs).inodes.len(),
        new_size <= u32::MAX,
        can_grow(old(fs), id as int, new_size as int),
    ensures
        final(fs).wf(),
        content_changed(
            old(fs),
            final(fs),
            id as int,
            if new_size <= old(fs).inodes[id as int].data.len() {
                old(fs).inodes[id as int].data@
            } else {
                old(fs).inodes[id as int].data@ + Seq::new(
                    (new_size - old(fs).inodes[id as int].data.len()) as nat,
                    |k: int| 0u8,
                )
            },
        ),
        grown(old(fs), final(fs), id as int, new_size as int),
{
    let ghost old_fs = *fs;
    let ghost b = fs.data_bitmap@;
    let ghost start = fs.data_area_start_block as int;
    let size = fs.inodes[id].data.len();
    if new_size < size {
        proof {
            assert(take_bits(b, 0).1 =~= Seq::<int>::empty());
            assert(old_fs.inodes[id as int].blocks@ + block_ids(take_bits(b, 0).1, start)
                =~= old_fs.inodes[id as int].blocks@);
            lemma_rest_kept(old_fs, *fs, id as int, id as int);
        }
        return;
    }
    proof {
        lemma_total_blocks_mono(size as int, new_size as int, fs.inode_direct_count as int);
    }
    let needed = total_blocks_exec(new_size as u32, fs.inode_direct_count) - total_blocks_exec(
        size as u32,
        fs.inode_direct_count,
    );
    proof {
        lemma_take_bits(b, needed as nat);
    }
    let mut t: u32 = 0;
    while t < needed
        invariant
            t <= needed,
            id < fs.inodes.len(),
            old_fs.wf(),
            free_count(b) >= needed,
            needed == blocks_num_needed(size as int, new_size as int, old_fs.inode_direct_count as int),
            size == old_fs.inodes[id as int].data.len(),
            b == old_fs.data_bitmap@,
            start == old_fs.data_area_start_block,
            same_layout(&old_fs, fs),
            fs.inode_bitmap@ == old_fs.inode_bitmap@,
            fs.data_bitmap@ == take_bits(b, t as nat).0,
            fs.inodes[id as int].blocks@ == old_fs.inodes[id as int].blocks@ + block_ids(
                take_bits(b, t as nat).1,
                start,
            ),
            fs.inodes[id as int].data@ == old_fs.inodes[id as int].data@,
            fs.inodes[id as int].type_ == old_fs.inodes[id as int].type_,
            fs.inodes[id as int].links == old_fs.inodes[id as int].links,
            forall|j: int| 0 <= j < old_fs.inodes.len() && j != id ==> fs.inodes[j] == old_fs.inodes[j],
        decreases needed - t,
    {
        proof {
            lemma_take_bits(b, t as nat);
            lemma_take_bits(b, t as nat + 1);
            lemma_block_ids_push(take_bits(b, t as nat).1, first_free(take_bits(b, t as nat).0, 0), start);
        }
        let blk = alloc_data(fs);
        fs.inodes[id].blocks.push(blk);
        t = t + 1;
    }
    extend_with_zeros(&mut fs.inodes[id].data, new_size);
    proof {
        lemma_rest_kept(old_fs, *fs, id as int, id as int);
    }
}

/// The name held by entry `i` of `data`.
fn record_name_exec(data: &Vec<u8>, i: usize) -> (r: Vec<u8>)
    requires
        i < entry_count(data@),
        record_well_formed(record(data@, i as int)),
    ensures
        r@ == record_name(record(data@, i as int)),
{
    let ghost rec = record(data@, i as int);
    proof {
        lemma_name_end_bounds(rec, 0);
        lemma_record_bytes(data@, i as int, 0);
        assert(32 * i < data.len());
    }
    let base = DIRENT_SZ * i;
    let mut name: Vec<u8> = Vec::new();
    while data[base + name.len()] != 0
        invariant
            0 <= name.len() <= name_end(rec, 0),
            name_end(rec, 0) < NAME_LENGTH_LIMIT + 1,
            base == DIRENT_SZ * i,
            i < entry_count(data@),
            rec == record(data@, i as int),
            rec[name_end(rec, 0)] == 0,
            forall|x: int| 0 <= x < name_end(rec, 0) ==> rec[x] != 0,
            forall|x: int| 0 <= x < name.len() ==> name@[x] == rec[x],
        decreases name_end(rec, 0) - name.len(),
    {
        proof {
            lemma_record_bytes(data@, i as int, name.len() as int);
        }
        name.push(data[base + name.len()]);
        proof {
            lemma_record_bytes(data@, i as int, name.len() as int);
        }
    }
    proof {
        lemma_record_bytes(data@, i as int, name.len() as int);
    }
    assert(name@ =~= record_name(rec));
    name
}

/// The bytes of an entry for `name` and inode `id`.
fn encode_record_exec(name: &[u8], id: u32) -> (r: Vec<u8>)
    requires
        name.len() <= NAME_LENGTH_LIMIT + 1,
    ensures
        r@ == encode_record(name@, id),
{
    let mut r: Vec<u8> = Vec::new();
    while r.len() < NAME_LENGTH_LIMIT + 1
        invariant
            r.len() <= NAME_LENGTH_LIMIT + 1,
            name.len() <= NAME_LENGTH_LIMIT + 1,
            forall|k: int| 0 <= k < r.len() ==> r@[k] == encode_record(name@, id)[k],
        decreases NAME_LENGTH_LIMIT + 1 - r.len(),
    {
        let b = if r.len() < name.len() {
            name[r.len()]
        } else {
            0
        };
        r.push(b);
    }
    let b0 = (id & 0xff) as u8;
    let b1 = ((id >> 8) & 0xff) as u8;
    let b2 = ((id >> 16) & 0xff) as u8;
    let b3 = ((id >> 24) & 0xff) as u8;
    assert(b0 == (id % 0x100) as u8 && b1 == ((id / 0x100) % 0x100) as u8 && b2 == ((id
        / 0x10000) % 0x100) as u8 && b3 == (id / 0x1000000) as u8) by (bit_vector)
        requires
            b0 == (id & 0xff) as u8,
            b1 == ((id >> 8) & 0xff) as u8,
            b2 == ((id >> 16) & 0xff) as u8,
            b3 == ((id >> 24) & 0xff) as u8,
    ;
    r.push(b0);
    r.push(b1);
    r.push(b2);
    r.push(b3);
    assert(r@ =~= encode_record(name@, id));
    r
}

proof fn lemma_record_inode_encode(name: Seq<u8>, id: u32)
    ensures
        record_inode(encode_record(name, id)) == id,
{
    let rec = encode_record(name, id);
    let b0 = (id % 0x100) as u8;
    let b1 = ((id / 0x100) % 0x100) as u8;
    let b2 = ((id / 0x10000) % 0x100) as u8;
    let b3 = (id / 0x1000000) as u8;
    assert(rec[28] == b0 && rec[29] == b1 && rec[30] == b2 && rec[31] == b3);
    assert((id % 0x100) + ((id / 0x100) % 0x100) * 0x100 + ((id / 0x10000) % 0x100) * 0x10000
        + (id / 0x1000000) * 0x1000000 == id) by (bit_vector);
    assert(b0 as int == id % 0x100);
    assert(b1 as int == (id / 0x100) % 0x100);
    assert(b2 as int == (id / 0x10000) % 0x100);
    assert(b3 as int == id / 0x1000000);
}

/// Content of a directory after an entry is appended: the whole entries kept, then
/// the new entry.
pub open spec fn appended(data: Seq<u8>, name: Seq<u8>, id: u32) -> Seq<u8> {
    data.take(DIRENT_SZ * entry_count(data)) + encode_record(name, id)
}

/// Appends to directory `dir` an entry for `name` and inode `id` after its last
/// whole entry, growing the directory by the blocks that takes.
fn append_record(fs: &mut EasyFileSystem, dir: usize, name: &[u8], id: u32)
    requires
        old(fs).wf(),
        dir < old(fs).inodes.len(),
        name.len() <= NAME_LENGTH_LIMIT + 1,
        DIRENT_SZ * entry_count(old(fs).inodes[dir as int].data@) + DIRENT_SZ <= u32::MAX,
        can_grow(
            old(fs),
            dir as int,
            DIRENT_SZ * entry_count(old(fs).inodes[dir as int].data@) + DIRENT_SZ,
        ),
    ensures
        final(fs).wf(),
        content_changed(
            old(fs),
            final(fs),
            dir as int,
            appended(old(fs).inodes[dir as int].data@, name@, id),
        ),
        grown(
            old(fs),
            final(fs),
            dir as int,
            DIRENT_SZ * entry_count(old(fs).inodes[dir as int].data@) + DIRENT_SZ,
        ),
{
    let ghost old_data = fs.inodes[dir as int].data@;
    let file_count = fs.inodes[dir].data.len() / DIRENT_SZ;
    let new_size = (file_count + 1) * DIRENT_SZ;
    assert(old_data.len() < new_size) by (nonlinear_arith)
        requires
            file_count == old_data.len() / 32,
            new_size == (file_count + 1) * 32,
    ;
    increase_size(fs, dir, new_size);
    let dirent = encode_record_exec(name, id);
    let ghost mid = *fs;
    write_in_place(&mut fs.inodes[dir].data, file_count * DIRENT_SZ, dirent.as_slice());
    assert(fs.inodes[dir as int].data@ =~= appended(old_data, name@, id));
    proof {
        lemma_rest_kept(mid, *fs, dir as int, dir as int);
    }
}

/// Content of a directory after entry `k` is removed: the last whole entry moves
/// into its place and the size shrinks by one entry.
pub open spec fn removed_entry(data: Seq<u8>, k: int) -> Seq<u8> {
    let last = entry_count(data) - 1;
    let moved = if k == last {
        data
    } else {
        data.take(DIRENT_SZ * k) + record(data, last) + data.skip(DIRENT_SZ * k + DIRENT_SZ)
    };
    moved.take(data.len() - DIRENT_SZ)
}

/// Removes entry `k` by moving the last whole entry into its place.
fn remove_record(data: &mut Vec<u8>, k: usize)
    requires
        k < entry_count(old(data)@),
    ensures
        final(data)@ == removed_entry(old(data)@, k as int),
{
    let ghost old_data = data@;
    let file_count = data.len() / DIRENT_SZ;
    let last = file_count - 1;
    proof {
        lemma_record_bytes(old_data, last as int, 31);
        lemma_record_bytes(old_data, k as int, 31);
    }
    if k != last {
        let mut j: usize = 0;
        while j < DIRENT_SZ
            invariant
                j <= DIRENT_SZ,
                k < last,
                last == entry_count(old_data) - 1,
                data.len() == old_data.len(),
                DIRENT_SZ * last + DIRENT_SZ <= old_data.len(),
                forall|x: int|
                    0 <= x < data.len() ==> data@[x] == if DIRENT_SZ * k <= x < DIRENT_SZ * k + j {
                        old_data[DIRENT_SZ * last + (x - DIRENT_SZ * k)]
                    } else {
                        old_data[x]
                    },
            decreases DIRENT_SZ - j,
        {
            let b = data[DIRENT_SZ * last + j];
            data[DIRENT_SZ * k + j] = b;
            j = j + 1;
        }
        assert(data@ =~= old_data.take(DIRENT_SZ * k) + record(old_data, last as int)
            + old_data.skip(DIRENT_SZ * k + DIRENT_SZ));
    }
    let new_len = data.len() - DIRENT_SZ;
    data.truncate(new_len);
    assert(data@ =~= removed_entry(old_data, k as int));
}

/// A fresh inode of the given type: no content, one link.
fn fresh_disk_inode(type_: DiskInodeType) -> (r: DiskInode)
    ensures
        r.type_ == type_,
        r.links == 1,
        r.data@ == Seq::<u8>::empty(),
        r.blocks@ == Seq::<u32>::empty(),
{
    DiskInode { type_, links: 1, data: Vec::new(), blocks: Vec::new() }
}

/// `id` is the lowest free inode of the bitmap.
pub open spec fn lowest_free_inode(bitmap: Seq<bool>, id: int) -> bool {
    &&& 0 <= id < bitmap.len()
    &&& !bitmap[id]
    &&& forall|j: int| 0 <= j < id ==> #[trigger] bitmap[j]
}

/// Some inode is free.
pub open spec fn has_free_inode(bitmap: Seq<bool>) -> bool {
    exists|id: int| 0 <= id < bitmap.len() && !#[trigger] bitmap[id]
}

/// Marks the lowest free inode allocated and returns it.
fn alloc_inode(fs: &mut EasyFileSystem) -> (id: usize)
    requires
        old(fs).wf(),
        has_free_inode(old(fs).inode_bitmap@),
    ensures
        lowest_free_inode(old(fs).inode_bitmap@, id as int),
        final(fs).inode_bitmap@ == old(fs).inode_bitmap@.update(id as int, true),
        final(fs).inodes@ == old(fs).inodes@,
        final(fs).inode_area_start_block == old(fs).inode_area_start_block,
        final(fs).inodes_per_block == old(fs).inodes_per_block,
        final(fs).disk_inode_size == old(fs).disk_inode_size,
        final(fs).inode_direct_count == old(fs).inode_direct_count,
        final(fs).data_area_start_block == old(fs).data_area_start_block,
        final(fs).data_bitmap@ == old(fs).data_bitmap@,
{
    let mut i: usize = 0;
    while i < fs.inode_bitmap.len()
        invariant
            i <= fs.inode_bitmap.len(),
            fs.inode_bitmap@ == old(fs).inode_bitmap@,
            fs.inodes@ == old(fs).inodes@,
            fs.inode_area_start_block == old(fs).inode_area_start_block,
            fs.inodes_per_block == old(fs).inodes_per_block,
            fs.disk_inode_size == old(fs).disk_inode_size,
            fs.inode_direct_count == old(fs).inode_direct_count,
            fs.data_area_start_block == old(fs).data_area_start_block,
            fs.data_bitmap@ == old(fs).data_bitmap@,
            has_free_inode(fs.inode_bitmap@),
            forall|j: int| 0 <= j < i ==> #[trigger] fs.inode_bitmap@[j],
        decreases fs.inode_bitmap.len() - i,
    {
        if !fs.inode_bitmap[i] {
            fs.inode_bitmap[i] = true;
            return i;
        }
        i = i + 1;
    }
    assert(false);
    0
}

/// The two file systems have the same layout.
pub open spec fn same_layout(a: &EasyFileSystem, b: &EasyFileSystem) -> bool {
    &&& a.inode_area_start_block == b.inode_area_start_block
    &&& a.inodes_per_block == b.inodes_per_block
    &&& a.disk_inode_size == b.disk_inode_size
    &&& a.inode_direct_count == b.inode_direct_count
    &&& a.data_area_start_block == b.data_area_start_block
    &&& a.inodes.len() == b.inodes.len()
    &&& a.data_bitmap.len() == b.data_bitmap.len()
}

/// Inodes other than `x` and `y` are the same in both file systems.
pub open spec fn others_unchanged(a: &EasyFileSystem, b: &EasyFileSystem, x: int, y: int) -> bool {
    forall|j: int|
        0 <= j < a.inodes.len() && j != x && j != y ==> same_disk_inode(
            #[trigger] b.inodes[j],
            a.inodes[j],
        )
}

/// `new` is `old` after creating the file `name` in directory `dir` as inode `nid`:
/// the lowest free inode becomes a fresh file and the directory gets an entry for
/// it, taking the data blocks that growing by one entry needs.
pub open spec fn created(
    old: &EasyFileSystem,
    new: &EasyFileSystem,
    dir: int,
    name: Seq<u8>,
    nid: int,
) -> bool {
    &&& same_layout(old, new)
    &&& lowest_free_inode(old.inode_bitmap@, nid)
    &&& new.inode_bitmap@ == old.inode_bitmap@.update(nid, true)
    &&& others_unchanged(old, new, dir, nid)
    &&& new.inodes[nid].type_ == DiskInodeType::File
    &&& new.inodes[nid].links == 1
    &&& new.inodes[nid].data@ == Seq::<u8>::empty()
    &&& new.inodes[nid].blocks@ == Seq::<u32>::empty()
    &&& new.inodes[dir].type_ == old.inodes[dir].type_
    &&& new.inodes[dir].links == old.inodes[dir].links
    &&& new.inodes[dir].data@ == appended(old.inodes[dir].data@, name, nid as u32)
    &&& grown(old, new, dir, DIRENT_SZ * entry_count(old.inodes[dir].data@) + DIRENT_SZ)
}

/// `new` is `old` after linking `name` in directory `dir` to inode `target`: the
/// target gains a link and the directory gets an entry for it, taking the data
/// blocks that growing by one entry needs.
pub open spec fn linked(
    old: &EasyFileSystem,
    new: &EasyFileSystem,
    dir: int,
    name: Seq<u8>,
    target: int,
) -> bool {
    &&& same_layout(old, new)
    &&& new.inode_bitmap@ == old.inode_bitmap@
    &&& others_unchanged(old, new, dir, target)
    &&& new.inodes[target].type_ == old.inodes[target].type_
    &&& new.inodes[target].links == old.inodes[target].links + 1
    &&& new.inodes[target].data@ == old.inodes[target].data@
    &&& new.inodes[target].blocks@ == old.inodes[target].blocks@
    &&& new.inodes[dir].type_ == old.inodes[dir].type_
    &&& new.inodes[dir].links == old.inodes[dir].links
    &&& new.inodes[dir].data@ == appended(old.inodes[dir].data@, name, target as u32)
    &&& grown(old, new, dir, DIRENT_SZ * entry_count(old.inodes[dir].data@) + DIRENT_SZ)
}

/// `new` is `old` after removing entry `k`, which names inode `target`, from
/// directory `dir`: the target loses a link, and when none is left its data blocks
/// and the inode itself are given back. The directory shrinks by one entry and keeps
/// only the blocks its new size uses; the data blocks past those stay taken.
pub open spec fn unlinked(
    old: &EasyFileSystem,
    new: &EasyFileSystem,
    dir: int,
    k: int,
    target: int,
) -> bool {
    &&& same_layout(old, new)
    &&& others_unchanged(old, new, dir, target)
    &&& new.inodes[target].type_ == old.inodes[target].type_
    &&& new.inodes[target].links == old.inodes[target].links - 1
    &&& if old.inodes[target].links == 1 {
        &&& new.inodes[target].data@ == Seq::<u8>::empty()
        &&& new.inodes[target].blocks@ == Seq::<u32>::empty()
        &&& new.inode_bitmap@ == old.inode_bitmap@.update(target, false)
        &&& new.data_bitmap@ == freed(
            old.data_bitmap@,
            old.inodes[target].blocks@,
            old.data_area_start_block as int,
        )
    } else {
        &&& new.inodes[target].data@ == old.inodes[target].data@
        &&& new.inodes[target].blocks@ == old.inodes[target].blocks@
        &&& new.inode_bitmap@ == old.inode_bitmap@
        &&& new.data_bitmap@ == old.data_bitmap@
    }
    &&& new.inodes[dir].type_ == old.inodes[dir].type_
    &&& new.inodes[dir].links == old.inodes[dir].links
    &&& new.inodes[dir].data@ == removed_entry(old.inodes[dir].data@, k)
    &&& new.inodes[dir].blocks@ == old.inodes[dir].blocks@.take(
        total_blocks(
            removed_entry(old.inodes[dir].data@, k).len() as int,
            old.inode_direct_count as int,
        ),
    )
}

proof fn lemma_freed_step(b: Seq<bool>, blocks: Seq<u32>, start: int, t: int)
    requires
        0 <= start,
        start + b.len() <= u32::MAX,
        0 <= t < blocks.len(),
        start <= blocks[t] < start + b.len(),
    ensures
        freed(b, blocks.take(t + 1), start) == freed(b, blocks.take(t), start).update(
            blocks[t] - start,
            false,
        ),
{
    let lhs = freed(b, blocks.take(t + 1), start);
    let rhs = freed(b, blocks.take(t), start).update(blocks[t] - start, false);
    assert forall|i: int| 0 <= i < b.len() implies lhs[i] == rhs[i] by {
        let blk = (i + start) as u32;
        if blocks.take(t + 1).contains(blk) && !blocks.take(t).contains(blk) {
            let x = choose|x: int| 0 <= x < t + 1 && #[trigger] blocks.take(t + 1)[x] == blk;
            if x < t {
                assert(blocks.take(t)[x] == blk);
            }
        }
        if blocks.take(t).contains(blk) {
            let x = choose|x: int| 0 <= x < t && #[trigger] blocks.take(t)[x] == blk;
            assert(blocks.take(t + 1)[x] == blk);
        }
        if i == blocks[t] - start {
            assert(blocks.take(t + 1)[t] == blk);
        }
    }
    assert(lhs =~= rhs);
}

/// Empties inode `id` and gives its data blocks back.
fn release_blocks(fs: &mut EasyFileSystem, id: usize)
    requires
        old(fs).wf(),
        id < old(fs).inodes.len(),
        releasable(
            old(fs).data_bitmap@,
            old(fs).inodes[id as int].blocks@,
            old(fs).data_area_start_block as int,
        ),
    ensures
        final(fs).wf(),
        content_changed(old(fs), final(fs), id as int, Seq::empty()),
        final(fs).inodes[id as int].blocks@ == Seq::<u32>::empty(),
        final(fs).data_bitmap@ == freed(
            old(fs).data_bitmap@,
            old(fs).inodes[id as int].blocks@,
            old(fs).data_area_start_block as int,
        ),
{
    let ghost old_fs = *fs;
    let ghost blocks = fs.inodes[id as int].blocks@;
    let ghost start = fs.data_area_start_block as int;
    let mut t: usize = 0;
    assert(freed(old_fs.data_bitmap@, blocks.take(0), start) =~= old_fs.data_bitmap@);
    while t < fs.inodes[id].blocks.len()
        invariant
            t <= blocks.len(),
            id < fs.inodes.len(),
            fs.inodes@ == old_fs.inodes@,
            fs.inode_bitmap@ == old_fs.inode_bitmap@,
            same_layout(&old_fs, fs),
            old_fs.wf(),
            blocks == old_fs.inodes[id as int].blocks@,
            start == fs.data_area_start_block,
            releasable(old_fs.data_bitmap@, blocks, start),
            fs.data_bitmap@ == freed(old_fs.data_bitmap@, blocks.take(t as int), start),
        decreases blocks.len() - t,
    {
        let blk = fs.inodes[id].blocks[t];
        proof {
            lemma_freed_step(old_fs.data_bitmap@, blocks, start, t as int);
        }
        fs.data_bitmap[(blk - fs.data_area_start_block) as usize] = false;
        t = t + 1;
    }
    assert(blocks.take(blocks.len() as int) =~= blocks);
    fs.inodes[id].blocks = Vec::new();
    fs.inodes[id].data = Vec::new();
    proof {
        lemma_rest_kept(old_fs, *fs, id as int, id as int);
    }
}

impl Inode {
    /// A handle on the inode at `block_offset` in block `block_id`.
    pub fn new(block_id: u32, block_offset: usize) -> (r: Inode)
        ensures
            r.block() == block_id,
            r.offset() == block_offset,
    {
        Inode { block_id: block_id as usize, block_offset }
    }

    /// The number of the inode this handle is on.
    fn inode_id(&self, fs: &EasyFileSystem) -> (id: usize)
        requires
            fs.wf(),
            fs.locates(*self),
        ensures
            id == fs.id_of(*self),
    {
        proof {
            let x = fs.id_of(*self);
            assert(self.block_id as int >= fs.inode_area_start_block) by {
                vstd::arithmetic::div_mod::lemma_div_pos_is_pos(x, fs.inodes_per_block as int);
            }
        }
        let q = self.block_id - fs.inode_area_start_block as usize;
        proof {
            vstd::arithmetic::div_mod::lemma_div_pos_is_pos(
                self.block_offset as int,
                fs.disk_inode_size as int,
            );
            assert(q * fs.inodes_per_block <= fs.id_of(*self)) by (nonlinear_arith)
                requires
                    fs.id_of(*self) == q * fs.inodes_per_block + self.block_offset as int
                        / fs.disk_inode_size as int,
                    self.block_offset as int / fs.disk_inode_size as int >= 0,
            ;
        }
        q * fs.inodes_per_block as usize + self.block_offset / fs.disk_inode_size
    }

    /// The inode named `name` in this directory, or `None` when it has no such entry.
    pub fn find(&self, fs: &EasyFileSystem, name: &[u8]) -> (r: Option<Inode>)
        requires
            fs.wf(),
            fs.holds(*self),
            fs.disk_inode(*self).type_ == DiskInodeType::Directory,
            scan_ok(fs.disk_inode(*self).data@, name@, 0),
            lookup(fs.disk_inode(*self).data@, name@) matches Some(k) ==> fs.inode_block(
                record_inode(record(fs.disk_inode(*self).data@, k)) as int,
            ) <= u32::MAX,
        ensures
            match lookup(fs.disk_inode(*self).data@, name@) {
                Some(k) => r is Some && fs.refers_to(
                    r->Some_0,
                    record_inode(record(fs.disk_inode(*self).data@, k)) as int,
                ),
                None => r is None,
            },
    {
        let id = self.inode_id(fs);
        match find_inode_id(&fs.inodes[id].data, name) {
            Some(inode_id) => {
                let (block_id, block_offset) = fs.get_disk_inode_pos(inode_id);
                Some(Inode::new(block_id, block_offset))
            },
            None => None,
        }
    }

    /// The inode's mode (1 for a directory, 2 for a file) and link count.
    pub fn stat(&self, fs: &EasyFileSystem) -> (r: (i32, u32))
        requires
            fs.wf(),
            fs.locates(*self),
        ensures
            r.0 == if fs.disk_inode(*self).type_ == DiskInodeType::Directory {
                1i32
            } else {
                2i32
            },
            r.1 == fs.disk_inode(*self).links,
    {
        let id = self.inode_id(fs);
        let disk_inode = &fs.inodes[id];
        let mode = if disk_inode.type_ == DiskInodeType::Directory {
            1
        } else {
            2
        };
        (mode, disk_inode.links)
    }

    /// The names of the entries of this directory, in order.
    pub fn ls(&self, fs: &EasyFileSystem) -> (r: Vec<Vec<u8>>)
        requires
            fs.wf(),
            fs.locates(*self),
            entries_well_formed(fs.disk_inode(*self).data@),
        ensures
            r.len() == entry_count(fs.disk_inode(*self).data@),
            forall|i: int|
                0 <= i < r.len() ==> (#[trigger] r[i])@ == record_name(
                    record(fs.disk_inode(*self).data@, i),
                ),
    {
        let id = self.inode_id(fs);
        let data = &fs.inodes[id].data;
        let file_count = data.len() / DIRENT_SZ;
        let mut v: Vec<Vec<u8>> = Vec::new();
        let mut i: usize = 0;
        while i < file_count
            invariant
                i <= file_count,
                file_count == entry_count(data@),
                entries_well_formed(data@),
                v.len() == i,
                forall|k: int|
                    0 <= k < i ==> (#[trigger] v[k])@ == record_name(record(data@, k)),
            decreases file_count - i,
        {
            assert(record_well_formed(record(data@, i as int)));
            v.push(record_name_exec(data, i));
            i = i + 1;
        }
        v
    }

    /// Reads from `offset` into `buf` as much of the content as there is, and returns
    /// the number of bytes read.
    pub fn read_at(&self, fs: &EasyFileSystem, offset: usize, buf: &mut [u8]) -> (r: usize)
        requires
            fs.wf(),
            fs.locates(*self),
            offset + old(buf).len() <= usize::MAX,
        ensures
            ({
                let data = fs.disk_inode(*self).data@;
                let end = if offset + old(buf).len() <= data.len() {
                    offset + old(buf).len()
                } else {
                    data.len() as int
                };
                if offset < end {
                    &&& r == end - offset
                    &&& final(buf)@ == data.subrange(offset as int, end) + old(buf)@.skip(r as int)
                } else {
                    r == 0 && final(buf)@ == old(buf)@
                }
            }),
    {
        let id = self.inode_id(fs);
        let data = &fs.inodes[id].data;
        let end = if offset + buf.len() <= data.len() {
            offset + buf.len()
        } else {
            data.len()
        };
        if offset >= end {
            return 0;
        }
        let mut k: usize = 0;
        while k < end - offset
            invariant
                offset < end <= data.len(),
                end <= offset + old(buf).len(),
                k <= end - offset,
                buf.len() == old(buf).len(),
                forall|x: int|
                    0 <= x < buf.len() ==> buf@[x] == if x < k {
                        data@[offset + x]
                    } else {
                        old(buf)@[x]
                    },
            decreases end - offset - k,
        {
            buf[k] = data[offset + k];
            k = k + 1;
        }
        assert(buf@ =~= data@.subrange(offset as int, end as int) + old(buf)@.skip(
            (end - offset) as int,
        ));
        end - offset
    }

    /// Writes `buf` at `offset`, growing the content (and taking the data blocks
    /// that needs) to reach the end of the write, and returns the number of bytes
    /// written.
    pub fn write_at(&self, fs: &mut EasyFileSystem, offset: usize, buf: &[u8]) -> (r: usize)
        requires
            old(fs).wf(),
            old(fs).locates(*self),
            offset + buf.len() <= u32::MAX,
            can_grow(old(fs), old(fs).id_of(*self), offset + buf.len()),
        ensures
            r == buf.len(),
            final(fs).wf(),
            content_changed(
                old(fs),
                final(fs),
                old(fs).id_of(*self),
                written(old(fs).disk_inode(*self).data@, offset as int, buf@),
            ),
            grown(old(fs), final(fs), old(fs).id_of(*self), offset + buf.len()),
    {
        let id = self.inode_id(fs);
        let ghost old_data = fs.inodes[id as int].data@;
        increase_size(fs, id, offset + buf.len());
        let ghost mid = *fs;
        write_in_place(&mut fs.inodes[id].data, offset, buf);
        assert(fs.inodes[id as int].data@ =~= written(old_data, offset as int, buf@));
        proof {
            lemma_rest_kept(mid, *fs, id as int, id as int);
        }
        buf.len()
    }

    /// Creates the file `name` in this directory. Returns `None` and changes nothing
    /// when an entry of that name exists; otherwise takes the lowest free inode as a
    /// fresh file, adds an entry for it and returns a handle on it.
    pub fn create(&self, fs: &mut EasyFileSystem, name: &[u8]) -> (r: Option<Inode>)
        requires
            old(fs).wf(),
            old(fs).holds(*self),
            old(fs).disk_inode(*self).type_ == DiskInodeType::Directory,
            scan_ok(old(fs).disk_inode(*self).data@, name@, 0),
            lookup(old(fs).disk_inode(*self).data@, name@) is None ==> {
                &&& name.len() <= NAME_LENGTH_LIMIT + 1
                &&& DIRENT_SZ * entry_count(old(fs).disk_inode(*self).data@) + DIRENT_SZ
                    <= u32::MAX
                &&& can_grow(
                    old(fs),
                    old(fs).id_of(*self),
                    DIRENT_SZ * entry_count(old(fs).disk_inode(*self).data@) + DIRENT_SZ,
                )
                &&& has_free_inode(old(fs).inode_bitmap@)
            },
        ensures
            final(fs).wf(),
            lookup(old(fs).disk_inode(*self).data@, name@) is Some ==> r is None && *final(fs)
                == *old(fs),
            lookup(old(fs).disk_inode(*self).data@, name@) is None ==> {
                &&& r is Some
                &&& final(fs).holds(r->Some_0)
                &&& created(
                    old(fs),
                    final(fs),
                    old(fs).id_of(*self),
                    name@,
                    old(fs).id_of(r->Some_0),
                )
            },
    {
        let dir_id = self.inode_id(fs);
        if find_inode_id(&fs.inodes[dir_id].data, name).is_some() {
            return None;
        }
        let ghost old_fs = *fs;
        let new_id = alloc_inode(fs);
        assert(new_id != dir_id);
        fs.inodes[new_id] = fresh_disk_inode(DiskInodeType::File);
        let ghost mid = *fs;
        proof {
            lemma_rest_kept(old_fs, mid, new_id as int, new_id as int);
        }
        append_record(fs, dir_id, name, new_id as u32);
        proof {
            lemma_inode_block_fits(*fs, new_id as int);
        }
        let (block_id, block_offset) = fs.get_disk_inode_pos(new_id as u32);
        let r = Inode::new(block_id, block_offset);
        proof {
            lemma_id_of_handle(*fs, r, new_id as int);
            lemma_others_chain(
                &old_fs,
                &mid,
                fs,
                new_id as int,
                new_id as int,
                dir_id as int,
                dir_id as int,
                dir_id as int,
                new_id as int,
            );
        }
        Some(r)
    }

    /// Adds the entry `new_name` for the inode that `old_name` names. Fails, changing
    /// nothing, when `new_name` exists or `old_name` does not; otherwise returns the
    /// inode's new link count.
    pub fn link_file(&self, fs: &mut EasyFileSystem, old_name: &[u8], new_name: &[u8]) -> (r:
        Result<u32, ()>)
        requires
            old(fs).wf(),
            old(fs).holds(*self),
            old(fs).disk_inode(*self).type_ == DiskInodeType::Directory,
            scan_ok(old(fs).disk_inode(*self).data@, new_name@, 0),
            lookup(old(fs).disk_inode(*self).data@, new_name@) is None ==> scan_ok(
                old(fs).disk_inode(*self).data@,
                old_name@,
                0,
            ),
            lookup(old(fs).disk_inode(*self).data@, new_name@) is None ==> (lookup(
                old(fs).disk_inode(*self).data@,
                old_name@,
            ) matches Some(k) ==> {
                let t = record_inode(record(old(fs).disk_inode(*self).data@, k)) as int;
                &&& new_name.len() <= NAME_LENGTH_LIMIT + 1
                &&& DIRENT_SZ * entry_count(old(fs).disk_inode(*self).data@) + DIRENT_SZ
                    <= u32::MAX
                &&& can_grow(
                    old(fs),
                    old(fs).id_of(*self),
                    DIRENT_SZ * entry_count(old(fs).disk_inode(*self).data@) + DIRENT_SZ,
                )
                &&& t < old(fs).inodes.len()
                &&& old(fs).inodes[t].links < u32::MAX
                &&& old(fs).inode_block(t) != self.block()
            }),
        ensures
            final(fs).wf(),
            ({
                let data = old(fs).disk_inode(*self).data@;
                if lookup(data, new_name@) is Some || lookup(data, old_name@) is None {
                    r is Err && *final(fs) == *old(fs)
                } else {
                    let t = record_inode(record(data, lookup(data, old_name@)->Some_0)) as int;
                    &&& r == Ok::<u32, ()>((old(fs).inodes[t].links + 1) as u32)
                    &&& linked(old(fs), final(fs), old(fs).id_of(*self), new_name@, t)
                }
            }),
    {
        let dir_id = self.inode_id(fs);
        if find_inode_id(&fs.inodes[dir_id].data, new_name).is_some() {
            return Err(());
        }
        let Some(old_inode_id) = find_inode_id(&fs.inodes[dir_id].data, old_name) else {
            return Err(());
        };
        let old_inode_id = old_inode_id as usize;
        let ghost old_fs = *fs;
        assert(old_inode_id != dir_id);
        let links = fs.inodes[old_inode_id].links + 1;
        fs.inodes[old_inode_id].links = links;
        let ghost mid = *fs;
        proof {
            lemma_rest_kept(old_fs, mid, old_inode_id as int, old_inode_id as int);
        }
        append_record(fs, dir_id, new_name, old_inode_id as u32);
        proof {
            lemma_others_chain(
                &old_fs,
                &mid,
                fs,
                old_inode_id as int,
                old_inode_id as int,
                dir_id as int,
                dir_id as int,
                dir_id as int,
                old_inode_id as int,
            );
            assert(same_disk_inode(fs.inodes[old_inode_id as int], mid.inodes[old_inode_id as int]));
        }
        Ok(links)
    }

    /// Removes the entry `name` from this directory. Fails, changing nothing, when
    /// there is no such entry. Otherwise the file it names loses a link; a file left
    /// without links gives back its data blocks and its inode. The last entry of the
    /// directory moves into the freed place.
    pub fn unlink(&self, fs: &mut EasyFileSystem, name: &[u8]) -> (r: Result<(), ()>)
        requires
            old(fs).wf(),
            old(fs).holds(*self),
            old(fs).disk_inode(*self).type_ == DiskInodeType::Directory,
            scan_ok(old(fs).disk_inode(*self).data@, name@, 0),
            lookup(old(fs).disk_inode(*self).data@, name@) matches Some(k) ==> {
                let t = record_inode(record(old(fs).disk_inode(*self).data@, k)) as int;
                &&& t < old(fs).inodes.len()
                &&& old(fs).inodes[t].type_ == DiskInodeType::File
                &&& old(fs).inodes[t].links >= 1
                &&& old(fs).inodes[t].links == 1 ==> {
                    &&& old(fs).inode_bitmap[t]
                    &&& releasable(
                        old(fs).data_bitmap@,
                        old(fs).inodes[t].blocks@,
                        old(fs).data_area_start_block as int,
                    )
                }
            },
        ensures
            final(fs).wf(),
            ({
                let data = old(fs).disk_inode(*self).data@;
                match lookup(data, name@) {
                    None => r is Err && *final(fs) == *old(fs),
                    Some(k) => r is Ok && unlinked(
                        old(fs),
                        final(fs),
                        old(fs).id_of(*self),
                        k,
                        record_inode(record(data, k)) as int,
                    ),
                }
            }),
    {
        let dir_id = self.inode_id(fs);
        proof {
            lemma_lookup_from_range(fs.inodes[dir_id as int].data@, name@, 0);
        }
        let Some(k) = find_entry_index(&fs.inodes[dir_id].data, name) else {
            return Err(());
        };
        let inode_id = record_inode_exec(&fs.inodes[dir_id].data, k) as usize;
        let ghost old_fs = *fs;
        assert(inode_id != dir_id);
        let links = fs.inodes[inode_id].links - 1;
        fs.inodes[inode_id].links = links;
        let ghost m1 = *fs;
        proof {
            lemma_rest_kept(old_fs, m1, inode_id as int, inode_id as int);
        }
        if links == 0 {
            release_blocks(fs, inode_id);
            fs.inode_bitmap[inode_id] = false;
        }
        let ghost m2 = *fs;
        let found_idx = match find_entry_index(&fs.inodes[dir_id].data, name) {
            Some(i) => i,
            None => 0,
        };
        remove_record(&mut fs.inodes[dir_id].data, found_idx);
        proof {
            lemma_total_blocks_mono(
                fs.inodes[dir_id as int].data.len() as int,
                m2.inodes[dir_id as int].data.len() as int,
                fs.inode_direct_count as int,
            );
        }
        let new_total = total_blocks_exec(fs.inodes[dir_id].data.len() as u32, fs.inode_direct_count);
        fs.inodes[dir_id].blocks.truncate(new_total as usize);
        proof {
            lemma_rest_kept(m2, *fs, dir_id as int, dir_id as int);
            lemma_others_chain(
                &old_fs,
                &m1,
                &m2,
                inode_id as int,
                inode_id as int,
                inode_id as int,
                inode_id as int,
                dir_id as int,
                inode_id as int,
            );
            lemma_others_chain(
                &old_fs,
                &m2,
                fs,
                dir_id as int,
                inode_id as int,
                dir_id as int,
                dir_id as int,
                dir_id as int,
                inode_id as int,
            );
            assert(same_disk_inode(fs.inodes[inode_id as int], m2.inodes[inode_id as int]));
        }
        Ok(())
    }

    /// Empties the content, giving its data blocks back.
    pub fn clear(&self, fs: &mut EasyFileSystem)
        requires
            old(fs).wf(),
            old(fs).locates(*self),
            releasable(
                old(fs).data_bitmap@,
                old(fs).disk_inode(*self).blocks@,
                old(fs).data_area_start_block as int,
            ),
        ensures
            final(fs).wf(),
            content_changed(old(fs), final(fs), old(fs).id_of(*self), Seq::empty()),
            final(fs).inodes[old(fs).id_of(*self)].blocks@ == Seq::<u32>::empty(),
            final(fs).data_bitmap@ == freed(
                old(fs).data_bitmap@,
                old(fs).disk_inode(*self).blocks@,
                old(fs).data_area_start_block as int,
            ),
    {
        let id = self.inode_id(fs);
        release_blocks(fs, id);
    }
}

// ---------------------------------------------------------------------------
// Laws of the directory operations.

/// A name that an entry stores as it is: it fits the name limit and holds no NUL byte.
pub open spec fn plain_name(name: Seq<u8>) -> bool {
    name.len() <= NAME_LENGTH_LIMIT && forall|k: int| 0 <= k < name.len() ==> name[k] != 0
}

/// No two entries of the directory have the same name.
pub open spec fn distinct_names(data: Seq<u8>) -> bool {
    forall|i: int, j: int|
        0 <= i < j < entry_count(data) ==> record_name(#[trigger] record(data, i)) != record_name(
            #[trigger] record(data, j),
        )
}

proof fn lemma_name_end_plain(name: Seq<u8>, id: u32, k: int)
    requires
        plain_name(name),
        0 <= k <= name.len(),
    ensures
        name_end(encode_record(name, id), k) == name.len(),
    decreases name.len() - k,
{
    if k < name.len() {
        lemma_name_end_plain(name, id, k + 1);
    }
}

proof fn lemma_encode_plain(name: Seq<u8>, id: u32)
    requires
        plain_name(name),
    ensures
        record_well_formed(encode_record(name, id)),
        record_name(encode_record(name, id)) == name,
        record_inode(encode_record(name, id)) == id,
{
    lemma_name_end_plain(name, id, 0);
    assert(encode_record(name, id).take(name.len() as int) =~= name);
    lemma_record_inode_encode(name, id);
}

proof fn lemma_appended_records(data: Seq<u8>, name: Seq<u8>, id: u32)
    ensures
        entry_count(appended(data, name, id)) == entry_count(data) + 1,
        record(appended(data, name, id), entry_count(data)) == encode_record(name, id),
        forall|i: int|
            0 <= i < entry_count(data) ==> #[trigger] record(appended(data, name, id), i) == record(
                data,
                i,
            ),
{
    let fc = entry_count(data);
    let a = appended(data, name, id);
    assert(DIRENT_SZ * fc <= data.len()) by (nonlinear_arith)
        requires
            fc == data.len() as int / 32,
            data.len() >= 0,
    ;
    assert(a.len() == DIRENT_SZ * fc + DIRENT_SZ);
    assert(entry_count(a) == fc + 1) by (nonlinear_arith)
        requires
            a.len() == 32 * fc + 32,
            fc >= 0,
    ;
    assert(record(a, fc) =~= encode_record(name, id));
    assert forall|i: int| 0 <= i < fc implies #[trigger] record(a, i) == record(data, i) by {
        assert(DIRENT_SZ * i + DIRENT_SZ <= DIRENT_SZ * fc) by (nonlinear_arith)
            requires
                0 <= i < fc,
        ;
        assert(record(a, i) =~= record(data, i));
    }
}

proof fn lemma_lookup_none_from(data: Seq<u8>, name: Seq<u8>, i: int)
    requires
        0 <= i,
        forall|j: int| i <= j < entry_count(data) ==> record_name(#[trigger] record(data, j)) != name,
    ensures
        lookup_from(data, name, i) is None,
    decreases entry_count(data) - i,
{
    if i < entry_count(data) {
        lemma_lookup_none_from(data, name, i + 1);
    }
}

proof fn lemma_lookup_at(data: Seq<u8>, name: Seq<u8>, i: int, k: int)
    requires
        0 <= i <= k < entry_count(data),
        record_name(record(data, k)) == name,
        forall|j: int| i <= j < k ==> record_name(#[trigger] record(data, j)) != name,
    ensures
        lookup_from(data, name, i) == Some(k),
    decreases k - i,
{
    if i < k {
        lemma_lookup_at(data, name, i + 1, k);
    }
}

/// An entry appended for a plain name that the directory did not have is the one
/// found by that name, and it names the inode it was written for.
pub proof fn lemma_lookup_after_append(data: Seq<u8>, name: Seq<u8>, id: u32)
    requires
        lookup(data, name) is None,
        plain_name(name),
    ensures
        lookup(appended(data, name, id), name) == Some(entry_count(data)),
        record_inode(record(appended(data, name, id), entry_count(data))) == id,
{
    let a = appended(data, name, id);
    lemma_appended_records(data, name, id);
    lemma_encode_plain(name, id);
    lemma_lookup_from_range(data, name, 0);
    assert forall|j: int| 0 <= j < entry_count(data) implies record_name(
        #[trigger] record(a, j),
    ) != name by {
        assert(record(a, j) == record(data, j));
    }
    lemma_lookup_at(a, name, 0, entry_count(data));
}

/// After `create` makes the plain name `name` in a directory, looking `name` up
/// there finds the new inode.
pub proof fn lemma_create_then_find(
    old: &EasyFileSystem,
    new: &EasyFileSystem,
    dir: int,
    name: Seq<u8>,
    nid: int,
)
    requires
        old.wf(),
        created(old, new, dir, name, nid),
        lookup(old.inodes[dir].data@, name) is None,
        plain_name(name),
    ensures
        lookup(new.inodes[dir].data@, name) matches Some(k) && record_inode(
            record(new.inodes[dir].data@, k),
        ) == nid,
{
    lemma_lookup_after_append(old.inodes[dir].data@, name, nid as u32);
}

/// After `link_file` adds the plain name `name` for inode `target`, looking `name`
/// up in the directory finds `target`.
pub proof fn lemma_link_then_find(
    old: &EasyFileSystem,
    new: &EasyFileSystem,
    dir: int,
    name: Seq<u8>,
    target: int,
)
    requires
        linked(old, new, dir, name, target),
        0 <= target <= u32::MAX,
        lookup(old.inodes[dir].data@, name) is None,
        plain_name(name),
    ensures
        lookup(new.inodes[dir].data@, name) matches Some(k) && record_inode(
            record(new.inodes[dir].data@, k),
        ) == target,
{
    lemma_lookup_after_append(old.inodes[dir].data@, name, target as u32);
}

/// Appending an entry for a plain name that the directory does not have keeps the
/// names of its entries distinct.
#[verifier::spinoff_prover]
pub proof fn lemma_append_keeps_names_distinct(data: Seq<u8>, name: Seq<u8>, id: u32)
    requires
        distinct_names(data),
        lookup(data, name) is None,
        plain_name(name),
    ensures
        distinct_names(appended(data, name, id)),
{
    let a = appended(data, name, id);
    let fc = entry_count(data);
    lemma_appended_records(data, name, id);
    lemma_encode_plain(name, id);
    lemma_lookup_from_range(data, name, 0);
    assert forall|i: int, j: int| 0 <= i < j < entry_count(a) implies record_name(
        #[trigger] record(a, i),
    ) != record_name(#[trigger] record(a, j)) by {
        assert(record(a, i) == record(data, i));
        if j < fc {
            assert(record(a, j) == record(data, j));
            assert(record_name(record(data, i)) != record_name(record(data, j)));
        } else {
            assert(record_name(record(a, j)) == name);
            assert(record_name(record(data, i)) != name);
        }
    }
}

proof fn lemma_removed_entry_records(data: Seq<u8>, k: int)
    requires
        0 <= k < entry_count(data),
    ensures
        entry_count(removed_entry(data, k)) == entry_count(data) - 1,
        forall|i: int|
            0 <= i < entry_count(data) - 1 ==> #[trigger] record(removed_entry(data, k), i) == if i
                == k {
                record(data, entry_count(data) - 1)
            } else {
                record(data, i)
            },
{
    let fc = entry_count(data);
    let last = fc - 1;
    let r = removed_entry(data, k);
    assert(32 * fc <= data.len() < 32 * fc + 32) by (nonlinear_arith)
        requires
            fc == data.len() as int / 32,
            data.len() >= 0,
    ;
    assert(r.len() == data.len() - 32);
    assert(entry_count(r) == fc - 1) by (nonlinear_arith)
        requires
            r.len() == data.len() - 32,
            32 * fc <= data.len() < 32 * fc + 32,
    ;
    assert forall|i: int| 0 <= i < fc - 1 implies #[trigger] record(r, i) == if i == k {
        record(data, last)
    } else {
        record(data, i)
    } by {
        assert(32 * i + 32 <= 32 * last) by (nonlinear_arith)
            requires
                0 <= i < last,
        ;
        if k == last {
            assert(record(r, i) =~= record(data, i));
        } else {
            assert(32 * k + 32 <= 32 * last) by (nonlinear_arith)
                requires
                    0 <= k < last,
            ;
            if i == k {
                assert(record(r, i) =~= record(data, last));
            } else if i < k {
                assert(32 * i + 32 <= 32 * k) by (nonlinear_arith)
                    requires
                        0 <= i < k,
                ;
                assert(record(r, i) =~= record(data, i));
            } else {
                assert(32 * k + 32 <= 32 * i) by (nonlinear_arith)
                    requires
                        k < i,
                ;
                assert(record(r, i) =~= record(data, i));
            }
        }
    }
}

/// In a directory whose names are distinct, once the entry found for `name` is
/// removed, `name` is found no more, and the remaining names stay distinct.
pub proof fn lemma_remove_then_lookup(data: Seq<u8>, name: Seq<u8>, k: int)
    requires
        distinct_names(data),
        lookup(data, name) == Some(k),
    ensures
        lookup(removed_entry(data, k), name) is None,
        distinct_names(removed_entry(data, k)),
{
    let fc = entry_count(data);
    let r = removed_entry(data, k);
    lemma_lookup_from_range(data, name, 0);
    lemma_removed_entry_records(data, k);
    assert forall|j: int| 0 <= j < entry_count(r) implies record_name(#[trigger] record(r, j))
        != name by {
        if j == k {
            assert(record(r, j) == record(data, fc - 1));
            assert(record_name(record(data, k)) != record_name(record(data, fc - 1)));
        } else {
            assert(record(r, j) == record(data, j));
            if j < k {
                assert(record_name(record(data, j)) != record_name(record(data, k)));
            } else {
                assert(record_name(record(data, k)) != record_name(record(data, j)));
            }
        }
    }
    lemma_lookup_none_from(r, name, 0);
    assert forall|i: int, j: int| 0 <= i < j < entry_count(r) implies record_name(
        #[trigger] record(r, i),
    ) != record_name(#[trigger] record(r, j)) by {
        let ii = if i == k {
            fc - 1
        } else {
            i
        };
        let jj = if j == k {
            fc - 1
        } else {
            j
        };
        assert(record(r, i) == record(data, ii));
        assert(record(r, j) == record(data, jj));
        if ii < jj {
            assert(record_name(record(data, ii)) != record_name(record(data, jj)));
        } else {
            assert(record_name(record(data, jj)) != record_name(record(data, ii)));
        }
    }
}

/// After `unlink` removes `name` from a directory whose names are distinct, looking
/// `name` up there finds nothing.
pub proof fn lemma_unlink_then_find(
    old: &EasyFileSystem,
    new: &EasyFileSystem,
    dir: int,
    name: Seq<u8>,
    k: int,
    target: int,
)
    requires
        unlinked(old, new, dir, k, target),
        distinct_names(old.inodes[dir].data@),
        lookup(old.inodes[dir].data@, name) == Some(k),
    ensures
        lookup(new.inodes[dir].data@, name) is None,
        distinct_names(new.inodes[dir].data@),
{
    lemma_remove_then_lookup(old.inodes[dir].data@, name, k);
}

/// Reading back the range just written gives the bytes written.
pub proof fn lemma_read_after_write(data: Seq<u8>, offset: int, buf: Seq<u8>)
    requires
        0 <= offset,
    ensures
        written(data, offset, buf).len() >= offset + buf.len(),
        written(data, offset, buf).subrange(offset, offset + buf.len()) == buf,
{
    assert(written(data, offset, buf).subrange(offset, offset + buf.len()) =~= buf);
}

/// Removing the entry just created for a plain name in a directory of whole
/// entries gives the directory back its former content and frees the new inode
/// again. (The data block the directory may have taken for the entry stays taken.)
pub proof fn lemma_unlink_undoes_create(
    a: &EasyFileSystem,
    b: &EasyFileSystem,
    c: &EasyFileSystem,
    dir: int,
    name: Seq<u8>,
    nid: int,
)
    requires
        a.wf(),
        0 <= dir < a.inodes.len(),
        a.inode_bitmap[dir],
        created(a, b, dir, name, nid),
        lookup(a.inodes[dir].data@, name) is None,
        plain_name(name),
        a.inodes[dir].data@.len() % (DIRENT_SZ as nat) == 0,
        lookup(b.inodes[dir].data@, name) is Some,
        unlinked(
            b,
            c,
            dir,
            lookup(b.inodes[dir].data@, name)->Some_0,
            record_inode(record(b.inodes[dir].data@, lookup(b.inodes[dir].data@, name)->Some_0))
                as int,
        ),
    ensures
        c.inodes[dir].data@ == a.inodes[dir].data@,
        c.inode_bitmap@ == a.inode_bitmap@,
        c.inodes[nid].links == 0,
{
    let data = a.inodes[dir].data@;
    let fc = entry_count(data);
    lemma_lookup_after_append(data, name, nid as u32);
    lemma_appended_records(data, name, nid as u32);
    let ap = appended(data, name, nid as u32);
    assert(data.len() == 32 * fc) by (nonlinear_arith)
        requires
            data.len() % 32 == 0,
            fc == data.len() / 32,
    ;
    assert(removed_entry(ap, fc) =~= data);
    assert(c.inode_bitmap@ =~= a.inode_bitmap@);
}

/// Removing the entry just linked, for a plain name, to a file that already had a
/// link gives the directory back its former content and the file its former link
/// count, content and blocks.
pub proof fn lemma_unlink_undoes_link(
    a: &EasyFileSystem,
    b: &EasyFileSystem,
    c: &EasyFileSystem,
    dir: int,
    name: Seq<u8>,
    target: int,
)
    requires
        0 <= dir < a.inodes.len(),
        0 <= target < a.inodes.len(),
        target != dir,
        a.inodes[target].links >= 1,
        linked(a, b, dir, name, target),
        lookup(a.inodes[dir].data@, name) is None,
        plain_name(name),
        target <= u32::MAX,
        a.inodes[dir].data@.len() % (DIRENT_SZ as nat) == 0,
        lookup(b.inodes[dir].data@, name) is Some,
        unlinked(
            b,
            c,
            dir,
            lookup(b.inodes[dir].data@, name)->Some_0,
            record_inode(record(b.inodes[dir].data@, lookup(b.inodes[dir].data@, name)->Some_0))
                as int,
        ),
    ensures
        c.inodes[dir].data@ == a.inodes[dir].data@,
        c.inodes[target].links == a.inodes[target].links,
        c.inodes[target].data@ == a.inodes[target].data@,
        c.inodes[target].blocks@ == a.inodes[target].blocks@,
        c.inode_bitmap@ == a.inode_bitmap@,
{
    let data = a.inodes[dir].data@;
    let fc = entry_count(data);
    lemma_lookup_after_append(data, name, target as u32);
    lemma_appended_records(data, name, target as u32);
    let ap = appended(data, name, target as u32);
    assert(data.len() == 32 * fc) by (nonlinear_arith)
        requires
            data.len() % 32 == 0,
            fc == data.len() / 32,
    ;
    assert(removed_entry(ap, fc) =~= data);
}


/// Writing touches only the written range: every byte of the old content outside
/// `[offset, offset + buf.len())` is kept, the written range holds `buf`, the gap
/// between the old end and `offset` reads as zeros, and the content grows to the
/// end of the write and no further.
pub proof fn lemma_write_keeps_other_bytes(data: Seq<u8>, offset: int, buf: Seq<u8>)
    requires
        0 <= offset,
    ensures
        written(data, offset, buf).len() == if data.len() >= offset + buf.len() {
            data.len() as int
        } else {
            offset + buf.len()
        },
        forall|k: int|
            0 <= k < data.len() && !(offset <= k < offset + buf.len()) ==> #[trigger] written(
                data,
                offset,
                buf,
            )[k] == data[k],
        forall|k: int|
            offset <= k < offset + buf.len() ==> #[trigger] written(data, offset, buf)[k] == buf[k
                - offset],
        forall|k: int|
            data.len() <= k < offset ==> #[trigger] written(data, offset, buf)[k] == 0u8,
{
}

/// Two writes back to back are one write of both buffers: writing `a` at `offset`
/// and then `b` right after it gives the content that writing `a + b` at `offset`
/// gives. In particular appending keeps everything written before.
pub proof fn lemma_consecutive_writes(data: Seq<u8>, offset: int, a: Seq<u8>, b: Seq<u8>)
    requires
        0 <= offset,
    ensures
        written(written(data, offset, a), offset + a.len(), b) == written(data, offset, a + b),
{
    let lhs = written(written(data, offset, a), offset + a.len(), b);
    let rhs = written(data, offset, a + b);
    assert(lhs.len() == rhs.len());
    assert forall|k: int| 0 <= k < lhs.len() implies lhs[k] == rhs[k] by {
        if offset <= k < offset + a.len() {
            assert((a + b)[k - offset] == a[k - offset]);
        } else if offset + a.len() <= k < offset + a.len() + b.len() {
            assert((a + b)[k - offset] == b[k - offset - a.len()]);
        }
    }
    assert(lhs =~= rhs);
}

/// Every data block that some inode lists lies in the data area and is marked
/// taken in the data bitmap.
pub open spec fn listed_blocks_taken(fs: &EasyFileSystem) -> bool {
    forall|j: int, t: int|
        0 <= j < fs.inodes.len() && 0 <= t < fs.inodes[j].blocks.len() ==> {
            let blk = #[trigger] fs.inodes[j].blocks@[t];
            &&& fs.data_area_start_block <= blk < fs.data_area_start_block + fs.data_bitmap.len()
            &&& fs.data_bitmap@[blk - fs.data_area_start_block]
        }
}

/// No data block is listed by two different inodes.
pub open spec fn blocks_unshared(fs: &EasyFileSystem) -> bool {
    forall|j1: int, t1: int, j2: int, t2: int|
        0 <= j1 < fs.inodes.len() && 0 <= j2 < fs.inodes.len() && j1 != j2 && 0 <= t1
            < fs.inodes[j1].blocks.len() && 0 <= t2 < fs.inodes[j2].blocks.len()
            ==> #[trigger] fs.inodes[j1].blocks@[t1] != #[trigger] fs.inodes[j2].blocks@[t2]
}

/// Removing a name of a file that keeps another link frees nothing: the data
/// bitmap and the inode bitmap stay as they were, and the file keeps its content
/// and its blocks.
pub proof fn lemma_unlink_shared_file_frees_nothing(
    old: &EasyFileSystem,
    new: &EasyFileSystem,
    dir: int,
    k: int,
    target: int,
)
    requires
        unlinked(old, new, dir, k, target),
        old.inodes[target].links > 1,
    ensures
        new.data_bitmap@ == old.data_bitmap@,
        new.inode_bitmap@ == old.inode_bitmap@,
        new.inodes[target].links == old.inodes[target].links - 1,
        new.inodes[target].data@ == old.inodes[target].data@,
        new.inodes[target].blocks@ == old.inodes[target].blocks@,
{
}

/// Unlinking never marks free a block that an inode still lists: when every listed
/// block is taken and no block is listed twice before, every block listed after the
/// unlink is still taken.
pub proof fn lemma_unlink_keeps_listed_blocks_taken(
    old: &EasyFileSystem,
    new: &EasyFileSystem,
    dir: int,
    k: int,
    target: int,
)
    requires
        old.wf(),
        0 <= dir < old.inodes.len(),
        0 <= target < old.inodes.len(),
        dir != target,
        0 <= k < entry_count(old.inodes[dir].data@),
        listed_blocks_taken(old),
        blocks_unshared(old),
        unlinked(old, new, dir, k, target),
    ensures
        listed_blocks_taken(new),
{
    let start = old.data_area_start_block as int;
    let data = old.inodes[dir].data@;
    let last = entry_count(data) - 1;
    assert(data.len() >= DIRENT_SZ * (last + 1)) by (nonlinear_arith)
        requires
            last + 1 == data.len() / 32,
            last >= 0,
    ;
    let moved = if k == last {
        data
    } else {
        data.take(DIRENT_SZ * k) + record(data, last) + data.skip(DIRENT_SZ * k + DIRENT_SZ)
    };
    assert(DIRENT_SZ * k + DIRENT_SZ <= DIRENT_SZ * (last + 1)) by (nonlinear_arith)
        requires
            k <= last,
    ;
    assert(moved.len() == data.len());
    assert(removed_entry(data, k).len() == data.len() - DIRENT_SZ);
    lemma_total_blocks_mono(
        data.len() - DIRENT_SZ,
        data.len() as int,
        old.inode_direct_count as int,
    );
    assert(old.inodes[dir].blocks.len() == total_blocks(data.len() as int, old.inode_direct_count as int));
    assert forall|j: int, t: int|
        0 <= j < new.inodes.len() && 0 <= t < new.inodes[j].blocks.len() implies {
        let blk = #[trigger] new.inodes[j].blocks@[t];
        &&& new.data_area_start_block <= blk < new.data_area_start_block + new.data_bitmap.len()
        &&& new.data_bitmap@[blk - new.data_area_start_block]
    } by {
        let blk = new.inodes[j].blocks@[t];
        if j == dir {
            assert(blk == old.inodes[dir].blocks@[t]);
        } else if j == target {
            assert(old.inodes[target].links != 1);
            assert(blk == old.inodes[target].blocks@[t]);
        } else {
            assert(same_disk_inode(new.inodes[j], old.inodes[j]));
            assert(blk == old.inodes[j].blocks@[t]);
        }
        assert(old.data_area_start_block <= blk < start + old.data_bitmap.len());
        assert(old.data_bitmap@[blk - start]);
        if old.inodes[target].links == 1 && j != target {
            let b = old.data_bitmap@;
            let tb = old.inodes[target].blocks@;
            if tb.contains(((blk - start) + start) as u32) {
                let y = choose|y: int| 0 <= y < tb.len() && tb[y] == ((blk - start) + start) as u32;
                assert(old.inodes[target].blocks@[y] != old.inodes[j].blocks@[t]);
            }
            assert(freed(b, tb, start)[blk - start]);
        }
    }
}


/// Removing the last name of a file frees it: the inode is marked free and holds no
/// content and no blocks, every block it listed is marked free, and every other bit
/// of the data bitmap is kept.
pub proof fn lemma_unlink_last_link_frees_file(
    old: &EasyFileSystem,
    new: &EasyFileSystem,
    dir: int,
    k: int,
    target: int,
)
    requires
        0 <= target < old.inode_bitmap.len(),
        unlinked(old, new, dir, k, target),
        old.inodes[target].links == 1,
    ensures
        !new.inode_bitmap@[target],
        new.inodes[target].links == 0,
        new.inodes[target].data@.len() == 0,
        new.inodes[target].blocks@.len() == 0,
        new.data_bitmap.len() == old.data_bitmap.len(),
        forall|t: int|
            0 <= t < old.inodes[target].blocks.len() && old.data_area_start_block
                <= #[trigger] old.inodes[target].blocks@[t] < old.data_area_start_block
                + old.data_bitmap.len() ==> !new.data_bitmap@[old.inodes[target].blocks@[t]
                - old.data_area_start_block],
        forall|x: int|
            0 <= x < old.data_bitmap.len() && !old.inodes[target].blocks@.contains(
                (x + old.data_area_start_block) as u32,
            ) ==> #[trigger] new.data_bitmap@[x] == old.data_bitmap@[x],
{
    assert forall|t: int|
        0 <= t < old.inodes[target].blocks.len() && old.data_area_start_block
            <= #[trigger] old.inodes[target].blocks@[t] < old.data_area_start_block
            + old.data_bitmap.len() implies !new.data_bitmap@[old.inodes[target].blocks@[t]
        - old.data_area_start_block] by {
        let blk = old.inodes[target].blocks@[t];
        let x = blk - old.data_area_start_block;
        assert(((x + old.data_area_start_block) as u32) == blk);
        assert(old.inodes[target].blocks@.contains(blk));
    }
}

} // verus!
