use rcore_kernel_logic::syscall_fs::{sys_linkat, sys_unlinkat};
use rcore_kernel_logic::vfs::{
    entries_are_well_formed, find_inode_id, lookup_is_readable, DiskInode, DiskInodeType,
    EasyFileSystem, Inode,
};

/// A file system of `capacity` inodes, four per block from block 2 on, and 64 data
/// blocks from block 100 on. Inode 0 is an
/// empty root directory; inodes 1 to 3, which share its block, are taken, so that
/// new files start at inode 4 in block 3.
fn new_fs(capacity: usize) -> EasyFileSystem {
    let mut inodes = Vec::new();
    let mut bitmap = Vec::new();
    for i in 0..capacity {
        let type_ = if i == 0 { DiskInodeType::Directory } else { DiskInodeType::File };
        inodes.push(DiskInode {
            type_,
            links: if i < 4 { 1 } else { 0 },
            data: Vec::new(),
            blocks: Vec::new(),
        });
        bitmap.push(i < 4);
    }
    EasyFileSystem {
        inode_area_start_block: 2,
        inodes_per_block: 4,
        disk_inode_size: 128,
        inode_direct_count: 28,
        data_area_start_block: 100,
        data_bitmap: vec![false; 64],
        inode_bitmap: bitmap,
        inodes,
    }
}

fn root() -> Inode {
    Inode::new(2, 0)
}

fn names(fs: &EasyFileSystem) -> Vec<String> {
    root().ls(fs).into_iter().map(|n| String::from_utf8(n).unwrap()).collect()
}

#[test]
fn create_then_find() {
    let mut fs = new_fs(8);
    let a = root().create(&mut fs, b"a").expect("created");
    assert_eq!(a.stat(&fs), (2, 1));
    assert!(fs.inode_bitmap[4]);
    let found = root().find(&fs, b"a").expect("found");
    assert_eq!(found.stat(&fs), (2, 1));
    assert_eq!(fs.inodes[0].data.len(), 32);
    assert!(root().find(&fs, b"b").is_none());
}

#[test]
fn create_existing_name_fails() {
    let mut fs = new_fs(8);
    assert!(root().create(&mut fs, b"a").is_some());
    assert!(root().create(&mut fs, b"a").is_none());
    assert_eq!(names(&fs), vec!["a"]);
    assert_eq!(fs.inode_bitmap.iter().filter(|b| **b).count(), 5);
}

#[test]
fn create_takes_lowest_free_inode() {
    let mut fs = new_fs(8);
    fs.inode_bitmap[4] = true;
    fs.inode_bitmap[6] = true;
    let x = root().create(&mut fs, b"x").unwrap();
    assert!(fs.inode_bitmap[5]);
    assert_eq!(fs.inodes[0].data[28], 5);
    assert_eq!(fs.inode_of(&x), Some(5));
}

#[test]
fn directory_entry_layout() {
    let mut fs = new_fs(300);
    for i in 1..260u32 {
        fs.inode_bitmap[i as usize] = true;
    }
    root().create(&mut fs, b"abc").unwrap();
    let d = &fs.inodes[0].data;
    assert_eq!(&d[0..4], b"abc\0");
    assert!(d[3..28].iter().all(|b| *b == 0));
    assert_eq!(&d[28..32], &260u32.to_le_bytes());
}

#[test]
fn ls_lists_names_in_order() {
    let mut fs = new_fs(8);
    for n in ["x", "longer_name", "z"] {
        root().create(&mut fs, n.as_bytes()).unwrap();
    }
    assert_eq!(names(&fs), vec!["x", "longer_name", "z"]);
}

#[test]
fn write_then_read_back() {
    let mut fs = new_fs(8);
    let f = root().create(&mut fs, b"f").unwrap();
    assert_eq!(f.write_at(&mut fs, 0, b"hello"), 5);
    let mut buf = [0u8; 5];
    assert_eq!(f.read_at(&fs, 0, &mut buf), 5);
    assert_eq!(&buf, b"hello");
    let mut small = [9u8; 8];
    assert_eq!(f.read_at(&fs, 3, &mut small), 2);
    assert_eq!(&small, &[b'l', b'o', 9, 9, 9, 9, 9, 9]);
    assert_eq!(f.read_at(&fs, 5, &mut small), 0);
    assert_eq!(f.read_at(&fs, 50, &mut small), 0);
}

#[test]
fn write_past_end_fills_with_zeros() {
    let mut fs = new_fs(8);
    let f = root().create(&mut fs, b"f").unwrap();
    assert_eq!(f.write_at(&mut fs, 4, b"ab"), 2);
    assert_eq!(fs.inodes[4].data, vec![0, 0, 0, 0, b'a', b'b']);
    assert_eq!(f.write_at(&mut fs, 1, b"Z"), 1);
    assert_eq!(fs.inodes[4].data, vec![0, b'Z', 0, 0, b'a', b'b']);
}

#[test]
fn clear_empties_file() {
    let mut fs = new_fs(8);
    let f = root().create(&mut fs, b"f").unwrap();
    f.write_at(&mut fs, 0, b"data");
    f.clear(&mut fs);
    let mut buf = [0u8; 4];
    assert_eq!(f.read_at(&fs, 0, &mut buf), 0);
    assert_eq!(f.stat(&fs), (2, 1));
}

#[test]
fn stat_reports_directory_mode() {
    let fs = new_fs(2);
    assert_eq!(root().stat(&fs), (1, 1));
}

#[test]
fn link_then_find_same_inode() {
    let mut fs = new_fs(8);
    let f = root().create(&mut fs, b"f").unwrap();
    f.write_at(&mut fs, 0, b"shared");
    assert_eq!(root().link_file(&mut fs, b"f", b"g"), Ok(2));
    let g = root().find(&fs, b"g").unwrap();
    let mut buf = [0u8; 6];
    assert_eq!(g.read_at(&fs, 0, &mut buf), 6);
    assert_eq!(&buf, b"shared");
    assert_eq!(f.stat(&fs), (2, 2));
    assert_eq!(names(&fs), vec!["f", "g"]);
}

#[test]
fn link_errors_change_nothing() {
    let mut fs = new_fs(8);
    root().create(&mut fs, b"f").unwrap();
    root().create(&mut fs, b"g").unwrap();
    assert_eq!(root().link_file(&mut fs, b"f", b"g"), Err(()));
    assert_eq!(root().link_file(&mut fs, b"missing", b"h"), Err(()));
    assert_eq!(names(&fs), vec!["f", "g"]);
    assert_eq!(fs.inodes[4].links, 1);
}

#[test]
fn unlink_last_link_frees_inode() {
    let mut fs = new_fs(8);
    let f = root().create(&mut fs, b"f").unwrap();
    f.write_at(&mut fs, 0, b"abc");
    assert_eq!(root().unlink(&mut fs, b"f"), Ok(()));
    assert!(root().find(&fs, b"f").is_none());
    assert!(!fs.inode_bitmap[4]);
    assert!(fs.inodes[4].data.is_empty());
    assert_eq!(fs.inodes[0].data.len(), 0);
}

#[test]
fn unlink_moves_last_entry_into_place() {
    let mut fs = new_fs(8);
    for n in ["a", "b", "c"] {
        root().create(&mut fs, n.as_bytes()).unwrap();
    }
    assert_eq!(root().unlink(&mut fs, b"a"), Ok(()));
    assert_eq!(names(&fs), vec!["c", "b"]);
    assert!(root().find(&fs, b"a").is_none());
    assert_eq!(root().unlink(&mut fs, b"b"), Ok(()));
    assert_eq!(names(&fs), vec!["c"]);
}

#[test]
fn unlink_keeps_other_links() {
    let mut fs = new_fs(8);
    let f = root().create(&mut fs, b"f").unwrap();
    root().link_file(&mut fs, b"f", b"g").unwrap();
    assert_eq!(root().unlink(&mut fs, b"f"), Ok(()));
    assert_eq!(f.stat(&fs), (2, 1));
    assert!(fs.inode_bitmap[4]);
    assert!(root().find(&fs, b"g").is_some());
}

#[test]
fn unlink_missing_name_fails() {
    let mut fs = new_fs(8);
    root().create(&mut fs, b"f").unwrap();
    assert_eq!(root().unlink(&mut fs, b"nope"), Err(()));
    assert_eq!(names(&fs), vec!["f"]);
}

#[test]
fn linkat_returns_link_count() {
    let mut fs = new_fs(8);
    root().create(&mut fs, b"f").unwrap();
    assert_eq!(sys_linkat(&mut fs, &root(), b"f", b"g"), 2);
    assert_eq!(sys_linkat(&mut fs, &root(), b"g", b"h"), 3);
}

#[test]
fn linkat_failures() {
    let mut fs = new_fs(8);
    root().create(&mut fs, b"f").unwrap();
    root().create(&mut fs, b"g").unwrap();
    assert_eq!(sys_linkat(&mut fs, &root(), b"f", b"f"), -1);
    assert_eq!(sys_linkat(&mut fs, &root(), b"x", b"y"), -1);
    assert_eq!(sys_linkat(&mut fs, &root(), b"f", b"g"), -1);
    assert_eq!(names(&fs), vec!["f", "g"]);
}

#[test]
fn unlinkat_results() {
    let mut fs = new_fs(8);
    root().create(&mut fs, b"f").unwrap();
    assert_eq!(sys_unlinkat(&mut fs, &root(), b"f"), 0);
    assert_eq!(sys_unlinkat(&mut fs, &root(), b"f"), -1);
}

#[test]
fn name_with_nul_is_stored_truncated() {
    let mut fs = new_fs(8);
    root().create(&mut fs, b"a").unwrap();
    assert!(root().create(&mut fs, b"a\0b").is_some());
    assert_eq!(names(&fs), vec!["a", "a"]);
}

#[test]
fn layout_of_inodes() {
    let mut fs = new_fs(10);
    fs.inode_area_start_block = 3;
    assert!(fs.is_well_formed());
    assert_eq!(fs.get_disk_inode_pos(0), (3, 0));
    assert_eq!(fs.get_disk_inode_pos(5), (4, 128));
    assert_eq!(fs.inode_of(&Inode::new(4, 128)), Some(5));
    assert_eq!(fs.inode_of(&Inode::new(4, 100)), None);
    assert_eq!(fs.inode_of(&Inode::new(2, 0)), None);
    assert_eq!(fs.inode_of(&Inode::new(9, 0)), None);
}

#[test]
fn well_formedness_checks() {
    let mut fs = new_fs(4);
    assert!(fs.is_well_formed());
    fs.inode_bitmap.pop();
    assert!(!fs.is_well_formed());
    let mut fs = new_fs(4);
    fs.disk_inode_size = 256;
    assert!(!fs.is_well_formed());
    let mut fs = new_fs(4);
    fs.inodes_per_block = 0;
    assert!(!fs.is_well_formed());
    let mut fs = new_fs(4);
    fs.inode_area_start_block = u32::MAX;
    assert!(!fs.is_well_formed());
}

#[test]
fn name_and_entry_checks() {
    let mut good = vec![0u8; 32];
    good[0] = b'a';
    let mut bad = vec![b'x'; 32];
    bad[28] = 1;
    let mut both = good.clone();
    both.extend_from_slice(&bad);
    assert!(entries_are_well_formed(&good));
    assert!(!entries_are_well_formed(&both));
    assert!(lookup_is_readable(&both, b"a"));
    assert!(!lookup_is_readable(&both, b"b"));
}

#[test]
fn full_length_name_fills_name_field() {
    let mut fs = new_fs(8);
    let long = [b'q'; 28];
    root().create(&mut fs, b"f").unwrap();
    assert_eq!(root().link_file(&mut fs, b"f", &long), Ok(2));
    assert_eq!(&fs.inodes[0].data[32..60], &long[..]);
    assert_eq!(find_inode_id(&fs.inodes[0].data, b"f"), Some(4));
}

#[test]
fn growing_takes_lowest_free_blocks() {
    let mut fs = new_fs(8);
    fs.data_bitmap[0] = true;
    fs.data_bitmap[2] = true;
    let f = root().create(&mut fs, b"f").unwrap();
    // The first entry of the root takes one block: the lowest free one, block 101.
    assert_eq!(fs.inodes[0].blocks, vec![101]);
    assert_eq!(f.write_at(&mut fs, 0, &[7u8; 600]), 600);
    assert_eq!(fs.inodes[4].blocks, vec![103, 104]);
    assert_eq!(f.write_at(&mut fs, 600, &[1u8; 100]), 100);
    assert_eq!(fs.inodes[4].blocks, vec![103, 104]);
    assert!(fs.data_bitmap[..5].iter().all(|b| *b));
    assert!(!fs.data_bitmap[5]);
}

#[test]
fn clear_gives_blocks_back() {
    let mut fs = new_fs(8);
    let f = root().create(&mut fs, b"f").unwrap();
    f.write_at(&mut fs, 0, &[7u8; 1025]);
    assert_eq!(fs.inodes[4].blocks, vec![101, 102, 103]);
    f.clear(&mut fs);
    assert!(fs.inodes[4].blocks.is_empty());
    assert_eq!(fs.data_bitmap.iter().filter(|b| **b).count(), 1);
    assert!(fs.data_bitmap[0]);
}

#[test]
fn unlink_gives_blocks_and_inode_back() {
    let mut fs = new_fs(8);
    let f = root().create(&mut fs, b"f").unwrap();
    f.write_at(&mut fs, 0, &[7u8; 10]);
    assert!(fs.data_bitmap[1]);
    assert_eq!(root().unlink(&mut fs, b"f"), Ok(()));
    assert!(!fs.data_bitmap[1]);
    assert!(!fs.inode_bitmap[4]);
    // The root keeps none of its blocks in use but the block stays taken.
    assert!(fs.inodes[0].blocks.is_empty());
    assert!(fs.data_bitmap[0]);
}

#[test]
fn directory_grows_by_a_block_every_sixteen_entries() {
    let mut fs = new_fs(40);
    for i in 0..16u8 {
        root().create(&mut fs, &[b'a' + i]).unwrap();
    }
    assert_eq!(fs.inodes[0].blocks.len(), 1);
    root().create(&mut fs, b"z").unwrap();
    assert_eq!(fs.inodes[0].blocks.len(), 2);
    assert_eq!(fs.inodes[0].data.len(), 17 * 32);
}

#[test]
fn unlink_undoes_create_of_listing_and_inode() {
    let mut fs = new_fs(8);
    root().create(&mut fs, b"a").unwrap();
    let listing = fs.inodes[0].data.clone();
    let inodes = fs.inode_bitmap.clone();
    root().create(&mut fs, b"b").unwrap();
    assert_eq!(root().unlink(&mut fs, b"b"), Ok(()));
    assert_eq!(fs.inodes[0].data, listing);
    assert_eq!(fs.inode_bitmap, inodes);
}

#[test]
fn unlink_undoes_fresh_link() {
    let mut fs = new_fs(8);
    let f = root().create(&mut fs, b"f").unwrap();
    let listing = fs.inodes[0].data.clone();
    root().link_file(&mut fs, b"f", b"g").unwrap();
    assert_eq!(root().unlink(&mut fs, b"g"), Ok(()));
    assert_eq!(fs.inodes[0].data, listing);
    assert_eq!(f.stat(&fs), (2, 1));
}

#[test]
fn unlinked_file_still_readable_through_handle() {
    let mut fs = new_fs(8);
    let f = root().create(&mut fs, b"f").unwrap();
    f.write_at(&mut fs, 0, b"abc");
    assert_eq!(root().unlink(&mut fs, b"f"), Ok(()));
    let mut buf = [9u8; 3];
    assert_eq!(f.read_at(&fs, 0, &mut buf), 0);
    assert_eq!(buf, [9u8; 3]);
    assert_eq!(f.stat(&fs), (2, 0));
}
