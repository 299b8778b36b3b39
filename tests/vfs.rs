use easy_fs::fs::{DiskInodeType, FileSystem};
use easy_fs::layout::{blocks_num_needed, disk_inode_pos};
use easy_fs::vfs::Inode;

fn fresh() -> (FileSystem, Inode) {
    (FileSystem::new(64, 16), Inode::root())
}

#[test]
fn write_then_read_hello() {
    let (mut fs, root) = fresh();
    let a = root.create(&mut fs, "a").unwrap();
    assert_eq!(a.write_at(&mut fs, 0, b"hello"), Some(5));
    let mut buf = [0u8; 5];
    assert_eq!(a.read_at(&fs, 0, &mut buf), 5);
    assert_eq!(&buf, b"hello");
    assert_eq!(root.ls(&fs), vec!["a".to_string()]);
}

#[test]
fn link_then_unlink_original_name() {
    let (mut fs, root) = fresh();
    let a = root.create(&mut fs, "a").unwrap();
    let b = root.create_link(&mut fs, "b", &a).unwrap();
    assert_eq!(b.inode_id(), a.inode_id());
    assert!(root.remove_dirent(&mut fs, "a"));
    assert_eq!(root.ls(&fs), vec!["b".to_string()]);
    let found = root.find(&fs, "b").unwrap();
    assert_eq!(found.inode_id(), a.inode_id());
    assert_eq!(found, a);
}

#[test]
fn create_twice_is_refused() {
    let (mut fs, root) = fresh();
    assert!(root.create(&mut fs, "a").is_some());
    assert!(root.create(&mut fs, "a").is_none());
    assert_eq!(root.ls(&fs), vec!["a".to_string()]);
}

#[test]
fn clear_keeps_link_count() {
    let (mut fs, root) = fresh();
    let a = root.create(&mut fs, "a").unwrap();
    assert_eq!(a.write_at(&mut fs, 0, b""), Some(0));
    let before = a.get_nlink(&fs);
    a.clear(&mut fs);
    assert_eq!(a.get_nlink(&fs), before);
    assert_eq!(before, 1);
}

#[test]
fn round_trip_past_end() {
    let (mut fs, root) = fresh();
    let a = root.create(&mut fs, "a").unwrap();
    let data: Vec<u8> = (0..1200u32).map(|x| (x % 251) as u8).collect();
    assert_eq!(a.write_at(&mut fs, 700, &data), Some(1200));
    let mut buf = vec![0u8; 1200];
    assert_eq!(a.read_at(&fs, 700, &mut buf), 1200);
    assert_eq!(buf, data);
    let mut head = vec![9u8; 10];
    assert_eq!(a.read_at(&fs, 1895, &mut head), 5);
    assert_eq!(&head[..5], &data[1195..]);
    assert_eq!(&head[5..], &[9u8; 5]);
}

#[test]
fn read_past_end_reads_nothing() {
    let (mut fs, root) = fresh();
    let a = root.create(&mut fs, "a").unwrap();
    a.write_at(&mut fs, 0, b"abc").unwrap();
    let mut buf = [7u8; 4];
    assert_eq!(a.read_at(&fs, 3, &mut buf), 0);
    assert_eq!(a.read_at(&fs, 100, &mut buf), 0);
    assert_eq!(buf, [7u8; 4]);
    assert_eq!(a.read_at(&fs, 1, &mut buf), 2);
    assert_eq!(&buf[..2], b"bc");
}

#[test]
fn overwrite_keeps_other_bytes() {
    let (mut fs, root) = fresh();
    let a = root.create(&mut fs, "a").unwrap();
    a.write_at(&mut fs, 0, b"hello world").unwrap();
    a.write_at(&mut fs, 6, b"there").unwrap();
    let mut buf = [0u8; 11];
    assert_eq!(a.read_at(&fs, 0, &mut buf), 11);
    assert_eq!(&buf, b"hello there");
}

#[test]
fn files_do_not_share_bytes() {
    let (mut fs, root) = fresh();
    let a = root.create(&mut fs, "a").unwrap();
    let b = root.create(&mut fs, "b").unwrap();
    a.write_at(&mut fs, 0, &[1u8; 600]).unwrap();
    b.write_at(&mut fs, 0, &[2u8; 600]).unwrap();
    let mut buf = vec![0u8; 600];
    assert_eq!(a.read_at(&fs, 0, &mut buf), 600);
    assert!(buf.iter().all(|&x| x == 1));
    assert_eq!(b.read_at(&fs, 0, &mut buf), 600);
    assert!(buf.iter().all(|&x| x == 2));
}

#[test]
fn growth_uses_free_blocks() {
    let (mut fs, root) = fresh();
    let a = root.create(&mut fs, "a").unwrap();
    let free0 = fs.free.len();
    let dir_blocks = fs.inodes[0].blocks.len();
    a.write_at(&mut fs, 0, &[5u8; 1025]).unwrap();
    assert_eq!(fs.free.len(), free0 - 3);
    let idx = (a.block_id - 2) * 4 + a.block_offset / 128;
    assert_eq!(fs.inodes[idx].size, 1025);
    assert_eq!(fs.inodes[idx].blocks.len(), 3);
    for b in fs.inodes[idx].blocks.iter() {
        assert!(!fs.inodes[0].blocks[..dir_blocks].contains(b));
    }
    // a shorter write never shrinks the file
    a.write_at(&mut fs, 0, b"x").unwrap();
    assert_eq!(fs.inodes[idx].size, 1025);
    assert_eq!(fs.free.len(), free0 - 3);
}

#[test]
fn exhausted_blocks_refuse_write() {
    let mut fs = FileSystem::new(2, 16);
    let root = Inode::root();
    let a = root.create(&mut fs, "a").unwrap();
    assert_eq!(fs.free.len(), 1);
    assert_eq!(a.write_at(&mut fs, 0, &[1u8; 513]), None);
    assert_eq!(fs.free.len(), 1);
    assert_eq!(a.write_at(&mut fs, 0, &[1u8; 512]), Some(512));
    assert_eq!(fs.free.len(), 0);
}

#[test]
fn write_to_directory_is_refused() {
    let (mut fs, root) = fresh();
    assert_eq!(root.write_at(&mut fs, 0, b"x"), None);
}

#[test]
fn exhausted_inodes_refuse_create() {
    let mut fs = FileSystem::new(8, 2);
    let root = Inode::root();
    assert!(root.create(&mut fs, "a").is_some());
    assert!(root.create(&mut fs, "b").is_none());
    assert_eq!(root.ls(&fs), vec!["a".to_string()]);
}

#[test]
fn clear_returns_blocks() {
    let (mut fs, root) = fresh();
    let a = root.create(&mut fs, "a").unwrap();
    let free0 = fs.free.len();
    a.write_at(&mut fs, 0, &[3u8; 2000]).unwrap();
    assert_eq!(fs.free.len(), free0 - 4);
    a.clear(&mut fs);
    assert_eq!(fs.free.len(), free0);
    let mut buf = [0u8; 4];
    assert_eq!(a.read_at(&fs, 0, &mut buf), 0);
}

#[test]
fn remove_middle_entry_moves_last() {
    let (mut fs, root) = fresh();
    for n in ["a", "b", "c", "d"] {
        root.create(&mut fs, n).unwrap();
    }
    let d = root.find(&fs, "d").unwrap();
    assert!(root.remove_dirent(&mut fs, "b"));
    assert_eq!(root.ls(&fs), vec!["a".to_string(), "d".to_string(), "c".to_string()]);
    assert!(root.find(&fs, "b").is_none());
    for n in ["a", "c", "d"] {
        assert!(root.find(&fs, n).is_some());
    }
    assert_eq!(root.find(&fs, "d").unwrap(), d);
}

#[test]
fn remove_last_entry() {
    let (mut fs, root) = fresh();
    root.create(&mut fs, "a").unwrap();
    root.create(&mut fs, "b").unwrap();
    assert!(root.remove_dirent(&mut fs, "b"));
    assert_eq!(root.ls(&fs), vec!["a".to_string()]);
    assert!(!root.remove_dirent(&mut fs, "b"));
    assert_eq!(root.ls(&fs), vec!["a".to_string()]);
}

#[test]
fn name_unique_after_remove_and_recreate() {
    let (mut fs, root) = fresh();
    root.create(&mut fs, "a").unwrap();
    root.create(&mut fs, "b").unwrap();
    let a = root.find(&fs, "a").unwrap();
    assert!(root.create_link(&mut fs, "b", &a).is_none());
    assert!(root.remove_dirent(&mut fs, "a"));
    assert!(root.create(&mut fs, "a").is_some());
    let names = root.ls(&fs);
    assert_eq!(names.iter().filter(|n| n.as_str() == "a").count(), 1);
    assert_eq!(names.iter().filter(|n| n.as_str() == "b").count(), 1);
}

#[test]
fn find_missing_is_none() {
    let (fs, root) = fresh();
    assert!(root.find(&fs, "nope").is_none());
    assert!(root.ls(&fs).is_empty());
}

#[test]
fn nlink_counts_down_once() {
    let (mut fs, root) = fresh();
    let a = root.create(&mut fs, "a").unwrap();
    a.increase_nlink(&mut fs);
    assert_eq!(a.get_nlink(&fs), 2);
    assert!(!a.decrease_nlink(&mut fs));
    assert_eq!(a.get_nlink(&fs), 1);
    assert!(a.decrease_nlink(&mut fs));
    assert_eq!(a.get_nlink(&fs), 0);
}

#[test]
fn types_of_records() {
    let (mut fs, root) = fresh();
    let a = root.create(&mut fs, "a").unwrap();
    assert_eq!(root.get_type(&fs), DiskInodeType::Directory);
    assert_eq!(a.get_type(&fs), DiskInodeType::File);
}

#[test]
fn inode_positions() {
    assert_eq!(disk_inode_pos(0), (2, 0));
    assert_eq!(disk_inode_pos(5), (3, 128));
    assert_eq!(disk_inode_pos(11), (4, 384));
    let h = Inode::at(5);
    assert_eq!(h.inode_id(), 3);
    assert_eq!(Inode::new(3, 128), h);
    assert_eq!(blocks_num_needed(0), 0);
    assert_eq!(blocks_num_needed(1), 1);
    assert_eq!(blocks_num_needed(512), 1);
    assert_eq!(blocks_num_needed(513), 2);
}

#[test]
fn created_handles_address_new_slots() {
    let (mut fs, root) = fresh();
    let a = root.create(&mut fs, "a").unwrap();
    let b = root.create(&mut fs, "b").unwrap();
    assert_eq!(a, Inode::at(1));
    assert_eq!(b, Inode::at(2));
    assert_eq!(root.find(&fs, "b").unwrap(), b);
}

#[test]
fn names_are_compared_without_nul_padding() {
    let (mut fs, root) = fresh();
    let a = root.create(&mut fs, "a\0\0").unwrap();
    assert_eq!(root.ls(&fs), vec!["a".to_string()]);
    assert_eq!(root.find(&fs, "a").unwrap(), a);
    assert_eq!(root.find(&fs, "\0a\0").unwrap(), a);
    assert!(root.create(&mut fs, "a").is_none());
    assert!(root.create_link(&mut fs, "b\0", &a).is_some());
    assert_eq!(root.ls(&fs), vec!["a".to_string(), "b".to_string()]);
    assert!(root.remove_dirent(&mut fs, "a\0"));
    assert_eq!(root.ls(&fs), vec!["b".to_string()]);
}
