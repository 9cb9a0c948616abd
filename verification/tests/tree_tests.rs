use cwl_mount::calendar::civil_to_millis;
use cwl_mount::fsops::{getattr_reply, lookup_reply, open_reply, read_slice, readdir_entries};
use cwl_mount::fsops::{FsError, OpenReply};
use cwl_mount::tree::{FileTree, FileType, TimeBounds};
use cwl_mount::treebuild::create_file_tree_for_time_range;

fn minute_bounds(y: i64, m: i64, d: i64, h: i64, mi: i64) -> TimeBounds {
    let start = civil_to_millis(y, m, d, h, mi, 0, 0);
    TimeBounds { start_time: start, end_time: start + 59_999 }
}

#[test]
fn test_create_files_for_time_range() {
    let start_time = civil_to_millis(2014, 11, 28, 12, 0, 9, 0);
    let end_time = civil_to_millis(2019, 11, 28, 13, 13, 13, 0);
    let actual_result = create_file_tree_for_time_range(start_time, end_time);
    let root_list = actual_result.list_root();
    println!("{:?}", root_list);
    let first_dir = root_list.first().unwrap();
    let first_dir_list = actual_result.list_directory(first_dir.file_key);
    println!("{:?}", first_dir_list);
    assert_eq!(root_list.len(), 6);
}

#[test]
fn empty_range_tree_has_one_year() {
    let at = civil_to_millis(2021, 1, 1, 0, 0, 0, 0);
    let tree = create_file_tree_for_time_range(at, at);
    let root_list = tree.list_root();
    assert_eq!(root_list.len(), 1);
    assert_eq!(root_list[0].file.name, "2021");
    assert!(matches!(root_list[0].file.file_type, FileType::Directory));

    // navigate /2021/01/01/00-00
    let year = tree.get_child_for_inode(1, "2021").expect("year");
    let month = tree
        .get_child_for_inode(year.file.inode, "01")
        .expect("month");
    let day = tree.get_child_for_inode(month.file.inode, "01").expect("day");
    let minute = tree
        .get_child_for_inode(day.file.inode, "00-00")
        .expect("minute");
    match minute.file.file_type {
        FileType::File(tb) => {
            assert_eq!(tb, minute_bounds(2021, 1, 1, 0, 0));
            assert_eq!(tb.start_time, at);
            assert_eq!(tb.end_time, at + 59_999);
        }
        FileType::Directory => panic!("minute entry must be a file"),
    }
}

#[test]
fn invalid_dates_are_skipped() {
    let at = civil_to_millis(2021, 6, 15, 0, 0, 0, 0);
    let tree = create_file_tree_for_time_range(at, at);
    let year = tree.get_child_for_inode(1, "2021").expect("year");
    let feb = tree
        .get_child_for_inode(year.file.inode, "02")
        .expect("february");
    assert!(tree.get_child_for_inode(feb.file.inode, "30").is_none());
    assert!(tree.get_child_for_inode(feb.file.inode, "28").is_some());
    assert!(tree.get_child_for_inode(feb.file.inode, "29").is_none());

    // exact shapes: a year has 12 months, this February 28 days, a day
    // 1440 minutes
    assert_eq!(tree.list_directory(year.file_key).len(), 12);
    assert_eq!(tree.list_directory(feb.file_key).len(), 28);
    let first = tree.get_child_for_inode(feb.file.inode, "01").expect("first day");
    assert_eq!(tree.list_directory(first.file_key).len(), 1440);

    // a leap year's February has 29 days
    let leap_at = civil_to_millis(2020, 1, 1, 0, 0, 0, 0);
    let leap_tree = create_file_tree_for_time_range(leap_at, leap_at);
    let leap_year = leap_tree.get_child_for_inode(1, "2020").expect("year");
    let leap_feb = leap_tree
        .get_child_for_inode(leap_year.file.inode, "02")
        .expect("february");
    assert!(leap_tree.get_child_for_inode(leap_feb.file.inode, "29").is_some());
    assert_eq!(leap_tree.list_directory(leap_feb.file_key).len(), 29);
}

#[test]
fn inodes_are_dense_and_unique() {
    let at = civil_to_millis(2022, 3, 3, 7, 0, 0, 0);
    let tree = create_file_tree_for_time_range(at, at);
    let root = tree.get_file_by_inode(1).expect("root");
    assert_eq!(root.file.inode, 1);
    assert!(root.file.is_root());
    let year = tree.get_child_for_inode(1, "2022").expect("year");
    let by_inode = tree.get_file_by_inode(year.file.inode).expect("year by inode");
    assert_eq!(by_inode.file.inode, year.file.inode);
    assert_eq!(by_inode.file.name, "2022");
}

#[test]
fn small_tree_queries() {
    let mut tree = FileTree::new(4);
    let root = tree.get_root();
    let adir = tree.create_directory(String::from("adir"), root);
    let tb = TimeBounds { start_time: 0, end_time: 59_999 };
    let _bfile = tree.create_file(String::from("bfile"), tb, root);
    let sub = tree.create_file(String::from("inner"), tb, Some(adir));

    // children come back in name order
    let listing = tree.list_root();
    assert_eq!(listing.len(), 2);
    assert_eq!(listing[0].file.name, "adir");
    assert_eq!(listing[1].file.name, "bfile");

    // a repeated name yields the existing node
    let again = tree.create_directory(String::from("adir"), root);
    assert_eq!(again, adir);
    assert_eq!(tree.list_root().len(), 2);

    // parent for listing: root's parent is root itself
    let up = tree.get_parent_for_ls(adir);
    assert_eq!(up.file.inode, 1);
    let up2 = tree.get_parent_for_ls(up.file_key);
    assert_eq!(up2.file.inode, 1);
    let up3 = tree.get_parent_for_ls(sub);
    assert_eq!(up3.file_key, adir);
}

#[test]
fn readdir_lists_dot_entries_then_children() {
    let mut tree = FileTree::new(4);
    let root = tree.get_root();
    tree.create_directory(String::from("adir"), root);
    let tb = TimeBounds { start_time: 0, end_time: 59_999 };
    tree.create_file(String::from("bfile"), tb, root);

    let entries = readdir_entries(&tree, 1, 0).expect("root listing");
    assert_eq!(entries.len(), 4);
    assert_eq!(entries[0].name, ".");
    assert_eq!(entries[0].ino, 1);
    assert_eq!(entries[0].offset, 1);
    assert_eq!(entries[1].name, "..");
    assert_eq!(entries[1].ino, 1);
    assert_eq!(entries[1].offset, 2);
    assert_eq!(entries[2].name, "adir");
    assert!(entries[2].is_directory);
    assert_eq!(entries[2].offset, 3);
    assert_eq!(entries[3].name, "bfile");
    assert!(!entries[3].is_directory);
    assert_eq!(entries[3].offset, 4);

    // resuming from an offset skips what was already sent
    let tail = readdir_entries(&tree, 1, 3).expect("resumed listing");
    assert_eq!(tail.len(), 1);
    assert_eq!(tail[0].name, "bfile");

    assert_eq!(readdir_entries(&tree, 99, 0), Err(FsError::NoEnt));
}

#[test]
fn open_refuses_writes_and_directories() {
    let mut tree = FileTree::new(4);
    let root = tree.get_root();
    let dir = tree.create_directory(String::from("adir"), root);
    let tb = TimeBounds { start_time: 0, end_time: 59_999 };
    tree.create_file(String::from("bfile"), tb, root);
    let dir_ino = tree.get_file_by_inode(1).unwrap().file.children[0].key;
    assert_eq!(dir_ino, dir);
    let file_ino = 3u64;

    const O_RDONLY: i32 = 0;
    const O_WRONLY: i32 = 1;
    const O_RDWR: i32 = 2;
    const O_TRUNC: i32 = 512;

    assert_eq!(open_reply(&tree, file_ino, O_WRONLY), Err(FsError::Access));
    assert_eq!(open_reply(&tree, file_ino, O_RDWR), Err(FsError::Access));
    assert_eq!(open_reply(&tree, file_ino, O_RDONLY | O_TRUNC), Err(FsError::Access));
    assert_eq!(open_reply(&tree, file_ino, 3), Err(FsError::Inval));
    assert_eq!(open_reply(&tree, 2, O_RDONLY), Err(FsError::Access));
    assert_eq!(
        open_reply(&tree, file_ino, O_RDONLY),
        Ok(OpenReply { fh: 10, direct_io: true })
    );
}

#[test]
fn attrs_report_the_documented_fiction() {
    let mut tree = FileTree::new(4);
    let root = tree.get_root();
    tree.create_directory(String::from("adir"), root);
    let tb = TimeBounds { start_time: 0, end_time: 59_999 };
    tree.create_file(String::from("bfile"), tb, root);

    let dir_attr = getattr_reply(&tree, 2, 1000, 1000).expect("dir attr");
    assert!(dir_attr.is_directory);
    assert_eq!(dir_attr.size, 0);
    assert_eq!(dir_attr.blocks, 0);
    assert_eq!(dir_attr.nlink, 2);
    assert_eq!(dir_attr.perm, 0o777);
    assert_eq!(dir_attr.uid, 1000);

    let file_attr = lookup_reply(&tree, 1, "bfile", 7, 8).expect("file attr");
    assert!(!file_attr.is_directory);
    assert_eq!(file_attr.size, i32::MAX as u64);
    assert_eq!(file_attr.blocks, 1);
    assert_eq!(file_attr.nlink, 1);
    assert_eq!(file_attr.blksize, 512);
    assert_eq!(file_attr.gid, 8);

    assert_eq!(lookup_reply(&tree, 1, "missing", 0, 0), Err(FsError::NoEnt));
    assert_eq!(getattr_reply(&tree, 99, 0, 0), Err(FsError::NoEnt));
}

#[test]
fn read_slice_clips_to_the_blob() {
    let blob: Vec<u8> = b"hello world".to_vec();
    assert_eq!(read_slice(&blob, 0, 5), b"hello".to_vec());
    assert_eq!(read_slice(&blob, 6, 100), b"world".to_vec());
    assert_eq!(read_slice(&blob, 11, 4), Vec::<u8>::new());
    assert_eq!(read_slice(&blob, 100, 4), Vec::<u8>::new());
    assert_eq!(read_slice(&blob, 0, 0), Vec::<u8>::new());
    assert_eq!(read_slice(&blob, 0, 11), blob.clone());
}
