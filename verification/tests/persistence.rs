use blockfs::fs::Fs;
use blockfs::storage::Storage;

#[test]
fn remount_sees_files_written_before() {
    let mut fs = Fs::new(Storage::new(Vec::new())).unwrap();
    fs.touch("kept".to_string(), b"still here").unwrap();
    fs.mkdir("dir".to_string()).unwrap();
    let bytes = fs.volume_bytes().clone();
    let mut fs2 = Fs::new(Storage::new(bytes)).unwrap();
    assert_eq!(fs2.pwd().as_str(), "/");
    let names = fs2.ls().unwrap();
    assert!(names.contains(&"kept".to_string()));
    assert!(names.contains(&"dir/".to_string()));
    assert_eq!(fs2.cat("kept".to_string()).unwrap(), "still here");
    fs2.cd("dir".to_string()).unwrap();
    assert_eq!(fs2.ls().unwrap(), vec!["..".to_string()]);
}

#[test]
fn superblock_region_is_stable_across_mounts() {
    let fs = Fs::new(Storage::new(Vec::new())).unwrap();
    let first = fs.volume_bytes()[0..64].to_vec();
    let bytes = fs.volume_bytes().clone();
    let fs2 = Fs::new(Storage::new(bytes)).unwrap();
    assert_eq!(fs2.volume_bytes()[0..64].to_vec(), first);
}

#[test]
fn layout_offsets_follow_one_another() {
    // The superblock records its regions little-endian: data bitmap at 64,
    // inode bitmap at 192, inode table at 320, data blocks after 1024 inode
    // rows of 105 bytes.
    let fs = Fs::new(Storage::new(Vec::new())).unwrap();
    let b = fs.volume_bytes();
    let word = |off: usize| -> u64 {
        let mut w = [0u8; 8];
        w.copy_from_slice(&b[off..off + 8]);
        u64::from_le_bytes(w)
    };
    assert_eq!(word(0), 1024); // block size
    assert_eq!(word(8), 105); // inode size
    assert_eq!(word(16), 1024); // blocks count
    assert_eq!(word(24), 1024); // inodes count
    assert_eq!(word(32), 64); // data bitmap offset
    assert_eq!(word(40), 192); // inode bitmap offset
    assert_eq!(word(48), 320); // inode table offset
    assert_eq!(word(56), 320 + 1024 * 105); // data blocks offset
    assert_eq!(word(32) + 1024 / 8, word(40));
    assert_eq!(word(40) + 1024 / 8, word(48));
    assert_eq!(word(48) + 1024 * word(8), word(56));
}

#[test]
fn mount_tolerates_truncated_volume() {
    // A volume cut off in the middle of a region reads as invalid; the mount
    // writes the defaults back and still produces a working file system.
    let mut fs = Fs::new(Storage::new(vec![7u8; 100])).unwrap();
    assert_eq!(fs.pwd().as_str(), "/");
    fs.touch("f".to_string(), b"ok").unwrap();
    assert_eq!(fs.cat("f".to_string()).unwrap(), "ok");
}
