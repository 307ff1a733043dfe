use blockfs::error::FsError;
use blockfs::fs::Fs;
use blockfs::storage::Storage;

fn fresh() -> Fs {
    Fs::new(Storage::new(Vec::new())).unwrap()
}

#[test]
fn fresh_mount_pwd_and_ls() {
    let fs = fresh();
    assert_eq!(fs.pwd().as_str(), "/");
    let names = fs.ls().unwrap();
    assert!(names.is_empty());
    assert_eq!(names.join("\n"), "");
}

#[test]
fn mkdir_then_cd_lists_parent() {
    let mut fs = fresh();
    fs.mkdir("foo".to_string()).unwrap();
    let names = fs.ls().unwrap();
    assert_eq!(names, vec!["foo/".to_string()]);
    fs.cd("foo".to_string()).unwrap();
    assert_eq!(fs.pwd().as_str(), "/foo/");
    assert_eq!(fs.ls().unwrap(), vec!["..".to_string()]);
}

#[test]
fn cd_up_at_root_fails() {
    let mut fs = fresh();
    let err = fs.cd("..".to_string()).unwrap_err();
    assert_eq!(err, FsError::AtRoot);
    assert_eq!(err.message(), "Already at root");
}

#[test]
fn touch_then_cat_round_trip() {
    let mut fs = fresh();
    fs.touch("hello".to_string(), b"world").unwrap();
    assert_eq!(fs.cat("hello".to_string()).unwrap(), "world");
}

#[test]
fn touch_existing_name_fails() {
    let mut fs = fresh();
    fs.touch("a".to_string(), b"world\n").unwrap();
    let err = fs.touch("a".to_string(), b"anything").unwrap_err();
    assert_eq!(err.message(), "File already exists: a");
    assert_eq!(err, FsError::AlreadyExists("a".to_string()));
}

#[test]
fn rm_directory_frees_everything() {
    let mut fs = fresh();
    let data_bitmap_before = fs.volume_bytes()[64..192].to_vec();
    let inode_bitmap_before = fs.volume_bytes()[192..320].to_vec();
    fs.mkdir("d".to_string()).unwrap();
    fs.cd("d".to_string()).unwrap();
    fs.touch("x".to_string(), b"hi\n").unwrap();
    fs.cd("..".to_string()).unwrap();
    fs.rm("d".to_string()).unwrap();
    assert!(fs.ls().unwrap().is_empty());
    assert_eq!(fs.volume_bytes()[64..192].to_vec(), data_bitmap_before);
    assert_eq!(fs.volume_bytes()[192..320].to_vec(), inode_bitmap_before);
}

#[test]
fn rm_file_allows_recreation() {
    let mut fs = fresh();
    fs.touch("f".to_string(), b"abc").unwrap();
    fs.rm("f".to_string()).unwrap();
    assert!(fs.ls().unwrap().is_empty());
    fs.touch("f".to_string(), b"def").unwrap();
    assert_eq!(fs.cat("f".to_string()).unwrap(), "def");
}

#[test]
fn directory_listing_names_stay_distinct() {
    let mut fs = fresh();
    fs.touch("a".to_string(), b"1").unwrap();
    fs.mkdir("b".to_string()).unwrap();
    fs.touch("c".to_string(), b"3").unwrap();
    let _ = fs.touch("a".to_string(), b"4");
    let _ = fs.mkdir("b".to_string());
    let mut names = fs.ls().unwrap();
    assert_eq!(names, vec!["a".to_string(), "b/".to_string(), "c".to_string()]);
    names.sort();
    names.dedup();
    assert_eq!(names.len(), 3);
}

#[test]
fn illegal_names_are_rejected() {
    let mut fs = fresh();
    let err = fs.touch("a/b".to_string(), b"x").unwrap_err();
    assert_eq!(err, FsError::IllegalName("a/b".to_string()));
    assert_eq!(err.message(), "Illegal filename: a/b");
    let err = fs.mkdir("a/b".to_string()).unwrap_err();
    assert_eq!(err, FsError::IllegalDirectoryName("a/b".to_string()));
    assert_eq!(err.message(), "Illegal directory name: a/b");
}

#[test]
fn lookup_errors_name_the_entry() {
    let mut fs = fresh();
    let err = fs.cat("nope".to_string()).unwrap_err();
    assert_eq!(err, FsError::NotFound("nope".to_string()));
    assert_eq!(err.message(), "Unknown filename: nope");
    let err = fs.rm("nope".to_string()).unwrap_err();
    assert_eq!(err, FsError::NotFound("nope".to_string()));
    let err = fs.cd("nowhere".to_string()).unwrap_err();
    assert_eq!(err, FsError::NotFoundDirectory("nowhere/".to_string()));
    assert_eq!(err.message(), "Unknown directory name: nowhere/");
    fs.touch("plain".to_string(), b"x").unwrap();
    let err = fs.cd("plain".to_string()).unwrap_err();
    assert_eq!(err, FsError::NotFoundDirectory("plain/".to_string()));
}

#[test]
fn rm_accepts_the_bare_directory_name() {
    let mut fs = fresh();
    fs.mkdir("d".to_string()).unwrap();
    fs.rm("d".to_string()).unwrap();
    assert!(fs.ls().unwrap().is_empty());
    fs.mkdir("e".to_string()).unwrap();
    fs.rm("e/".to_string()).unwrap();
    assert!(fs.ls().unwrap().is_empty());
}

#[test]
fn file_too_big_is_rejected() {
    let mut fs = fresh();
    let content = vec![b'x'; 12 * 1024 + 1];
    let err = fs.touch("big".to_string(), &content).unwrap_err();
    assert_eq!(err, FsError::FileTooBig);
    assert_eq!(err.message(), "The file is too big");
}

#[test]
fn largest_file_fits_exactly() {
    let mut fs = fresh();
    let content = vec![b'y'; 12 * 1024 - 8];
    fs.touch("big".to_string(), &content).unwrap();
    let text = fs.cat("big".to_string()).unwrap();
    assert_eq!(text.len(), 12 * 1024 - 8);
    assert!(text.bytes().all(|b| b == b'y'));
}

#[test]
fn volume_runs_out_of_blocks() {
    let mut fs = fresh();
    let content = vec![b'z'; 12 * 1024 - 8];
    let mut last = Ok(());
    for i in 0..200 {
        last = fs.touch(format!("f{}", i), &content);
        if last.is_err() {
            break;
        }
    }
    assert_eq!(last.unwrap_err(), FsError::NoFreeBlock);
}

#[test]
fn cat_on_directory_is_a_codec_error() {
    let mut fs = fresh();
    fs.mkdir("d".to_string()).unwrap();
    let err = fs.cat("d/".to_string()).unwrap_err();
    assert_eq!(err, FsError::CodecError);
}

#[test]
fn cat_decodes_non_ascii_text() {
    let mut fs = fresh();
    fs.touch("greeting".to_string(), "héllo wörld".as_bytes()).unwrap();
    assert_eq!(fs.cat("greeting".to_string()).unwrap(), "héllo wörld");
}

#[test]
fn cat_rejects_invalid_utf8() {
    let mut fs = fresh();
    fs.touch("raw".to_string(), &[0xff, 0xfe, 0x01]).unwrap();
    let err = fs.cat("raw".to_string()).unwrap_err();
    assert_eq!(err, FsError::CodecError);
}

#[test]
fn nested_navigation_keeps_path_and_cursor_in_step() {
    let mut fs = fresh();
    fs.mkdir("a".to_string()).unwrap();
    fs.cd("a".to_string()).unwrap();
    fs.mkdir("b".to_string()).unwrap();
    fs.cd("b".to_string()).unwrap();
    assert_eq!(fs.pwd().as_str(), "/a/b/");
    fs.touch("deep".to_string(), b"down").unwrap();
    assert_eq!(fs.cat("deep".to_string()).unwrap(), "down");
    fs.cd("..".to_string()).unwrap();
    assert_eq!(fs.pwd().as_str(), "/a/");
    assert_eq!(fs.ls().unwrap(), vec!["b/".to_string(), "..".to_string()]);
    fs.cd("..".to_string()).unwrap();
    assert_eq!(fs.pwd().as_str(), "/");
}

#[test]
fn empty_content_round_trips() {
    let mut fs = fresh();
    fs.touch("empty".to_string(), b"").unwrap();
    assert_eq!(fs.cat("empty".to_string()).unwrap(), "");
}
