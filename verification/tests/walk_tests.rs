use backer_list::record::{composite_key_of, FileMap, FileRecord};
use backer_list::walk::{walk_files, FsDir, FsEntry, WalkError};

fn file(name: &str, size: u64) -> FsEntry {
    FsEntry::File { name: name.to_string(), size }
}

fn dir(name: &str, readable: bool, entries: Vec<FsEntry>) -> FsEntry {
    FsEntry::Dir { name: name.to_string(), dir: FsDir { readable, entries } }
}

fn walk(root: FsDir) -> (Result<(), WalkError>, FileMap) {
    let mut files = FileMap::new();
    let r = walk_files(&root, &"root".to_string(), &mut files);
    (r, files)
}

#[test]
fn root_file_and_subdirectory() {
    let root = FsDir {
        readable: true,
        entries: vec![file("a.txt", 5), dir("sub", true, vec![file("b.txt", 3)])],
    };
    let (r, files) = walk(root);
    assert!(r.is_ok());
    assert_eq!(files.len(), 2);
    let a = files.get(&"a.txt-5".to_string()).expect("a.txt missing");
    assert_eq!(a.name, "a.txt");
    assert_eq!(a.size, 5);
    assert_eq!(a.path, "root/a.txt");
    assert_eq!(a.digest, "");
    let b = files.get(&"b.txt-3".to_string()).expect("b.txt missing");
    assert_eq!(b.name, "b.txt");
    assert_eq!(b.size, 3);
    assert_eq!(b.path, "root/sub/b.txt");
    assert_eq!(b.digest, "");
}

#[test]
fn unreadable_root_fails_with_no_records() {
    let root = FsDir { readable: false, entries: vec![] };
    let (r, files) = walk(root);
    assert_eq!(r, Err(WalkError::DirUnreadable));
    assert_eq!(files.len(), 0);
}

#[test]
fn unreadable_subdirectory_is_swallowed() {
    let root = FsDir {
        readable: true,
        entries: vec![dir("locked", false, vec![file("hidden.txt", 9)]), file("c.txt", 7)],
    };
    let (r, files) = walk(root);
    assert!(r.is_ok());
    assert_eq!(files.len(), 1);
    let c = files.get(&"c.txt-7".to_string()).expect("c.txt missing");
    assert_eq!(c.name, "c.txt");
    assert_eq!(c.size, 7);
    assert!(files.get(&"hidden.txt-9".to_string()).is_none());
}

#[test]
fn same_name_and_size_keeps_last_processed() {
    let root = FsDir {
        readable: true,
        entries: vec![file("a.txt", 5), dir("sub", true, vec![file("a.txt", 5)])],
    };
    let (r, files) = walk(root);
    assert!(r.is_ok());
    assert_eq!(files.len(), 1);
    let a = files.get(&"a.txt-5".to_string()).expect("a.txt missing");
    assert_eq!(a.name, "a.txt");
    assert_eq!(a.size, 5);
    assert_eq!(a.path, "root/sub/a.txt");
}

#[test]
fn metadata_failure_aborts_but_keeps_earlier_records() {
    let root = FsDir {
        readable: true,
        entries: vec![file("c.txt", 7), FsEntry::Unknown, file("d.txt", 8)],
    };
    let (r, files) = walk(root);
    assert_eq!(r, Err(WalkError::MetadataUnavailable));
    assert_eq!(files.len(), 1);
    assert!(files.get(&"c.txt-7".to_string()).is_some());
    assert!(files.get(&"d.txt-8".to_string()).is_none());
}

#[test]
fn metadata_failure_inside_subdirectory_is_swallowed() {
    let root = FsDir {
        readable: true,
        entries: vec![
            dir("sub", true, vec![file("kept.txt", 1), FsEntry::Unknown, file("cut.txt", 2)]),
            file("after.txt", 3),
        ],
    };
    let (r, files) = walk(root);
    assert!(r.is_ok());
    assert_eq!(files.len(), 2);
    assert!(files.get(&"kept.txt-1".to_string()).is_some());
    assert!(files.get(&"cut.txt-2".to_string()).is_none());
    assert!(files.get(&"after.txt-3".to_string()).is_some());
}

#[test]
fn other_entries_are_skipped() {
    let root = FsDir {
        readable: true,
        entries: vec![FsEntry::Other, file("e.txt", 4)],
    };
    let (r, files) = walk(root);
    assert!(r.is_ok());
    assert_eq!(files.len(), 1);
    assert!(files.get(&"e.txt-4".to_string()).is_some());
}

#[test]
fn dash_in_name_does_not_collide() {
    // "x-3" of size 4 and "x" of size 34 must stay two distinct records.
    let root = FsDir {
        readable: true,
        entries: vec![file("x-3", 4), file("x", 34)],
    };
    let (r, files) = walk(root);
    assert!(r.is_ok());
    assert_eq!(files.len(), 2);
    assert!(files.get(&"x-3-4".to_string()).is_some());
    assert!(files.get(&"x-34".to_string()).is_some());
}

#[test]
fn zero_and_huge_sizes() {
    let root = FsDir {
        readable: true,
        entries: vec![file("empty", 0), file("big", u64::MAX)],
    };
    let (r, files) = walk(root);
    assert!(r.is_ok());
    assert_eq!(files.len(), 2);
    assert!(files.get(&"empty-0".to_string()).is_some());
    assert!(files
        .get(&"big-18446744073709551615".to_string())
        .is_some());
}

#[test]
fn insert_overwrites_record_with_same_key() {
    let mut files = FileMap::new();
    let first = FileRecord {
        name: "a.txt".to_string(),
        path: "root/a.txt".to_string(),
        size: 5,
        digest: String::new(),
    };
    let second = FileRecord {
        name: "a.txt".to_string(),
        path: "root/sub/a.txt".to_string(),
        size: 5,
        digest: String::new(),
    };
    let k1 = composite_key_of(&first);
    let k2 = composite_key_of(&second);
    assert_eq!(k1, "a.txt-5");
    assert_eq!(k1, k2);
    files.insert(k1, first);
    files.insert(k2, second);
    assert_eq!(files.len(), 1);
    let kept = files.get(&"a.txt-5".to_string()).expect("record missing");
    assert_eq!(kept.path, "root/sub/a.txt");
}

#[test]
fn deeply_nested_files_are_included_transitively() {
    let root = FsDir {
        readable: true,
        entries: vec![dir(
            "sub1",
            true,
            vec![dir("sub2", true, vec![file("deep.txt", 11)])],
        )],
    };
    let (r, files) = walk(root);
    assert!(r.is_ok());
    assert_eq!(files.len(), 1);
    let deep = files.get(&"deep.txt-11".to_string()).expect("deep.txt missing");
    assert_eq!(deep.path, "root/sub1/sub2/deep.txt");
}

#[test]
fn three_way_shadowing_keeps_the_last() {
    let root = FsDir {
        readable: true,
        entries: vec![
            file("a.txt", 5),
            dir("first", true, vec![file("a.txt", 5)]),
            dir("second", true, vec![file("a.txt", 5)]),
        ],
    };
    let (r, files) = walk(root);
    assert!(r.is_ok());
    assert_eq!(files.len(), 1);
    let a = files.get(&"a.txt-5".to_string()).expect("a.txt missing");
    assert_eq!(a.path, "root/second/a.txt");
}

#[test]
fn empty_readable_root() {
    let root = FsDir { readable: true, entries: vec![] };
    let (r, files) = walk(root);
    assert!(r.is_ok());
    assert_eq!(files.len(), 0);
}
