use memfs::MemFs;
use memfs::MemFsDirectory;
use memfs::MemFsFile;
use memfs::Node;

fn seed() -> MemFs {
    let mut subdir = MemFsDirectory::new("subdir");
    subdir.add_file(MemFsFile::new("c.txt", b"c contents\n".to_vec()));
    MemFs::new()
        .add_file(MemFsFile::new("a.txt", b"a contents\n".to_vec()))
        .add_file(MemFsFile::new("b.txt", b"b contents\n".to_vec()))
        .add_dir(subdir)
}

#[test]
fn root_resolves_for_slash_and_empty() {
    let fs = seed();
    match fs.search("/") {
        Some(Node::Directory(_)) => {}
        _ => panic!("root path must resolve to a directory"),
    }
    match fs.search("") {
        Some(Node::Directory(_)) => {}
        _ => panic!("empty path must resolve to a directory"),
    }
}

#[test]
fn file_at_root_resolves_with_name_and_data() {
    let fs = seed();
    match fs.search("/a.txt") {
        Some(Node::File(f)) => {
            assert_eq!(f.name(), "a.txt");
            assert_eq!(f.data(), b"a contents\n".to_vec());
        }
        _ => panic!("/a.txt must resolve to a file"),
    }
}

#[test]
fn file_in_subdir_resolves() {
    let fs = seed();
    match fs.search("/subdir/c.txt") {
        Some(Node::File(f)) => {
            assert_eq!(f.name(), "c.txt");
            assert_eq!(f.data(), b"c contents\n".to_vec());
        }
        _ => panic!("/subdir/c.txt must resolve to a file"),
    }
    let d = fs.getdir("/subdir").expect("/subdir must be a directory");
    let names: Vec<String> = d.files().iter().map(|f| f.name()).collect();
    assert_eq!(names, vec![String::from("c.txt")]);
}

#[test]
fn unmatched_segment_resolves_to_nothing() {
    let fs = seed();
    assert!(fs.search("/missing.txt").is_none());
    assert!(fs.search("/subdir/missing.txt").is_none());
    assert!(fs.search("/nodir/c.txt").is_none());
    assert!(fs.getdir("/missing").is_none());
}

#[test]
fn empty_segment_matches_no_entry() {
    let fs = seed();
    assert!(fs.search("//a.txt").is_none());
}

#[test]
fn second_file_of_same_name_wins() {
    let fs = MemFs::new()
        .add_file(MemFsFile::new("x.txt", b"first".to_vec()))
        .add_file(MemFsFile::new("x.txt", b"second".to_vec()));
    match fs.search("/x.txt") {
        Some(Node::File(f)) => assert_eq!(f.data(), b"second".to_vec()),
        _ => panic!("/x.txt must resolve to a file"),
    }
}

#[test]
fn second_directory_of_same_name_wins() {
    let mut full = MemFsDirectory::new("d");
    full.add_file(MemFsFile::new("old.txt", b"old".to_vec()));
    let empty = MemFsDirectory::new("d");
    let fs = MemFs::new().add_dir(full).add_dir(empty);
    let d = fs.getdir("/d").expect("/d must be a directory");
    assert!(d.files().is_empty());
    assert!(fs.search("/d/old.txt").is_none());
}

#[test]
fn getdir_on_a_file_is_absent() {
    let fs = seed();
    assert!(fs.getdir("/a.txt").is_none());
}

#[test]
fn lookups_are_repeatable() {
    let fs = seed();
    for _ in 0..2 {
        match fs.search("/a.txt") {
            Some(Node::File(f)) => {
                assert_eq!(f.name(), "a.txt");
                assert_eq!(f.data(), b"a contents\n".to_vec());
            }
            _ => panic!("/a.txt must resolve to a file"),
        }
    }
    let first = fs.getdir("/subdir").expect("present");
    let second = fs.getdir("/subdir").expect("present");
    assert_eq!(first.name(), second.name());
    assert_eq!(first.files().len(), second.files().len());
}

#[test]
fn file_shadows_directory_of_same_name() {
    let mut d = MemFsDirectory::new("x");
    d.add_file(MemFsFile::new("inner.txt", b"inner".to_vec()));
    let fs = MemFs::new()
        .add_dir(d)
        .add_file(MemFsFile::new("x", b"file wins".to_vec()));
    match fs.search("/x") {
        Some(Node::File(f)) => assert_eq!(f.data(), b"file wins".to_vec()),
        _ => panic!("a file and a directory sharing a name resolve to the file"),
    }
    assert!(fs.getdir("/x").is_none());
}

#[test]
fn path_past_a_file_resolves_to_nothing() {
    let fs = seed();
    assert!(fs.search("/a.txt/extra").is_none());
    assert!(fs.search("/subdir/c.txt/more").is_none());
}

#[test]
fn trailing_slash_resolves_to_the_directory() {
    let fs = seed();
    match fs.search("/subdir/") {
        Some(Node::Directory(d)) => assert_eq!(d.name(), "subdir"),
        _ => panic!("/subdir/ must resolve to a directory"),
    }
}

#[test]
fn deep_nesting_resolves() {
    let mut inner = MemFsDirectory::new("inner");
    inner.add_file(MemFsFile::new("deep.txt", b"deep".to_vec()));
    let mut outer = MemFsDirectory::new("outer");
    outer.add_dir(inner);
    let fs = MemFs::new().add_dir(outer);
    match fs.search("/outer/inner/deep.txt") {
        Some(Node::File(f)) => assert_eq!(f.data(), b"deep".to_vec()),
        _ => panic!("/outer/inner/deep.txt must resolve to a file"),
    }
    assert!(fs.search("/outer/inner/deep.txt/x").is_none());
    assert!(fs.search("/outer/wrong/deep.txt").is_none());
}

#[test]
fn seed_scenario_listing() {
    let fs = seed();
    match fs.search("/") {
        Some(Node::Directory(root)) => {
            let mut file_names: Vec<String> = root.files().iter().map(|f| f.name()).collect();
            file_names.sort();
            assert_eq!(file_names, vec![String::from("a.txt"), String::from("b.txt")]);
            let dir_names: Vec<String> =
                root.directories().iter().map(|d| d.name()).collect();
            assert_eq!(dir_names, vec![String::from("subdir")]);
        }
        _ => panic!("/ must resolve to the root directory"),
    }
    let sub = fs.getdir("/subdir").expect("/subdir must be a directory");
    assert_eq!(sub.files().len(), 1);
    assert_eq!(sub.files()[0].name(), "c.txt");
    assert_eq!(sub.files()[0].data(), b"c contents\n".to_vec());
    assert!(sub.directories().is_empty());
}

#[test]
fn directory_search_is_relative_to_that_directory() {
    let mut sub = MemFsDirectory::new("sub");
    sub.add_file(MemFsFile::new("f.txt", b"payload".to_vec()));
    match sub.search("/f.txt") {
        Some(Node::File(f)) => assert_eq!(f.data(), b"payload".to_vec()),
        _ => panic!("/f.txt must resolve against the directory itself"),
    }
    match sub.search("") {
        Some(Node::Directory(d)) => assert_eq!(d.name(), "sub"),
        _ => panic!("the empty path must resolve to the directory itself"),
    }
}

#[test]
fn lookups_return_independent_copies() {
    let fs = seed();
    let mut copy = fs.getdir("/subdir").expect("present");
    copy.add_file(MemFsFile::new("new.txt", b"new".to_vec()));
    // The namespace itself is unchanged by mutating the returned copy.
    assert!(fs.search("/subdir/new.txt").is_none());
    assert_eq!(
        fs.getdir("/subdir").expect("present").files().len(),
        1
    );
}
