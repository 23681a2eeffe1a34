use blog_os_kernel::io::fs::{Directory, File, FileSystem, FsNode, WriteMode};

#[test]
fn file_write_modes() {
    let mut f = File::new("notes.txt", b"abc");
    assert_eq!(f.name(), "notes.txt");
    assert_eq!(f.read(), b"abc");
    f.write(b"def", WriteMode::Append);
    assert_eq!(f.read(), b"abcdef");
    f.write(b"xy", WriteMode::Overwrite);
    assert_eq!(f.read(), b"xy");
    assert_eq!(f.name(), "notes.txt");
}

#[test]
fn create_then_read_file() {
    let mut fs = FileSystem::new();
    assert_eq!(fs.root().name(), "root");
    fs.create_file("hello.txt", b"Hello, world!");
    assert_eq!(fs.read_file("hello.txt"), Some(&b"Hello, world!"[..]));
    assert_eq!(fs.read_file("missing.txt"), None);
}

#[test]
fn write_file_overwrites_existing_file_only() {
    let mut fs = FileSystem::new();
    fs.create_file("a", b"first");
    assert!(fs.write_file("a", b"second"));
    assert_eq!(fs.read_file("a"), Some(&b"second"[..]));
    assert!(!fs.write_file("b", b"nothing"));
    assert_eq!(fs.read_file("b"), None);
    assert_eq!(fs.list_root(), vec!["a"]);
}

#[test]
fn create_file_replaces_same_name() {
    let mut fs = FileSystem::new();
    fs.create_file("a", b"one");
    fs.create_file("a", b"two");
    assert_eq!(fs.list_root(), vec!["a"]);
    assert_eq!(fs.read_file("a"), Some(&b"two"[..]));
}

#[test]
fn list_root_is_sorted_by_name() {
    let mut fs = FileSystem::new();
    fs.create_file("charlie", b"");
    fs.create_file("alpha", b"");
    fs.create_file("bravo", b"");
    fs.create_file("B", b"");
    fs.create_file("al", b"");
    assert_eq!(fs.list_root(), vec!["B", "al", "alpha", "bravo", "charlie"]);
}

#[test]
fn iter_yields_files_in_name_order() {
    let mut fs = FileSystem::new();
    fs.create_file("z", b"1");
    fs.create_file("m", b"2");
    let files: Vec<&str> = fs.iter().iter().map(|f| f.name()).collect();
    assert_eq!(files, vec!["m", "z"]);
}

#[test]
fn directories_hold_children() {
    let mut dir = Directory::new("docs");
    assert_eq!(dir.name(), "docs");
    assert!(dir.get_child("x").is_none());
    dir.add_child(FsNode::File(File::new("x", b"data")));
    dir.add_child(FsNode::Directory(Directory::new("sub")));
    match dir.get_child("x") {
        Some(FsNode::File(f)) => assert_eq!(f.read(), b"data"),
        _ => panic!("expected a file"),
    }
    match dir.get_child("sub") {
        Some(FsNode::Directory(d)) => assert_eq!(d.name(), "sub"),
        _ => panic!("expected a directory"),
    }
    match dir.get_child_mut("x") {
        Some(FsNode::File(f)) => f.write(b"!", WriteMode::Append),
        _ => panic!("expected a file"),
    }
    match dir.get_child("x") {
        Some(FsNode::File(f)) => assert_eq!(f.read(), b"data!"),
        _ => panic!("expected a file"),
    }
}

#[test]
fn read_after_write_sees_new_content() {
    let mut fs = FileSystem::new();
    fs.create_file("a.txt", b"one");
    fs.create_file("b.txt", b"two");
    assert!(fs.write_file("a.txt", b"three"));
    assert_eq!(fs.read_file("a.txt"), Some(&b"three"[..]));
    assert_eq!(fs.read_file("b.txt"), Some(&b"two"[..]));
    assert!(!fs.write_file("c.txt", b"x"));
    assert_eq!(fs.read_file("c.txt"), None);
}
