use memfs::Directory;
use memfs::File;
use memfs::FileSystem;

#[test]
fn test_create_file() {
    let mut fs = FileSystem::new();
    fs.create_directory("/", "dir1").expect("Directory not found");
    fs.create_file("/dir1", "file1.txt", b"Hello, world!".to_vec()).expect("Directory not found");

    let dir = fs.root.get_directory("dir1").expect("Directory not found");
    let file = dir.get_file("file1.txt").expect("File not found");

    assert_eq!(file.name, "file1.txt");
    assert_eq!(file.content, b"Hello, world!");
}

#[test]
fn test_create_directory() {
    let mut fs = FileSystem::new();
    fs.create_directory("/", "dir1").expect("Directory not found");
    fs.create_directory("/dir1", "dir2").expect("Directory not found");

    let dir1 = fs.root.get_directory("dir1").expect("Directory not found");
    let dir2 = dir1.get_directory("dir2").expect("Directory not found");

    assert_eq!(dir1.name, "dir1");
    assert_eq!(dir2.name, "dir2");
}

#[test]
fn test_new_filesystem_has_empty_root() {
    let fs = FileSystem::new();
    assert_eq!(fs.root.name, "root");
    assert_eq!(fs.root.files.len(), 0);
    assert_eq!(fs.root.directories.len(), 0);
}

#[test]
fn test_create_then_resolve_child_path() {
    let mut fs = FileSystem::new();
    fs.create_directory("/", "a").unwrap();
    fs.create_directory("/a", "b").unwrap();
    fs.create_directory("/a/b", "c").unwrap();
    let c = fs
        .root
        .get_directory("a")
        .unwrap()
        .get_directory("b")
        .unwrap()
        .get_directory("c")
        .unwrap();
    assert_eq!(c.name, "c");
    assert_eq!(c.files.len(), 0);
    assert_eq!(c.directories.len(), 0);
}

#[test]
fn test_missing_intermediate_fails_and_leaves_tree_unchanged() {
    let mut fs = FileSystem::new();
    fs.create_directory("/", "dir1").unwrap();
    fs.create_file("/dir1", "keep.txt", vec![1, 2, 3]).unwrap();
    let snapshot = fs.save();

    let e = fs.create_file("/missing/sub", "f.txt", vec![9]).unwrap_err();
    assert_eq!(e.missing_segment, "missing");
    assert_eq!(e.consumed_prefix.len(), 0);
    assert_eq!(fs.save(), snapshot);

    let e = fs.create_directory("/dir1/nope/deeper", "x").unwrap_err();
    assert_eq!(e.missing_segment, "nope");
    assert_eq!(e.consumed_prefix, vec!["dir1".to_string()]);
    assert_eq!(fs.save(), snapshot);
}

#[test]
fn test_overwrite_file_replaces_content() {
    let mut fs = FileSystem::new();
    fs.create_directory("/", "d").unwrap();
    fs.create_file("/d", "f.bin", vec![1, 1, 1]).unwrap();
    fs.create_file("/d", "f.bin", vec![2, 2]).unwrap();
    let d = fs.root.get_directory("d").unwrap();
    assert_eq!(d.files.len(), 1);
    let f = d.get_file("f.bin").unwrap();
    assert_eq!(f.content, vec![2, 2]);
}

#[test]
fn test_overwrite_directory_discards_subtree() {
    let mut fs = FileSystem::new();
    fs.create_directory("/", "dir1").unwrap();
    fs.create_directory("/dir1", "dir2").unwrap();
    fs.create_file("/dir1/dir2", "old.txt", vec![7]).unwrap();
    fs.create_directory("/", "dir1").unwrap();
    let dir1 = fs.root.get_directory("dir1").unwrap();
    assert_eq!(dir1.directories.len(), 0);
    assert_eq!(dir1.files.len(), 0);
    assert_eq!(fs.root.directories.len(), 1);
}

#[test]
fn test_file_and_directory_may_share_a_name() {
    let mut fs = FileSystem::new();
    fs.create_directory("/", "same").unwrap();
    fs.create_file("/", "same", vec![5]).unwrap();
    assert!(fs.root.get_directory("same").is_some());
    assert!(fs.root.get_file("same").is_some());
}

#[test]
fn test_separator_forms_resolve_to_root() {
    let mut fs = FileSystem::new();
    fs.create_directory("", "a").unwrap();
    fs.create_directory("///", "b").unwrap();
    fs.create_directory("/", "c").unwrap();
    assert!(fs.root.get_directory("a").is_some());
    assert!(fs.root.get_directory("b").is_some());
    assert!(fs.root.get_directory("c").is_some());
    fs.create_file("//a//", "f.txt", vec![1]).unwrap();
    let a = fs.root.get_directory("a").unwrap();
    assert!(a.get_file("f.txt").is_some());
}

#[test]
fn test_resolve_returns_the_addressed_directory() {
    let mut fs = FileSystem::new();
    fs.create_directory("/", "a").unwrap();
    fs.create_directory("/a", "b").unwrap();
    assert_eq!(fs.resolve("/").unwrap().name, "root");
    assert_eq!(fs.resolve("").unwrap().name, "root");
    assert_eq!(fs.resolve("/a").unwrap().name, "a");
    assert_eq!(fs.resolve("/a/b/").unwrap().name, "b");
    let e = fs.resolve("/a/nope/c").unwrap_err();
    assert_eq!(e.missing_segment, "nope");
    assert_eq!(e.consumed_prefix, vec!["a".to_string()]);
}

#[test]
fn test_directory_add_and_get() {
    let mut d = Directory::new("home");
    assert_eq!(d.name, "home");
    d.add_file(File { name: "a.txt".to_string(), content: vec![10] });
    d.add_file(File { name: "a.txt".to_string(), content: vec![20, 30] });
    d.add_directory(Directory::new("sub"));
    assert_eq!(d.files.len(), 1);
    assert_eq!(d.get_file("a.txt").unwrap().content, vec![20, 30]);
    assert!(d.get_file("b.txt").is_none());
    assert_eq!(d.get_directory("sub").unwrap().name, "sub");
    assert!(d.get_directory("other").is_none());
}
