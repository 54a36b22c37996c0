use memfs::DecodingError;
use memfs::FileSystem;

fn push_count(out: &mut Vec<u8>, n: u64) {
    out.extend_from_slice(&n.to_le_bytes());
}

fn push_code_point(out: &mut Vec<u8>, c: u32) {
    out.extend_from_slice(&c.to_le_bytes());
}

fn push_name(out: &mut Vec<u8>, name: &str) {
    push_count(out, name.chars().count() as u64);
    for c in name.chars() {
        push_code_point(out, c as u32);
    }
}

#[test]
fn test_save_and_load_filesystem() {
    let mut fs = FileSystem::new();
    fs.create_directory("/", "dir1").expect("Directory not found");
    fs.create_file("/dir1", "file1.txt", b"Hello, world!".to_vec()).expect("Directory not found");

    let saved = fs.save();
    let loaded_fs = FileSystem::load(&saved).expect("Failed to load filesystem");

    let dir = loaded_fs.root.get_directory("dir1").expect("Directory not found");
    let file = dir.get_file("file1.txt").expect("File not found");

    assert_eq!(file.name, "file1.txt");
    assert_eq!(file.content, b"Hello, world!");
}

#[test]
fn test_round_trip_nested_tree_with_binary_content() {
    let mut fs = FileSystem::new();
    fs.create_directory("/", "outer").unwrap();
    fs.create_directory("/outer", "inner").unwrap();
    fs.create_file("/outer/inner", "blob.bin", vec![0xFF, 0x00, 0xFE, 0x80, 0x01]).unwrap();
    fs.create_file("/outer", "léger 日本.txt", vec![0xC0]).unwrap();
    fs.create_file("/", "top", vec![]).unwrap();

    let saved = fs.save();
    let loaded = FileSystem::load(&saved).expect("Failed to load filesystem");

    let inner = loaded.root.get_directory("outer").unwrap().get_directory("inner").unwrap();
    assert_eq!(inner.get_file("blob.bin").unwrap().content, vec![0xFF, 0x00, 0xFE, 0x80, 0x01]);
    let outer = loaded.root.get_directory("outer").unwrap();
    assert_eq!(outer.get_file("léger 日本.txt").unwrap().content, vec![0xC0]);
    assert_eq!(loaded.root.get_file("top").unwrap().content, Vec::<u8>::new());

    assert_eq!(loaded.save(), saved);
}

#[test]
fn test_save_of_empty_root_is_exact() {
    let fs = FileSystem::new();
    let mut expected: Vec<u8> = Vec::new();
    push_name(&mut expected, "root");
    push_count(&mut expected, 0);
    push_count(&mut expected, 0);
    assert_eq!(fs.save(), expected);
}

#[test]
fn test_save_of_one_file_is_exact() {
    let mut fs = FileSystem::new();
    fs.create_file("/", "ab", vec![9, 8]).unwrap();
    let mut expected: Vec<u8> = Vec::new();
    push_name(&mut expected, "root");
    push_count(&mut expected, 1);
    push_name(&mut expected, "ab");
    push_count(&mut expected, 2);
    expected.push(9);
    expected.push(8);
    push_count(&mut expected, 0);
    assert_eq!(fs.save(), expected);
}

#[test]
fn test_load_of_empty_input_is_truncated() {
    let bytes: Vec<u8> = Vec::new();
    assert!(matches!(FileSystem::load(&bytes), Err(DecodingError::Truncated)));
}

#[test]
fn test_load_of_truncated_stream_fails() {
    let mut fs = FileSystem::new();
    fs.create_directory("/", "d").unwrap();
    fs.create_file("/d", "f", vec![1, 2, 3]).unwrap();
    let mut bytes = fs.save();
    bytes.pop();
    assert!(matches!(FileSystem::load(&bytes), Err(DecodingError::Truncated)));
}

#[test]
fn test_load_of_trailing_bytes_fails() {
    let fs = FileSystem::new();
    let mut bytes = fs.save();
    bytes.push(0);
    assert!(matches!(FileSystem::load(&bytes), Err(DecodingError::TrailingBytes)));
}

#[test]
fn test_load_of_surrogate_code_point_fails() {
    let mut bytes: Vec<u8> = Vec::new();
    push_count(&mut bytes, 1);
    push_code_point(&mut bytes, 0xD800);
    assert!(matches!(FileSystem::load(&bytes), Err(DecodingError::InvalidChar)));
}

#[test]
fn test_load_of_duplicate_file_names_fails() {
    let mut bytes: Vec<u8> = Vec::new();
    push_name(&mut bytes, "r");
    push_count(&mut bytes, 2);
    push_name(&mut bytes, "a");
    push_count(&mut bytes, 0);
    push_name(&mut bytes, "a");
    push_count(&mut bytes, 0);
    push_count(&mut bytes, 0);
    assert!(matches!(FileSystem::load(&bytes), Err(DecodingError::DuplicateName)));
}

#[test]
fn test_load_of_duplicate_directory_names_fails() {
    let mut bytes: Vec<u8> = Vec::new();
    push_name(&mut bytes, "r");
    push_count(&mut bytes, 0);
    push_count(&mut bytes, 2);
    for _ in 0..2 {
        push_name(&mut bytes, "child");
        push_count(&mut bytes, 0);
        push_count(&mut bytes, 0);
    }
    assert!(matches!(FileSystem::load(&bytes), Err(DecodingError::DuplicateName)));
}

#[test]
fn test_load_of_hand_built_stream_succeeds() {
    let mut bytes: Vec<u8> = Vec::new();
    push_name(&mut bytes, "root");
    push_count(&mut bytes, 1);
    push_name(&mut bytes, "x");
    push_count(&mut bytes, 1);
    bytes.push(0xAB);
    push_count(&mut bytes, 1);
    push_name(&mut bytes, "kid");
    push_count(&mut bytes, 0);
    push_count(&mut bytes, 0);
    let fs = FileSystem::load(&bytes).unwrap();
    assert_eq!(fs.root.get_file("x").unwrap().content, vec![0xAB]);
    assert_eq!(fs.root.get_directory("kid").unwrap().name, "kid");
    assert_eq!(fs.save(), bytes);
}
