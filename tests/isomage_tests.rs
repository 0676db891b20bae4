use isomage::iso9660::{parse_directory_record, parse_iso9660, IsoError, MAX_DEPTH};
use isomage::{
    detect_and_parse_filesystem, extract_node, extract_path, file_contents, DetectError, ExtractError,
    ExtractStep, TreeNode,
};

const SECTOR: usize = 2048;

fn record(loc: u32, len: u32, flags: u8, name: &[u8]) -> Vec<u8> {
    let mut size = 33 + name.len();
    if size % 2 == 1 {
        size += 1;
    }
    let mut r = vec![0u8; size];
    r[0] = size as u8;
    r[2..6].copy_from_slice(&loc.to_le_bytes());
    r[6..10].copy_from_slice(&loc.to_be_bytes());
    r[10..14].copy_from_slice(&len.to_le_bytes());
    r[14..18].copy_from_slice(&len.to_be_bytes());
    r[25] = flags;
    r[32] = name.len() as u8;
    r[33..33 + name.len()].copy_from_slice(name);
    r
}

fn put(image: &mut Vec<u8>, at: usize, bytes: &[u8]) {
    if image.len() < at + bytes.len() {
        image.resize(at + bytes.len(), 0);
    }
    image[at..at + bytes.len()].copy_from_slice(bytes);
}

/// An image whose root directory lies at `root_sector` with the given bytes.
fn image_with_root(root_sector: u32, root_len: u32, sectors: usize) -> Vec<u8> {
    let mut image = vec![0u8; sectors * SECTOR];
    let pvd = 16 * SECTOR;
    image[pvd] = 1;
    image[pvd + 1..pvd + 6].copy_from_slice(b"CD001");
    let root = record(root_sector, root_len, 2, &[0]);
    put(&mut image, pvd + 156, &root);
    image
}

fn dir_extent(entries: &[Vec<u8>], self_loc: u32, parent_loc: u32, len: u32) -> Vec<u8> {
    let mut bytes = Vec::new();
    bytes.extend(record(self_loc, len, 2, &[0]));
    bytes.extend(record(parent_loc, len, 2, &[1]));
    for e in entries {
        bytes.extend(e.iter());
    }
    bytes
}

fn hello_image() -> Vec<u8> {
    let mut image = image_with_root(18, SECTOR as u32, 20);
    let root = dir_extent(&[record(19, 5, 0, b"HELLO.TXT;1")], 18, 18, SECTOR as u32);
    put(&mut image, 18 * SECTOR, &root);
    put(&mut image, 19 * SECTOR, b"hello");
    image
}

fn nested_image() -> Vec<u8> {
    let mut image = image_with_root(18, SECTOR as u32, 23);
    let root = dir_extent(
        &[record(20, SECTOR as u32, 2, b"SUBDIR"), record(21, 3, 0, b"TOP.TXT;1")],
        18,
        18,
        SECTOR as u32,
    );
    put(&mut image, 18 * SECTOR, &root);
    let sub = dir_extent(&[record(22, 7, 0, b"INNER.TXT;1")], 20, 18, SECTOR as u32);
    put(&mut image, 20 * SECTOR, &sub);
    put(&mut image, 21 * SECTOR, b"top");
    put(&mut image, 22 * SECTOR, b"innerrr");
    image
}

fn names(node: &TreeNode) -> Vec<String> {
    node.children.iter().map(|c| c.name.clone()).collect()
}

fn assert_well_formed(node: &TreeNode) {
    assert!(!node.name.is_empty());
    if !node.is_directory {
        assert!(node.children.is_empty());
    }
    for c in &node.children {
        assert!(c.name != "." && c.name != "..");
        assert_well_formed(c);
    }
}

#[test]
fn test_tree_node_creation() {
    let dir_node = TreeNode::new_directory("test_dir".to_string());
    assert!(dir_node.is_directory);
    assert_eq!(dir_node.name, "test_dir");
    assert_eq!(dir_node.size, 0);
    assert!(dir_node.children.is_empty());

    let file_node = TreeNode::new_file("test_file.txt".to_string(), 1024);
    assert!(!file_node.is_directory);
    assert_eq!(file_node.name, "test_file.txt");
    assert_eq!(file_node.size, 1024);
    assert!(file_node.children.is_empty());
}

#[test]
fn test_directory_size_calculation() {
    let mut root = TreeNode::new_directory("root".to_string());
    root.add_child(TreeNode::new_file("file1.txt".to_string(), 100));
    root.add_child(TreeNode::new_file("file2.txt".to_string(), 200));

    let mut subdir = TreeNode::new_directory("subdir".to_string());
    subdir.add_child(TreeNode::new_file("file3.txt".to_string(), 300));
    root.add_child(subdir);

    root.calculate_directory_size();

    assert_eq!(root.size, 600);
}

#[test]
fn nested_sizes_sum_children() {
    let mut root = TreeNode::new_directory("root".to_string());
    let mut a = TreeNode::new_directory("a".to_string());
    a.add_child(TreeNode::new_file("x".to_string(), 7));
    a.add_child(TreeNode::new_file("y".to_string(), 8));
    root.add_child(a);
    root.add_child(TreeNode::new_directory("empty".to_string()));
    root.add_child(TreeNode::new_file("z".to_string(), 1));
    root.calculate_directory_size();
    assert_eq!(root.children[0].size, 15);
    assert_eq!(root.children[1].size, 0);
    assert_eq!(root.size, 16);
}

#[test]
fn sizes_saturate_at_u64_max() {
    let mut root = TreeNode::new_directory("root".to_string());
    root.add_child(TreeNode::new_file("big".to_string(), u64::MAX));
    root.add_child(TreeNode::new_file("more".to_string(), 5));
    root.calculate_directory_size();
    assert_eq!(root.size, u64::MAX);
}

#[test]
fn file_size_is_left_alone() {
    let mut f = TreeNode::new_file_with_location("f".to_string(), 42, 4096, 42);
    f.calculate_directory_size();
    assert_eq!(f.size, 42);
    assert_eq!(f.file_location, Some(4096));
    assert_eq!(f.file_length, Some(42));
}

#[test]
fn record_names_are_normalised() {
    let r = parse_directory_record(&record(5, 10, 0, b"README.TXT;1")).unwrap();
    assert_eq!(r.filename, "readme.txt");
    assert_eq!(r.extent_location, 5);
    assert_eq!(r.data_length, 10);
    assert!(!r.is_directory);
    let r = parse_directory_record(&record(5, 10, 0, b"DATA.BIN;12")).unwrap();
    assert_eq!(r.filename, "data.bin");
    let r = parse_directory_record(&record(5, 10, 0, b"NOVERSION")).unwrap();
    assert_eq!(r.filename, "noversion");
}

#[test]
fn record_special_names() {
    assert_eq!(parse_directory_record(&record(1, 1, 2, &[])).unwrap().filename, ".");
    assert_eq!(parse_directory_record(&record(1, 1, 2, &[0])).unwrap().filename, ".");
    assert_eq!(parse_directory_record(&record(1, 1, 2, &[1])).unwrap().filename, "..");
    assert!(parse_directory_record(&record(1, 1, 2, &[1])).unwrap().is_directory);
}

#[test]
fn record_invalid_utf8_is_replaced() {
    let r = parse_directory_record(&record(1, 1, 0, &[0xFF, b'A'])).unwrap();
    assert_eq!(r.filename, "\u{FFFD}a");
}

#[test]
fn record_fields_little_endian() {
    let r = parse_directory_record(&record(0x0403_0201, 0x0807_0605, 2, b"D")).unwrap();
    assert_eq!(r.extent_location, 0x0403_0201);
    assert_eq!(r.data_length, 0x0807_0605);
    assert!(r.is_directory);
}

#[test]
fn record_rejections() {
    let short = vec![40u8; 32];
    assert!(matches!(parse_directory_record(&short), Err(IsoError::MalformedRecord)));
    let mut zero = record(1, 1, 0, b"A");
    zero[0] = 0;
    assert!(matches!(parse_directory_record(&zero), Err(IsoError::MalformedRecord)));
    let long_name = record(1, 1, 0, b"ABCDEFGH");
    assert!(matches!(
        parse_directory_record(&long_name[..36]),
        Err(IsoError::MalformedRecord)
    ));
}

#[test]
fn hello_image_end_to_end() {
    let image = hello_image();
    let root = parse_iso9660(&image).unwrap();
    assert_eq!(root.name, "/");
    assert!(root.is_directory);
    assert_eq!(names(&root), vec!["hello.txt".to_string()]);
    let hello = &root.children[0];
    assert_eq!(hello.size, 5);
    assert!(!hello.is_directory);
    assert_eq!(hello.file_location, Some(19 * SECTOR as u64));
    assert_eq!(hello.file_length, Some(5));
    assert_eq!(root.size, 5);
    assert_well_formed(&root);

    let node = root.find_node("hello.txt").unwrap();
    assert_eq!(file_contents(&image, node).unwrap(), b"hello");
    let steps = extract_node(&image, node, ".").unwrap();
    assert_eq!(steps.len(), 1);
    match &steps[0] {
        ExtractStep::WriteFile(path, start, end) => {
            assert_eq!(path, "./hello.txt");
            assert_eq!(&image[*start..*end], b"hello");
        }
        other => panic!("unexpected step {:?}", other),
    }
}

#[test]
fn nested_directory_from_own_extent() {
    let image = nested_image();
    let root = parse_iso9660(&image).unwrap();
    assert_eq!(names(&root), vec!["subdir".to_string(), "top.txt".to_string()]);
    let sub = root.find_node("subdir").unwrap();
    assert!(sub.is_directory);
    assert_eq!(names(sub), vec!["inner.txt".to_string()]);
    assert_eq!(sub.size, 7);
    assert_eq!(root.size, 10);
    let inner = root.find_node("/subdir/inner.txt").unwrap();
    assert_eq!(file_contents(&image, inner).unwrap(), b"innerrr");
    assert_eq!(root.find_node("//subdir//inner.txt/").unwrap().name, "inner.txt");
    assert_well_formed(&root);
}

#[test]
fn find_node_paths() {
    let image = nested_image();
    let root = parse_iso9660(&image).unwrap();
    assert_eq!(root.find_node("").unwrap().name, "/");
    assert_eq!(root.find_node("/").unwrap().name, "/");
    assert!(root.find_node("SUBDIR").is_none());
    assert!(root.find_node("subdir/missing").is_none());
    assert!(root.find_node("top.txt/x").is_none());
}

#[test]
fn extract_whole_tree_steps() {
    let image = nested_image();
    let root = parse_iso9660(&image).unwrap();
    let steps = extract_node(&image, &root, "out").unwrap();
    assert_eq!(steps.len(), 3);
    match &steps[0] {
        ExtractStep::CreateDirectory(p) => assert_eq!(p, "out/subdir"),
        other => panic!("unexpected step {:?}", other),
    }
    match &steps[1] {
        ExtractStep::WriteFile(p, s, e) => {
            assert_eq!(p, "out/subdir/inner.txt");
            assert_eq!(&image[*s..*e], b"innerrr");
        }
        other => panic!("unexpected step {:?}", other),
    }
    match &steps[2] {
        ExtractStep::WriteFile(p, s, e) => {
            assert_eq!(p, "out/top.txt");
            assert_eq!(&image[*s..*e], b"top");
        }
        other => panic!("unexpected step {:?}", other),
    }
}

#[test]
fn extract_errors() {
    let image = hello_image();
    let bare = TreeNode::new_file("bare".to_string(), 3);
    assert!(matches!(file_contents(&image, &bare), Err(ExtractError::MissingExtentMetadata)));
    assert!(matches!(extract_node(&image, &bare, "."), Err(ExtractError::MissingExtentMetadata)));
    let past = TreeNode::new_file_with_location("p".to_string(), 10, image.len() as u64 - 4, 10);
    assert!(matches!(file_contents(&image, &past), Err(ExtractError::ShortRead)));
    let mut dir = TreeNode::new_directory("d".to_string());
    dir.add_child(past);
    assert!(matches!(extract_node(&image, &dir, "."), Err(ExtractError::ShortRead)));
}

#[test]
fn truncated_extent_keeps_earlier_records() {
    let mut image = image_with_root(18, 200, 20);
    let mut bytes = dir_extent(&[record(19, 4, 0, b"A.TXT;1")], 18, 18, 200);
    let mut bad = record(19, 4, 0, b"B.TXT;1");
    bad[0] = 250;
    bytes.extend(bad);
    put(&mut image, 18 * SECTOR, &bytes);
    let root = parse_iso9660(&image).unwrap();
    assert_eq!(names(&root), vec!["a.txt".to_string()]);
}

#[test]
fn padding_between_records_is_skipped() {
    let mut image = image_with_root(18, 3 * SECTOR as u32 / 2, 20);
    let first = dir_extent(&[record(19, 1, 0, b"A;1")], 18, 18, 0);
    put(&mut image, 18 * SECTOR, &first);
    put(&mut image, 18 * SECTOR + 1024, &record(19, 2, 0, b"B;1"));
    let root = parse_iso9660(&image).unwrap();
    assert_eq!(names(&root), vec!["a".to_string(), "b".to_string()]);
    assert_eq!(root.size, 3);
}

#[test]
fn unreadable_subdirectory_is_empty() {
    let mut image = image_with_root(18, SECTOR as u32, 20);
    let root = dir_extent(&[record(1000, SECTOR as u32, 2, b"GONE")], 18, 18, SECTOR as u32);
    put(&mut image, 18 * SECTOR, &root);
    let tree = parse_iso9660(&image).unwrap();
    assert_eq!(names(&tree), vec!["gone".to_string()]);
    assert!(tree.children[0].children.is_empty());
}

#[test]
fn self_referencing_directory_stops_at_depth_limit() {
    let mut image = image_with_root(18, SECTOR as u32, 20);
    let root = dir_extent(&[record(18, SECTOR as u32, 2, b"LOOP")], 18, 18, SECTOR as u32);
    put(&mut image, 18 * SECTOR, &root);
    let tree = parse_iso9660(&image).unwrap();
    let mut depth = 0usize;
    let mut node = &tree;
    while let Some(c) = node.children.first() {
        node = c;
        depth += 1;
    }
    assert_eq!(depth, MAX_DEPTH + 1);
}

#[test]
fn volume_errors() {
    assert!(matches!(parse_iso9660(&vec![0u8; 100]), Err(IsoError::IoError)));
    let mut bad_id = hello_image();
    bad_id[16 * SECTOR + 1] = b'X';
    assert!(matches!(parse_iso9660(&bad_id), Err(IsoError::NotThisFormat)));
    let mut bad_root = hello_image();
    bad_root[16 * SECTOR + 156] = 0;
    assert!(matches!(parse_iso9660(&bad_root), Err(IsoError::MalformedRecord)));
    let far = image_with_root(500, SECTOR as u32, 20);
    assert!(matches!(parse_iso9660(&far), Err(IsoError::ExtentReadError)));
}

#[test]
fn detection_prefers_iso() {
    let image = hello_image();
    let tree = detect_and_parse_filesystem(&image, "hello.iso").unwrap();
    assert_eq!(tree.name, "/");
    assert_eq!(names(&tree), vec!["hello.txt".to_string()]);
}

#[test]
fn detection_names_unknown_input() {
    let err = detect_and_parse_filesystem(&vec![0u8; 40000], "blank.img").unwrap_err();
    match &err {
        DetectError::UnsupportedFormat(name) => assert_eq!(name, "blank.img"),
    }
    assert_eq!(err.message(), "Unable to detect supported filesystem in blank.img");
}

#[test]
fn extract_by_path() {
    let image = nested_image();
    let root = parse_iso9660(&image).unwrap();
    assert!(matches!(
        extract_path(&image, &root, "nowhere", "."),
        Err(ExtractError::PathNotFound)
    ));
    let steps = extract_path(&image, &root, "subdir", "dest").unwrap();
    assert_eq!(steps.len(), 2);
    match &steps[0] {
        ExtractStep::CreateDirectory(p) => assert_eq!(p, "dest/subdir"),
        other => panic!("unexpected step {:?}", other),
    }
    match &steps[1] {
        ExtractStep::WriteFile(p, s, e) => {
            assert_eq!(p, "dest/subdir/inner.txt");
            assert_eq!(&image[*s..*e], b"innerrr");
        }
        other => panic!("unexpected step {:?}", other),
    }
}
