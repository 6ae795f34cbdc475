use asar::{
    deserialize, header_size, join_path, serialize, split_path, Algorithm, Archive, Directory,
    File, FileMetadata, HeaderEntry, HeaderError, Integrity, MAX_SAFE_INTEGER, PROLOGUE_LEN,
};
use std::collections::BTreeSet;

fn file(offset: &str, size: u64, executable: bool) -> HeaderEntry {
    HeaderEntry::File(FileMetadata::new(offset, size, executable, None).unwrap())
}

fn dir(children: Vec<(&str, HeaderEntry)>) -> HeaderEntry {
    let files = children.into_iter().map(|(n, e)| (n.to_string(), e)).collect();
    HeaderEntry::Dir(Directory::new(files).unwrap())
}

/// The tree `{"files":{"a.txt":{"offset":"0","size":5},
/// "dir":{"files":{"b.bin":{"offset":"5","size":3,"executable":true}}}}}`.
fn sample_tree() -> HeaderEntry {
    dir(vec![
        ("a.txt", file("0", 5, false)),
        ("dir", dir(vec![("b.bin", file("5", 3, true))])),
    ])
}

/// A whole archive image: prologue, header text, then `helloXYZ` and trailing bytes.
fn sample_image(header_len: u32) -> Vec<u8> {
    let mut bytes = vec![0u8; 12];
    bytes.extend_from_slice(&header_len.to_le_bytes());
    bytes.extend(std::iter::repeat(b' ').take(header_len as usize));
    bytes.extend_from_slice(b"helloXYZ-trailing");
    bytes
}

/// Reads a whole file from an image with reads of at most `chunk` bytes.
fn read_all(f: &mut File, image: &[u8], chunk: usize) -> Vec<u8> {
    let mut out = Vec::new();
    loop {
        let n = f.window(chunk);
        if n == 0 {
            break;
        }
        let at = (f.position() + f.size() - f.remaining()) as usize;
        out.extend_from_slice(&image[at..at + n]);
        f.advance(n);
    }
    out
}

fn sample_archive(header_len: u32) -> Archive {
    Archive::new(header_len, sample_tree()).unwrap()
}

#[test]
fn scenario_reads_both_files() {
    let image = sample_image(40);
    let archive = sample_archive(40);
    assert_eq!(archive.data_offset(), 56);

    let mut a = archive.get("a.txt").unwrap();
    assert_eq!(a.name(), "a.txt");
    assert_eq!(a.path(), "a.txt");
    assert_eq!(a.size(), 5);
    assert!(!a.executable());
    assert!(a.integrity().is_none());
    assert_eq!(read_all(&mut a, &image, 64), b"hello".to_vec());

    let mut b = archive.get("dir/b.bin").unwrap();
    assert_eq!(b.name(), "b.bin");
    assert_eq!(b.path(), "dir/b.bin");
    assert!(b.executable());
    assert_eq!(b.position(), 61);
    assert_eq!(read_all(&mut b, &image, 2), b"XYZ".to_vec());
}

#[test]
fn scenario_lists_files_only() {
    let archive = sample_archive(40);
    let listed: BTreeSet<String> = archive.file_paths().into_iter().collect();
    let expected: BTreeSet<String> = ["a.txt", "dir/b.bin"].iter().map(|s| s.to_string()).collect();
    assert_eq!(listed, expected);
    assert_eq!(archive.file_paths().len(), 2);
}

#[test]
fn scenario_misses() {
    let archive = sample_archive(40);
    assert!(archive.get("dir").is_none());
    assert!(archive.get("missing").is_none());
    assert!(archive.get("").is_none());
    assert!(archive.get("/").is_none());
    assert!(archive.get("a.txt/more").is_none());
    assert!(archive.get("DIR/b.bin").is_none());
    assert!(archive.get("dir/./b.bin").is_none());
}

#[test]
fn listed_paths_give_their_sizes() {
    let archive = sample_archive(40);
    for p in archive.file_paths() {
        let f = archive.get(&p).unwrap();
        let expected = if p == "a.txt" { 5 } else { 3 };
        assert_eq!(f.size(), expected);
        assert_eq!(f.path(), p);
    }
}

#[test]
fn empty_segments_are_ignored() {
    let archive = sample_archive(40);
    let f = archive.get("/dir//b.bin/").unwrap();
    assert_eq!(f.path(), "dir/b.bin");
    assert_eq!(f.name(), "b.bin");
    assert_eq!(f.size(), 3);
}

#[test]
fn stream_stops_at_size() {
    let archive = sample_archive(40);
    let mut f = archive.get("a.txt").unwrap();
    assert_eq!(f.window(100), 5);
    f.advance(5);
    assert_eq!(f.remaining(), 0);
    assert_eq!(f.window(100), 0);
    assert_eq!(f.window(0), 0);
}

#[test]
fn stream_partial_reads() {
    let archive = sample_archive(40);
    let mut f = archive.get("a.txt").unwrap();
    assert_eq!(f.window(2), 2);
    f.advance(1);
    assert_eq!(f.remaining(), 4);
    assert_eq!(f.window(3), 3);
    f.advance(3);
    assert_eq!(f.window(3), 1);
    f.advance(1);
    assert_eq!(f.window(3), 0);
}

#[test]
fn stream_of_empty_file() {
    let tree = dir(vec![("empty", file("8", 0, false))]);
    let archive = Archive::new(0, tree).unwrap();
    let f = archive.get("empty").unwrap();
    assert_eq!(f.position(), PROLOGUE_LEN + 8);
    assert_eq!(f.window(10), 0);
}

#[test]
fn header_size_is_little_endian() {
    assert_eq!(header_size(&[0x78, 0x56, 0x34, 0x12]), 0x12345678);
    assert_eq!(header_size(&[1, 0, 0, 0]), 1);
    assert_eq!(header_size(&[0xff, 0xff, 0xff, 0xff]), u32::MAX);
    let image = sample_image(40);
    assert_eq!(header_size(&image[12..16]), 40);
}

#[test]
fn largest_header_size() {
    let archive = Archive::new(u32::MAX, sample_tree()).unwrap();
    assert_eq!(archive.data_offset(), u32::MAX as u64 + 16);
    let f = archive.get("dir/b.bin").unwrap();
    assert_eq!(f.position(), u32::MAX as u64 + 16 + 5);
}

#[test]
fn file_root_is_malformed() {
    let r = Archive::new(10, file("0", 1, false));
    assert_eq!(r.err(), Some(HeaderError::Malformed));
}

#[test]
fn offset_round_trip() {
    for n in [0u64, 7, 10, 99, 100, 1234567890, MAX_SAFE_INTEGER, u64::MAX] {
        let s = serialize(n);
        assert_eq!(deserialize(&s), Ok(n));
    }
    assert_eq!(serialize(9007199254740991), "9007199254740991");
    assert_eq!(serialize(0), "0");
    assert_eq!(serialize(305), "305");
}

#[test]
fn offset_decoding() {
    assert_eq!(deserialize("0"), Ok(0));
    assert_eq!(deserialize("0042"), Ok(42));
    assert_eq!(deserialize("18446744073709551615"), Ok(u64::MAX));
    assert_eq!(deserialize("18446744073709551616"), Err(HeaderError::InvalidOffset));
    assert_eq!(deserialize("99999999999999999999"), Err(HeaderError::InvalidOffset));
    assert_eq!(deserialize(""), Err(HeaderError::InvalidOffset));
    assert_eq!(deserialize("-1"), Err(HeaderError::InvalidOffset));
    assert_eq!(deserialize("12a"), Err(HeaderError::InvalidOffset));
    assert_eq!(deserialize(" 1"), Err(HeaderError::InvalidOffset));
}

#[test]
fn metadata_bounds() {
    let ok = FileMetadata::new("9007199254740991", 9007199254740991, true, None).unwrap();
    assert_eq!(ok.offset, MAX_SAFE_INTEGER);
    assert_eq!(ok.size, MAX_SAFE_INTEGER);
    assert!(ok.executable);
    assert_eq!(
        FileMetadata::new("9007199254740992", 1, false, None).err(),
        Some(HeaderError::InvalidOffset)
    );
    assert_eq!(
        FileMetadata::new("0", 9007199254740992, false, None).err(),
        Some(HeaderError::InvalidOffset)
    );
    assert_eq!(FileMetadata::new("x", 1, false, None).err(), Some(HeaderError::InvalidOffset));
}

#[test]
fn directory_names_checked() {
    let dup = vec![("a".to_string(), file("0", 1, false)), ("a".to_string(), file("1", 1, false))];
    assert_eq!(Directory::new(dup).err(), Some(HeaderError::Malformed));
    let slash = vec![("a/b".to_string(), file("0", 1, false))];
    assert_eq!(Directory::new(slash).err(), Some(HeaderError::Malformed));
    let empty = vec![("".to_string(), file("0", 1, false))];
    assert_eq!(Directory::new(empty).err(), Some(HeaderError::Malformed));
    let fine = vec![("a".to_string(), file("0", 1, false)), ("A".to_string(), file("1", 1, false))];
    assert_eq!(Directory::new(fine).unwrap().files.len(), 2);
}

#[test]
fn integrity_is_exposed() {
    let integrity = Integrity {
        algorithm: Algorithm::SHA256,
        hash: "abcd".to_string(),
        block_size: 4194304,
        blocks: vec!["abcd".to_string()],
    };
    let meta = FileMetadata::new("3", 2, false, Some(integrity)).unwrap();
    let tree = dir(vec![("f", HeaderEntry::File(meta))]);
    let archive = Archive::new(4, tree).unwrap();
    let f = archive.get("f").unwrap();
    let i = f.integrity().unwrap();
    assert_eq!(i.algorithm, Algorithm::SHA256);
    assert_eq!(i.hash, "abcd");
    assert_eq!(i.block_size, 4194304);
    assert_eq!(i.blocks.len(), 1);
}

#[test]
fn paths_split_and_join() {
    assert_eq!(split_path("/a//b/"), vec!["a".to_string(), "b".to_string()]);
    assert_eq!(split_path("a/b"), vec!["a".to_string(), "b".to_string()]);
    assert!(split_path("").is_empty());
    assert!(split_path("///").is_empty());
    assert_eq!(split_path("é/ü"), vec!["é".to_string(), "ü".to_string()]);
    let segs = vec!["x".to_string(), "y".to_string(), "z".to_string()];
    assert_eq!(join_path(&segs), "x/y/z");
    assert_eq!(join_path(&Vec::new()), "");
    assert_eq!(split_path(&join_path(&segs)), segs);
}

#[test]
fn search_and_list_in_subtree() {
    let tree = sample_tree();
    let segs = vec!["dir".to_string(), "b.bin".to_string()];
    match tree.search_segments(&segs) {
        Some(HeaderEntry::File(m)) => assert_eq!(m.offset, 5),
        _ => panic!("expected a file"),
    }
    assert!(tree.search_segments(&[]).is_some());
    assert!(tree.search_segments(&["nope".to_string()]).is_none());
    if let HeaderEntry::Dir(d) = &tree {
        let got = d.get(&"dir".to_string()).unwrap();
        if let HeaderEntry::Dir(sub) = got {
            assert_eq!(sub.file_paths(), vec!["b.bin".to_string()]);
        } else {
            panic!("expected a directory");
        }
    }
}
