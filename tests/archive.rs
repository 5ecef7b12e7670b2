use filasavn::listing::digit_count;
use filasavn::{
    add_file, find_file, list_savn, read_savn, read_savn_or_empty, remove_files, write_savn,
    DecodeError, FileSpec, FileType, FsNode, Savn,
};

fn spec(path: &str, file_type: FileType, contents: &[u8]) -> FileSpec {
    FileSpec { path: path.to_string(), file_type, contents: contents.to_vec() }
}

fn same(a: &Savn, b: &Savn) -> bool {
    a.len() == b.len()
        && a.iter().zip(b.iter()).all(|(x, y)| {
            x.path == y.path && x.file_type == y.file_type && x.contents == y.contents
        })
}

#[test]
fn encodes_one_entry_byte_for_byte() {
    let savn = vec![spec("x", FileType::RegularFile, b"hi")];
    let bytes = write_savn(&savn);
    assert_eq!(bytes, vec![b'x', 0, 1, 2, 0, 0, 0, b'h', b'i', 0]);
}

#[test]
fn encodes_symlink_and_executable_tags() {
    let savn = vec![
        spec("l", FileType::SoftSymlink, b"t"),
        spec("e", FileType::ExecutableFile, b""),
    ];
    let bytes = write_savn(&savn);
    assert_eq!(bytes, vec![b'l', 0, 3, 1, 0, 0, 0, b't', b'e', 0, 2, 0, 0, 0, 0, 0]);
}

#[test]
fn round_trip_keeps_entries_in_order() {
    let big: Vec<u8> = (0..300u32).map(|i| (i % 251) as u8).collect();
    let savn = vec![
        spec("dir/a.txt", FileType::RegularFile, b"hello"),
        spec("link", FileType::SoftSymlink, b"target.txt"),
        spec("empty", FileType::RegularFile, b""),
        spec("caf\u{e9}/\u{1f600}", FileType::RegularFile, &big),
        spec("dir/a.txt", FileType::RegularFile, b"again"),
    ];
    let back = read_savn(&write_savn(&savn)).unwrap();
    assert!(same(&savn, &back));
    assert_eq!(back[3].path, "caf\u{e9}/\u{1f600}");
}

#[test]
fn empty_archive_is_one_zero_byte() {
    let savn: Savn = Vec::new();
    assert_eq!(write_savn(&savn), vec![0u8]);
    assert_eq!(read_savn(&[0]).unwrap().len(), 0);
}

#[test]
fn bytes_after_the_closing_zero_are_not_read() {
    let back = read_savn(&[b'a', 0, 1, 0, 0, 0, 0, 0, 0xff, 0xff]).unwrap();
    assert_eq!(back.len(), 1);
    assert_eq!(back[0].path, "a");
}

#[test]
fn invalid_utf8_path_is_invalid_encoding() {
    let r = read_savn(&[0xff, 0xfe, 0, 1, 0, 0, 0, 0, 0]);
    assert_eq!(r.unwrap_err(), DecodeError::InvalidEncoding);
    let mut bytes = write_savn(&vec![spec("ok", FileType::RegularFile, b"1")]);
    bytes.pop();
    bytes.extend_from_slice(&[b'a', 0xc3, 0x28, 0, 1, 0, 0, 0, 0, 0]);
    assert_eq!(read_savn(&bytes).unwrap_err(), DecodeError::InvalidEncoding);
}

#[test]
fn unknown_tags_are_invalid_encoding() {
    assert_eq!(read_savn(&[b'a', 0, 2, 0, 0, 0, 0, 0]).unwrap_err(), DecodeError::InvalidEncoding);
    assert_eq!(read_savn(&[b'a', 0, 0, 0, 0, 0, 0, 0]).unwrap_err(), DecodeError::InvalidEncoding);
    assert_eq!(read_savn(&[b'a', 0, 9, 0, 0, 0, 0, 0]).unwrap_err(), DecodeError::InvalidEncoding);
}

#[test]
fn short_contents_are_truncated_stream() {
    let r = read_savn(&[b'a', 0, 1, 5, 0, 0, 0, b'x', b'y']);
    assert_eq!(r.unwrap_err(), DecodeError::TruncatedStream);
    let r = read_savn(&[b'a', 0, 1, 0, 0, 0, 1]);
    assert_eq!(r.unwrap_err(), DecodeError::TruncatedStream);
}

#[test]
fn stream_ending_inside_an_entry_is_truncated() {
    assert_eq!(read_savn(&[]).unwrap_err(), DecodeError::TruncatedStream);
    assert_eq!(read_savn(&[b'a', b'b']).unwrap_err(), DecodeError::TruncatedStream);
    assert_eq!(read_savn(&[b'a', 0]).unwrap_err(), DecodeError::TruncatedStream);
    assert_eq!(read_savn(&[b'a', 0, 1, 0, 0]).unwrap_err(), DecodeError::TruncatedStream);
    assert_eq!(read_savn(&[b'a', 0, 1, 0, 0, 0, 0]).unwrap_err(), DecodeError::TruncatedStream);
}

#[test]
fn missing_storage_loads_as_empty() {
    assert_eq!(read_savn_or_empty(None).unwrap().len(), 0);
    let bytes = write_savn(&vec![spec("x", FileType::RegularFile, b"hi")]);
    let savn = read_savn_or_empty(Some(&bytes)).unwrap();
    assert_eq!(savn.len(), 1);
    assert_eq!(savn[0].contents, b"hi".to_vec());
    assert_eq!(read_savn_or_empty(Some(&[0xff, 0, 1])).unwrap_err(), DecodeError::InvalidEncoding);
}

#[test]
fn find_returns_first_exact_match() {
    let savn = vec![
        spec("a", FileType::RegularFile, b"1"),
        spec("./a", FileType::RegularFile, b"2"),
        spec("a", FileType::SoftSymlink, b"3"),
    ];
    let found = find_file(&savn, "a").unwrap();
    assert_eq!(found.contents, b"1".to_vec());
    assert_eq!(found.file_type, FileType::RegularFile);
    assert_eq!(find_file(&savn, "./a").unwrap().contents, b"2".to_vec());
    assert!(find_file(&savn, "b").is_none());
    assert!(find_file(&savn, "").is_none());
    assert!(find_file(&Vec::new(), "a").is_none());
}

#[test]
fn remove_then_find_finds_nothing_and_keeps_order() {
    let mut savn = vec![
        spec("a", FileType::RegularFile, b"1"),
        spec("b", FileType::RegularFile, b"2"),
        spec("c", FileType::SoftSymlink, b"3"),
        spec("b", FileType::RegularFile, b"4"),
        spec("d", FileType::RegularFile, b"5"),
    ];
    remove_files(&mut savn, &["b".to_string(), "missing".to_string(), "d".to_string()]);
    assert!(find_file(&savn, "b").is_none());
    assert!(find_file(&savn, "d").is_none());
    let paths: Vec<&str> = savn.iter().map(|s| s.path.as_str()).collect();
    assert_eq!(paths, vec!["a", "c"]);
    assert_eq!(savn[1].contents, b"3".to_vec());
}

#[test]
fn remove_of_nothing_changes_nothing() {
    let mut savn = vec![spec("a", FileType::RegularFile, b"1")];
    remove_files(&mut savn, &[]);
    assert_eq!(savn.len(), 1);
    remove_files(&mut savn, &["A".to_string()]);
    assert_eq!(savn.len(), 1);
}

#[test]
fn add_of_a_directory_walk_adds_its_files_only() {
    let mut savn: Savn = Vec::new();
    let nodes = vec![
        FsNode::Dir { path: "d".to_string() },
        FsNode::File { path: "d/a.txt".to_string(), contents: b"A".to_vec() },
        FsNode::Dir { path: "d/b".to_string() },
        FsNode::File { path: "d/b/c.txt".to_string(), contents: b"C".to_vec() },
    ];
    add_file(&mut savn, nodes);
    assert_eq!(savn.len(), 2);
    assert_eq!(savn[0].path, "d/a.txt");
    assert_eq!(savn[0].file_type, FileType::RegularFile);
    assert_eq!(savn[1].path, "d/b/c.txt");
    assert_eq!(savn[1].contents, b"C".to_vec());
}

#[test]
fn add_of_a_symlink_stores_its_target() {
    let mut savn = vec![spec("old", FileType::RegularFile, b"")];
    add_file(&mut savn, vec![FsNode::Symlink { path: "ln".to_string(), target: "target.txt".to_string() }]);
    assert_eq!(savn.len(), 2);
    assert_eq!(savn[1].path, "ln");
    assert_eq!(savn[1].file_type, FileType::SoftSymlink);
    assert_eq!(savn[1].contents, b"target.txt".to_vec());
}

#[test]
fn add_keeps_duplicate_paths() {
    let mut savn = vec![spec("a", FileType::RegularFile, b"old")];
    add_file(&mut savn, vec![FsNode::File { path: "a".to_string(), contents: b"new".to_vec() }]);
    assert_eq!(savn.len(), 2);
    assert_eq!(find_file(&savn, "a").unwrap().contents, b"old".to_vec());
}

#[test]
fn list_shows_kind_length_and_path() {
    let savn = vec![spec("x", FileType::RegularFile, b"hi")];
    assert_eq!(list_savn(&savn), b"f 2 x\n".to_vec());
}

#[test]
fn list_aligns_lengths_to_the_widest() {
    let big = vec![7u8; 1234];
    let savn = vec![
        spec("a", FileType::RegularFile, b""),
        spec("big", FileType::ExecutableFile, &big),
        spec("ln", FileType::SoftSymlink, b"target"),
    ];
    let text = String::from_utf8(list_savn(&savn)).unwrap();
    assert_eq!(text, "f    0 a\nx 1234 big\nl    6 ln\n");
    assert!(list_savn(&Vec::new()).is_empty());
}

#[test]
fn digit_count_of_lengths() {
    assert_eq!(digit_count(0), 1);
    assert_eq!(digit_count(9), 1);
    assert_eq!(digit_count(10), 2);
    assert_eq!(digit_count(999), 3);
    assert_eq!(digit_count(1000), 4);
    assert_eq!(digit_count(usize::MAX), usize::MAX.to_string().len());
}
