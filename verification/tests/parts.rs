//! Paths, names, modes and texts.

use casq_core::error::Error;
use casq_core::file_modes;
use casq_core::journal::journal_metadata_text;
use casq_core::journal::JournalEntry;
use casq_core::metadata::get_file_mode;
use casq_core::metadata::symlink_target_bytes;
use casq_core::metadata::FileType;
use casq_core::metadata::Metadata;
use casq_core::order::sort_entries;
use casq_core::path::path_components;
use casq_core::path::path_display;
use casq_core::path::path_entry_name;
use casq_core::path::paths_equal;
use casq_core::text::decimal_text;
use casq_core::tree::EntryType;
use casq_core::tree::TreeEntry;

fn hash(byte: u8) -> casq_core::hash::Hash {
    casq_core::hash::Hash { bytes: [byte; 32] }
}

fn entry(name: &str, byte: u8) -> TreeEntry {
    let made: Result<TreeEntry, Error<()>> =
        TreeEntry::new(EntryType::Blob, file_modes::REGULAR, hash(byte), name.to_string());
    made.unwrap()
}

fn sorted_names(names: &[&str]) -> Vec<String> {
    let entries = names.iter().map(|name| entry(name, 0)).collect();
    sort_entries(entries).into_iter().map(|entry| entry.name).collect()
}

/// Paths on which the functions of this crate and of `std::path` must agree.
const PATHS: [&str; 24] = [
    "", "/", "//", ".", "..", "./", "/.", "a", "a/", "a/.", "a/..", "a/b", "a//b", "/a/b", "./a",
    "././a", "a/./b", "../a", "/a/", "a/b/..", ".a", "...", "a.b/c.d", "/./a",
];

#[test]
fn file_names_are_those_of_the_standard_library() {
    for path in PATHS {
        let expected = std::path::Path::new(path).file_name().and_then(|name| name.to_str());
        assert_eq!(path_entry_name(path.as_bytes()).as_deref(), expected, "{:?}", path);
    }
}

#[test]
fn equal_paths_are_those_of_the_standard_library() {
    for a in PATHS {
        for b in PATHS {
            let expected = std::path::Path::new(a) == std::path::Path::new(b);
            assert_eq!(paths_equal(a.as_bytes(), b.as_bytes()), expected, "{:?} {:?}", a, b);
        }
    }
}

#[test]
fn components_leave_out_dots_and_empty_pieces() {
    assert_eq!(path_components(b"/a//./b/"), vec![b"a".to_vec(), b"b".to_vec()]);
    assert_eq!(path_components(b"..//x"), vec![b"..".to_vec(), b"x".to_vec()]);
    assert!(path_components(b"/").is_empty());
}

#[test]
fn entries_keep_their_names() {
    for dir in PATHS {
        let child = std::path::Path::new(dir).join("name.txt");
        let child = child.to_str().unwrap();
        assert_eq!(path_entry_name(child.as_bytes()), Some("name.txt".to_string()));
        assert!(!paths_equal(child.as_bytes(), dir.as_bytes()));
    }
}

#[test]
fn names_are_decoded() {
    assert_eq!(path_entry_name("d/\u{e9}t\u{e9}".as_bytes()), Some("\u{e9}t\u{e9}".to_string()));
    assert_eq!(path_entry_name(&[b'd', b'/', 0xc3]), None);
    assert_eq!(path_entry_name(&[0xff, b'/', b'x']), Some("x".to_string()));
}

#[test]
fn paths_are_shown_as_the_standard_library_shows_them() {
    assert_eq!(path_display(b"/a/b"), "/a/b");
    assert_eq!(path_display("\u{e9}".as_bytes()), "\u{e9}");
    assert_eq!(path_display(&[b'a', 0xff, b'b']), "a\u{fffd}b");
}

#[test]
fn any_execute_bit_makes_a_file_executable() {
    for mode in [0o644, 0o600, 0o000, 0o666, 0o100644, 0o4000] {
        let metadata = Metadata { file_type: FileType::File, mode, len: 0 };
        assert_eq!(get_file_mode(&metadata), file_modes::REGULAR);
    }
    for mode in [0o755, 0o100, 0o010, 0o001, 0o100744] {
        let metadata = Metadata { file_type: FileType::File, mode, len: 0 };
        assert_eq!(get_file_mode(&metadata), file_modes::EXECUTABLE);
    }
}

#[test]
fn link_modes_and_type_codes() {
    assert_eq!(file_modes::SYMLINK, 0o120000);
    assert_eq!(EntryType::Blob.code(), 1);
    assert_eq!(EntryType::Tree.code(), 2);
    assert_eq!(EntryType::Symlink.code(), 3);
}

#[test]
fn link_targets_are_copied() {
    assert_eq!(symlink_target_bytes(&[0xff, 0, b'x']), vec![0xff, 0, b'x']);
    assert!(symlink_target_bytes(&[]).is_empty());
}

#[test]
fn numbers_are_written_in_decimal() {
    for n in [0, 7, 9, 10, 11, 99, 100, 1024, 1_234_567_890, u64::MAX] {
        assert_eq!(decimal_text(n), n.to_string());
    }
}

#[test]
fn journal_metadata_is_worded() {
    assert_eq!(journal_metadata_text(1, 11), "entries=1,size=11");
    assert_eq!(journal_metadata_text(0, 0), "entries=0,size=0");
    assert_eq!(journal_metadata_text(42, u64::MAX), "entries=42,size=18446744073709551615");
}

#[test]
fn journal_time_wraps() {
    let late = JournalEntry::added(u64::MAX, hash(1), "p".to_string(), 1, 2);
    assert_eq!(late.timestamp, -1);
    let entry = JournalEntry::added(5, hash(1), "p".to_string(), 1, 2);
    assert_eq!(
        entry,
        JournalEntry::new(
            5,
            "add".to_string(),
            hash(1),
            "p".to_string(),
            "entries=1,size=2".to_string(),
        )
    );
}

#[test]
fn entries_are_sorted_by_the_bytes_of_their_names() {
    assert_eq!(sorted_names(&["b", "a", "c"]), ["a", "b", "c"]);
    assert_eq!(sorted_names(&["b", "ab", "a", "B", ""]), ["", "B", "a", "ab", "b"]);
    assert_eq!(sorted_names(&["\u{10000}", "\u{e9}", "z", "\u{ffff}"]), [
        "z",
        "\u{e9}",
        "\u{ffff}",
        "\u{10000}",
    ]);
    assert!(sorted_names(&[]).is_empty());
}

#[test]
fn many_entries_are_sorted() {
    let names: Vec<String> = (0..1000u32).map(|i| format!("{:05}", i * 7919 % 1009)).collect();
    let mut expected = names.clone();
    expected.sort();
    let entries = names.iter().map(|name| entry(name, 0)).collect();
    let found: Vec<String> = sort_entries(entries).into_iter().map(|entry| entry.name).collect();
    assert_eq!(found, expected);
}

#[test]
fn entries_of_one_name_stay_as_they_came() {
    let entries = vec![entry("b", 1), entry("a", 2), entry("b", 3), entry("a", 4)];
    let found: Vec<u8> = sort_entries(entries).iter().map(|entry| entry.hash.bytes[0]).collect();
    assert_eq!(found, [2, 4, 1, 3]);
}

#[test]
fn names_are_limited_in_bytes() {
    let fits = "\u{e9}".repeat(127);
    let long = "\u{e9}".repeat(128);
    let made: Result<TreeEntry, Error<()>> =
        TreeEntry::new(EntryType::Tree, file_modes::DIRECTORY, hash(1), fits.clone());
    assert_eq!(made.unwrap().name, fits);
    let refused: Result<TreeEntry, Error<()>> =
        TreeEntry::new(EntryType::Tree, file_modes::DIRECTORY, hash(1), long.clone());
    assert_eq!(refused, Err(Error::NameTooLong { name: long }));
}

#[test]
fn errors_name_the_path() {
    let missing: Error<()> = Error::path_missing("/x");
    assert_eq!(missing, Error::NotFound { message: "Path does not exist: /x".to_string() });
    let unsupported: Error<()> = Error::unsupported_type("/x");
    assert_eq!(
        unsupported,
        Error::InvalidHash { message: "Unsupported file type: /x".to_string() }
    );
    let invalid: Error<()> = Error::invalid_file_name("/x");
    assert_eq!(invalid, Error::InvalidHash { message: "Invalid filename: /x".to_string() });
}

#[test]
fn entries_can_be_cloned() {
    let one = entry("name", 9);
    assert_eq!(one.clone(), one);
    let error: Error<()> = Error::invalid_hash("text".to_string());
    assert_eq!(error, Error::InvalidHash { message: "text".to_string() });
}
