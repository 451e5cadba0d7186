//! The sort order, the classifier, the failure mappers and the string
//! machinery, on concrete values.

use vibe_commander::error::map_io_error;
use vibe_commander::error::AppError;
use vibe_commander::error::IoErrorKind;
use vibe_commander::error::OpenFailedReason;
use vibe_commander::listing::classify;
use vibe_commander::listing::join_path;
use vibe_commander::listing::RawChild;
use vibe_commander::listing::RawMetadata;
use vibe_commander::sorting::sort_entries;
use vibe_commander::strings::contains_str;
use vibe_commander::strings::lex_le_exec;
use vibe_commander::types::FileEntry;

fn file_entry(name: &str) -> FileEntry {
    FileEntry::File {
        name: name.to_string(),
        path: format!("/test/{}", name),
        size: 0,
        modified: None,
    }
}

fn dir_entry(name: &str) -> FileEntry {
    FileEntry::Directory {
        name: name.to_string(),
        path: format!("/test/{}", name),
        modified: None,
    }
}

#[test]
fn sorting_is_idempotent() {
    let entries = vec![
        file_entry("zeta.txt"),
        dir_entry("Omega"),
        file_entry("Alpha.txt"),
        dir_entry("beta"),
    ];
    let once = sort_entries(entries);
    let names_once: Vec<String> = once.iter().map(|e| e.name().to_string()).collect();
    let twice = sort_entries(once);
    let names_twice: Vec<String> = twice.iter().map(|e| e.name().to_string()).collect();
    assert_eq!(names_once, names_twice);
    assert_eq!(names_once, vec!["beta", "Omega", "Alpha.txt", "zeta.txt"]);
}

#[test]
fn sorting_is_stable_for_names_equal_up_to_case() {
    let entries = vec![
        file_entry("README.txt"),
        file_entry("readme.TXT"),
        file_entry("Readme.txt"),
    ];
    let sorted = sort_entries(entries);
    let names: Vec<&str> = sorted.iter().map(FileEntry::name).collect();
    // All three names are equal once lowercased: the original order stays.
    assert_eq!(names, vec!["README.txt", "readme.TXT", "Readme.txt"]);
}

#[test]
fn sorting_preserves_count_and_names() {
    let entries = vec![
        file_entry("b"),
        file_entry("a"),
        file_entry("a"),
        dir_entry("c"),
    ];
    let sorted = sort_entries(entries);
    assert_eq!(sorted.len(), 4);
    let mut names: Vec<String> = sorted.iter().map(|e| e.name().to_string()).collect();
    names.sort();
    assert_eq!(names, vec!["a", "a", "b", "c"]);
}

#[test]
fn symlink_to_directory_sorts_with_directories() {
    let link = FileEntry::Symlink {
        name: "zlink".to_string(),
        path: "/test/zlink".to_string(),
        size: 10,
        modified: None,
        target: "/somewhere".to_string(),
        target_is_dir: true,
    };
    assert!(link.is_dir());
    let entries = vec![file_entry("aaa.txt"), link];
    let sorted = sort_entries(entries);
    let names: Vec<&str> = sorted.iter().map(FileEntry::name).collect();
    assert_eq!(names, vec!["zlink", "aaa.txt"]);
}

#[test]
fn classify_produces_file_with_size_and_modified() {
    let child = RawChild {
        name: "data.bin".to_string(),
        is_symlink: false,
        metadata: Ok(RawMetadata { is_dir: false, size: 1234, modified: Some(1700000000) }),
        link_target: None,
    };
    let entry = classify("/home/user", child);
    match entry {
        FileEntry::File { name, path, size, modified } => {
            assert_eq!(name, "data.bin");
            assert_eq!(path, "/home/user/data.bin");
            assert_eq!(size, 1234);
            assert_eq!(modified, Some(1700000000));
        }
        _ => panic!("Expected File variant"),
    }
}

#[test]
fn classify_produces_directory_without_size() {
    let child = RawChild {
        name: "docs".to_string(),
        is_symlink: false,
        metadata: Ok(RawMetadata { is_dir: true, size: 4096, modified: Some(5) }),
        link_target: None,
    };
    let entry = classify("/home/user", child);
    match entry {
        FileEntry::Directory { name, path, modified } => {
            assert_eq!(name, "docs");
            assert_eq!(path, "/home/user/docs");
            assert_eq!(modified, Some(5));
        }
        _ => panic!("Expected Directory variant"),
    }
}

#[test]
fn classify_degrades_failed_metadata_to_unreadable() {
    let child = RawChild {
        name: "locked".to_string(),
        is_symlink: false,
        metadata: Err("permission denied".to_string()),
        link_target: None,
    };
    let entry = classify("/home/user", child);
    match entry {
        FileEntry::Unreadable { name, path, reason } => {
            assert_eq!(name, "locked");
            assert_eq!(path, "/home/user/locked");
            assert_eq!(reason, "permission denied");
        }
        _ => panic!("Expected Unreadable variant"),
    }
}

#[test]
fn classify_uses_empty_target_when_link_read_failed() {
    let child = RawChild {
        name: "mystery_link".to_string(),
        is_symlink: true,
        metadata: Ok(RawMetadata { is_dir: false, size: 7, modified: None }),
        link_target: None,
    };
    let entry = classify("/tmp", child);
    match entry {
        FileEntry::Symlink { target, .. } => assert_eq!(target, ""),
        _ => panic!("Expected Symlink variant"),
    }
}

#[test]
fn every_entry_path_ends_with_its_name() {
    let children = vec![
        ("plain.txt", "/home/user"),
        ("nested", "/"),
        ("trailing", "/already/slashed/"),
    ];
    for (name, dir) in children {
        let child = RawChild {
            name: name.to_string(),
            is_symlink: false,
            metadata: Ok(RawMetadata { is_dir: false, size: 0, modified: None }),
            link_target: None,
        };
        let entry = classify(dir, child);
        assert!(entry.path().ends_with(entry.name()));
    }
}

#[test]
fn join_path_adds_separator_only_when_needed() {
    assert_eq!(join_path("/a/b", "c"), "/a/b/c");
    assert_eq!(join_path("/a/b/", "c"), "/a/b/c");
    assert_eq!(join_path("", "c"), "/c");
}

#[test]
fn map_io_error_keeps_path_and_message() {
    match map_io_error(IoErrorKind::NotFound, "m".to_string(), "/p".to_string()) {
        AppError::NotFound { path } => assert_eq!(path, "/p"),
        _ => panic!("Expected NotFound"),
    }
    match map_io_error(IoErrorKind::PermissionDenied, "m".to_string(), "/p".to_string()) {
        AppError::PermissionDenied { path } => assert_eq!(path, "/p"),
        _ => panic!("Expected PermissionDenied"),
    }
    match map_io_error(IoErrorKind::Other, "disk on fire".to_string(), "/p".to_string()) {
        AppError::Io { message, path } => {
            assert_eq!(message, "disk on fire");
            assert_eq!(path, Some("/p".to_string()));
        }
        _ => panic!("Expected Io"),
    }
}

#[test]
fn open_failed_reason_matches_known_phrases() {
    assert_eq!(
        OpenFailedReason::from_error("Permission denied (os error 13)"),
        OpenFailedReason::PermissionDenied
    );
    assert_eq!(
        OpenFailedReason::from_error("ACCESS DENIED"),
        OpenFailedReason::PermissionDenied
    );
    assert_eq!(
        OpenFailedReason::from_error("No such file or directory"),
        OpenFailedReason::NotFound
    );
    assert_eq!(
        OpenFailedReason::from_error("target NOT FOUND"),
        OpenFailedReason::NotFound
    );
    assert_eq!(
        OpenFailedReason::from_error("there is no application registered"),
        OpenFailedReason::NoDefaultApp
    );
    assert_eq!(
        OpenFailedReason::from_error("No Default handler set"),
        OpenFailedReason::NoDefaultApp
    );
    assert_eq!(
        OpenFailedReason::from_error("something else entirely"),
        OpenFailedReason::Unknown
    );
}

#[test]
fn contains_str_finds_substrings() {
    assert!(contains_str("hello world", "lo wo"));
    assert!(contains_str("hello", "hello"));
    assert!(contains_str("hello", ""));
    assert!(!contains_str("", "x"));
    assert!(!contains_str("hello", "world"));
    assert!(contains_str("naïve café", "café"));
}

#[test]
fn lex_le_orders_by_code_point_with_prefix_first() {
    assert!(lex_le_exec("abc", "abd"));
    assert!(!lex_le_exec("abd", "abc"));
    assert!(lex_le_exec("ab", "abc"));
    assert!(!lex_le_exec("abc", "ab"));
    assert!(lex_le_exec("", ""));
    assert!(lex_le_exec("same", "same"));
}

#[test]
fn file_entry_accessors_cover_all_variants() {
    let u = FileEntry::Unreadable {
        name: "n".to_string(),
        path: "/d/n".to_string(),
        reason: "r".to_string(),
    };
    assert_eq!(u.name(), "n");
    assert_eq!(u.path(), "/d/n");
    assert!(!u.is_dir());

    let d = dir_entry("sub");
    assert_eq!(d.name(), "sub");
    assert_eq!(d.path(), "/test/sub");
    assert!(d.is_dir());

    let f = file_entry("f.txt");
    assert!(!f.is_dir());
}
