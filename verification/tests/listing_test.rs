//! Listing scenarios: classification, ordering, and the error boundary.

use vibe_commander::error::AppError;
use vibe_commander::error::IoErrorKind;
use vibe_commander::listing::build_listing;
use vibe_commander::listing::list_outcome;
use vibe_commander::listing::RawChild;
use vibe_commander::listing::RawMetadata;
use vibe_commander::types::FileEntry;

fn file_child(name: &str) -> RawChild {
    RawChild {
        name: name.to_string(),
        is_symlink: false,
        metadata: Ok(RawMetadata { is_dir: false, size: 0, modified: None }),
        link_target: None,
    }
}

fn dir_child(name: &str) -> RawChild {
    RawChild {
        name: name.to_string(),
        is_symlink: false,
        metadata: Ok(RawMetadata { is_dir: true, size: 0, modified: None }),
        link_target: None,
    }
}

#[test]
fn list_directory_returns_sorted_entries() {
    let children = vec![
        dir_child("alpha_dir"),
        dir_child("beta_dir"),
        file_child("charlie.txt"),
        file_child("alpha.txt"),
        file_child("Beta.txt"),
    ];

    let entries = build_listing("/test", children);
    let names: Vec<&str> = entries.iter().map(FileEntry::name).collect();

    assert_eq!(
        names,
        vec![
            "alpha_dir",
            "beta_dir",
            "alpha.txt",
            "Beta.txt",
            "charlie.txt"
        ]
    );
}

#[test]
fn list_directory_handles_permission_denied() {
    let result = list_outcome(
        "/test/restricted",
        Err((IoErrorKind::PermissionDenied, "permission denied".to_string())),
    );

    match result {
        Err(AppError::PermissionDenied { path }) => assert_eq!(path, "/test/restricted"),
        _ => panic!("Expected PermissionDenied"),
    }
}

#[test]
fn list_directory_handles_not_found() {
    let result = list_outcome(
        "/nonexistent/path/that/does/not/exist",
        Err((IoErrorKind::NotFound, "not found".to_string())),
    );

    match result {
        Err(AppError::NotFound { path }) => {
            assert_eq!(path, "/nonexistent/path/that/does/not/exist");
        }
        _ => panic!("Expected NotFound"),
    }
}

#[test]
fn list_directory_includes_broken_symlinks() {
    let children = vec![
        file_child("valid.txt"),
        RawChild {
            name: "broken_link".to_string(),
            is_symlink: true,
            // The link itself is readable even though its target is not: the
            // caller fell back to the link's own metadata, whose directory
            // flag is false.
            metadata: Ok(RawMetadata { is_dir: false, size: 42, modified: None }),
            link_target: Some("/nonexistent/target/that/does/not/exist".to_string()),
        },
    ];

    let entries = build_listing("/test", children);
    let names: Vec<&str> = entries.iter().map(FileEntry::name).collect();

    assert!(names.contains(&"valid.txt"));
    assert!(names.contains(&"broken_link"));

    let broken = entries.iter().find(|e| e.name() == "broken_link").unwrap();
    match broken {
        FileEntry::Symlink { target, target_is_dir, .. } => {
            assert_eq!(target.as_str(), "/nonexistent/target/that/does/not/exist");
            assert!(!*target_is_dir);
        }
        _ => panic!("Expected Symlink variant"),
    }
}

#[test]
fn list_directory_entries_are_not_unreadable_on_success() {
    let children = vec![
        file_child("file1.txt"),
        file_child("file2.txt"),
        dir_child("subdir"),
    ];

    let entries = build_listing("/test", children);
    assert_eq!(entries.len(), 3);

    for entry in &entries {
        assert!(!matches!(entry, FileEntry::Unreadable { .. }));
    }
}

#[test]
fn list_directory_returns_empty_for_empty_dir() {
    let result = list_outcome("/test/empty", Ok(vec![]));

    assert!(result.is_ok());
    assert_eq!(result.unwrap().len(), 0);
}

#[test]
fn list_directory_handles_path_with_null_byte() {
    // The open step rejects such a path; the boundary surfaces the failure
    // as an error value, not a crash.
    let result = list_outcome(
        "/path/with\\0null",
        Err((IoErrorKind::Other, "invalid path".to_string())),
    );
    assert!(result.is_err());
}

#[test]
fn list_directory_handles_unicode_paths() {
    let children = vec![
        file_child("日本語.txt"),
        file_child("émoji_🎉.txt"),
        dir_child("中文目录"),
    ];

    let entries = build_listing("/test", children);
    let names: Vec<&str> = entries.iter().map(FileEntry::name).collect();

    assert!(names.contains(&"日本語.txt"));
    assert!(names.contains(&"émoji_🎉.txt"));
    assert!(names.contains(&"中文目录"));
}
