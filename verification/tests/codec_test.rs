//! The wire form of entries: encoding, decoding, and the round trip.

use vibe_commander::codec::decode_entry;
use vibe_commander::codec::encode_entry;
use vibe_commander::types::FileEntry;

fn assert_round_trips(e: &FileEntry) {
    let wire = encode_entry(e);
    let back = decode_entry(wire.as_str()).expect("wire string must decode");
    match (e, &back) {
        (
            FileEntry::File { name, path, size, modified },
            FileEntry::File { name: n2, path: p2, size: s2, modified: m2 },
        ) => {
            assert_eq!(name, n2);
            assert_eq!(path, p2);
            assert_eq!(size, s2);
            assert_eq!(modified, m2);
        }
        (
            FileEntry::Directory { name, path, modified },
            FileEntry::Directory { name: n2, path: p2, modified: m2 },
        ) => {
            assert_eq!(name, n2);
            assert_eq!(path, p2);
            assert_eq!(modified, m2);
        }
        (
            FileEntry::Symlink { name, path, size, modified, target, target_is_dir },
            FileEntry::Symlink {
                name: n2,
                path: p2,
                size: s2,
                modified: m2,
                target: t2,
                target_is_dir: d2,
            },
        ) => {
            assert_eq!(name, n2);
            assert_eq!(path, p2);
            assert_eq!(size, s2);
            assert_eq!(modified, m2);
            assert_eq!(target, t2);
            assert_eq!(target_is_dir, d2);
        }
        (
            FileEntry::Unreadable { name, path, reason },
            FileEntry::Unreadable { name: n2, path: p2, reason: r2 },
        ) => {
            assert_eq!(name, n2);
            assert_eq!(path, p2);
            assert_eq!(reason, r2);
        }
        _ => panic!("variant tag did not round-trip"),
    }
}

#[test]
fn file_entry_round_trips() {
    assert_round_trips(&FileEntry::File {
        name: "data.bin".to_string(),
        path: "/home/user/data.bin".to_string(),
        size: u64::MAX,
        modified: Some(1700000000),
    });
}

#[test]
fn directory_entry_round_trips() {
    assert_round_trips(&FileEntry::Directory {
        name: "docs".to_string(),
        path: "/home/user/docs".to_string(),
        modified: None,
    });
}

#[test]
fn symlink_entry_round_trips() {
    assert_round_trips(&FileEntry::Symlink {
        name: "链接 ->:20".to_string(),
        path: "/tmp/链接 ->:20".to_string(),
        size: 0,
        modified: Some(0),
        target: "/nonexistent/target".to_string(),
        target_is_dir: false,
    });
}

#[test]
fn unreadable_entry_round_trips() {
    assert_round_trips(&FileEntry::Unreadable {
        name: "émoji_🎉.txt".to_string(),
        path: "/日本語/émoji_🎉.txt".to_string(),
        reason: "permission denied".to_string(),
    });
}

#[test]
fn encoded_file_has_expected_shape() {
    let wire = encode_entry(&FileEntry::File {
        name: "d.txt".to_string(),
        path: "/x/d.txt".to_string(),
        size: 7,
        modified: None,
    });
    assert_eq!(
        wire,
        "F00000000000000000005d.txt00000000000000000008/x/d.txt00000000000000000007n00000000000000000000"
    );
}

#[test]
fn garbage_does_not_decode() {
    assert!(decode_entry("").is_none());
    assert!(decode_entry("X").is_none());
    assert!(decode_entry("Fnot-a-number").is_none());
    assert!(decode_entry("F00000000000000000005d.txt").is_none());
}

#[test]
fn trailing_bytes_do_not_decode() {
    let mut wire = encode_entry(&FileEntry::Directory {
        name: "d".to_string(),
        path: "/d".to_string(),
        modified: None,
    });
    assert!(decode_entry(wire.as_str()).is_some());
    wire.push('x');
    assert!(decode_entry(wire.as_str()).is_none());
}
