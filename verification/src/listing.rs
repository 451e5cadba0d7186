//! Classification of raw directory children and assembly of a listing.
//!
//! The caller (outside this crate) opens the directory and gathers, for each
//! child, the plain facts the OS reported: the name, whether the child's own
//! file type is a symbolic link, the metadata (or the failure text), and the
//! raw link target. Everything from there on — classification into the entry
//! kinds, path construction, ordering, error mapping — happens here.

use vstd::prelude::*;

use crate::error::AppError;
use crate::error::IoErrorKind;
use crate::error::map_io_error;
use crate::sorting::sort_entries;
use crate::sorting::spec_sort;
use crate::sorting::lemma_spec_sort_contains;
use crate::sorting::views;
use crate::types::EntryModel;
use crate::types::FileEntry;
use crate::types::spec_modified;

verus! {

/// The metadata the OS reported for one child: the directory flag, the size
/// in bytes, and the modification time in whole seconds since the epoch
/// (absent where the OS could not supply one).
#[derive(Debug, Clone, Copy)]
pub struct RawMetadata {
    pub is_dir: bool,
    pub size: u64,
    pub modified: Option<u64>,
}

/// The raw facts about one directory child, as the caller gathered them:
/// the filesystem-reported name, whether the child itself is a symbolic
/// link, the metadata fetch result (the failure text on error), and the raw
/// link target if one could be read.
#[derive(Debug)]
pub struct RawChild {
    pub name: String,
    pub is_symlink: bool,
    pub metadata: Result<RawMetadata, String>,
    pub link_target: Option<String>,
}

/// The full path of a child: the directory path, a separator unless the
/// directory path already ends with one, then the name.
pub open spec fn spec_join(dir: Seq<char>, name: Seq<char>) -> Seq<char> {
    if dir.len() > 0 && dir.last() == '/' {
        dir + name
    } else {
        dir + seq!['/'] + name
    }
}

/// The recorded target of a symlink: the raw target path, possibly
/// non-existent, or empty where reading the link failed.
pub open spec fn spec_target(t: Option<String>) -> Seq<char> {
    match t {
        Some(s) => s@,
        None => Seq::empty(),
    }
}

/// What [`classify`] produces for one raw child: a total function, no error
/// case. A failed metadata fetch degrades the one child to `Unreadable`;
/// a symlink carries its target and whether the target is a directory;
/// otherwise the metadata's directory flag decides between `Directory` and
/// `File`.
pub open spec fn spec_classify(dir: Seq<char>, c: RawChild) -> EntryModel {
    let name = c.name@;
    let path = spec_join(dir, c.name@);
    match c.metadata {
        Result::Err(reason) => EntryModel::Unreadable { name, path, reason: reason@ },
        Result::Ok(m) => if c.is_symlink {
            EntryModel::Symlink {
                name,
                path,
                size: m.size as int,
                modified: spec_modified(m.modified),
                target: spec_target(c.link_target),
                target_is_dir: m.is_dir,
            }
        } else if m.is_dir {
            EntryModel::Directory { name, path, modified: spec_modified(m.modified) }
        } else {
            EntryModel::File {
                name,
                path,
                size: m.size as int,
                modified: spec_modified(m.modified),
            }
        },
    }
}

/// The classified models of a sequence of raw children.
pub open spec fn spec_classified(dir: Seq<char>, children: Seq<RawChild>) -> Seq<EntryModel> {
    children.map_values(|c: RawChild| spec_classify(dir, c))
}

/// A joined path always ends with the name as its final component, preceded
/// by a separator.
pub proof fn lemma_join_ends_with_name(dir: Seq<char>, name: Seq<char>)
    ensures
        spec_join(dir, name).len() > name.len(),
        spec_join(dir, name).subrange(
            spec_join(dir, name).len() - name.len(),
            spec_join(dir, name).len() as int,
        ) == name,
        spec_join(dir, name)[spec_join(dir, name).len() - name.len() - 1] == '/',
{
    let p = spec_join(dir, name);
    if dir.len() > 0 && dir.last() == '/' {
        assert(p.subrange(p.len() - name.len(), p.len() as int) =~= name);
    } else {
        assert(p.subrange(p.len() - name.len(), p.len() as int) =~= name);
        assert(p[dir.len() as int] == '/');
    }
}

/// Joins a directory path and a child name with a separator.
pub fn join_path(dir: &str, name: &str) -> (r: String)
    ensures
        r@ == spec_join(dir@, name@),
{
    let dlen = dir.unicode_len();
    let mut r = dir.to_owned();
    if dlen == 0 || dir.get_char(dlen - 1) != '/' {
        r.append("/");
        proof {
            reveal_strlit("/");
            assert("/"@ =~= seq!['/']);
        }
    }
    r.append(name);
    proof {
        assert(r@ =~= spec_join(dir@, name@));
    }
    r
}

/// Classifies one raw child: a total function, never an error. The produced
/// entry keeps the filesystem-reported name unmodified, its path is the
/// directory path joined with the name, and its kind and fields follow
/// [`spec_classify`]; the path always ends with the name as its final
/// component.
pub fn classify(dir_path: &str, child: RawChild) -> (e: FileEntry)
    ensures
        e@ == spec_classify(dir_path@, child),
        e@.path_ends_with_name(),
{
    proof {
        lemma_join_ends_with_name(dir_path@, child.name@);
    }
    let RawChild { name, is_symlink, metadata, link_target } = child;
    let path = join_path(dir_path, name.as_str());
    match metadata {
        Result::Err(reason) => FileEntry::Unreadable { name, path, reason },
        Result::Ok(m) => {
            if is_symlink {
                let target = match link_target {
                    Option::Some(t) => t,
                    Option::None => String::new(),
                };
                FileEntry::Symlink {
                    name,
                    path,
                    size: m.size,
                    modified: m.modified,
                    target,
                    target_is_dir: m.is_dir,
                }
            } else if m.is_dir {
                FileEntry::Directory { name, path, modified: m.modified }
            } else {
                FileEntry::File { name, path, size: m.size, modified: m.modified }
            }
        },
    }
}

/// Classifies every raw child of one directory and sorts the result into
/// display order. Total: an unreadable child becomes an `Unreadable` entry,
/// never a failure of the whole listing. Every produced entry's path ends
/// with its name as the final component.
pub fn build_listing(dir_path: &str, children: Vec<RawChild>) -> (r: Vec<FileEntry>)
    ensures
        views(r@) == spec_sort(spec_classified(dir_path@, children@)),
        forall|i: int| 0 <= i < r@.len() ==> (#[trigger] views(r@)[i]).path_ends_with_name(),
{
    let ghost orig = children@;
    let mut rest = children;
    let mut classified: Vec<FileEntry> = Vec::new();
    let ghost done = Seq::<RawChild>::empty();
    proof {
        assert(orig =~= done + rest@);
        assert(views(classified@) =~= spec_classified(dir_path@, done));
    }
    while rest.len() > 0
        invariant
            orig == done + rest@,
            views(classified@) == spec_classified(dir_path@, done),
        decreases rest@.len(),
    {
        let ghost done_before = done;
        let ghost classified_before = classified@;
        let c = rest.remove(0);
        let e = classify(dir_path, c);
        classified.push(e);
        proof {
            done = done_before.push(c);
            assert(orig =~= done + rest@);
            assert(views(classified@) =~= views(classified_before).push(e@));
            assert(spec_classified(dir_path@, done) =~= spec_classified(
                dir_path@,
                done_before,
            ).push(spec_classify(dir_path@, c)));
            assert(views(classified@) =~= spec_classified(dir_path@, done));
        }
    }
    proof {
        assert(done =~= orig);
    }
    let r = sort_entries(classified);
    proof {
        let cls = spec_classified(dir_path@, orig);
        assert forall|i: int|
            0 <= i < r@.len() implies (#[trigger] views(r@)[i]).path_ends_with_name() by {
            let x = views(r@)[i];
            assert(spec_sort(cls).contains(x));
            lemma_spec_sort_contains(cls, x);
            let j = choose|j: int| 0 <= j < cls.len() && cls[j] == x;
            lemma_join_ends_with_name(dir_path@, orig[j].name@);
        }
    }
    r
}

/// The listing boundary: given the outcome of opening the directory at
/// `path` — the raw children on success, the OS-reported failure category
/// and message on failure — returns the sorted classified listing, or the
/// mapped error. Succeeds exactly when the open succeeded.
pub fn list_outcome(path: &str, opened: Result<Vec<RawChild>, (IoErrorKind, String)>) -> (r:
    Result<Vec<FileEntry>, AppError>)
    ensures
        match opened {
            Result::Ok(children) => match r {
                Result::Ok(entries) => views(entries@) == spec_sort(
                    spec_classified(path@, children@),
                ),
                Result::Err(_) => false,
            },
            Result::Err((kind, message)) => match r {
                Result::Ok(_) => false,
                Result::Err(e) => match (kind, e) {
                    (IoErrorKind::NotFound, AppError::NotFound { path: p }) => p@ == path@,
                    (IoErrorKind::PermissionDenied, AppError::PermissionDenied { path: p }) => p@
                        == path@,
                    (IoErrorKind::Other, AppError::Io { message: m, path: p }) => m == message && (
                    match p {
                        Option::Some(pp) => pp@ == path@,
                        Option::None => false,
                    }),
                    _ => false,
                },
            },
        },
{
    match opened {
        Result::Ok(children) => Result::Ok(build_listing(path, children)),
        Result::Err((kind, message)) => Result::Err(map_io_error(kind, message, path.to_owned())),
    }
}

} // verus!
