//! The classified result for one directory child, and its mathematical model.

use vstd::prelude::*;

verus! {

/// Abstract value of a [`FileEntry`]: the same four variants, with every
/// field reduced to its mathematical content. Contracts throughout the crate
/// speak of this model.
pub enum EntryModel {
    File { name: Seq<char>, path: Seq<char>, size: int, modified: Option<int> },
    Directory { name: Seq<char>, path: Seq<char>, modified: Option<int> },
    Symlink {
        name: Seq<char>,
        path: Seq<char>,
        size: int,
        modified: Option<int>,
        target: Seq<char>,
        target_is_dir: bool,
    },
    Unreadable { name: Seq<char>, path: Seq<char>, reason: Seq<char> },
}

impl EntryModel {
    /// The filesystem-reported child name.
    pub open spec fn name(self) -> Seq<char> {
        match self {
            EntryModel::File { name, .. } => name,
            EntryModel::Directory { name, .. } => name,
            EntryModel::Symlink { name, .. } => name,
            EntryModel::Unreadable { name, .. } => name,
        }
    }

    /// The full path of the child.
    pub open spec fn path(self) -> Seq<char> {
        match self {
            EntryModel::File { path, .. } => path,
            EntryModel::Directory { path, .. } => path,
            EntryModel::Symlink { path, .. } => path,
            EntryModel::Unreadable { path, .. } => path,
        }
    }

    /// Directory-likeness: a directory, or a symlink whose target resolved to
    /// a directory. This is what the ordering groups by.
    pub open spec fn is_dir_like(self) -> bool {
        match self {
            EntryModel::Directory { .. } => true,
            EntryModel::Symlink { target_is_dir, .. } => target_is_dir,
            _ => false,
        }
    }

    /// The reported size in bytes; entry kinds without a meaningful size
    /// count as zero.
    pub open spec fn size(self) -> int {
        match self {
            EntryModel::File { size, .. } => size,
            EntryModel::Symlink { size, .. } => size,
            _ => 0,
        }
    }

    /// `path` ends with `name` as its final path component: the characters of
    /// `name` are the suffix of `path`, preceded by a separator unless the
    /// path is the name alone.
    pub open spec fn path_ends_with_name(self) -> bool {
        let p = self.path();
        let n = self.name();
        &&& n.len() <= p.len()
        &&& p.subrange(p.len() - n.len(), p.len() as int) == n
        &&& (p.len() == n.len() || p[p.len() - n.len() - 1] == '/')
    }
}

/// One classified directory child. A closed tagged union, open to future
/// extension: consumers must not assume exhaustiveness.
#[derive(Debug, Clone)]
#[non_exhaustive]
pub enum FileEntry {
    File { name: String, path: String, size: u64, modified: Option<u64> },
    Directory { name: String, path: String, modified: Option<u64> },
    Symlink {
        name: String,
        path: String,
        size: u64,
        modified: Option<u64>,
        target: String,
        target_is_dir: bool,
    },
    Unreadable { name: String, path: String, reason: String },
}

impl View for FileEntry {
    type V = EntryModel;

    open spec fn view(&self) -> EntryModel {
        match self {
            FileEntry::File { name, path, size, modified } => EntryModel::File {
                name: name@,
                path: path@,
                size: *size as int,
                modified: spec_modified(*modified),
            },
            FileEntry::Directory { name, path, modified } => EntryModel::Directory {
                name: name@,
                path: path@,
                modified: spec_modified(*modified),
            },
            FileEntry::Symlink { name, path, size, modified, target, target_is_dir } => {
                EntryModel::Symlink {
                    name: name@,
                    path: path@,
                    size: *size as int,
                    modified: spec_modified(*modified),
                    target: target@,
                    target_is_dir: *target_is_dir,
                }
            },
            FileEntry::Unreadable { name, path, reason } => EntryModel::Unreadable {
                name: name@,
                path: path@,
                reason: reason@,
            },
        }
    }
}

/// The model of an optional modification time (whole seconds since the epoch).
pub open spec fn spec_modified(m: Option<u64>) -> Option<int> {
    match m {
        Some(t) => Some(t as int),
        None => None,
    }
}

impl FileEntry {
    /// The filesystem-reported child name, whatever the variant.
    pub fn name(&self) -> (r: &str)
        ensures
            r@ == self@.name(),
    {
        match self {
            FileEntry::File { name, .. } => name.as_str(),
            FileEntry::Directory { name, .. } => name.as_str(),
            FileEntry::Symlink { name, .. } => name.as_str(),
            FileEntry::Unreadable { name, .. } => name.as_str(),
        }
    }

    /// The full path of the child, whatever the variant.
    pub fn path(&self) -> (r: &str)
        ensures
            r@ == self@.path(),
    {
        match self {
            FileEntry::File { path, .. } => path.as_str(),
            FileEntry::Directory { path, .. } => path.as_str(),
            FileEntry::Symlink { path, .. } => path.as_str(),
            FileEntry::Unreadable { path, .. } => path.as_str(),
        }
    }

    /// Whether the entry sorts with directories: a directory, or a symlink
    /// whose target is a directory.
    pub fn is_dir(&self) -> (r: bool)
        ensures
            r == self@.is_dir_like(),
    {
        match self {
            FileEntry::Directory { .. } => true,
            FileEntry::Symlink { target_is_dir, .. } => *target_is_dir,
            _ => false,
        }
    }
}

/// File and Symlink entries never report a negative size: sizes are byte
/// counts, and the model of every other kind is zero.
pub proof fn lemma_size_nonnegative(e: FileEntry)
    ensures
        e@.size() >= 0,
{
}

} // verus!
