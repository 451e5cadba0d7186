//! A directory-listing core: classifies the children of one directory into a
//! closed set of entry kinds, orders them deterministically (directories and
//! directory-like symlinks first, then case-insensitive name), and maps
//! low-level failures into a small error taxonomy.
//!
//! All filesystem access stays outside this crate: callers gather the raw
//! facts about each child (name, metadata, link target) and hand them in as
//! plain values; the classification, ordering and error-mapping logic here is
//! verified. A lossless wire form for entries, with a proved round trip, is
//! provided for carrying listings across a process or UI boundary.

pub mod codec;
pub mod error;
pub mod listing;
pub mod sorting;
pub mod strings;
pub mod types;
