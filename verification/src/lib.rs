//! An in-memory merged directory tree: several module source trees are
//! overlaid, in caller-chosen priority order, into one virtual filesystem
//! view, honoring deletion tombstones (whiteouts) and directory-replacement
//! markers.

pub mod laws;
pub mod node;
pub mod try_umount;
