//! A tagging filesystem core: files of a flat source directory are shown under
//! virtual directories whose paths are intersections of tags.

pub mod ino;
pub mod tree;
pub mod collections;
pub mod index;
pub mod ops;
pub mod ordered;
pub mod savefile;
pub mod persist;
