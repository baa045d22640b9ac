//! A tree of files (directories, regular files and symlinks) and two lazy,
//! configurable traversals over it: one that yields the nodes and one that
//! yields their paths.
pub mod file;
pub mod iter;
pub mod traversal;
