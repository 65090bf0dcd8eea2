//! A verified library for rendering a directory as an indented tree listing.
//!
//! The filesystem is handed in as a plain snapshot of entries; the library
//! filters hidden and ignore-matched entries, limits the depth, sorts
//! siblings (directories first, then ascending path order), and renders the
//! tree to lines of text. All filesystem and sink I/O stays with the caller.
pub mod cli;
pub mod file_tree;
pub mod strings;
pub mod utils;
