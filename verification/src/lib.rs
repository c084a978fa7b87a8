//! Duplicate-file detection across plain files and archive members.
//!
//! The library holds the decisions of the tool: how an archive member is
//! named, how duplicates are grouped and which copy is kept, which archive
//! handler a path goes to, and how listings and paths are read.

pub mod text;
pub mod path;
pub mod pattern;
pub mod file_info;
pub mod archiver;
pub mod dir;
pub mod dedup;
