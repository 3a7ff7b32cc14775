//! A directory-tree lister: an arena-based file-tree model, an iterative
//! depth-first cursor that finds the next directory to expand, a scanner
//! that populates the tree from directory listings, and a renderer that
//! prints the tree with box-drawing connectors and a summary line.

pub mod args;
pub mod file_traverse;
pub mod files;
pub mod laws;
pub mod render;
pub mod scanner;
pub mod style;
pub mod text;
pub mod tree;

pub use args::Args;
pub use file_traverse::traverse;
pub use files::{FileType, Files, RawMeta, TargetKind};
pub use render::{FileInTree, FileWithName, Line, render_colored, render_plain};
pub use scanner::{Child, Listing, expand_dir, scan_files};
pub use tree::Tree;
