//! An in-memory, read-after-construction hierarchical namespace.
//!
//! A namespace is a tree of directories and files assembled once through a
//! builder and then queried with slash-delimited absolute paths.  Lookups
//! either resolve a path to a file or a directory, or report absence; they
//! never fail in any other way and never mutate the tree.

pub mod fs;
pub mod laws;
pub mod node;
pub mod paths;

pub use fs::MemFs;
pub use node::MemFsDirectory;
pub use node::MemFsFile;
pub use node::Node;
pub use paths::get_leading_entry;
pub use paths::get_remaining;
