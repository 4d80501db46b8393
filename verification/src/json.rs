//! Path operations on JSON-like documents, whose root may be any node.

pub mod paths;
pub mod read;

pub use paths::get_paths;
pub use read::read;
