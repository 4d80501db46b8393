//! Path operations on TOML-like documents, whose root is a table.

pub mod paths;
pub mod read;
pub mod update;

pub use paths::get_paths;
pub use read::read;
pub use update::update;
