//! Path-string addressing into tree-shaped documents.
//!
//! A document is a [`value::TreeValue`]: a table of keyed entries, a list, or
//! a scalar. A path is a string of tokens joined by a separator (`.` by
//! default); a token of the form `[<digits>]` addresses a list position, any
//! other token is a literal table key. The library reads the value at a path,
//! replaces the value at a path (returning the displaced value), and
//! enumerates every path that a document contains.

pub mod enumerate;
pub mod json;
pub mod json_paths;
pub mod json_update;
pub mod laws;
pub mod mutate;
pub mod nav;
pub mod split;
pub mod token;
pub mod toml;
pub mod value;

pub use json::read as json_read;
pub use json_paths::json_get_paths;
pub use json_update::json_update;
pub use toml::get_paths as toml_get_paths;
pub use toml::read as toml_read;
pub use toml::update as toml_update;
pub use value::PathError;
pub use value::TreeValue;
