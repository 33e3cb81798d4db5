//! Edit YAML in place, keeping the comments and formatting of everything an
//! edit does not touch.
pub mod diff;
pub mod document;
pub mod leading;
pub mod outside;
pub mod tree;
pub mod yaml;

pub use document::{Error, YamlObject, YamlValue};
pub use leading::leading_block;
pub use yaml::{Num, Yaml};
