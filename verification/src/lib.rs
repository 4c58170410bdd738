//! Keeps JSON localization dictionaries in step with the translation keys
//! that a project's source files use.
//!
//! The library works on plain values: the names of the entries of a file
//! tree, the text of source files and the bytes of dictionary files. Reading
//! and writing those files is left to the caller.

pub mod error;
pub mod order;
mod sorted;
pub mod keys;
pub mod dictionary;
pub mod flavor;
pub mod tree;
pub mod extractor;
pub mod translation;
pub mod json;
pub mod pattern;
