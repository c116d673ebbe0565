//! Board description compiler.
//!
//! Board descriptions are YAML files that each hold a part of what is to be
//! said of a set of boards. This library
//!
//! - picks the description files among a list of paths and puts them in
//!   order ([`compile::fragment_paths`]),
//! - reads each file's text into a document tree ([`yaml`], [`document`]),
//! - merges the trees in that order ([`merge`]),
//! - decodes the merged tree into the manifest ([`decode`], [`sbd`]),
//!   rejecting every document that the schema does not allow ([`schema`],
//!   [`validity`]),
//! - and says what has to be written for a tree of generated files, and how
//!   a directory differs from it ([`filemap`]).
//!
//! The library reads and writes no file: its callers hand it texts and the
//! listing of a directory, and carry out what it plans.

pub mod compile;
pub mod decode;
pub mod document;
pub mod filemap;
pub mod merge;
pub mod sbd;
pub mod schema;
pub mod text;
pub mod validity;
pub mod yaml;
