//! Path-addressed rewriting of YAML documents.
//!
//! A document is a [`tree::Yaml`] value, and [`tree::Tree`] is what the
//! contracts say of it. A path names one node of a document by a list of
//! segments, each a mapping key or a sequence index ([`path`]), and
//! [`update::update_value`] overwrites the node that a path leads to.
//! [`subst`] replaces placeholders by what environment variables hold, and
//! [`transform::transform`] is a whole run: parse, replace, substitute,
//! write.
//!
//! Parsing and emitting YAML text is left to `serde_yaml`, behind the
//! functions of [`codec`]. Nothing is read or written here: the environment
//! comes in as a list of names and values, and texts come and go as strings.

pub mod codec;
pub mod config;
pub mod failure;
pub mod path;
pub mod route;
pub mod subst;
pub mod text;
pub mod transform;
pub mod tree;
pub mod update;
