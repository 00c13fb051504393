//! A structural, path-addressed diff of semi-structured documents: trees
//! of scalars, ordered sequences, and insertion-ordered mappings.
//!
//! The crate provides the path language that names a location inside a
//! tree and reads or writes it, the walk that compares two trees in lock
//! step and classifies every divergence, the correlation step that pairs
//! the top-level documents of two inputs, and the declarative policy that
//! normalises documents before comparison and filters the resulting
//! records. Reading files, parsing YAML and rendering records stay
//! outside; the library works on plain trees and hands back plain
//! records.

pub mod access;
pub mod diff;
pub mod digits;
pub mod error;
pub mod index;
pub mod keypath;
pub mod laws;
pub mod node;
pub mod re;
pub mod strategy;
