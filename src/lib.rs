//! Turns a directory tree into a closed table of identifiers, one per
//! directory and per matching file, each mapped back to its logical path.
//!
//! - [`scan`] takes directory listings one at a time and yields the entries
//!   of the tree, each logical path once.
//! - [`ident`] turns a logical path into an identifier.
//! - [`model`] builds the compiled set: identifiers given, collisions
//!   refused, rows ordered by identifier.
//! - [`config`] holds the options of a compilation and their defaults.
//! - [`order`] and [`text`] hold the ordinal string order and the character
//!   helpers that the others use.

pub mod text;
pub mod ident;
pub mod order;
pub mod model;
pub mod scan;
pub mod config;
