//! Management of named, optionally nested lists of crate names, backed by a
//! TOML configuration document.
//!
//! A list is addressed by a dot-separated path such as `graphics.3d`; the
//! empty path denotes the implicit root container, which holds only child
//! lists and never crates of its own.
//!
//! - [`lists`] holds the store and its operations: create, delete, add and
//!   remove crates, describe, count and look up.
//! - [`model`] is the mathematical model behind the contracts: the store as
//!   a flat sequence of nodes in depth-first order, the well-formedness the
//!   operations preserve, and the effect of each operation.
//! - [`outcome`] is what each operation reports; refusals never mutate.
//! - [`laws`] proves the properties that relate several operations.
//! - [`render`] produces the plain text shown for lists and crates.
//! - [`store`] writes the store as a TOML document and loads it back.
//! - [`text`] holds the verified text utilities the rest builds on.

pub mod laws;
pub mod lists;
pub mod model;
pub mod outcome;
pub mod render;
pub mod store;
pub mod text;
