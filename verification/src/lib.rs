//! Emission of TOML documents from an in-memory value tree.
//!
//! The crate models TOML data as a tagged [`value::Value`] tree and turns such
//! trees (or any other data source that drives the event protocol of
//! [`ser::Serializer`]) into document text, enforcing the grammar's rules
//! about array homogeneity, header nesting and field ordering.

pub mod num;
pub mod text;
pub mod value;
pub mod ser;
pub mod builder;
pub mod laws;
