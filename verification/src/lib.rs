//! Physical operators of an embeddable behavioural query engine.
//!
//! Every operator here is executable Rust whose behaviour is stated in a
//! contract and proved. Arrow and `smallvec` are reached through the trusted
//! items of [`columnar`] and [`matcher::bindings`].

pub mod chunks;
pub mod columnar;
pub mod error;
pub mod expr;
pub mod matcher;
pub mod materialize;
pub mod materialize_laws;
pub mod operator;
pub mod project;
pub mod scan;
pub mod schema;
pub mod selection;
pub mod session_laws;
pub mod session_rows;
pub mod sessionize;
pub mod text;
pub mod value;
