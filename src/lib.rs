//! Tag compiler: resolves the facts declared on the variants of an enum and
//! builds one accessor function per fact name.
//!
//! Each variant carries declarations `tag(name[, expression])`. A fact's
//! expression may use the other facts of its own variant; facts are
//! evaluated in repeated passes until none resolves any more. Facts of one
//! name must have values of one kind across all variants; each name then
//! gives an accessor from variant to optional value, in name order.

pub mod eval;
mod text;
pub mod accessor;
pub mod error;
pub mod laws;
pub mod literal;
pub mod order;
pub mod render;
pub mod tag;
pub mod tags;
pub mod value;

pub use accessor::{tagged_derive, Accessor, VariantDecl};
pub use error::{Category, TagError};
pub use eval::Scope;
pub use render::render_impl;
pub use tag::Tag;
pub use tags::Tags;
pub use value::{Kind, Value};
