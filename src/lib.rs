//! Parsing and rewriting of message templates with `{…}` placeholders.
//!
//! [`parse_internal`] turns a template such as `"{} failed: {reason:?}"` into a
//! canonical form, `"{__0} failed: {reason:?}"`, and a catalogue of the field
//! keys it references, each with its trait annotation. [`Interpolate`] pairs
//! that result with the shape of the enum variant the template belongs to.
pub mod catalogue;
pub mod interpolate;
pub mod laws;
pub mod model;
pub mod parser;
pub mod text;

pub use catalogue::{Catalogue, Field};
pub use interpolate::{FieldShape, Interpolate, VariantShape};
pub use parser::parse_internal;
