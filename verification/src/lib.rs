//! Layout-preserving writer for tagged, nested description files.
//!
//! A tree of tagged elements is built through [`Writer`] and
//! [`TaggedGroupHandle`] and rendered once into one text document. The
//! scalar formatters and the string escaper used while building such a tree
//! are part of the crate as well.
pub mod escape;
pub mod format;
pub mod laws;
pub mod layout;
pub mod model;
pub mod order;
pub mod text;
pub mod whitespace;
pub mod writer;

pub use escape::escape_string;
pub use writer::{TaggedGroupHandle, Writer};
