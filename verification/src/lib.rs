//! Semantic diffing of JSON documents.
//!
//! A JSON value is first brought into a canonical form in which object keys
//! (and, optionally, array elements) appear in a deterministic order; the two
//! canonical forms are then pretty-printed and compared line by line, and the
//! differences are rendered as an annotated, indexed change report.

pub mod canon;
pub mod cli;
pub mod injective;
pub mod laws;
pub mod pretty;
pub mod render;
pub mod sort;
pub mod strutil;
pub mod value;

pub use canon::{generate_array_key, normalize_value};
pub use cli::Sub;
pub use render::{diff, to_string_pretty};
pub use value::Json;
