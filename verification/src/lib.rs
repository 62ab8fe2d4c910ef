//! Analysis of structure definitions in source text: extraction of
//! structures and their fields, dependency-ordered resolution of field
//! types to concrete sizes and alignments, ABI-faithful memory layout
//! computation, and a padding-minimizing field reordering suggestion.

pub mod analyze;
pub mod config;
pub mod error;
pub mod files;
pub mod layout;
pub mod optimize;
pub mod parsers;
pub mod registry;
pub mod resolve;
pub mod structs;
pub mod strutil;

pub use error::Error;
