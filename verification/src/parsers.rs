//! Per-language structure extractors over a shared block-discovery and
//! field-splitting core.

pub mod base;
pub mod c;
pub mod rust;
