//! The Rust-like structure extractor: colon-separated fields, with a
//! leading visibility keyword stripped from field names.

use super::base::extract_block;
use super::base::parse_content;
use super::base::spec_extract;
use super::base::spec_parse_structs;
use super::base::MetaStruct;
use super::base::StructParser;
use crate::error::Error;
use vstd::prelude::*;

verus! {

/// The Rust-like extractor.
#[derive(Debug)]
pub struct RustParser;

impl RustParser {
    /// A new Rust-like extractor.
    pub fn new() -> RustParser {
        RustParser {  }
    }

    /// Splits one structure block into its definition. Fails with
    /// `MalformedDefinition` exactly when the block has no
    /// discoverable, non-empty name.
    pub fn extract(&self, current_struct: &str) -> (r: Result<MetaStruct, Error>)
        ensures
            match r {
                Ok(m) => spec_extract(current_struct@, true) == Some(m.deep_view()),
                Err(e) => spec_extract(current_struct@, true) is None && e is MalformedDefinition,
            },
    {
        extract_block(current_struct, true)
    }

    /// Extracts every structure definition from one file's text,
    /// skipping malformed blocks.
    pub fn parse(&self, file_content: String) -> (r: Result<Vec<MetaStruct>, Error>)
        ensures
            r is Ok,
            r->Ok_0.deep_view() == spec_parse_structs(file_content@, true),
    {
        Ok(parse_content(file_content.as_str(), true))
    }
}

impl StructParser for RustParser {
    fn extract(&self, current_struct: &str) -> Result<MetaStruct, Error> {
        RustParser::extract(self, current_struct)
    }

    fn parse(&self, file_content: String) -> Result<Vec<MetaStruct>, Error> {
        RustParser::parse(self, file_content)
    }
}

} // verus!
