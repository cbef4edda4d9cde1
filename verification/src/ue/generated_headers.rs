//! Headers that UnrealHeaderTool generates (`<Name>.generated.h`).

use vstd::prelude::*;
use vstd::string::StringExecFns;
use crate::util::path::{file_stem, join, parent, path_exists, spec_file_stem, spec_join, spec_parent};

verus! {

/// A source file together with the header generated for it.
#[derive(Debug, Clone)]
pub struct GeneratedHeader {
    pub source_file: String,
    pub generated_file: String,
}

/// The generated header that belongs to a source file: `<stem>.generated.h`
/// beside it, when the file has a stem and a directory.
pub open spec fn generated_header_path(source: Seq<char>) -> Option<Seq<char>> {
    match spec_file_stem(source) {
        Some(stem) => match spec_parent(source) {
            Some(dir) => Some(spec_join(dir, stem + ".generated.h"@)),
            None => None,
        },
        None => None,
    }
}

impl GeneratedHeader {
    /// The expected generated header path for a source file.
    pub fn for_source_file(source_path: &str) -> (res: Option<String>)
        ensures
            res.is_some() == generated_header_path(source_path@).is_some(),
            res matches Some(p) ==> generated_header_path(source_path@) == Some(p@),
    {
        let stem = match file_stem(source_path) {
            Some(s) => s,
            None => return None,
        };
        let dir = match parent(source_path) {
            Some(d) => d,
            None => return None,
        };
        let mut name = stem;
        name.append(".generated.h");
        Some(join(dir.as_str(), name.as_str()))
    }

    /// Whether the generated header of a source file exists; false when the
    /// file has none.
    pub fn exists_for(source_path: &str) -> (res: bool)
        ensures
            generated_header_path(source_path@) is None ==> !res,
    {
        match Self::for_source_file(source_path) {
            Some(p) => path_exists(p.as_str()),
            None => false,
        }
    }
}

} // verus!
