//! A parsed Rust file that takes its code by value.

use vstd::prelude::*;
use crate::syntax::{parse_file, parsed_file, parses_as_file};

verus! {

/// A parsed Rust file.
pub struct MonadicAst {
    ast: syn::File,
}

impl MonadicAst {
    /// The held tree.
    pub closed spec fn tree(&self) -> syn::File {
        self.ast
    }

    /// The parsed tree of the given Rust code; the error of the parser where
    /// the code does not parse as a Rust file.
    pub fn new(file_content: String) -> (r: Result<Self, syn::Error>)
        ensures
            r.is_ok() == parses_as_file(file_content@),
            match r {
                Ok(m) => parsed_file(file_content@) == Some(m.tree()),
                Err(_) => parsed_file(file_content@) is None,
            },
    {
        match parse_file(file_content.as_str()) {
            Ok(ast) => Ok(MonadicAst { ast }),
            Err(e) => Err(e),
        }
    }
}

} // verus!
