//! A monadic wrapper around a parsed Rust file, whose monadic functions are
//! the rewriting passes.

use vstd::prelude::*;
use crate::syntax::{parse_file, parsed_file, parses_as_file, printed_file, unparse};

verus! {

/// A monadic value wrapping the abstract syntax tree of a Rust file. The
/// passes are its monadic functions: each takes the value and returns the
/// value holding the rewritten tree.
pub struct MonadicAst {
    pub ast: syn::File,
}

impl MonadicAst {
    /// The monadic value wrapping the tree of the given Rust code; the error
    /// of the parser where the code does not parse as a Rust file.
    pub fn new(file_content: &str) -> (r: Result<Self, syn::Error>)
        ensures
            r.is_ok() == parses_as_file(file_content@),
            match r {
                Ok(m) => parsed_file(file_content@) == Some(m.ast),
                Err(_) => parsed_file(file_content@) is None,
            },
    {
        match parse_file(file_content) {
            Ok(ast) => Ok(MonadicAst { ast }),
            Err(e) => Err(e),
        }
    }

    /// The held tree, consuming the monadic value.
    pub fn ast(self) -> (r: syn::File)
        ensures
            r == self.ast,
    {
        self.ast
    }

    /// The held tree, printed as formatted Rust code by `prettyplease`. The
    /// tree must be one that `prettyplease` can print.
    pub fn result(&self) -> (r: String)
        requires
            printed_file(self.ast) is Some,
        ensures
            printed_file(self.ast) == Some(r@),
    {
        unparse(&self.ast)
    }
}

/// The unit operation `return :: a -> M a`: wraps a tree into a monadic value.
impl From<syn::File> for MonadicAst {
    fn from(ast: syn::File) -> (r: Self) {
        MonadicAst { ast }
    }
}

impl vstd::std_specs::convert::FromSpecImpl<syn::File> for MonadicAst {
    open spec fn obeys_from_spec() -> bool {
        true
    }

    open spec fn from_spec(ast: syn::File) -> Self {
        MonadicAst { ast }
    }
}

/// The `bind :: (M a) -> (a -> M b) -> (M b)` operation of a pass: it takes
/// the monadic value and returns the one holding the tree the pass rewrote.
pub trait Pass {
    fn bind(&mut self, monad: MonadicAst) -> MonadicAst;
}

/// Wrapping a tree and unwrapping it again gives the same tree back.
pub proof fn lemma_wrap_unwrap(ast: syn::File)
    ensures
        <MonadicAst as vstd::std_specs::convert::FromSpec<syn::File>>::from_spec(ast).ast == ast,
{
}

} // verus!
