//! The points where the library meets `syn` and `prettyplease`.

use vstd::prelude::*;

verus! {

/// A parsed Rust source file.
#[verifier::external_type_specification]
#[verifier::external_body]
pub struct ExFile(syn::File);

/// A parsed Rust type.
#[verifier::external_type_specification]
#[verifier::external_body]
pub struct ExType(syn::Type);

/// A parsed Rust expression.
#[verifier::external_type_specification]
#[verifier::external_body]
pub struct ExExpr(syn::Expr);

/// The error `syn` reports when text does not parse.
#[verifier::external_type_specification]
#[verifier::external_body]
pub struct ExError(syn::Error);

/// The tree that `syn::parse_file` builds from the text; `None` where it
/// reports an error. The tree depends on the text alone: outside a procedural
/// macro, and without the `span-locations` feature of `proc-macro2` (which
/// this crate does not enable), a span carries no data.
pub uninterp spec fn parsed_file(text: Seq<char>) -> Option<syn::File>;

/// Whether `syn` accepts the text as the contents of a Rust source file.
pub open spec fn parses_as_file(text: Seq<char>) -> bool {
    parsed_file(text) is Some
}

/// The type that `syn::parse_str::<syn::Type>` builds from the text; `None`
/// where it reports an error.
pub uninterp spec fn parsed_type(text: Seq<char>) -> Option<syn::Type>;

/// Whether `syn` accepts the text as a Rust type.
pub open spec fn parses_as_type(text: Seq<char>) -> bool {
    parsed_type(text) is Some
}

/// The expression that `syn::parse_str::<syn::Expr>` builds from the text;
/// `None` where it reports an error.
pub uninterp spec fn parsed_expr(text: Seq<char>) -> Option<syn::Expr>;

/// The text that `prettyplease::unparse` prints for the tree; `None` where it
/// does not return. It stops with `unimplemented!` on syntax it cannot print,
/// such as a verbatim item (`fn f();` parses to one) when its `verbatim`
/// feature is off, as it is here.
pub uninterp spec fn printed_file(ast: syn::File) -> Option<Seq<char>>;

/// Calls `syn::parse_file`. Trusted: on success the tree is the one the
/// text parses to, and the call fails exactly where the text does not parse.
/// Nothing is stated of the error value, which holds the id of the thread
/// that made it.
#[verifier::external_body]
pub(crate) fn parse_file(content: &str) -> (r: Result<syn::File, syn::Error>)
    ensures
        match r {
            Ok(ast) => parsed_file(content@) == Some(ast),
            Err(_) => parsed_file(content@) is None,
        },
{
    syn::parse_file(content)
}

/// Calls `syn::parse_str::<syn::Type>`. Trusted: the result is the type
/// the text parses to, `None` where it does not parse.
#[verifier::external_body]
pub(crate) fn parse_type(text: &str) -> (r: Option<syn::Type>)
    ensures
        r == parsed_type(text@),
{
    syn::parse_str::<syn::Type>(text).ok()
}

/// Calls `syn::parse_str::<syn::Expr>`. Trusted: the result is the
/// expression the text parses to, `None` where it does not parse.
#[verifier::external_body]
pub(crate) fn parse_expr(text: &str) -> (r: Option<syn::Expr>)
    ensures
        r == parsed_expr(text@),
{
    syn::parse_str::<syn::Expr>(text).ok()
}

/// Calls `prettyplease::unparse`, on a tree it can print. Trusted: the
/// result is the text printed for the tree. What that text is, is left to
/// `prettyplease`.
#[verifier::external_body]
pub(crate) fn unparse(ast: &syn::File) -> (r: String)
    requires
        printed_file(*ast) is Some,
    ensures
        printed_file(*ast) == Some(r@),
{
    prettyplease::unparse(ast)
}

} // verus!
