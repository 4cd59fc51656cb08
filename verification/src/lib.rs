//! AST rewriting passes that lift C-flavoured Rust, full of raw pointers,
//! FFI types and counting `while` loops, towards safe, idiomatic Rust.

pub mod binder;
pub mod monad;
pub mod name_map;
pub mod passes;
pub mod paths;
pub mod retain;
pub mod samples;
pub mod syntax;
pub mod text;
pub mod type_converter;

pub use monad::ast::MonadicAst;
