use monadicast::MonadicAst;

#[test]
fn valid_code_is_wrapped_and_printed() {
    let monad = MonadicAst::new("fn main ( ) { let x : i32 = 1 ; }").unwrap();
    let printed = monad.result();
    assert!(printed.contains("fn main()"));
    assert!(printed.contains("let x: i32 = 1;"));
}

#[test]
fn invalid_code_is_an_error() {
    assert!(MonadicAst::new("fn main( {").is_err());
    assert!(MonadicAst::new("let x = 1;").is_err());
}

#[test]
fn empty_file_is_a_file() {
    let monad = MonadicAst::new("").unwrap();
    assert!(monad.ast().items.is_empty());
}

#[test]
fn wrapping_and_unwrapping_keeps_the_tree() {
    let file: syn::File = syn::parse_str("struct S;").unwrap();
    let monad = MonadicAst::from(file.clone());
    assert_eq!(monad.ast(), file);
}

#[test]
fn binder_wrapper_parses_owned_code() {
    assert!(monadicast::binder::ast::MonadicAst::new("fn f() {}".to_string()).is_ok());
    assert!(monadicast::binder::ast::MonadicAst::new("fn".to_string()).is_err());
}

#[test]
fn the_held_tree_is_the_parse_of_the_code() {
    let code = "pub fn g(a: i32) -> i64 { a as i64 }";
    let monad = MonadicAst::new(code).unwrap();
    let expected: syn::File = syn::parse_file(code).unwrap();
    assert_eq!(monad.ast, expected);
}

#[test]
fn printed_code_parses_again() {
    let monad = MonadicAst::new("struct S { x : u8 } fn f ( ) -> u8 { 1 }").unwrap();
    let printed = monad.result();
    assert_eq!(printed, "struct S {\n    x: u8,\n}\nfn f() -> u8 {\n    1\n}\n");
    assert!(MonadicAst::new(&printed).is_ok());
}
