use monadicast::passes::convert_ffi_types::{TypeReplacer, TypeRewrite};
use monadicast::type_converter::{function_report, raw_pointer_report, TypeReplacer as OrderedTypeReplacer};
use quote::ToTokens;

fn replaced_text(r: TypeRewrite) -> Option<String> {
    match r {
        TypeRewrite::Replace(ty) => Some(ty.to_token_stream().to_string()),
        TypeRewrite::Descend => None,
    }
}

#[test]
fn each_ffi_type_has_its_rust_type() {
    let replacer = TypeReplacer::new();
    let pairs = [
        ("libc::c_int", "i32"),
        ("libc::c_uint", "u32"),
        ("libc::c_void", "()"),
        ("libc::c_char", "i8"),
        ("libc::c_uchar", "u8"),
        ("libc::c_long", "i64"),
        ("libc::c_ulong", "u64"),
    ];
    for (from, to) in pairs {
        assert_eq!(replacer.replacement_for(from), Some(to.to_string()));
    }
}

#[test]
fn spaces_between_tokens_do_not_matter() {
    let replacer = TypeReplacer::new();
    assert_eq!(replacer.replacement_for("libc :: c_int"), Some("i32".to_string()));
    assert_eq!(replacer.replacement_for(" libc ::c_ulong "), Some("u64".to_string()));
}

#[test]
fn other_types_have_no_rule() {
    let replacer = TypeReplacer::new();
    assert_eq!(replacer.replacement_for("libc::c_float"), None);
    assert_eq!(replacer.replacement_for("c_int"), None);
    assert_eq!(replacer.replacement_for(""), None);
}

#[test]
fn replaced_types_are_not_replaced_again() {
    let replacer = TypeReplacer::new();
    for to in ["i32", "u32", "()", "i8", "u8", "i64", "u64"] {
        assert_eq!(replacer.replacement_for(to), None);
    }
}

#[test]
fn path_type_with_rule_is_replaced_by_parsed_type() {
    let replacer = TypeReplacer::new();
    assert_eq!(replaced_text(replacer.rewrite_type(Some("libc :: c_int"))), Some("i32".to_string()));
    assert_eq!(replaced_text(replacer.rewrite_type(Some("libc :: c_void"))), Some("()".to_string()));
}

#[test]
fn other_types_are_descended_into() {
    let replacer = TypeReplacer::new();
    assert!(matches!(replacer.rewrite_type(None), TypeRewrite::Descend));
    assert!(matches!(replacer.rewrite_type(Some("Vec < libc :: c_int >")), TypeRewrite::Descend));
    assert!(matches!(replacer.rewrite_type(Some("i32")), TypeRewrite::Descend));
}

#[test]
fn extern_abi_is_dropped() {
    let replacer = TypeReplacer::new();
    assert_eq!(replacer.rewrite_abi(Some("C")), None);
    assert_eq!(replacer.rewrite_abi::<&str>(None), None);
}

#[test]
fn ordered_replacer_tries_rules_in_order() {
    let replacer = OrderedTypeReplacer::new();
    assert_eq!(replaced_text(replacer.rewrite_type(Some("libc::c_char"))), Some("i8".to_string()));
    assert_eq!(replaced_text(replacer.rewrite_type(Some("libc :: c_uchar"))), Some("u8".to_string()));
    assert!(matches!(replacer.rewrite_type(Some("libc::size_t")), TypeRewrite::Descend));
    assert!(matches!(replacer.rewrite_type(None), TypeRewrite::Descend));
}

#[test]
fn reports_name_functions_and_pointer_arguments() {
    assert_eq!(function_report("bfs"), "Function with name=bfs");
    assert_eq!(
        raw_pointer_report("mut users", "User"),
        "Found raw pointer argument: mut users: *User"
    );
}

#[test]
fn both_forms_of_the_conversion_agree() {
    let table = TypeReplacer::new();
    let ordered = OrderedTypeReplacer::new();
    for tokens in ["libc::c_int", "libc :: c_uint", "libc::c_void", "libc::c_char", "libc::c_uchar",
        "libc::c_long", "libc::c_ulong", "libc::size_t", "i32", "Vec<u8>"] {
        assert_eq!(
            replaced_text(table.rewrite_type(Some(tokens))),
            replaced_text(ordered.rewrite_type(Some(tokens)))
        );
    }
}

#[test]
fn replacement_is_the_parse_of_the_rule_type() {
    let expected: syn::Type = syn::parse_str("u8").unwrap();
    match TypeReplacer::new().rewrite_type(Some("libc::c_uchar")) {
        TypeRewrite::Replace(ty) => assert_eq!(ty, expected),
        TypeRewrite::Descend => panic!("expected a replacement"),
    }
    match OrderedTypeReplacer::new().rewrite_type(Some("libc::c_uchar")) {
        TypeRewrite::Replace(ty) => assert_eq!(ty, expected),
        TypeRewrite::Descend => panic!("expected a replacement"),
    }
}
