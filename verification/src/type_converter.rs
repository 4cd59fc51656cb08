//! The FFI type conversion of a whole file with an ordered rule list, which
//! also reports the functions and the raw pointer arguments of the file.

use vstd::prelude::*;
use crate::passes::convert_ffi_types::{TypeRewrite, ffi_rules};
use crate::syntax::{parse_type, parsed_type, parses_as_type};
use crate::text::{remove_spaces, without_spaces};

verus! {

/// The replacement rules, in the order in which they are tried.
pub open spec fn ordered_rules() -> Seq<(Seq<char>, Seq<char>)> {
    seq![
        ("libc::c_int"@, "i32"@),
        ("libc::c_uint"@, "u32"@),
        ("libc::c_void"@, "()"@),
        ("libc::c_char"@, "i8"@),
        ("libc::c_uchar"@, "u8"@),
        ("libc::c_long"@, "i64"@),
        ("libc::c_ulong"@, "u64"@)
    ]
}

/// The rule list as text pairs.
pub open spec fn rules_view(rules: Seq<(String, String)>) -> Seq<(Seq<char>, Seq<char>)> {
    rules.map_values(|p: (String, String)| (p.0@, p.1@))
}

/// Whether some rule for the type path text `key` has a Rust type that parses.
pub open spec fn has_parsing_rule(rules: Seq<(Seq<char>, Seq<char>)>, key: Seq<char>) -> bool {
    exists|i: int| 0 <= i < rules.len() && rules[i].0 == key && parses_as_type(#[trigger] rules[i].1)
}

/// Rule `i` is the first for `key` whose Rust type parses, and `t` is the
/// type it parses to.
pub open spec fn first_parsing_rule_at(rules: Seq<(Seq<char>, Seq<char>)>, key: Seq<char>, i: int, t: syn::Type) -> bool {
    &&& 0 <= i < rules.len()
    &&& rules[i].0 == key
    &&& parsed_type(rules[i].1) == Some(t)
    &&& forall|j: int| 0 <= j < i ==> !(rules[j].0 == key && parses_as_type(#[trigger] rules[j].1))
}

/// `t` is the type that the first rule for `key` whose Rust type parses
/// parses to.
pub open spec fn first_parsing_rule(rules: Seq<(Seq<char>, Seq<char>)>, key: Seq<char>, t: syn::Type) -> bool {
    exists|i: int| first_parsing_rule_at(rules, key, i, t)
}

/// The pass that replaces C FFI types, trying its rules in order.
pub struct TypeReplacer {
    rules: Vec<(String, String)>,
}

impl View for TypeReplacer {
    type V = Seq<(Seq<char>, Seq<char>)>;

    closed spec fn view(&self) -> Seq<(Seq<char>, Seq<char>)> {
        rules_view(self.rules@)
    }
}

impl TypeReplacer {
    /// The pass with the standard C FFI rules.
    pub fn new() -> (r: Self)
        ensures
            r@ == ordered_rules(),
    {
        let mut rules: Vec<(String, String)> = Vec::new();
        rules.push((String::from_str("libc::c_int"), String::from_str("i32")));
        rules.push((String::from_str("libc::c_uint"), String::from_str("u32")));
        rules.push((String::from_str("libc::c_void"), String::from_str("()")));
        rules.push((String::from_str("libc::c_char"), String::from_str("i8")));
        rules.push((String::from_str("libc::c_uchar"), String::from_str("u8")));
        rules.push((String::from_str("libc::c_long"), String::from_str("i64")));
        rules.push((String::from_str("libc::c_ulong"), String::from_str("u64")));
        let r = TypeReplacer { rules };
        assert(r@ =~= ordered_rules());
        r
    }

    /// Decides what the pass does with a visited type. `path_tokens` is the
    /// token text of the type when it is a path type, `None` for any other
    /// kind of type. The rules whose C type matches the text (spaces aside)
    /// are tried in order; the first whose Rust type parses replaces the
    /// type. Where none does, the pass descends into the type.
    pub fn rewrite_type(&self, path_tokens: Option<&str>) -> (r: TypeRewrite)
        ensures
            match path_tokens {
                None => r is Descend,
                Some(tokens) => (r is Replace) == has_parsing_rule(self@, without_spaces(tokens@)),
            },
            r matches TypeRewrite::Replace(t) ==> path_tokens matches Some(tokens)
                && first_parsing_rule(self@, without_spaces(tokens@), t),
    {
        match path_tokens {
            None => TypeRewrite::Descend,
            Some(tokens) => {
                let key = remove_spaces(tokens);
                let mut i: usize = 0;
                while i < self.rules.len()
                    invariant
                        i <= self.rules@.len(),
                        key@ == without_spaces(tokens@),
                        path_tokens == Some(tokens),
                        forall|j: int|
                            0 <= j < i ==> !(self@[j].0 == key@ && parses_as_type(#[trigger] self@[j].1)),
                    decreases self.rules@.len() - i,
                {
                    if self.rules[i].0 == key {
                        match parse_type(self.rules[i].1.as_str()) {
                            Some(new_type) => {
                                assert(self@[i as int].0 == key@ && parses_as_type(self@[i as int].1));
                                assert(first_parsing_rule_at(self@, key@, i as int, new_type));
                                return TypeRewrite::Replace(new_type);
                            },
                            None => {},
                        }
                    }
                    i = i + 1;
                }
                TypeRewrite::Descend
            },
        }
    }
}

/// Both forms of the conversion replace the same type paths by the same
/// Rust types: the rules tried in order and the rule table agree.
pub proof fn lemma_rule_tables_agree(key: Seq<char>)
    ensures
        has_parsing_rule(ordered_rules(), key) == (ffi_rules().contains_key(key) && parses_as_type(
            ffi_rules()[key],
        )),
{
    reveal_strlit("libc::c_int");
    reveal_strlit("libc::c_uint");
    reveal_strlit("libc::c_void");
    reveal_strlit("libc::c_char");
    reveal_strlit("libc::c_uchar");
    reveal_strlit("libc::c_long");
    reveal_strlit("libc::c_ulong");
    let rules = ordered_rules();
    let k = seq!["libc::c_int"@, "libc::c_uint"@, "libc::c_void"@, "libc::c_char"@, "libc::c_uchar"@, "libc::c_long"@, "libc::c_ulong"@];
    assert(k[0].len() == 11 && k[1].len() == 12 && k[2].len() == 12 && k[3].len() == 12);
    assert(k[4].len() == 13 && k[5].len() == 12 && k[6].len() == 13);
    assert(k[1][8] == 'u' && k[2][8] == 'v' && k[3][8] == 'c' && k[5][8] == 'l');
    assert(k[4][9] == 'c' && k[6][9] == 'l');
    assert forall|a: int, b: int| 0 <= a < b < 7 implies #[trigger] k[a] != #[trigger] k[b] by {
        if k[a].len() == k[b].len() {
            if k[a].len() == 12 {
                assert(k[a][8] != k[b][8]);
            } else {
                assert(k[a][9] != k[b][9]);
            }
        }
    }
    assert forall|j: int| 0 <= j < 7 implies #[trigger] rules[j].0 == k[j] by {}
    assert(ffi_rules()[k[0]] == rules[0].1);
    assert(ffi_rules()[k[1]] == rules[1].1);
    assert(ffi_rules()[k[2]] == rules[2].1);
    assert(ffi_rules()[k[3]] == rules[3].1);
    assert(ffi_rules()[k[4]] == rules[4].1);
    assert(ffi_rules()[k[5]] == rules[5].1);
    assert(ffi_rules()[k[6]] == rules[6].1);
    if ffi_rules().contains_key(key) && parses_as_type(ffi_rules()[key]) {
        let i = if key == rules[0].0 { 0int } else if key == rules[1].0 { 1 } else if key == rules[2].0 { 2 }
            else if key == rules[3].0 { 3 } else if key == rules[4].0 { 4 } else if key == rules[5].0 { 5 } else { 6 };
        assert(rules[i].0 == key && parses_as_type(rules[i].1));
    }
    if has_parsing_rule(rules, key) {
        let i = choose|i: int| 0 <= i < rules.len() && rules[i].0 == key && parses_as_type(#[trigger] rules[i].1);
        assert(ffi_rules().contains_key(key) && ffi_rules()[key] == rules[i].1);
    }
}

/// The line reported for a function of the converted file.
pub fn function_report(name: &str) -> (r: String)
    ensures
        r@ == "Function with name="@ + name@,
{
    let mut r = String::from_str("Function with name=");
    r.append(name);
    r
}

/// The line reported for a function argument `ident: *pointee`.
pub fn raw_pointer_report(ident: &str, pointee: &str) -> (r: String)
    ensures
        r@ == "Found raw pointer argument: "@ + ident@ + ": *"@ + pointee@,
{
    let mut r = String::from_str("Found raw pointer argument: ");
    r.append(ident);
    r.append(": *");
    r.append(pointee);
    r
}

} // verus!
