//! Replacing C foreign-function-interface types with their Rust equivalents,
//! e.g. `libc::c_int` with `i32`.

use vstd::prelude::*;
use crate::name_map::NameMap;
use crate::syntax::{parse_type, parsed_type, parses_as_type};
use crate::text::{remove_spaces, without_spaces, lemma_without_spaces_idempotent};

verus! {

/// The replacement rules: a C FFI type path, written without spaces, and the
/// Rust type that stands for it.
pub open spec fn ffi_rules() -> Map<Seq<char>, Seq<char>> {
    map![
        "libc::c_int"@ => "i32"@,
        "libc::c_uint"@ => "u32"@,
        "libc::c_void"@ => "()"@,
        "libc::c_char"@ => "i8"@,
        "libc::c_uchar"@ => "u8"@,
        "libc::c_long"@ => "i64"@,
        "libc::c_ulong"@ => "u64"@
    ]
}

/// The pass that replaces C FFI types with Rust types.
pub struct TypeReplacer {
    rules: NameMap<String>,
}

/// What the pass does with a type it visits.
pub enum TypeRewrite {
    /// Put this type in its place; do not look inside it.
    Replace(syn::Type),
    /// Keep the type and visit the types inside it.
    Descend,
}

impl View for TypeReplacer {
    type V = Map<Seq<char>, Seq<char>>;

    closed spec fn view(&self) -> Map<Seq<char>, Seq<char>> {
        Map::new(|k: Seq<char>| self.rules@.contains_key(k), |k: Seq<char>| self.rules@[k]@)
    }
}

/// What the pass does with a type whose path tokens read `tokens`: `Some`
/// carries the Rust type text to put in its place.
pub open spec fn replacement_text(rules: Map<Seq<char>, Seq<char>>, tokens: Seq<char>) -> Option<Seq<char>> {
    let key = without_spaces(tokens);
    if rules.contains_key(key) {
        Some(rules[key])
    } else {
        None
    }
}

impl TypeReplacer {
    /// The invariant of the rule table.
    pub closed spec fn wf(&self) -> bool {
        self.rules.wf()
    }

    /// The pass with the standard C FFI rules.
    pub fn new() -> (r: Self)
        ensures
            r.wf(),
            r@ == ffi_rules(),
    {
        let mut rules: NameMap<String> = NameMap::new();
        rules.insert(String::from_str("libc::c_int"), String::from_str("i32"));
        rules.insert(String::from_str("libc::c_uint"), String::from_str("u32"));
        rules.insert(String::from_str("libc::c_void"), String::from_str("()"));
        rules.insert(String::from_str("libc::c_char"), String::from_str("i8"));
        rules.insert(String::from_str("libc::c_uchar"), String::from_str("u8"));
        rules.insert(String::from_str("libc::c_long"), String::from_str("i64"));
        rules.insert(String::from_str("libc::c_ulong"), String::from_str("u64"));
        let r = TypeReplacer { rules };
        assert(r@ =~= ffi_rules());
        r
    }

    /// The Rust type text that the pass puts in place of a type path whose
    /// tokens read `tokens`; spaces between tokens do not matter.
    pub fn replacement_for(&self, tokens: &str) -> (r: Option<String>)
        requires
            self.wf(),
        ensures
            match r {
                Some(to) => replacement_text(self@, tokens@) == Some(to@),
                None => replacement_text(self@, tokens@) is None,
            },
    {
        let key = remove_spaces(tokens);
        match self.rules.get(&key) {
            Some(to) => Some(to.clone()),
            None => None,
        }
    }

    /// Decides what the pass does with a visited type. `path_tokens` is the
    /// token text of the type when it is a path type, `None` for any other
    /// kind of type. A path type with a rule is replaced by the parsed Rust
    /// type of the rule; where that text does not parse, or no rule applies,
    /// the pass descends into the type.
    pub fn rewrite_type(&self, path_tokens: Option<&str>) -> (r: TypeRewrite)
        requires
            self.wf(),
        ensures
            match path_tokens {
                None => r is Descend,
                Some(tokens) => match replacement_text(self@, tokens@) {
                    None => r is Descend,
                    Some(to) => match parsed_type(to) {
                        Some(t) => r == TypeRewrite::Replace(t),
                        None => r is Descend,
                    },
                },
            },
    {
        match path_tokens {
            None => TypeRewrite::Descend,
            Some(tokens) => match self.replacement_for(tokens) {
                Some(to) => match parse_type(to.as_str()) {
                    Some(new_type) => TypeRewrite::Replace(new_type),
                    None => TypeRewrite::Descend,
                },
                None => TypeRewrite::Descend,
            },
        }
    }

    /// The calling convention a visited function signature keeps: none. The
    /// rewritten code is not called from C, so `extern "C"` is dropped.
    pub fn rewrite_abi<A>(&self, abi: Option<A>) -> (r: Option<A>)
        ensures
            r is None,
    {
        None
    }
}

/// No rule's Rust type is itself a C FFI type path, and each is written
/// without spaces: a replaced type is never replaced again.
pub proof fn lemma_replacements_are_final(tokens: Seq<char>)
    ensures
        replacement_text(ffi_rules(), tokens) matches Some(to) ==> {
            &&& without_spaces(to) == to
            &&& replacement_text(ffi_rules(), to) is None
        },
{
    reveal_strlit("libc::c_int");
    reveal_strlit("libc::c_uint");
    reveal_strlit("libc::c_void");
    reveal_strlit("libc::c_char");
    reveal_strlit("libc::c_uchar");
    reveal_strlit("libc::c_long");
    reveal_strlit("libc::c_ulong");
    reveal_strlit("i32");
    reveal_strlit("u32");
    reveal_strlit("()");
    reveal_strlit("i8");
    reveal_strlit("u8");
    reveal_strlit("i64");
    reveal_strlit("u64");
    if let Some(to) = replacement_text(ffi_rules(), tokens) {
        assert(without_spaces(to) =~= to) by {
            reveal_with_fuel(without_spaces, 4);
            if to.len() == 2 {
                assert(to.drop_last().drop_last() =~= Seq::<char>::empty());
            } else {
                assert(to.drop_last().drop_last().drop_last() =~= Seq::<char>::empty());
            }
        }
        assert(!ffi_rules().contains_key(without_spaces(to)));
    }
}

/// Where spaces fall between the tokens of a type path does not change what
/// the pass does with it.
pub proof fn lemma_spacing_does_not_matter(rules: Map<Seq<char>, Seq<char>>, tokens: Seq<char>)
    ensures
        replacement_text(rules, tokens) == replacement_text(rules, without_spaces(tokens)),
{
    lemma_without_spaces_idempotent(tokens);
}

} // verus!
