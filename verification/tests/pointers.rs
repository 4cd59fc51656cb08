use monadicast::passes::replace_raw_pointers::{
    is_offset, AccessSet, AssignedPlace, PointerAccess, PointerDecl, RawPointerSanitizer,
    Receiver, RustPointerType,
};

fn decl() -> Option<PointerDecl> {
    Some(PointerDecl { mutable: true, pointee: "i32".to_string() })
}

fn path(name: &str) -> Receiver {
    Receiver::Path { qualified_self: false, last_segment: name.to_string() }
}

#[test]
fn permission_table() {
    let t = PointerAccess::determine_rust_type;
    assert_eq!(t(&[]), RustPointerType::ImmutableReference);
    assert_eq!(t(&[PointerAccess::Write, PointerAccess::Unique]), RustPointerType::MutableReference);
    assert_eq!(t(&[PointerAccess::Write]), RustPointerType::CellReference);
    assert_eq!(t(&[PointerAccess::Unique, PointerAccess::Free]), RustPointerType::UniquePointer);
    assert_eq!(t(&[PointerAccess::Offset]), RustPointerType::ImmutableSlice);
    assert_eq!(t(&[PointerAccess::Write, PointerAccess::Unique, PointerAccess::Offset]), RustPointerType::MutableSlice);
    assert_eq!(t(&[PointerAccess::Unique, PointerAccess::Free, PointerAccess::Offset]), RustPointerType::UniqueSlicePointer);
}

#[test]
fn combinations_outside_the_table_are_undefined() {
    let t = PointerAccess::determine_rust_type;
    assert_eq!(t(&[PointerAccess::Free]), RustPointerType::Undefined);
    assert_eq!(t(&[PointerAccess::Unique]), RustPointerType::Undefined);
    assert_eq!(t(&[PointerAccess::Write, PointerAccess::Free]), RustPointerType::Undefined);
    assert_eq!(t(&[PointerAccess::Write, PointerAccess::Unique, PointerAccess::Free, PointerAccess::Offset]), RustPointerType::Undefined);
}

#[test]
fn order_and_repetition_of_permissions_do_not_matter() {
    let t = PointerAccess::determine_rust_type;
    assert_eq!(t(&[PointerAccess::Unique, PointerAccess::Write, PointerAccess::Write]), t(&[PointerAccess::Write, PointerAccess::Unique]));
    assert_eq!(t(&[PointerAccess::Offset, PointerAccess::Free, PointerAccess::Unique, PointerAccess::Offset]), RustPointerType::UniqueSlicePointer);
}

#[test]
fn access_sets_grow_one_permission_at_a_time() {
    let set = AccessSet::empty().with(PointerAccess::Write).with(PointerAccess::Unique);
    assert!(set.write && set.unique && !set.free && !set.offset);
    assert_eq!(set.with(PointerAccess::Write), set);
}

#[test]
fn offset_is_recognised() {
    assert!(is_offset("offset"));
    assert!(!is_offset("offset_from"));
    assert!(!is_offset("add"));
}

#[test]
fn pointers_are_recorded_with_no_permissions() {
    let mut s = RawPointerSanitizer::default();
    s.record_if_pointer(Some("p".to_string()), decl());
    s.record_if_pointer(Some("n".to_string()), None);
    s.record_if_pointer(None, decl());
    assert_eq!(s.accesses_of(&"p".to_string()), Some(AccessSet::empty()));
    assert_eq!(s.accesses_of(&"n".to_string()), None);
}

#[test]
fn writes_and_offsets_through_pointers_are_recorded() {
    let mut s = RawPointerSanitizer::default();
    s.record_if_pointer(Some("p".to_string()), decl());
    s.record_assignment(&AssignedPlace::DerefOfMethodCall(path("p")));
    s.record_method_call("offset", &path("p"));
    let accesses = s.accesses_of(&"p".to_string()).unwrap();
    assert!(accesses.write && accesses.offset && !accesses.unique && !accesses.free);
}

#[test]
fn uses_of_other_names_record_nothing() {
    let mut s = RawPointerSanitizer::default();
    s.record_if_pointer(Some("p".to_string()), decl());
    s.record_assignment(&AssignedPlace::DerefOfMethodCall(path("q")));
    s.record_assignment(&AssignedPlace::Other);
    s.record_method_call("offset", &Receiver::Other);
    s.record_method_call("offset", &Receiver::Path { qualified_self: true, last_segment: "p".to_string() });
    s.record_method_call("add", &path("p"));
    assert_eq!(s.accesses_of(&"p".to_string()), Some(AccessSet::empty()));
    assert_eq!(s.accesses_of(&"q".to_string()), None);
}

#[test]
fn recording_a_pointer_again_starts_over() {
    let mut s = RawPointerSanitizer::default();
    s.record_if_pointer(Some("p".to_string()), decl());
    s.record_method_call("offset", &path("p"));
    s.record_if_pointer(Some("p".to_string()), decl());
    assert_eq!(s.accesses_of(&"p".to_string()), Some(AccessSet::empty()));
}

#[test]
fn mapping_goes_through_its_phases_in_order() {
    let mut s = RawPointerSanitizer::default();
    assert!(s.is_identifying() && !s.is_computing());
    s.finish_identification();
    assert!(!s.is_identifying() && s.is_computing());
    s.compute_equivalent_safe_types();
    assert!(!s.is_identifying() && !s.is_computing());
}

#[test]
fn writes_through_a_dereferenced_pointer_are_recorded() {
    let mut s = RawPointerSanitizer::default();
    s.record_if_pointer(Some("p".to_string()), decl());
    s.record_if_pointer(Some("q".to_string()), decl());
    s.record_assignment(&AssignedPlace::Deref(path("p")));
    s.record_assignment(&AssignedPlace::Deref(Receiver::Other));
    let accesses = s.accesses_of(&"p".to_string()).unwrap();
    assert!(accesses.write && !accesses.offset && !accesses.unique && !accesses.free);
    assert_eq!(s.accesses_of(&"q".to_string()), Some(AccessSet::empty()));
}

#[test]
fn each_pointer_gets_the_safe_type_of_its_permissions() {
    let mut s = RawPointerSanitizer::default();
    s.record_if_pointer(Some("p".to_string()), decl());
    s.record_if_pointer(Some("w".to_string()), decl());
    s.record_if_pointer(Some("a".to_string()), decl());
    s.record_assignment(&AssignedPlace::Deref(path("w")));
    s.record_method_call("offset", &path("a"));
    s.finish_identification();
    assert_eq!(s.safe_type_of(&"p".to_string()), None);
    s.compute_equivalent_safe_types();
    assert_eq!(s.safe_type_of(&"p".to_string()), Some(RustPointerType::ImmutableReference));
    assert_eq!(s.safe_type_of(&"w".to_string()), Some(RustPointerType::CellReference));
    assert_eq!(s.safe_type_of(&"a".to_string()), Some(RustPointerType::ImmutableSlice));
    assert_eq!(s.safe_type_of(&"x".to_string()), None);
}
