pub mod convert_ffi_types;
pub mod remove_dangling_identifiers;
pub mod replace_raw_pointers;
pub mod replace_while_loop;
