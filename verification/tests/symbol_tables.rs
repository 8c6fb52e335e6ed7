use gperf2flamegraph::symbols::{
    find_object_all_symbols_sorted, find_object_start_vma_before_linked, nm_output_is_blank,
    parse_mapped_objects, Symbol, SymbolError,
};

#[test]
fn nm_lines_parse_and_sort() {
    let out = "0000000000001000 T main\n0000000000000500 t helper\nnot-an-entry\n";
    let syms = find_object_all_symbols_sorted(out).unwrap();
    assert_eq!(syms.len(), 2);
    assert_eq!(syms[0].address, 0x500);
    assert_eq!(syms[0].symbol, "helper");
    assert_eq!(syms[1].address, 0x1000);
    assert_eq!(syms[1].symbol, "main");
}

#[test]
fn nm_name_keeps_spaces_after_second_field() {
    let out = "10 T operator new(unsigned long)\n";
    let syms = find_object_all_symbols_sorted(out).unwrap();
    assert_eq!(syms.len(), 1);
    assert_eq!(syms[0].address, 0x10);
    assert_eq!(syms[0].symbol, "operator new(unsigned long)");
}

#[test]
fn nm_bad_address_is_error() {
    let out = "zzzz T broken\n";
    assert_eq!(
        find_object_all_symbols_sorted(out).err(),
        Some(SymbolError::BadAddress)
    );
}

#[test]
fn nm_equal_addresses_keep_line_order() {
    let out = "20 T second\n10 T first\n20 T third\n";
    let syms = find_object_all_symbols_sorted(out).unwrap();
    assert_eq!(syms[0].symbol, "first");
    assert_eq!(syms[1].symbol, "second");
    assert_eq!(syms[2].symbol, "third");
}

#[test]
fn blank_output_detection() {
    assert!(nm_output_is_blank("  \n\t \n"));
    assert!(nm_output_is_blank(""));
    assert!(!nm_output_is_blank(" x \n"));
}

#[test]
fn section_header_gives_pre_link_base() {
    let out = "  [13] .text   PROGBITS  0000000000401000  00001000\n";
    assert_eq!(find_object_start_vma_before_linked(out), Ok(0x400000));
}

#[test]
fn section_header_absent_gives_zero() {
    let out = "  [13] .data   PROGBITS  00401000  00001000\n";
    assert_eq!(find_object_start_vma_before_linked(out), Ok(0));
}

#[test]
fn section_header_negative_base_is_error() {
    let out = ".text PROGBITS 1000 2000\n";
    assert_eq!(
        find_object_start_vma_before_linked(out),
        Err(SymbolError::BadSectionHeader)
    );
}

#[test]
fn simplified_symbol_is_cached_cleanup() {
    let mut s = Symbol::new(0x10, String::from("vec<int>::get(long) const:"));
    assert_eq!(s.simplified_symbol().as_str(), "vec::get const");
    // A second request returns the cached value unchanged.
    assert_eq!(s.simplified_symbol().as_str(), "vec::get const");
    assert_eq!(s.symbol, "vec<int>::get(long) const:");
}

#[test]
fn map_lines_parse() {
    let text = "build=/some/binary\n\
                400000-401000 r-xp 00000000 08:01 123 /usr/bin/prog\n\
                500000-501000 rw-p 00000000 08:01 123 /usr/bin/prog\n\
                7f0000-7f1000 r-xp 00002000 08:01 77 /lib/libfoo.so\n\
                badline\n";
    let objs = parse_mapped_objects(text, "/usr/bin/prog", false);
    assert_eq!(objs.len(), 2);
    assert_eq!(objs[0].start_address, 0x400000);
    assert_eq!(objs[0].end_address, 0x401000);
    assert_eq!(objs[0].offset, 0);
    assert!(objs[0].is_executable);
    assert_eq!(objs[0].obj_path, "/usr/bin/prog");
    assert_eq!(objs[1].start_address, 0x7f0000);
    assert_eq!(objs[1].offset, 0x2000);
    assert!(!objs[1].is_executable);
    assert_eq!(objs[1].obj_path, "/lib/libfoo.so");
}

#[test]
fn map_primary_path_is_substituted() {
    // The mapping names a relocated copy; the caller's canonical path wins.
    let text = "400000-401000 r-xp 00000000 08:01 1 /tmp/stage/prog\n";
    let objs = parse_mapped_objects(text, "/home/user/prog", false);
    assert_eq!(objs.len(), 1);
    assert!(objs[0].is_executable);
    assert_eq!(objs[0].obj_path, "/home/user/prog");
}

#[test]
fn map_executable_only_skips_libraries() {
    let text = "400000-401000 r-xp 00000000 08:01 1 /usr/bin/prog\n\
                7f0000-7f1000 r-xp 00000000 08:01 2 /lib/libfoo.so\n";
    let objs = parse_mapped_objects(text, "/usr/bin/prog", true);
    assert_eq!(objs.len(), 1);
    assert!(objs[0].is_executable);
}

#[test]
fn map_malformed_range_is_skipped() {
    let text = "40zz00-401000 r-xp 00000000 08:01 1 /usr/bin/prog\n\
                400000+401000 r-xp 00000000 08:01 1 /usr/bin/prog\n";
    let objs = parse_mapped_objects(text, "/usr/bin/prog", false);
    assert_eq!(objs.len(), 0);
}
