use sofix::capture::dump_file_name;
use sofix::emit::InjectedSym;
use sofix::so::sanitize_so_name;
use sofix::so_fix::{
    fix_so_directory, fixed_file_name, has_so_extension, module_stem_from_symbols_file,
    parse_symbol_file, so_matches_module, symbols_for, BadOffset, DirectoryReport, NothingFixed,
};

fn sym(name: &str, value: u64) -> InjectedSym {
    InjectedSym {
        name: name.to_string(),
        value,
    }
}

#[test]
fn symbol_maps_hold_offsets_and_names() {
    let map = parse_symbol_file(
        "# offsets\n1000 Java_a\n\n  0x20 Java_b trailing words\r\n\t0XfF\u{a0}Java_c\nlonely\n#30 x\n",
    );
    assert_eq!(
        map.symbols,
        vec![sym("Java_a", 0x1000), sym("Java_b", 0x20), sym("Java_c", 0xff)]
    );
    assert!(map.skipped.is_empty());
}

#[test]
fn bad_offsets_are_skipped_with_their_line() {
    let map = parse_symbol_file("zz a\n10 b\n0x c\n10000000000000000 d\n-1 e\n+f g\nffffffffffffffff h");
    assert_eq!(map.symbols, vec![sym("b", 0x10), sym("g", 0xf), sym("h", u64::MAX)]);
    let bad = |line, offset: &str| BadOffset {
        line,
        offset: offset.to_string(),
    };
    assert_eq!(
        map.skipped,
        vec![bad(1, "zz"), bad(3, "0x"), bad(4, "10000000000000000"), bad(5, "-1")]
    );
}

#[test]
fn spelled_offsets_read_back() {
    for n in [0u64, 9, 0x10, 0xdead_beef, u64::MAX] {
        let text = format!("{n:x} a\n0x{n:x} b\n0X{n:X} c\n");
        let map = parse_symbol_file(&text);
        assert_eq!(map.symbols, vec![sym("a", n), sym("b", n), sym("c", n)]);
    }
}

#[test]
fn a_written_symbol_map_reads_back() {
    let symbols = vec![sym("b", 7), sym("a", u64::MAX), sym("b", 7), sym("#\u{e9}", 0)];
    let mut text = String::from("# offset name\n\n");
    for s in &symbols {
        text.push_str(&format!("0x{:x} {}\n", s.value, s.name));
        text.push_str(" \t\r\n  # 0x1 remark\r\n");
    }
    let map = parse_symbol_file(&text);
    assert_eq!(map.symbols, symbols);
    assert!(map.skipped.is_empty());
}

#[test]
fn stems_of_symbol_maps() {
    assert_eq!(module_stem_from_symbols_file("jni_symbols_lib_a.b.txt"), "lib_a.b");
    assert_eq!(module_stem_from_symbols_file("jni_symbols_.txt"), "");
    assert_eq!(module_stem_from_symbols_file("jni_symbols_a.TXT"), "");
    assert_eq!(module_stem_from_symbols_file("xjni_symbols_a.txt"), "");
    assert_eq!(module_stem_from_symbols_file("jni_symbols_txt"), "");
    assert_eq!(module_stem_from_symbols_file(""), "");
}

#[test]
fn modules_match_whole_stems() {
    assert!(so_matches_module("so_1_2_3_lib_foo.so", "foo"));
    assert!(so_matches_module("lib foo.so", "lib_foo"));
    assert!(!so_matches_module("so_1_2_3_libfoo.so", "foo"));
    assert!(!so_matches_module("libfoo.so", "libfoo.so"));
    assert!(so_matches_module("_.so", ""));
}

#[test]
fn a_dump_matches_the_module_it_was_made_of() {
    for name in ["libfoo.so", "lib foo!.so", "anon_7f00", "libc.so.6", "a.so.so"] {
        let dump = dump_file_name(12, 0x7f00, 0x2000, name);
        let stem = sanitize_so_name(name);
        assert!(so_matches_module(&dump, &stem), "{dump} {stem}");
        let map = format!("jni_symbols_{stem}.txt");
        let injected = [sym("f", 1)];
        let target = module_stem_from_symbols_file(&map);
        assert_eq!(symbols_for(&injected, &target, &dump), &injected[..]);
    }
}

#[test]
fn symbols_go_to_their_own_library() {
    let injected = [sym("f", 1), sym("g", 2)];
    assert_eq!(symbols_for(&injected, "libfoo", "libfoo.so"), &injected[..]);
    assert_eq!(symbols_for(&injected, "", "libbar.so"), &injected[..]);
    assert!(symbols_for(&injected, "libfoo", "libbar.so").is_empty());
    assert!(symbols_for(&[], "", "libbar.so").is_empty());
}

#[test]
fn only_so_files_are_taken() {
    assert!(has_so_extension("libfoo.so"));
    assert!(has_so_extension("..so"));
    assert!(!has_so_extension(".so"));
    assert!(!has_so_extension("libfoo.so.6"));
    assert!(!has_so_extension("libfoo.SO"));
    assert!(!has_so_extension("so"));
}

#[test]
fn fixed_files_get_a_name_of_their_own() {
    assert_eq!(fixed_file_name("libfoo.so"), "libfoo_fix.so");
    assert_eq!(fixed_file_name("a.so.so"), "a.so_fix.so");
    assert_eq!(fixed_file_name("libfoo"), "libfoo_fix.so");
    assert_ne!(fixed_file_name("a.so"), fixed_file_name("b.so"));
}

#[test]
fn a_directory_is_summed_up() {
    let files = [
        ("libfoo.so".to_string(), true),
        ("libbar.so".to_string(), true),
        ("so_1_2_3_libfoo.so".to_string(), false),
    ];
    let injected = [sym("f", 1)];
    let report = |fixed, injected_into, unmatched| DirectoryReport {
        fixed,
        injected_into,
        unmatched,
    };
    assert_eq!(fix_so_directory(&files, &injected, "libfoo"), Ok(report(2, 1, false)));
    assert_eq!(fix_so_directory(&files, &injected, ""), Ok(report(2, 2, false)));
    assert_eq!(fix_so_directory(&files, &injected, "libx"), Ok(report(2, 0, true)));
    assert_eq!(fix_so_directory(&files[1..], &injected, "libfoo"), Ok(report(1, 0, true)));
    assert_eq!(fix_so_directory(&files, &[], "libx"), Ok(report(2, 0, false)));
    assert_eq!(fix_so_directory(&files, &[], ""), Ok(report(2, 0, false)));
}

#[test]
fn a_directory_without_a_repaired_file_is_an_error() {
    let files = [("libfoo.so".to_string(), false)];
    assert_eq!(fix_so_directory(&files, &[], ""), Err(NothingFixed));
    assert_eq!(fix_so_directory(&[], &[], ""), Err(NothingFixed));
    assert_eq!(NothingFixed.message("/tmp/x"), "no .so files found in /tmp/x");
}
