use sofix::so::{
    base_name, group_so_modules, has_so_suffix, is_system_lib_path, parse_map_entries,
    parse_map_line, sanitize_so_name, MapEntry,
};
use std::cell::Cell;

fn entry(start: u64, end: u64, perms: &str, path: &str) -> MapEntry {
    MapEntry {
        start,
        end,
        perms: perms.to_string(),
        path: path.to_string(),
    }
}

#[test]
fn so_suffix_matches_bionic_and_versioned_sonames() {
    assert!(has_so_suffix("/data/app/libfoo.so"));
    assert!(has_so_suffix("libc.so.6"));
    assert!(has_so_suffix("libfoo.so.1.2"));
    assert!(!has_so_suffix("/system/bin/app_process"));
    assert!(!has_so_suffix("libfoo.sox"));
    assert!(!has_so_suffix("foo.so.bar"));
}

#[test]
fn so_suffix_needs_digits_in_every_version_group() {
    assert!(has_so_suffix(".so"));
    assert!(has_so_suffix("a.so.0.00.123"));
    assert!(!has_so_suffix(""));
    assert!(!has_so_suffix("so"));
    assert!(!has_so_suffix("a.so."));
    assert!(!has_so_suffix("a.so.1."));
    assert!(!has_so_suffix("a.so..1"));
    assert!(!has_so_suffix("a.so.1x"));
    assert!(!has_so_suffix("a.SO"));
}

#[test]
fn system_lib_paths_are_recognized() {
    assert!(is_system_lib_path("/apex/com.android.art/lib64/libart.so"));
    assert!(is_system_lib_path("/vendor/lib64/libfoo.so"));
    assert!(!is_system_lib_path("/data/app/~~abc/libnative.so"));
}

#[test]
fn every_firmware_partition_counts_as_system() {
    for p in ["/system/", "/apex/", "/vendor/", "/system_ext/", "/product/", "/odm/"] {
        let path = format!("{p}lib/libx.so");
        assert!(is_system_lib_path(&path), "{path}");
        assert!(!is_system_lib_path(&path[1..]), "{path}");
    }
    assert!(!is_system_lib_path("/systemx/libx.so"));
    assert!(!is_system_lib_path("/system"));
}

#[test]
fn sanitize_strips_suffix_and_illegal_chars() {
    assert_eq!(sanitize_so_name("libfoo.so"), "libfoo");
    assert_eq!(sanitize_so_name("lib bar!.so"), "lib_bar_");
    assert_eq!(sanitize_so_name("anon_7f00"), "anon_7f00");
}

#[test]
fn sanitize_strips_one_suffix_only() {
    assert_eq!(sanitize_so_name("libfoo.so.so"), "libfoo.so");
    assert_eq!(sanitize_so_name("libfoo.so.6"), "libfoo.so.6");
    assert_eq!(sanitize_so_name("\u{e9}t\u{e9}-1_2.x"), "_t_-1_2.x");
    assert_eq!(sanitize_so_name(".so"), "");
}

#[test]
fn base_name_is_what_follows_the_last_slash() {
    assert_eq!(base_name("/data/app/libx.so"), "libx.so");
    assert_eq!(base_name("libx.so"), "libx.so");
    assert_eq!(base_name("/data/app/"), "");
    assert_eq!(base_name(""), "");
}

#[test]
fn map_line_with_a_path_is_parsed() {
    let e = parse_map_line("7f00-8000 r-xp 00001000 fe:01 1234   /data/app/lib x.so").unwrap();
    assert_eq!(e, entry(0x7f00, 0x8000, "r-xp", "/data/app/lib x.so"));
}

#[test]
fn map_line_without_a_path_is_parsed() {
    let e = parse_map_line("00400000-0040b000 rw-p 00000000 00:00 0").unwrap();
    assert_eq!(e, entry(0x400000, 0x40b000, "rw-p", ""));
}

#[test]
fn map_line_collapses_white_space_in_the_path() {
    let e = parse_map_line("\t1-2\tr 0 0 0 a \u{3000} b ").unwrap();
    assert_eq!(e.path, "a b");
}

#[test]
fn malformed_map_lines_are_rejected() {
    assert!(parse_map_line("").is_none());
    assert!(parse_map_line("7f00-8000 r-xp 0 fe:01").is_none());
    assert!(parse_map_line("7f00 r-xp 0 fe:01 1").is_none());
    assert!(parse_map_line("7f00- r-xp 0 fe:01 1").is_none());
    assert!(parse_map_line("-8000 r-xp 0 fe:01 1").is_none());
    assert!(parse_map_line("7f0g-8000 r-xp 0 fe:01 1").is_none());
    assert!(parse_map_line("7f00-8000-9000 r-xp 0 fe:01 1").is_none());
    assert!(parse_map_line("10000000000000000-2 r-xp 0 fe:01 1").is_none());
    assert!(parse_map_line("ffffffffffffffff-+0 r-xp 0 fe:01 1").is_some());
}

#[test]
fn map_entries_leave_out_malformed_lines() {
    let text = "1000-2000 r--p 0 0 0 /a.so\r\nbroken\n\n2000-3000 r-xp 0 0 0\n";
    assert_eq!(
        parse_map_entries(text),
        vec![entry(0x1000, 0x2000, "r--p", "/a.so"), entry(0x2000, 0x3000, "r-xp", "")]
    );
    assert!(parse_map_entries("").is_empty());
}

#[test]
fn group_merges_file_backed_segments_by_path() {
    let entries = vec![
        entry(0x1000, 0x2000, "r--p", "/data/app/libx.so"),
        entry(0x2000, 0x4000, "r-xp", "/data/app/libx.so"),
        entry(0x4000, 0x5000, "rw-p", "/data/app/libx.so"),
    ];
    let mods = group_so_modules(&entries, None, false, false, &|_| false);
    assert_eq!(mods.len(), 1);
    assert_eq!(mods[0].name, "libx.so");
    assert_eq!(mods[0].base, 0x1000);
    assert_eq!(mods[0].end, 0x5000);
}

#[test]
fn group_keeps_the_order_in_which_paths_appear() {
    let entries = vec![
        entry(0x9000, 0xa000, "r--p", "/data/b.so"),
        entry(0x1000, 0x2000, "r--p", "/data/a.so"),
        entry(0x7000, 0x8000, "r--p", "/data/b.so"),
        entry(0x3000, 0x4000, "r--p", "/data/a.txt"),
    ];
    let mods = group_so_modules(&entries, None, false, false, &|_| false);
    assert_eq!(mods.len(), 2);
    assert_eq!(mods[0].path, "/data/b.so");
    assert_eq!((mods[0].base, mods[0].end), (0x7000, 0xa000));
    assert_eq!(mods[1].path, "/data/a.so");
    assert_eq!((mods[1].base, mods[1].end), (0x1000, 0x2000));
}

#[test]
fn group_skips_system_libs_unless_included() {
    let entries = vec![entry(0x1000, 0x2000, "r-xp", "/apex/foo/libart.so")];
    assert_eq!(
        group_so_modules(&entries, None, false, false, &|_| false).len(),
        0
    );
    assert_eq!(
        group_so_modules(&entries, None, false, true, &|_| false).len(),
        1
    );
}

#[test]
fn lib_filter_narrows_and_overrides_system_skip() {
    let entries = vec![
        entry(0x1000, 0x2000, "r-xp", "/apex/foo/libart.so"),
        entry(0x3000, 0x4000, "r-xp", "/data/app/libtarget.so"),
    ];
    let mods = group_so_modules(&entries, Some("libtarget"), true, false, &|_| true);
    assert_eq!(mods.len(), 1);
    assert_eq!(mods[0].name, "libtarget.so");
}

#[test]
fn lib_filter_lets_a_matching_system_lib_through() {
    let entries = vec![entry(0x1000, 0x2000, "r-xp", "/apex/foo/libart.so")];
    let mods = group_so_modules(&entries, Some("foo/lib"), false, false, &|_| true);
    assert_eq!(mods.len(), 1);
}

#[test]
fn group_merges_anonymous_elf_runs_when_enabled() {
    let entries = vec![
        entry(0x10000, 0x11000, "r--p", ""), // ELF magic here
        entry(0x11000, 0x13000, "r-xp", ""), // contiguous, merged
        entry(0x20000, 0x21000, "rw-p", ""), // no ELF magic, ignored
    ];
    let elf_at = |addr: u64| addr == 0x10000;
    let mods = group_so_modules(&entries, None, true, false, &elf_at);
    assert_eq!(mods.len(), 1);
    assert_eq!(mods[0].name, "anon_10000");
    assert_eq!(mods[0].base, 0x10000);
    assert_eq!(mods[0].end, 0x13000);
}

#[test]
fn anonymous_scan_disabled_when_lib_filter_set() {
    let entries = vec![entry(0x10000, 0x11000, "r--p", "")];
    let mods = group_so_modules(&entries, Some("libx"), true, false, &|_| true);
    assert_eq!(mods.len(), 0);
}

#[test]
fn an_empty_lib_filter_leaves_the_anonymous_scan_on() {
    let entries = vec![
        entry(0x10000, 0x11000, "r--p", ""),
        entry(0x30000, 0x31000, "r--p", "/data/a.so"),
    ];
    let mods = group_so_modules(&entries, Some(""), true, false, &|_| true);
    assert_eq!(mods.len(), 2);
    assert_eq!(mods[1].name, "anon_10000");
}

#[test]
fn anonymous_modules_follow_the_file_backed_ones() {
    let entries = vec![
        entry(0x10000, 0x11000, "r--p", ""),
        entry(0x11000, 0x12000, "r--p", "/data/a.so"),
        entry(0x12000, 0x13000, "r--p", ""),
        entry(0x13000, 0x14000, "-w-p", ""),
        entry(0x20000, 0x21000, "--xp", ""),
    ];
    let mods = group_so_modules(&entries, None, true, false, &|_| true);
    let spans: Vec<(u64, u64)> = mods.iter().map(|m| (m.base, m.end)).collect();
    assert_eq!(
        spans,
        vec![(0x11000, 0x12000), (0x10000, 0x11000), (0x12000, 0x14000)]
    );
    assert_eq!(mods[1].path, "");
}

#[test]
fn nothing_is_probed_unless_the_anonymous_scan_is_on() {
    let entries = vec![
        entry(0x10000, 0x11000, "r--p", ""),
        entry(0x20000, 0x21000, "r-xp", "/apex/foo/libart.so"),
        entry(0x30000, 0x31000, "r-xp", "/data/a.so"),
    ];
    let probe = |addr: u64| -> bool { panic!("probed at {addr:#x}") };
    for include_anon in [false, true] {
        for include_system in [false, true] {
            let mods = group_so_modules(&entries, Some("lib"), include_anon, include_system, &probe);
            assert_eq!(mods.len(), 1);
            assert_eq!(mods[0].path, "/apex/foo/libart.so");
        }
    }
    assert_eq!(group_so_modules(&entries, None, false, false, &probe).len(), 1);
    assert_eq!(group_so_modules(&entries, None, false, true, &probe).len(), 2);
}

#[test]
fn anonymous_modules_do_not_depend_on_the_system_filter() {
    let entries = vec![
        entry(0x10000, 0x11000, "r--p", ""),
        entry(0x20000, 0x21000, "r-xp", "/apex/foo/libart.so"),
        entry(0x30000, 0x31000, "r--p", ""),
    ];
    for include_system in [false, true] {
        let mods = group_so_modules(&entries, None, true, include_system, &|a| a == 0x30000);
        let pathless: Vec<(u64, u64)> = mods
            .iter()
            .filter(|m| m.path.is_empty())
            .map(|m| (m.base, m.end))
            .collect();
        assert_eq!(pathless, vec![(0x30000, 0x31000)]);
    }
}

#[test]
fn only_readable_path_less_mappings_are_probed() {
    let entries = vec![
        entry(0x1000, 0x2000, "--xp", ""),
        entry(0x3000, 0x4000, "r--p", "/data/a.so"),
        entry(0x5000, 0x6000, "r--p", ""),
        entry(0x6000, 0x7000, "r--p", ""),
    ];
    let probes = Cell::new(0u64);
    let magic = |addr: u64| {
        probes.set(probes.get() * 0x10000 + addr);
        addr == 0x5000
    };
    let mods = group_so_modules(&entries, None, true, false, &magic);
    assert_eq!(mods.len(), 2);
    assert_eq!(probes.get(), 0x5000);
}
