use sofix::bytes::{copy_bytes, rd_u16, rd_u32, rd_u64, wr_u16, wr_u32, wr_u64};
use sofix::dynamic::{
    count_local_syms, dynamic_symbol_count, get_tag, get_tag_or_zero, gnu_hash_sym_count,
    read_dynamic, DT_GNU_HASH, DT_HASH, DT_NULL, DT_STRTAB, DT_SYMTAB,
};
use sofix::layout::ElfLayout;
use sofix::sections::{
    find_covering, resize_sections, section_index_of, sort_sections, SecDesc, SHF_ALLOC,
    SHT_NOBITS, SHT_PROGBITS,
};
use sofix::segments::{load_ends, LoadSeg};

#[test]
fn integers_read_back_what_was_written() {
    let mut b = vec![0xaau8; 20];
    wr_u16(&mut b, 1, 0xbeef);
    wr_u32(&mut b, 4, 0xdead_beef);
    wr_u64(&mut b, 9, 0x0123_4567_89ab_cdef);
    assert_eq!(b[1..3], [0xef, 0xbe]);
    assert_eq!(b[4..8], [0xef, 0xbe, 0xad, 0xde]);
    assert_eq!(b[9..17], [0xef, 0xcd, 0xab, 0x89, 0x67, 0x45, 0x23, 0x01]);
    assert_eq!(rd_u16(&b, 1), 0xbeef);
    assert_eq!(rd_u32(&b, 4), 0xdead_beef);
    assert_eq!(rd_u64(&b, 9), 0x0123_4567_89ab_cdef);
    assert_eq!((b[0], b[3], b[8], b[17]), (0xaa, 0xaa, 0xaa, 0xaa));
    assert_eq!(copy_bytes(&b), b);
}

#[test]
fn layout_sizes_of_both_classes() {
    let wide = ElfLayout { is64: true };
    let narrow = ElfLayout { is64: false };
    let sizes = |l: ElfLayout| {
        (
            l.ehdr_size(),
            l.phdr_size(),
            l.shdr_size(),
            l.dyn_size(),
            l.sym_size(),
            l.word(),
            l.sym_shndx_off(),
            l.rela_size(),
            l.rel_size(),
        )
    };
    assert_eq!(sizes(wide), (64, 56, 64, 16, 24, 8, 6, 24, 16));
    assert_eq!(sizes(narrow), (52, 32, 40, 8, 16, 4, 14, 12, 8));
    assert_eq!((wide.pick(1, 2), narrow.pick(1, 2)), (1, 2));
}

#[test]
fn addresses_are_cut_in_the_narrow_layout() {
    let mut b = vec![0u8; 16];
    ElfLayout { is64: true }.put_addr(&mut b, 8, 0, 0x1_2345_6789);
    assert_eq!(rd_u64(&b, 8), 0x1_2345_6789);
    assert_eq!(ElfLayout { is64: true }.read_addr(&b, 8, 0), 0x1_2345_6789);
    ElfLayout { is64: false }.put_addr(&mut b, 8, 0, 0x1_2345_6789);
    assert_eq!(rd_u32(&b, 0), 0x2345_6789);
    assert_eq!(ElfLayout { is64: false }.read_addr(&b, 8, 0), 0x2345_6789);
}

#[test]
fn header_fields_sit_where_the_class_says() {
    for is64 in [true, false] {
        let l = ElfLayout { is64 };
        let mut b = vec![0u8; 64];
        l.set_shoff(&mut b, 0x11);
        l.set_shentsize(&mut b, 0x22);
        l.set_shnum(&mut b, 0x33);
        l.set_shstrndx(&mut b, 0x44);
        let at: [usize; 4] = if is64 { [40, 58, 60, 62] } else { [32, 46, 48, 50] };
        assert_eq!([b[at[0]], b[at[1]], b[at[2]], b[at[3]]], [0x11, 0x22, 0x33, 0x44]);
        wr_u32(&mut b, if is64 { 32 } else { 28 }, 0x55);
        wr_u16(&mut b, if is64 { 54 } else { 42 }, 0x66);
        wr_u16(&mut b, if is64 { 56 } else { 44 }, 0x77);
        assert_eq!((l.phoff(&b), l.phentsize(&b), l.phnum(&b)), (0x55, 0x66, 0x77));
    }
}

#[test]
fn narrow_dynamic_tags_are_sign_extended() {
    let mut b = vec![0u8; 16];
    wr_u32(&mut b, 0, 0xffff_fffe);
    wr_u32(&mut b, 4, 0xffff_fffd);
    let l = ElfLayout { is64: false };
    assert_eq!((l.d_tag(&b), l.d_val(&b)), (-2, 0xffff_fffd));
    let l = ElfLayout { is64: true };
    wr_u64(&mut b, 0, u64::MAX);
    wr_u64(&mut b, 8, 9);
    assert_eq!((l.d_tag(&b), l.d_val(&b)), (-1, 9));
}

#[test]
fn symbols_read_back_in_both_classes() {
    for is64 in [true, false] {
        let l = ElfLayout { is64 };
        let mut b = vec![0u8; 24];
        l.put_sym(&mut b, 7, 0x1234, 0x56, 0x12, 3, 0xabc);
        assert_eq!(rd_u32(&b, 0), 7);
        assert_eq!(l.sym_value(&b), 0x1234);
        assert_eq!(l.sym_info(&b), 0x12);
        assert_eq!(l.sym_shndx(&b), 0xabc);
        l.set_sym_shndx(&mut b, 0xdef);
        assert_eq!(l.sym_shndx(&b), 0xdef);
        assert_eq!(l.sym_value(&b), 0x1234);
        assert_eq!(b[if is64 { 5 } else { 13 }], 3);
        assert_eq!(rd_u32(&b, if is64 { 16 } else { 8 }), 0x56);
    }
}

#[test]
fn section_headers_sit_where_the_class_says() {
    let mut b = vec![0u8; 64];
    ElfLayout { is64: true }.put_shdr(&mut b, 1, 2, 3, 4, 5, 6, 7, 8, 9, 10);
    assert_eq!((rd_u32(&b, 0), rd_u32(&b, 4)), (1, 2));
    let wide: Vec<u64> = [8, 16, 24, 32, 48, 56].iter().map(|o| rd_u64(&b, *o)).collect();
    assert_eq!(wide, vec![3, 4, 5, 6, 9, 10]);
    assert_eq!((rd_u32(&b, 40), rd_u32(&b, 44)), (7, 8));

    let mut b = vec![0xffu8; 44];
    ElfLayout { is64: false }.put_shdr(&mut b, 1, 2, 0x1_0000_0003, 4, 5, 6, 7, 8, 9, 10);
    let narrow: Vec<u32> = (0..11).map(|k| rd_u32(&b, 4 * k)).collect();
    assert_eq!(narrow, vec![1, 2, 3, 4, 5, 6, 7, 8, 9, 10, u32::MAX]);
}

fn dynamic_bytes(l: ElfLayout, entries: &[(i64, u64)]) -> Vec<u8> {
    let mut b = Vec::new();
    for (tag, val) in entries {
        if l.is64 {
            b.extend_from_slice(&tag.to_le_bytes());
            b.extend_from_slice(&val.to_le_bytes());
        } else {
            b.extend_from_slice(&(*tag as i32).to_le_bytes());
            b.extend_from_slice(&(*val as u32).to_le_bytes());
        }
    }
    b
}

#[test]
fn the_last_entry_of_a_tag_wins() {
    for is64 in [true, false] {
        let l = ElfLayout { is64 };
        let b = dynamic_bytes(l, &[(DT_STRTAB, 1), (DT_SYMTAB, 2), (DT_STRTAB, 3)]);
        let table = read_dynamic(l, &b, 0, b.len() as u64);
        assert_eq!(table.len(), 2);
        assert_eq!(get_tag(&table, DT_STRTAB), Some(3));
        assert_eq!(get_tag(&table, DT_SYMTAB), Some(2));
        assert_eq!(get_tag(&table, DT_HASH), None);
        assert_eq!(get_tag_or_zero(&table, DT_HASH), 0);
    }
}

#[test]
fn the_dynamic_table_ends_at_null_limit_or_image() {
    let l = ElfLayout { is64: true };
    let b = dynamic_bytes(l, &[(DT_STRTAB, 1), (DT_NULL, 0), (DT_SYMTAB, 2)]);
    assert_eq!(read_dynamic(l, &b, 0, 48).len(), 1);
    let b = dynamic_bytes(l, &[(DT_STRTAB, 1), (DT_SYMTAB, 2)]);
    assert_eq!(read_dynamic(l, &b, 0, 31).len(), 1);
    assert_eq!(read_dynamic(l, &b[..31], 0, 64).len(), 1);
    assert_eq!(read_dynamic(l, &b, 16, u64::MAX - 16).len(), 1);
    assert_eq!(read_dynamic(l, &b, 0x1000, 64).len(), 0);
    assert_eq!(read_dynamic(l, &b, u64::MAX, u64::MAX).len(), 0);
}

/// A GNU hash table at offset 4: one bloom word, buckets, chains.
fn gnu_hash(is64: bool, symoffset: u32, buckets: &[u32], chains: &[u32]) -> Vec<u8> {
    let mut words = vec![0, buckets.len() as u32, symoffset, 1, 0, 0];
    if is64 {
        words.push(0);
    }
    words.extend_from_slice(buckets);
    words.extend_from_slice(chains);
    words.iter().flat_map(|w| w.to_le_bytes()).collect()
}

#[test]
fn gnu_hash_walks_the_chain_of_the_highest_bucket() {
    for is64 in [true, false] {
        let l = ElfLayout { is64 };
        let b = gnu_hash(is64, 1, &[1, 0, 3], &[2, 3, 2, 2, 5, 7]);
        assert_eq!(gnu_hash_sym_count(l, &b, 4), 6);
        // the chain runs off the image
        let b = gnu_hash(is64, 1, &[1, 0, 3], &[2, 3, 2, 2]);
        assert_eq!(gnu_hash_sym_count(l, &b, 4), 6);
        let b = gnu_hash(is64, 1, &[100], &[1]);
        assert_eq!(gnu_hash_sym_count(l, &b, 4), 101);
        // all buckets empty
        let b = gnu_hash(is64, 5, &[0, 0], &[]);
        assert_eq!(gnu_hash_sym_count(l, &b, 4), 5);
        let b = gnu_hash(is64, 5, &[], &[]);
        assert_eq!(gnu_hash_sym_count(l, &b, 4), 5);
        // buckets past the image
        let b = gnu_hash(is64, 5, &[6, 6], &[]);
        assert_eq!(gnu_hash_sym_count(l, &b[..b.len() - 1], 4), 0);
        assert_eq!(gnu_hash_sym_count(l, &b[..19], 4), 0);
        assert_eq!(gnu_hash_sym_count(l, &b, u64::MAX), 0);
    }
}

#[test]
fn the_sysv_hash_comes_before_the_gnu_hash() {
    let l = ElfLayout { is64: true };
    let mut b = gnu_hash(true, 1, &[1], &[1]);
    let at = b.len() as u64;
    b.extend_from_slice(&[1, 0, 0, 0, 9, 0, 0, 0]);
    let both = read_dynamic(
        l,
        &dynamic_bytes(l, &[(DT_GNU_HASH, 4), (DT_HASH, at)]),
        0,
        32,
    );
    assert_eq!(dynamic_symbol_count(l, &b, &both), 9);
    let gnu = read_dynamic(l, &dynamic_bytes(l, &[(DT_GNU_HASH, 4)]), 0, 16);
    assert_eq!(dynamic_symbol_count(l, &b, &gnu), 2);
    let none = read_dynamic(l, &[], 0, 0);
    assert_eq!(dynamic_symbol_count(l, &b, &none), 0);
}

#[test]
fn leading_local_symbols_are_counted() {
    for is64 in [true, false] {
        let l = ElfLayout { is64 };
        let size = l.sym_size();
        let mut b = vec![0u8; 4 * size];
        for (k, info) in [0x00, 0x03, 0x12, 0x00].iter().enumerate() {
            l.put_sym(&mut b[k * size..], 0, 0, 0, *info, 0, 0);
        }
        assert_eq!(count_local_syms(l, &b, 0, 4), 2);
        assert_eq!(count_local_syms(l, &b, 0, 1), 1);
        assert_eq!(count_local_syms(l, &b, 0, 0), 1);
        assert_eq!(count_local_syms(l, &b, 2 * size as u64, 2), 1);
        assert_eq!(count_local_syms(l, &b, 3 * size as u64, 9), 1);
        assert_eq!(count_local_syms(l, &b, u64::MAX, 9), 1);
    }
}

fn section(name: &str, typ: u32, addr: u64, size: u64) -> SecDesc {
    let mut s = SecDesc::new(name, typ, SHF_ALLOC, addr, 1);
    s.sized(size);
    s
}

#[test]
fn sections_are_sorted_stably() {
    let secs = vec![
        section("c", SHT_PROGBITS, 30, 0),
        section("a", SHT_PROGBITS, 10, 0),
        section("d", SHT_PROGBITS, 30, 1),
        section("b", SHT_PROGBITS, 10, 1),
        section("e", SHT_PROGBITS, 5, 0),
    ];
    let sorted: Vec<String> = sort_sections(secs).iter().map(|s| s.name.clone()).collect();
    assert_eq!(sorted, vec!["e", "a", "b", "c", "d"]);
}

#[test]
fn sizes_reach_to_the_next_start() {
    let mut body = vec![
        section("grows", SHT_PROGBITS, 10, 0),
        section("fits", SHT_PROGBITS, 20, 4),
        section("cut", SHT_PROGBITS, 30, 40),
        section("same", SHT_PROGBITS, 40, 7),
        section("last", SHT_PROGBITS, 40, 0),
    ];
    resize_sections(&mut body, 90, 100);
    let sizes: Vec<u64> = body.iter().map(|s| s.size).collect();
    assert_eq!(sizes, vec![10, 4, 10, 7, 50]);

    let mut body = vec![section("bss", SHT_NOBITS, 40, 0)];
    resize_sections(&mut body, 90, 100);
    assert_eq!(body[0].size, 60);
    let mut body = vec![section("beyond", SHT_PROGBITS, 95, 3)];
    resize_sections(&mut body, 90, 100);
    assert_eq!(body[0].size, 3);
}

#[test]
fn the_first_allocated_section_around_a_value_is_found() {
    let mut secs = vec![
        section("empty", SHT_PROGBITS, 10, 0),
        section("hidden", SHT_PROGBITS, 10, 10),
        section("first", SHT_PROGBITS, 10, 10),
        section("second", SHT_PROGBITS, 15, 10),
        section("top", SHT_PROGBITS, u64::MAX - 1, 8),
    ];
    secs[1].flags = 0;
    assert_eq!(find_covering(9, &secs), None);
    assert_eq!(section_index_of(9, &secs), 0);
    assert_eq!(section_index_of(10, &secs), 2);
    assert_eq!(section_index_of(19, &secs), 2);
    assert_eq!(section_index_of(20, &secs), 3);
    assert_eq!(section_index_of(25, &secs), 0);
    assert_eq!(section_index_of(u64::MAX, &secs), 4);
}

#[test]
fn segment_ends_are_the_largest() {
    let seg = |vaddr, filesz, memsz| LoadSeg { vaddr, filesz, memsz };
    assert_eq!(load_ends(&vec![seg(0, 5, 9), seg(4, 3, 3)]), Some((9, 7)));
    assert_eq!(load_ends(&vec![]), Some((0, 0)));
    assert_eq!(load_ends(&vec![seg(u64::MAX, 0, 1)]), None);
    assert_eq!(load_ends(&vec![seg(u64::MAX, 1, 0)]), None);
    assert_eq!(load_ends(&vec![seg(u64::MAX, 0, 0)]), Some((u64::MAX, u64::MAX)));
}
