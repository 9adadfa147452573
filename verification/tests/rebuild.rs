use sofix::bytes::{rd_u16, rd_u32, rd_u64, wr_u16, wr_u32, wr_u64};
use sofix::dynamic::{
    DT_ANDROID_REL, DT_ANDROID_RELA, DT_ANDROID_RELASZ, DT_ANDROID_RELR, DT_ANDROID_RELRSZ,
    DT_ANDROID_RELSZ, DT_FINI_ARRAY, DT_FINI_ARRAYSZ, DT_GNU_HASH, DT_HASH, DT_INIT, DT_INIT_ARRAY,
    DT_INIT_ARRAYSZ, DT_JMPREL, DT_NULL, DT_PLTGOT, DT_PLTREL, DT_PLTRELSZ, DT_REL, DT_RELA,
    DT_RELASZ, DT_RELR, DT_RELRSZ, DT_RELSZ, DT_STRSZ, DT_STRTAB, DT_SYMENT, DT_SYMTAB, DT_VERDEF,
    DT_VERDEFNUM, DT_VERNEED, DT_VERNEEDNUM, DT_VERSYM,
};
use sofix::emit::InjectedSym;
use sofix::layout::ElfLayout;
use sofix::rebuild::{rebuild_so_sections, try_rebuild_so_sections, RebuildError};
use sofix::segments::{PT_DYNAMIC, PT_LOAD};
use sofix::so_fix::{
    describe_check, fix_one_so, judge_parse, module_stem_from_symbols_file, self_check_so,
    so_matches_module, try_fix_one_so, try_self_check_so, FixError, FixFailure, FixedSo,
};

#[test]
fn gnu_hash_and_sysv_count_and_helpers() {
    assert!(so_matches_module("so_1234_7f00_2000_libfoo.so", "libfoo"));
    assert!(so_matches_module("libfoo.so", "libfoo"));
    assert!(!so_matches_module("libbar.so", "libfoo"));
    assert_eq!(
        module_stem_from_symbols_file("jni_symbols_libfoo.txt"),
        "libfoo"
    );
    assert_eq!(module_stem_from_symbols_file("other.txt"), "");
}

/// Rebuilds a minimal but real ELF64 memory image and re-parses it with goblin:
/// the rebuilt section header table is valid and symbols are recoverable.
#[test]
fn rebuild_produces_parseable_sections_and_injected_symtab() {
    let image = synth_elf64();
    let injected = vec![InjectedSym {
        name: "Java_com_x_native".to_string(),
        value: 0x1000, // inside .text region
    }];
    let rebuilt = rebuild_so_sections(&image, &injected).expect("rebuild");

    let elf = goblin::elf::Elf::parse(&rebuilt).expect("goblin parse rebuilt");
    // Section header table was rebuilt and is non-trivial.
    assert!(elf.section_headers.len() > 3, "expected rebuilt sections");
    let names: Vec<&str> = elf
        .section_headers
        .iter()
        .filter_map(|sh| elf.shdr_strtab.get_at(sh.sh_name))
        .collect();
    assert!(names.contains(&".dynsym"), "sections: {names:?}");
    assert!(names.contains(&".dynstr"));
    assert!(names.contains(&".symtab"));
    assert!(names.contains(&".shstrtab"));

    // The injected symbol is readable via the rebuilt .symtab (proves the
    // section header + strtab offsets are correct).
    let injected_name = elf
        .syms
        .iter()
        .filter_map(|s| elf.strtab.get_at(s.st_name))
        .any(|n| n == "Java_com_x_native");
    assert!(injected_name, "injected symbol not found in .symtab");
}

// --- synthetic ELF64 builder ------------------------------------------------

fn synth_elf64() -> Vec<u8> {
    // Layout (file offset == vaddr):
    //   0x0000 ELF header (64) + 2 phdrs (56 each)
    //   0x0200 .dynstr
    //   0x0240 .dynsym (2 entries * 24)
    //   0x02c0 .hash
    //   0x0300 .dynamic
    //   0x1000 .text (fake)
    //   0x2000 end (memsz)
    let mut img = vec![0u8; 0x2000];

    // --- ELF header (ELF64, LE, ET_DYN, EM_AARCH64) ---
    img[0..4].copy_from_slice(&[0x7f, b'E', b'L', b'F']);
    img[4] = 2; // ELFCLASS64
    img[5] = 1; // little-endian
    img[6] = 1; // EI_VERSION
    wr_u16(&mut img, 16, 3); // e_type = ET_DYN
    wr_u16(&mut img, 18, 183); // e_machine = EM_AARCH64
    wr_u32(&mut img, 20, 1); // e_version
    wr_u64(&mut img, 32, 64); // e_phoff
    wr_u16(&mut img, 52, 64); // e_ehsize
    wr_u16(&mut img, 54, 56); // e_phentsize
    wr_u16(&mut img, 56, 2); // e_phnum

    // --- program headers at 0x40 ---
    // PT_LOAD covering the whole image
    let ph0 = 64;
    wr_u32(&mut img, ph0, PT_LOAD);
    wr_u32(&mut img, ph0 + 4, 5); // PF_R|PF_X
    wr_u64(&mut img, ph0 + 8, 0); // p_offset
    wr_u64(&mut img, ph0 + 16, 0); // p_vaddr
    wr_u64(&mut img, ph0 + 32, 0x2000); // p_filesz
    wr_u64(&mut img, ph0 + 40, 0x2000); // p_memsz

    // PT_DYNAMIC
    let ph1 = 64 + 56;
    wr_u32(&mut img, ph1, PT_DYNAMIC);
    wr_u32(&mut img, ph1 + 4, 6); // PF_R|PF_W
    wr_u64(&mut img, ph1 + 16, 0x300); // p_vaddr
    wr_u64(&mut img, ph1 + 32, 0x80); // p_filesz
    wr_u64(&mut img, ph1 + 40, 0x80); // p_memsz

    // --- .dynstr at 0x200: "\0native\0" ---
    let dynstr = 0x200usize;
    img[dynstr] = 0;
    let name = b"native";
    img[dynstr + 1..dynstr + 1 + name.len()].copy_from_slice(name);
    let strsz = 1 + name.len() + 1;

    // --- .dynsym at 0x240: null sym + 1 defined func at 0x1000 ---
    let dynsym = 0x240usize;
    let l = ElfLayout { is64: true };
    // entry 0 = null (already zero)
    // entry 1: name=1 ("native"), value=0x1000, info=STB_GLOBAL|STT_FUNC, shndx=1 (placeholder)
    l.put_sym(&mut img[dynsym + 24..], 1, 0x1000, 0, 0x12, 0, 1);
    let symcount = 2u32;

    // --- SysV .hash at 0x2c0: nbucket=1, nchain=symcount, bucket[0]=1, chain[..] ---
    let hash = 0x2c0usize;
    wr_u32(&mut img, hash, 1); // nbucket
    wr_u32(&mut img, hash + 4, symcount); // nchain == symbol count
    wr_u32(&mut img, hash + 8, 1); // bucket[0]
    wr_u32(&mut img, hash + 12, 0); // chain[0]
    wr_u32(&mut img, hash + 16, 0); // chain[1]

    // --- .dynamic at 0x300 ---
    let mut d = 0x300usize;
    put_dyn(&mut img, &mut d, DT_HASH, hash as u64);
    put_dyn(&mut img, &mut d, DT_STRTAB, dynstr as u64);
    put_dyn(&mut img, &mut d, DT_SYMTAB, dynsym as u64);
    put_dyn(&mut img, &mut d, DT_STRSZ, strsz as u64);
    put_dyn(&mut img, &mut d, DT_SYMENT, 24);
    put_dyn(&mut img, &mut d, DT_NULL, 0);

    img
}

fn put_dyn(img: &mut [u8], d: &mut usize, tag: i64, val: u64) {
    wr_u64(img, *d, tag as u64);
    wr_u64(img, *d + 8, val);
    *d += 16;
}

// --- images of either class -------------------------------------------------

/// An image with PT_LOAD headers (vaddr, filesz, memsz), an optional PT_DYNAMIC
/// header (vaddr, size) behind them, and dynamic entries. Every `p_offset` starts
/// out wrong.
fn image(
    is64: bool,
    size: usize,
    loads: &[(u64, u64, u64)],
    dynamic: Option<(u64, u64)>,
    dyns: &[(i64, u64)],
) -> Vec<u8> {
    let l = ElfLayout { is64 };
    let mut img = vec![0u8; size];
    img[0..4].copy_from_slice(&[0x7f, b'E', b'L', b'F']);
    img[4] = if is64 { 2 } else { 1 };
    img[5] = 1;
    img[6] = 1;
    wr_u16(&mut img, 16, 3);
    wr_u32(&mut img, 20, 1);
    let count = loads.len() + dynamic.iter().count();
    if is64 {
        wr_u64(&mut img, 32, 64);
        wr_u16(&mut img, 54, 56);
        wr_u16(&mut img, 56, count as u16);
    } else {
        wr_u32(&mut img, 28, 52);
        wr_u16(&mut img, 42, 32);
        wr_u16(&mut img, 44, count as u16);
    }
    let mut o = l.ehdr_size();
    for (vaddr, filesz, memsz) in loads {
        put_phdr(is64, &mut img, o, PT_LOAD, *vaddr, *filesz, *memsz);
        o += l.phdr_size();
    }
    if let Some((addr, len)) = dynamic {
        put_phdr(is64, &mut img, o, PT_DYNAMIC, addr, len, len);
        let mut d = addr as usize;
        for (tag, val) in dyns {
            if is64 {
                wr_u64(&mut img, d, *tag as u64);
                wr_u64(&mut img, d + 8, *val);
            } else {
                wr_u32(&mut img, d, *tag as u32);
                wr_u32(&mut img, d + 4, *val as u32);
            }
            d += l.dyn_size();
        }
    }
    img
}

fn put_phdr(is64: bool, img: &mut [u8], o: usize, typ: u32, vaddr: u64, filesz: u64, memsz: u64) {
    wr_u32(img, o, typ);
    if is64 {
        wr_u64(img, o + 8, 0x777);
        wr_u64(img, o + 16, vaddr);
        wr_u64(img, o + 32, filesz);
        wr_u64(img, o + 40, memsz);
    } else {
        wr_u32(img, o + 4, 0x777);
        wr_u32(img, o + 8, vaddr as u32);
        wr_u32(img, o + 16, filesz as u32);
        wr_u32(img, o + 20, memsz as u32);
    }
}

/// A section as its header describes it: name, type, flags, address, offset, size,
/// link, info, alignment, entry size.
type Row = (String, u32, u64, u64, u64, u64, u32, u32, u64, u64);

fn rows(file: &[u8]) -> Vec<Row> {
    let elf = goblin::elf::Elf::parse(file).expect("goblin parse");
    elf.section_headers
        .iter()
        .map(|h| {
            (
                elf.shdr_strtab.get_at(h.sh_name).unwrap_or("?").to_string(),
                h.sh_type,
                h.sh_flags,
                h.sh_addr,
                h.sh_offset,
                h.sh_size,
                h.sh_link,
                h.sh_info,
                h.sh_addralign,
                h.sh_entsize,
            )
        })
        .collect()
}

#[allow(clippy::too_many_arguments)]
fn row(
    name: &str,
    typ: u32,
    flags: u64,
    addr: u64,
    size: u64,
    link: u32,
    info: u32,
    align: u64,
    entsize: u64,
) -> Row {
    (name.to_string(), typ, flags, addr, addr, size, link, info, align, entsize)
}

fn find<'a>(rows: &'a [Row], name: &str) -> &'a Row {
    rows.iter().find(|r| r.0 == name).expect(name)
}

fn full_elf64() -> Vec<u8> {
    let mut img = image(
        true,
        0x3000,
        &[(0, 0x1800, 0x1800), (0x2000, 0x800, 0x1000)],
        Some((0x2100, 0x200)),
        &[
            (DT_HASH, 0x300),
            (DT_SYMTAB, 0x400),
            (DT_SYMENT, 24),
            (DT_STRTAB, 0x500),
            (DT_STRSZ, 0x20),
            (DT_VERSYM, 0x550),
            (DT_VERNEED, 0x560),
            (DT_VERNEEDNUM, 1),
            (DT_VERDEF, 0x580),
            (DT_VERDEFNUM, 2),
            (DT_RELA, 0x600),
            (DT_RELASZ, 0x30),
            (DT_JMPREL, 0x700),
            (DT_PLTRELSZ, 0x30),
            (DT_PLTREL, 7),
            (DT_INIT, 0x900),
            (DT_PLTGOT, 0x2400),
            (DT_INIT_ARRAY, 0x2300),
            (DT_INIT_ARRAYSZ, 0x10),
            (DT_FINI_ARRAY, 0x2310),
            (DT_FINI_ARRAYSZ, 8),
            (DT_NULL, 0),
            (DT_STRSZ, 0x99),
        ],
    );
    wr_u32(&mut img, 0x300, 1);
    wr_u32(&mut img, 0x304, 4);
    let l = ElfLayout { is64: true };
    l.put_sym(&mut img[0x400 + 24..], 1, 0x780, 4, 0x02, 0, 5);
    l.put_sym(&mut img[0x400 + 48..], 2, 0x2900, 8, 0x11, 0, 0xfff1);
    l.put_sym(&mut img[0x400 + 72..], 3, 0x780, 0, 0x12, 0, 0);
    img
}

#[test]
fn elf64_sections_follow_from_the_dynamic_table() {
    let file = rebuild_so_sections(&full_elf64(), &[]).unwrap();
    let rows = rows(&file);
    let expected = vec![
        row("", 0, 0, 0, 0, 0, 0, 0, 0),
        row(".hash", 5, 2, 0x300, 0x100, 2, 0, 8, 4),
        row(".dynsym", 11, 2, 0x400, 96, 3, 2, 8, 24),
        row(".dynstr", 3, 2, 0x500, 0x20, 0, 0, 1, 0),
        row(".gnu.version", 0x6fff_ffff, 2, 0x550, 8, 2, 0, 2, 2),
        row(".gnu.version_r", 0x6fff_fffe, 2, 0x560, 0x20, 3, 1, 8, 0),
        row(".gnu.version_d", 0x6fff_fffd, 2, 0x580, 0x80, 3, 2, 8, 0),
        row(".rela.dyn", 4, 2, 0x600, 0x30, 2, 0, 8, 24),
        row(".rela.plt", 4, 0x42, 0x700, 0x30, 2, 15, 8, 24),
        row(".plt", 1, 6, 0x730, 0x40, 0, 0, 16, 16),
        row(".text", 1, 6, 0x770, 0x190, 0, 0, 8, 0),
        row(".init", 1, 6, 0x900, 0x1800, 0, 0, 4, 0),
        row(".dynamic", 6, 3, 0x2100, 0x200, 3, 0, 8, 16),
        row(".init_array", 14, 3, 0x2300, 0x10, 0, 0, 8, 8),
        row(".fini_array", 15, 3, 0x2310, 8, 0, 0, 8, 8),
        row(".got.plt", 1, 3, 0x2400, 0x28, 0, 0, 8, 8),
        row(".data", 1, 3, 0x2428, 0x3d8, 0, 0, 8, 0),
        row(".bss", 8, 3, 0x2800, 0x800, 0, 0, 8, 0),
    ];
    assert_eq!(rows[..18], expected[..]);
    assert_eq!(rows.len(), 19);
    let names = &rows[18];
    assert_eq!((names.0.as_str(), names.1, names.3, names.4), (".shstrtab", 3, 0, 0x3000));
}

#[test]
fn elf64_header_locates_the_table() {
    let img = full_elf64();
    let file = rebuild_so_sections(&img, &[]).unwrap();
    let shoff = rd_u64(&file, 40) as usize;
    assert_eq!(shoff % 8, 0);
    assert_eq!(rd_u16(&file, 58), 64);
    assert_eq!(rd_u16(&file, 60), 19);
    assert_eq!(rd_u16(&file, 62), 18);
    assert_eq!(shoff + 19 * 64, file.len());
}

#[test]
fn elf64_program_headers_are_normalized() {
    let img = full_elf64();
    let file = rebuild_so_sections(&img, &[]).unwrap();
    let offsets: Vec<u64> = (0..3).map(|j| rd_u64(&file, 64 + 56 * j + 8)).collect();
    let sizes: Vec<u64> = (0..3).map(|j| rd_u64(&file, 64 + 56 * j + 32)).collect();
    assert_eq!(offsets, vec![0, 0x2000, 0x2100]);
    assert_eq!(sizes, vec![0x1800, 0x1000, 0x200]);
}

#[test]
fn elf64_symbols_are_remapped() {
    let file = rebuild_so_sections(&full_elf64(), &[]).unwrap();
    assert_eq!(rd_u16(&file, 0x400 + 24 + 6), 10); // .text
    assert_eq!(rd_u16(&file, 0x400 + 48 + 6), 0xfff1); // reserved
    assert_eq!(rd_u16(&file, 0x400 + 72 + 6), 0); // undefined
    assert_eq!(rd_u64(&file, 0x400 + 24 + 8), 0x780);
}

#[test]
fn the_rest_of_the_image_is_kept() {
    let mut img = full_elf64();
    for (k, b) in img.iter_mut().enumerate().skip(0xa00).take(0x1000) {
        *b = (k % 251) as u8;
    }
    let file = rebuild_so_sections(&img, &[]).unwrap();
    let patched = |k: usize| {
        (40..48).contains(&k)
            || (58..64).contains(&k)
            || (0..3).any(|j| (64 + 56 * j + 8..64 + 56 * j + 16).contains(&k))
            // the one segment that is larger in memory
            || (64 + 56 + 32..64 + 56 + 40).contains(&k)
            // the one defined symbol that has a section around it
            || (0x400 + 24 + 6..0x400 + 24 + 8).contains(&k)
    };
    for k in 0..img.len() {
        assert!(patched(k) || file[k] == img[k], "byte {k:#x}");
    }
}

#[test]
fn injected_symbols_are_laid_out_behind_the_image() {
    let injected = vec![InjectedSym {
        name: "Java_com_x_native".to_string(),
        value: 0x1000,
    }];
    let file = rebuild_so_sections(&synth_elf64(), &injected).unwrap();
    let rows = rows(&file);
    assert_eq!(
        rows[1..5],
        [
            row(".dynstr", 3, 2, 0x200, 8, 0, 0, 1, 0),
            row(".dynsym", 11, 2, 0x240, 48, 1, 1, 8, 24),
            row(".hash", 5, 2, 0x2c0, 0x40, 2, 0, 8, 4),
            row(".dynamic", 6, 3, 0x300, 0x80, 1, 0, 8, 16),
        ]
    );
    assert_eq!(rows[5], (".symtab".to_string(), 2, 0, 0, 0x2000, 48, 6, 1, 8, 24));
    assert_eq!(rows[6], (".strtab".to_string(), 3, 0, 0, 0x2030, 19, 0, 0, 1, 0));
    assert_eq!(rows[7], (".shstrtab".to_string(), 3, 0, 0, 0x2043, 58, 0, 0, 1, 0));
    assert_eq!(rd_u64(&file, 40), 0x2080);
    assert_eq!(file.len(), 0x2280);
    assert_eq!(file[0x2000..0x2018], [0u8; 24]);
    assert_eq!(rd_u32(&file, 0x2018), 1);
    assert_eq!(file[0x201c], 0x12);
    assert_eq!(file[0x201d], 0);
    assert_eq!(rd_u16(&file, 0x201e), 0); // no section around the value
    assert_eq!(rd_u64(&file, 0x2020), 0x1000);
    assert_eq!(rd_u64(&file, 0x2028), 0);
    assert_eq!(&file[0x2030..0x2043], b"\0Java_com_x_native\0");
}

#[test]
fn injected_symbols_point_at_the_section_around_them() {
    let injected: Vec<InjectedSym> = [("a", 0x770), ("\u{e9}", 0x2427), ("c", 0x2fff), ("d", 0x3000)]
        .iter()
        .map(|(name, value)| InjectedSym {
            name: name.to_string(),
            value: *value,
        })
        .collect();
    let file = rebuild_so_sections(&full_elf64(), &injected).unwrap();
    let elf = goblin::elf::Elf::parse(&file).unwrap();
    let syms: Vec<(String, u64, usize)> = elf
        .syms
        .iter()
        .skip(1)
        .map(|s| {
            (
                elf.strtab.get_at(s.st_name).unwrap().to_string(),
                s.st_value,
                s.st_shndx,
            )
        })
        .collect();
    assert_eq!(
        syms,
        vec![
            ("a".to_string(), 0x770, 10),
            ("\u{e9}".to_string(), 0x2427, 15),
            ("c".to_string(), 0x2fff, 17),
            ("d".to_string(), 0x3000, 0),
        ]
    );
}

fn full_elf32() -> Vec<u8> {
    let mut img = image(
        false,
        0x1000,
        &[(0, 0xe00, 0x1000)],
        Some((0x800, 0x80)),
        &[
            (DT_GNU_HASH, 0x200),
            (DT_SYMTAB, 0x300),
            (DT_STRTAB, 0x400),
            (DT_STRSZ, 0x10),
            (DT_REL, 0x500),
            (DT_RELSZ, 0x10),
            (DT_RELR, 0x580),
            (DT_RELRSZ, 8),
            (DT_JMPREL, 0x600),
            (DT_PLTRELSZ, 0x10),
            (DT_PLTGOT, 0x900),
        ],
    );
    for (k, v) in [2u32, 1, 1, 0, 0, 1, 2, 1, 2, 3].iter().enumerate() {
        wr_u32(&mut img, 0x200 + 4 * k, *v);
    }
    let l = ElfLayout { is64: false };
    l.put_sym(&mut img[0x310..], 1, 0x660, 4, 0x12, 0, 1);
    img
}

#[test]
fn elf32_sections_follow_from_the_dynamic_table() {
    let file = rebuild_so_sections(&full_elf32(), &[]).unwrap();
    let rows = rows(&file);
    let expected = vec![
        row("", 0, 0, 0, 0, 0, 0, 0, 0),
        row(".gnu.hash", 0x6fff_fff6, 2, 0x200, 0x100, 2, 0, 4, 0),
        row(".dynsym", 11, 2, 0x300, 64, 3, 1, 4, 16),
        row(".dynstr", 3, 2, 0x400, 0x10, 0, 0, 1, 0),
        row(".rel.dyn", 9, 2, 0x500, 0x10, 2, 0, 4, 8),
        row(".relr.dyn", 19, 2, 0x580, 8, 0, 0, 4, 4),
        row(".rel.plt", 9, 0x42, 0x600, 0x10, 2, 10, 4, 8),
        row(".plt", 1, 6, 0x610, 0x40, 0, 0, 16, 16),
        row(".text", 1, 6, 0x650, 0x1b0, 0, 0, 4, 0),
        row(".dynamic", 6, 3, 0x800, 0x80, 3, 0, 4, 8),
        row(".got.plt", 1, 3, 0x900, 0x14, 0, 0, 4, 4),
        row(".data", 1, 3, 0x914, 0x4ec, 0, 0, 4, 0),
        row(".bss", 8, 3, 0xe00, 0x200, 0, 0, 4, 0),
    ];
    assert_eq!(rows[..13], expected[..]);
    assert_eq!(rows.len(), 14);
    assert_eq!(rd_u32(&file, 32) as usize + 14 * 40, file.len());
    assert_eq!(rd_u16(&file, 46), 40);
    assert_eq!(rd_u16(&file, 48), 14);
    assert_eq!(rd_u16(&file, 50), 13);
    assert_eq!(rd_u32(&file, 52 + 4), 0);
    assert_eq!(rd_u32(&file, 52 + 16), 0x1000);
    assert_eq!(rd_u32(&file, 52 + 32 + 4), 0x800);
    assert_eq!(rd_u16(&file, 0x310 + 14), 8); // .text
}

#[test]
fn elf32_injected_symbols_keep_the_low_half_of_their_value() {
    let injected = vec![InjectedSym {
        name: "f".to_string(),
        value: 0x1_0000_0660,
    }];
    let file = rebuild_so_sections(&full_elf32(), &injected).unwrap();
    let elf = goblin::elf::Elf::parse(&file).unwrap();
    let sym = elf.syms.get(1).unwrap();
    assert_eq!((sym.st_value, sym.st_shndx), (0x660, 0));
    assert_eq!(elf.strtab.get_at(sym.st_name), Some("f"));
}

#[test]
fn a_name_with_a_nul_is_written_as_it_is() {
    let injected: Vec<InjectedSym> = [("a\0b", 0x770), ("", 0x2427), ("c", 0x2fff)]
        .iter()
        .map(|(name, value)| InjectedSym {
            name: name.to_string(),
            value: *value,
        })
        .collect();
    let file = rebuild_so_sections(&full_elf64(), &injected).unwrap();
    let rows = rows(&file);
    let at = find(&rows, ".strtab").4 as usize;
    assert_eq!(&file[at..at + 8], b"\0a\0b\0\0c\0");
    let symtab = find(&rows, ".symtab").4 as usize;
    let read: Vec<(u32, u64, u16)> = (1..4)
        .map(|i| symtab + 24 * i)
        .map(|o| (rd_u32(&file, o), rd_u64(&file, o + 8), rd_u16(&file, o + 6)))
        .collect();
    assert_eq!(read, vec![(1, 0x770, 10), (5, 0x2427, 15), (6, 0x2fff, 17)]);
}

#[test]
fn android_packed_relocations_are_anchored() {
    let dyns = [
        (DT_STRTAB, 0x200),
        (DT_ANDROID_RELA, 0x300),
        (DT_ANDROID_RELASZ, 0x20),
        (DT_ANDROID_REL, 0x340),
        (DT_ANDROID_RELSZ, 0x10),
        (DT_ANDROID_RELR, 0x380),
        (DT_ANDROID_RELRSZ, 0x18),
        (DT_NULL, 0),
    ];
    let img = image(true, 0x1000, &[(0, 0x1000, 0x1000)], Some((0x400, 0x100)), &dyns);
    let rows = rows(&rebuild_so_sections(&img, &[]).unwrap());
    assert_eq!(rows[2], row(".rela.dyn", 0x6000_0002, 2, 0x300, 0x20, 0, 0, 8, 0));
    assert_eq!(rows[3], row(".rel.dyn", 0x6000_0001, 2, 0x340, 0x10, 0, 0, 8, 0));
    assert_eq!(rows[4], row(".relr.dyn", 0x6fff_ff00, 2, 0x380, 0x18, 0, 0, 8, 8));
}

#[test]
fn precise_sizes_are_cut_at_the_next_section() {
    let dyns = [
        (DT_STRTAB, 0x200),
        (DT_STRSZ, 0x180),
        (DT_RELA, 0x300),
        (DT_RELASZ, 0x50),
        (DT_INIT, 0x300),
        (DT_NULL, 0),
    ];
    let img = image(true, 0x1000, &[(0, 0xc00, 0xc00)], Some((0x800, 0x800)), &dyns);
    let rows = rows(&rebuild_so_sections(&img, &[]).unwrap());
    assert_eq!(find(&rows, ".dynstr").5, 0x100);
    // .rela.dyn and .init start at the same address: the first keeps its size
    assert_eq!(find(&rows, ".rela.dyn").5, 0x50);
    assert_eq!(find(&rows, ".init").5, 0x40);
    assert_eq!(find(&rows, ".text").3, 0x340);
    // .dynamic is last and is cut at the end of the file-backed span
    assert_eq!(find(&rows, ".dynamic").5, 0x400);
}

#[test]
fn sections_at_one_address_keep_the_order_of_the_list() {
    let dyns = [(DT_INIT, 0x300), (DT_RELA, 0x300), (DT_STRTAB, 0x300), (DT_NULL, 0)];
    let img = image(true, 0x1000, &[(0, 0x1000, 0x1000)], Some((0x200, 0x80)), &dyns);
    let rows = rows(&rebuild_so_sections(&img, &[]).unwrap());
    let names: Vec<&str> = rows.iter().map(|r| r.0.as_str()).collect();
    assert_eq!(
        names,
        vec!["", ".dynamic", ".dynstr", ".rela.dyn", ".init", ".text", ".shstrtab"]
    );
}

#[test]
fn a_shared_name_is_listed_once_and_links_to_the_last() {
    // both relocation tables are called .rela.dyn
    let dyns = [(DT_RELA, 0x300), (DT_ANDROID_RELA, 0x400), (DT_NULL, 0)];
    let img = image(true, 0x1000, &[(0, 0x1000, 0x1000)], Some((0x200, 0x80)), &dyns);
    let file = rebuild_so_sections(&img, &[]).unwrap();
    let rows = rows(&file);
    assert_eq!(rows[2].0, ".rela.dyn");
    assert_eq!(rows[3].0, ".rela.dyn");
    assert_eq!(find(&rows, ".shstrtab").5, 1 + 9 + 10 + 10);
    // no .dynsym to link to
    assert_eq!(rows[2].6, 0);
}

#[test]
fn pltrel_decides_the_form_of_the_plt_relocations() {
    let dyns = [
        (DT_JMPREL, 0x300),
        (DT_PLTRELSZ, 0x21),
        (DT_PLTREL, 17),
        (DT_PLTGOT, 0x500),
        (DT_NULL, 0),
    ];
    let img = image(true, 0x1000, &[(0, 0x1000, 0x1000)], Some((0x200, 0x80)), &dyns);
    let rows = rows(&rebuild_so_sections(&img, &[]).unwrap());
    assert_eq!(find(&rows, ".rel.plt").9, 16);
    assert_eq!(find(&rows, ".plt").3, 0x330);
    assert_eq!(find(&rows, ".got.plt").5, (3 + 2) * 8);
    assert_eq!(find(&rows, ".data").3, 0x528);
}

#[test]
fn an_unsized_got_makes_no_data_section() {
    let dyns = [(DT_PLTGOT, 0x500), (DT_NULL, 0)];
    let img = image(true, 0x1000, &[(0, 0x1000, 0x1000)], Some((0x200, 0x80)), &dyns);
    let rows = rows(&rebuild_so_sections(&img, &[]).unwrap());
    assert!(rows.iter().all(|r| r.0 != ".data"));
    assert_eq!(find(&rows, ".got.plt").5, 0xb00);
}

#[test]
fn a_zero_entry_size_stands_for_the_class_default() {
    let dyns = [(DT_SYMTAB, 0x300), (DT_SYMENT, 0), (DT_HASH, 0x400), (DT_NULL, 0)];
    let mut img = image(true, 0x1000, &[(0, 0x1000, 0x1000)], Some((0x200, 0x80)), &dyns);
    wr_u32(&mut img, 0x404, 3);
    wr_u16(&mut img, 54, 0); // e_phentsize
    let rows = rows(&rebuild_so_sections(&img, &[]).unwrap());
    assert_eq!(find(&rows, ".dynsym").9, 24);
    assert_eq!(find(&rows, ".dynsym").5, 72);
}

#[test]
fn an_unreadable_hash_table_counts_no_symbols() {
    let dyns = [(DT_SYMTAB, 0x300), (DT_HASH, 0xff9), (DT_GNU_HASH, 0x500), (DT_NULL, 0)];
    let img = image(true, 0x1000, &[(0, 0x1000, 0x1000)], Some((0x200, 0x80)), &dyns);
    let file = rebuild_so_sections(&img, &[]).unwrap();
    let shoff = rd_u64(&file, 40) as usize;
    // .dynsym is section 2 and reaches to .gnu.hash
    assert_eq!(rd_u64(&file, shoff + 2 * 64 + 16), 0x300);
    assert_eq!(rd_u64(&file, shoff + 2 * 64 + 32), 0x200);
    assert_eq!(rd_u32(&file, shoff + 2 * 64 + 44), 1);
}

#[test]
fn every_reason_to_refuse_a_rebuild() {
    let good = synth_elf64();
    let refuse = |img: &[u8]| rebuild_so_sections(img, &[]).unwrap_err();

    assert_eq!(refuse(&good[..15]), RebuildError::ImageTooSmall);
    assert_eq!(refuse(&good[..15]).message(), "image too small");

    let mut img = good.clone();
    img[3] = b'G';
    assert_eq!(refuse(&img), RebuildError::NotElf);
    assert_eq!(refuse(&img).message(), "not an ELF image");

    let mut img = good.clone();
    img[4] = 3;
    assert_eq!(refuse(&img), RebuildError::UnsupportedClass(3));
    assert_eq!(refuse(&img).message(), "unsupported EI_CLASS=3");

    let mut img = good.clone();
    img[5] = 210;
    assert_eq!(refuse(&img), RebuildError::NotLittleEndian(210));
    assert_eq!(
        refuse(&img).message(),
        "only little-endian images supported (EI_DATA=210)"
    );

    assert_eq!(refuse(&good[..63]), RebuildError::SmallerThanHeader);
    assert_eq!(refuse(&good[..63]).message(), "image smaller than ELF header");

    let mut img = good.clone();
    wr_u64(&mut img, 32, 0);
    assert_eq!(refuse(&img), RebuildError::NoProgramHeaders);
    let mut img = good.clone();
    wr_u16(&mut img, 56, 0);
    assert_eq!(refuse(&img), RebuildError::NoProgramHeaders);
    assert_eq!(refuse(&img).message(), "no program headers");

    let mut img = good.clone();
    wr_u16(&mut img, 56, 1);
    assert_eq!(refuse(&img), RebuildError::NoDynamicSegment);
    assert_eq!(
        refuse(&img).message(),
        "no PT_DYNAMIC segment; cannot rebuild sections"
    );

    let mut img = good.clone();
    wr_u32(&mut img, 64, 4);
    assert_eq!(refuse(&img), RebuildError::NoLoadSegments);
    assert_eq!(refuse(&img).message(), "no PT_LOAD segments");
}

#[test]
fn an_address_past_64_bits_is_told_apart() {
    let mut img = synth_elf64();
    assert!(try_rebuild_so_sections(&img, &[]).is_some());
    wr_u64(&mut img, 64 + 16, u64::MAX - 0x1000); // p_vaddr of the PT_LOAD header
    assert!(try_rebuild_so_sections(&img, &[]).is_none());
    assert!(try_fix_one_so(&img, &[]).is_none());

    let dyns = [(DT_JMPREL, u64::MAX - 14), (DT_NULL, 0)];
    let img = image(true, 0x1000, &[(0, 0x1000, 0x1000)], Some((0x200, 0x80)), &dyns);
    assert!(try_rebuild_so_sections(&img, &[]).is_none());

    let dyns = [(DT_INIT, u64::MAX - 0x3f), (DT_NULL, 0)];
    let img = image(true, 0x1000, &[(0, 0x1000, 0x1000)], Some((0x200, 0x80)), &dyns);
    assert!(try_rebuild_so_sections(&img, &[]).is_none());
    let dyns = [(DT_INIT, u64::MAX - 0x40), (DT_NULL, 0)];
    let img = image(true, 0x1000, &[(0, 0x1000, 0x1000)], Some((0x200, 0x80)), &dyns);
    assert!(try_rebuild_so_sections(&img, &[]).is_some());
}

// --- repairs ----------------------------------------------------------------

#[test]
fn fix_prefers_the_section_rebuild() {
    let img = synth_elf64();
    match fix_one_so(&img, &[]) {
        Ok(FixedSo::Rebuilt(out)) => assert_eq!(out, rebuild_so_sections(&img, &[]).unwrap()),
        other => panic!("{other:?}"),
    }
}

#[test]
fn fix_falls_back_to_the_headers() {
    let mut img = image(
        true,
        0x1000,
        &[(0x10, 0x100, 0x200), (0x400, 0x300, 0x200)],
        None,
        &[],
    );
    put_phdr(true, &mut img, 64 + 56, 4, 0x400, 0x300, 0x900);
    wr_u64(&mut img, 40, 0x1234);
    wr_u16(&mut img, 58, 64);
    wr_u16(&mut img, 60, 7);
    wr_u16(&mut img, 62, 6);
    let out = match fix_one_so(&img, &[]) {
        Ok(FixedSo::HeaderOnly(out, RebuildError::NoDynamicSegment)) => out,
        other => panic!("{other:?}"),
    };
    assert_eq!(out.len(), img.len());
    assert_eq!(rd_u64(&out, 40), 0);
    assert_eq!(rd_u16(&out, 58), 64);
    assert_eq!(rd_u16(&out, 60), 0);
    assert_eq!(rd_u16(&out, 62), 0);
    assert_eq!(rd_u64(&out, 64 + 8), 0x10);
    assert_eq!(rd_u64(&out, 64 + 32), 0x200);
    // not a PT_LOAD header: kept
    assert_eq!(rd_u64(&out, 64 + 56 + 8), 0x777);
    assert_eq!(rd_u64(&out, 64 + 56 + 32), 0x300);
    let changed = (0..img.len()).filter(|k| img[*k] != out[*k]).count();
    assert_eq!(changed, 2 + 1 + 1 + 2 + 1);
}

#[test]
fn fix_takes_big_endian_headers_as_they_are() {
    let mut img = image(false, 0x400, &[(0x20, 0x30, 0x30)], None, &[]);
    img[5] = 2;
    match fix_one_so(&img, &[]) {
        Ok(FixedSo::HeaderOnly(out, RebuildError::NotLittleEndian(2))) => {
            assert_eq!(rd_u32(&out, 52 + 4), 0x20);
            assert_eq!(rd_u32(&out, 52 + 16), 0x30);
        }
        other => panic!("{other:?}"),
    }
}

#[test]
fn every_reason_to_give_up_a_fix() {
    let good = image(true, 0x400, &[(0, 0x400, 0x400)], None, &[]);
    let fail = |img: &[u8]| fix_one_so(img, &[]).unwrap_err();

    assert_eq!(fail(&good[..12]), FixFailure { error: FixError::NotElf, rebuild: None });
    let mut img = good.clone();
    img[0] = 0;
    assert_eq!(fail(&img).error, FixError::NotElf);
    assert_eq!(FixError::NotElf.message(), "not a valid ELF file");

    let mut img = good.clone();
    img[4] = 0;
    assert_eq!(
        fail(&img),
        FixFailure { error: FixError::UnsupportedClass(0), rebuild: None }
    );
    assert_eq!(
        fail(&img).error.message(),
        "unsupported EI_CLASS=0 (want ELF32 or ELF64)"
    );

    assert_eq!(
        fail(&good[..20]),
        FixFailure {
            error: FixError::TruncatedHeader,
            rebuild: Some(RebuildError::SmallerThanHeader),
        }
    );
    assert_eq!(FixError::TruncatedHeader.message(), "truncated ELF header");

    let mut img = good.clone();
    wr_u16(&mut img, 56, 0);
    assert_eq!(
        fail(&img),
        FixFailure {
            error: FixError::NoProgramHeaders,
            rebuild: Some(RebuildError::NoProgramHeaders),
        }
    );
    assert_eq!(FixError::NoProgramHeaders.message(), "no program headers");

    let mut img = good.clone();
    wr_u32(&mut img, 64, 6);
    assert_eq!(
        fail(&img),
        FixFailure {
            error: FixError::NoLoadSegments,
            rebuild: Some(RebuildError::NoDynamicSegment),
        }
    );
    assert_eq!(FixError::NoLoadSegments.message(), "no PT_LOAD segments found");
}

#[test]
fn self_check_counts_dynamic_symbols() {
    let file = rebuild_so_sections(&synth_elf64(), &[]).unwrap();
    assert!(matches!(self_check_so(&file), Ok(2)));
    assert!(matches!(try_self_check_so(&file), Some(Ok(2))));
    assert!(matches!(judge_parse(Ok(2)), Ok(2)));
    assert_eq!(
        describe_check(&self_check_so(&file)),
        "rebuilt section headers, 2 dynamic symbols readable"
    );
    let file = rebuild_so_sections(&full_elf32(), &[]).unwrap();
    assert!(matches!(self_check_so(&file), Ok(4)));
}

#[test]
fn self_check_rejects_what_does_not_parse() {
    let junk = b"not an ELF file";
    let err = self_check_so(junk).unwrap_err();
    assert_eq!(err.message(), "parse rebuilt elf");
    assert_eq!(
        describe_check(&Err(err)),
        "rebuilt section headers, but self-check couldn't read symbols: parse rebuilt elf"
    );
}

#[test]
fn self_check_keeps_the_cause() {
    let mut truncated = rebuild_so_sections(&synth_elf64(), &[]).unwrap();
    truncated.pop();
    for bytes in [&b"not an ELF file"[..], &truncated] {
        let cause = goblin::elf::Elf::parse(bytes).unwrap_err();
        let err = self_check_so(bytes).unwrap_err();
        assert_eq!(format!("{:?}", err.cause), format!("{cause:?}"));
        assert_eq!(err.cause.to_string(), cause.to_string());
        let judged = judge_parse(Err(cause)).unwrap_err();
        assert_eq!(format!("{judged:?}"), format!("{err:?}"));
    }
}
