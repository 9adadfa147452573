//! The sections of a rebuilt file: where each comes from, how large it is, and what
//! refers to it.
use crate::catalog;
use crate::catalog::DynImage;
use crate::dynamic;
use crate::laws::elf;
use crate::rebuild;
use crate::sections;
use crate::sections::Section;
use vstd::prelude::*;

verus! {

/// The value of a tag of the dynamic table, 0 for one that is not there.
pub open spec fn value(d: DynImage, tag: i64) -> u64 {
    if d.table.contains_key(tag) {
        d.table[tag]
    } else {
        0
    }
}

/// A section of the image, sized if `size` is not 0.
pub open spec fn section(
    name: Seq<char>,
    typ: u32,
    flags: u64,
    addr: int,
    size: int,
    link: Seq<char>,
    info: u32,
    entsize: int,
    align: int,
) -> Section {
    Section {
        name,
        typ,
        flags,
        addr: addr as u64,
        size: size as u64,
        has_size: size > 0,
        link_name: link,
        info_name: Seq::empty(),
        info,
        entsize: entsize as u64,
        align: align as u64,
        file_data: None,
    }
}

/// `s` if `there`, else nothing.
pub open spec fn when(there: bool, s: Section) -> Seq<Section> {
    if there {
        seq![s]
    } else {
        Seq::empty()
    }
}

/// Size of a dynamic symbol: tag 11 says, and without it the class.
pub open spec fn symbol_size(d: DynImage) -> int {
    if value(d, 11) == 0 {
        elf::by_class(d.l, 24, 16)
    } else {
        value(d, 11) as int
    }
}

/// Whether the relocations of the procedure linkage table have addends: tag 20 says,
/// and without it the class.
pub open spec fn has_addends(d: DynImage) -> bool {
    if d.table.contains_key(20) {
        d.table[20] == 7
    } else {
        d.l.is64
    }
}

/// Size of one of those relocations.
pub open spec fn jump_size(d: DynImage) -> int {
    if has_addends(d) {
        elf::by_class(d.l, 24, 12)
    } else {
        elf::by_class(d.l, 16, 8)
    }
}

/// The sections of the tables that the dynamic linker looks symbols up in.
pub open spec fn symbol_sections(d: DynImage) -> Seq<Section> {
    let w = elf::word(d.l);
    let at = |tag: i64| value(d, tag) as int;
    let has = |tag: i64| d.table.contains_key(tag);
    when(
        has(0x6fff_fef5),
        section(
            ".gnu.hash"@,
            0x6fff_fff6,
            2,
            at(0x6fff_fef5),
            0,
            ".dynsym"@,
            0,
            0,
            w,
        ),
    ) + when(has(4), section(".hash"@, 5, 2, at(4), 0, ".dynsym"@, 0, 4, w)) + when(
        has(6),
        section(
            ".dynsym"@,
            11,
            2,
            at(6),
            d.symcount * symbol_size(d),
            ".dynstr"@,
            dynamic::local_syms(d.l, d.data, at(6), d.symcount as nat) as u32,
            symbol_size(d),
            w,
        ),
    ) + when(has(5), section(".dynstr"@, 3, 2, at(5), at(10), Seq::empty(), 0, 0, 1)) + when(
        has(0x6fff_fff0),
        section(
            ".gnu.version"@,
            0x6fff_ffff,
            2,
            at(0x6fff_fff0),
            d.symcount * 2,
            ".dynsym"@,
            0,
            2,
            2,
        ),
    ) + when(
        has(0x6fff_fffc),
        section(
            ".gnu.version_d"@,
            0x6fff_fffd,
            2,
            at(0x6fff_fffc),
            0,
            ".dynstr"@,
            value(d, 0x6fff_fffd) as u32,
            0,
            w,
        ),
    ) + when(
        has(0x6fff_fffe),
        section(
            ".gnu.version_r"@,
            0x6fff_fffe,
            2,
            at(0x6fff_fffe),
            0,
            ".dynstr"@,
            value(d, 0x6fff_ffff) as u32,
            0,
            w,
        ),
    )
}

/// The sections of the relocations.
pub open spec fn relocation_sections(d: DynImage) -> Seq<Section> {
    let w = elf::word(d.l);
    let at = |tag: i64| value(d, tag) as int;
    let has = |tag: i64| d.table.contains_key(tag);
    let rela = elf::by_class(d.l, 24, 12);
    let rel = elf::by_class(d.l, 16, 8);
    when(has(7), section(".rela.dyn"@, 4, 2, at(7), at(8), ".dynsym"@, 0, rela, w)) + when(
        has(17),
        section(".rel.dyn"@, 9, 2, at(17), at(18), ".dynsym"@, 0, rel, w),
    ) + when(has(36), section(".relr.dyn"@, 19, 2, at(36), at(35), Seq::empty(), 0, w, w)) + when(
        has(0x6000_0011),
        section(
            ".rela.dyn"@,
            0x6000_0002,
            2,
            at(0x6000_0011),
            at(0x6000_0012),
            ".dynsym"@,
            0,
            0,
            w,
        ),
    ) + when(
        has(0x6000_000f),
        section(
            ".rel.dyn"@,
            0x6000_0001,
            2,
            at(0x6000_000f),
            at(0x6000_0010),
            ".dynsym"@,
            0,
            0,
            w,
        ),
    ) + when(
        has(0x6fff_e000),
        section(
            ".relr.dyn"@,
            0x6fff_ff00,
            2,
            at(0x6fff_e000),
            at(0x6fff_e001),
            Seq::empty(),
            0,
            w,
            w,
        ),
    ) + when(
        has(23),
        Section {
            info_name: ".got.plt"@,
            ..section(
                if has_addends(d) {
                    ".rela.plt"@
                } else {
                    ".rel.plt"@
                },
                if has_addends(d) {
                    4
                } else {
                    9
                },
                0x42,
                at(23),
                at(2),
                ".dynsym"@,
                0,
                jump_size(d),
                w,
            )
        },
    )
}

/// The first multiple of 16 that is not below `n`.
pub open spec fn next_16(n: int) -> int {
    if n % 16 == 0 {
        n
    } else {
        n + (16 - n % 16)
    }
}

/// Where the procedure linkage table starts, behind its relocations.
pub open spec fn linkage(d: DynImage) -> int {
    next_16(value(d, 23) + value(d, 2))
}

/// Where code starts that has no tag of its own: the procedure linkage table, or else
/// the initialization code.
pub open spec fn code(d: DynImage) -> int {
    if d.table.contains_key(23) {
        linkage(d)
    } else {
        value(d, 12) as int
    }
}

/// The sections of code.
pub open spec fn code_sections(d: DynImage) -> Seq<Section> {
    when(
        d.table.contains_key(12),
        section(".init"@, 1, 6, value(d, 12) as int, 0, Seq::empty(), 0, 0, 4),
    ) + when(
        d.table.contains_key(23),
        section(".plt"@, 1, 6, linkage(d), 0, Seq::empty(), 0, 16, 16),
    ) + when(
        code(d) != 0,
        section(".text"@, 1, 6, code(d) + 0x40, 0, Seq::empty(), 0, 0, elf::word(d.l)),
    )
}

/// Size of the global offset table of the linkage table: three slots, and one for
/// each relocation. It is not known without relocations.
pub open spec fn slots_size(d: DynImage) -> int {
    if value(d, 2) == 0 {
        0
    } else {
        (3 + value(d, 2) as int / jump_size(d)) * elf::word(d.l)
    }
}

/// Where that table ends.
pub open spec fn slots_end(d: DynImage) -> int {
    value(d, 3) + slots_size(d)
}

/// The sections of data.
pub open spec fn data_sections(d: DynImage) -> Seq<Section> {
    let w = elf::word(d.l);
    let at = |tag: i64| value(d, tag) as int;
    let has = |tag: i64| d.table.contains_key(tag);
    when(has(25), section(".init_array"@, 14, 3, at(25), at(27), Seq::empty(), 0, w, w)) + when(
        has(26),
        section(".fini_array"@, 15, 3, at(26), at(28), Seq::empty(), 0, w, w),
    ) + seq![
        Section {
            has_size: true,
            ..section(
                ".dynamic"@,
                6,
                3,
                d.dyn_addr as int,
                d.dyn_size as int,
                ".dynstr"@,
                0,
                2 * w,
                w,
            )
        },
    ] + when(has(3), section(".got.plt"@, 1, 3, at(3), slots_size(d), Seq::empty(), 0, w, w))
        + when(
        has(3) && slots_size(d) > 0 && slots_end(d) < d.load_file_end,
        section(".data"@, 1, 3, slots_end(d), 0, Seq::empty(), 0, 0, w),
    ) + when(
        d.max_vaddr > d.load_file_end,
        section(
            ".bss"@,
            8,
            3,
            d.load_file_end as int,
            d.max_vaddr - d.load_file_end,
            Seq::empty(),
            0,
            0,
            w,
        ),
    )
}

/// What an optional section comes to in a list.
spec fn listed(s: Option<Section>) -> Seq<Section> {
    match s {
        Some(v) => seq![v],
        None => Seq::empty(),
    }
}

/// The sections of tables that symbols are looked up in, one by one.
spec fn listed_symbols(d: DynImage) -> Seq<Section> {
    listed(catalog::gnu_hash_section(d))
        + listed(catalog::hash_section(d))
        + listed(catalog::dynsym_section(d))
        + listed(catalog::dynstr_section(d))
        + listed(catalog::versym_section(d))
        + listed(catalog::verdef_section(d))
        + listed(catalog::verneed_section(d))
}

/// The sections of relocations, one by one.
spec fn listed_relocations(d: DynImage) -> Seq<Section> {
    listed(catalog::rela_section(d))
        + listed(catalog::rel_section(d))
        + listed(catalog::relr_section(d))
        + listed(catalog::android_rela_section(d))
        + listed(catalog::android_rel_section(d))
        + listed(catalog::android_relr_section(d))
        + listed(catalog::plt_rel_section(d))
}

/// The sections of code, one by one.
spec fn listed_code(d: DynImage) -> Seq<Section> {
    listed(catalog::init_section(d))
        + listed(catalog::plt_section(d))
        + listed(catalog::text_section(d))
}

/// The sections of data, one by one.
spec fn listed_data(d: DynImage) -> Seq<Section> {
    listed(catalog::init_array_section(d))
        + listed(catalog::fini_array_section(d))
        + listed(catalog::dynamic_section(d))
        + listed(catalog::got_plt_section(d))
        + listed(catalog::data_section(d))
        + listed(catalog::bss_section(d))
}

proof fn lemma_extended(secs: Seq<Section>, s: Option<Section>)
    ensures
        catalog::extended(secs, s) == secs + listed(s),
{
    reveal(catalog::extended);
    assert(catalog::extended(secs, s) =~= secs + listed(s));
}

proof fn lemma_flags()
    ensures
        sections::SHF_ALLOC | sections::SHF_EXEC == 6,
        sections::SHF_WRITE | sections::SHF_ALLOC == 3,
        sections::SHF_ALLOC | sections::SHF_INFO_LINK == 0x42,
{
    assert(2u64 | 4u64 == 6 && 1u64 | 2u64 == 3 && 2u64 | 0x40u64 == 0x42) by (bit_vector);
}

proof fn lemma_symbol_sections(d: DynImage)
    requires
        d.symcount >= 0,
        d.table.contains_key(6) ==> d.symcount * symbol_size(d) <= u64::MAX,
        d.symcount * 2 <= u64::MAX,
    ensures
        symbol_sections(d) == listed_symbols(d),
{
    assert(d.symcount * symbol_size(d) >= 0) by (nonlinear_arith)
        requires
            d.symcount >= 0,
            symbol_size(d) >= 0,
    ;
    assert(catalog::syment(d) == symbol_size(d));
}

proof fn lemma_relocation_sections(d: DynImage)
    ensures
        relocation_sections(d) == listed_relocations(d),
{
    lemma_flags();
}

proof fn lemma_code_sections(d: DynImage)
    requires
        catalog::addresses_fit(d),
    ensures
        code_sections(d) == listed_code(d),
        d.table.contains_key(23) ==> catalog::plt_addr(d) == linkage(d),
{
    lemma_flags();
    if d.table.contains_key(23) {
        let n = d.table[23] + value(d, 2);
        assert(value(d, 2) == dynamic::dyn_or_zero(d.table, dynamic::DT_PLTRELSZ));
        assert((n + 15) / 16 * 16 == next_16(n));
    }
}

proof fn lemma_data_sections(d: DynImage)
    requires
        catalog::addresses_fit(d),
    ensures
        data_sections(d) == listed_data(d),
{
    lemma_flags();
    let n = value(d, 2) as int;
    let j = jump_size(d);
    let w = elf::word(d.l);
    assert(catalog::plt_rel_ent(d) == j);
    assert(n == dynamic::dyn_or_zero(d.table, dynamic::DT_PLTRELSZ));
    assert(n / j >= 0) by (nonlinear_arith)
        requires
            n >= 0,
            j > 0,
    ;
    assert((3 + n / j) * w > 0) by (nonlinear_arith)
        requires
            n / j >= 0,
            w > 0,
    ;
    assert(catalog::got_sized(d) ==> catalog::got_size(d) == slots_size(d));
    assert(d.table.contains_key(3) ==> slots_end(d) >= slots_size(d));
}

/// Sums can be taken in groups.
proof fn lemma_group(
    s: Seq<Section>,
    a: Seq<Section>,
    b: Seq<Section>,
    c: Seq<Section>,
    d: Seq<Section>,
    e: Seq<Section>,
    f: Seq<Section>,
    g: Seq<Section>,
)
    ensures
        s + a + b + c == s + (a + b + c),
        s + a + b + c + d + e + f == s + (a + b + c + d + e + f),
        s + a + b + c + d + e + f + g == s + (a + b + c + d + e + f + g),
{
    let t = a + b + c;
    assert(s + a + b + c =~= s + t);
    let u = t + d + e + f;
    assert((s + t) + d + e + f =~= s + u);
    assert((s + u) + g =~= s + (u + g));
}

/// The sections that a dynamic table implies, written out: the tags give addresses
/// and sizes, and what has no tag is put next to what has. They stand in this order
/// before they are sorted.
pub proof fn law_sections_of_a_dynamic_table(d: DynImage)
    requires
        catalog::addresses_fit(d),
        d.symcount >= 0,
        d.symcount * 2 <= u64::MAX,
    ensures
        catalog::section_list(d) == symbol_sections(d) + relocation_sections(d) + code_sections(d)
            + data_sections(d),
{
    lemma_symbol_sections(d);
    lemma_relocation_sections(d);
    lemma_code_sections(d);
    lemma_data_sections(d);
    lemma_section_list(d);
}

/// The section list, group by group.
proof fn lemma_section_list(d: DynImage)
    ensures
        catalog::section_list(d) == listed_symbols(d) + listed_relocations(d) + listed_code(d)
            + listed_data(d),
{
    let none = Seq::<Section>::empty();
    let s0 = none;
    let a1 = listed(catalog::gnu_hash_section(d));
    lemma_extended(s0, catalog::gnu_hash_section(d));
    let s1 = s0 + a1;
    let a2 = listed(catalog::hash_section(d));
    lemma_extended(s1, catalog::hash_section(d));
    let s2 = s1 + a2;
    let a3 = listed(catalog::dynsym_section(d));
    lemma_extended(s2, catalog::dynsym_section(d));
    let s3 = s2 + a3;
    let a4 = listed(catalog::dynstr_section(d));
    lemma_extended(s3, catalog::dynstr_section(d));
    let s4 = s3 + a4;
    let a5 = listed(catalog::versym_section(d));
    lemma_extended(s4, catalog::versym_section(d));
    let s5 = s4 + a5;
    let a6 = listed(catalog::verdef_section(d));
    lemma_extended(s5, catalog::verdef_section(d));
    let s6 = s5 + a6;
    let a7 = listed(catalog::verneed_section(d));
    lemma_extended(s6, catalog::verneed_section(d));
    let s7 = s6 + a7;
    lemma_group(s0, a1, a2, a3, a4, a5, a6, a7);
    assert(none + listed_symbols(d) =~= listed_symbols(d));
    let a8 = listed(catalog::rela_section(d));
    lemma_extended(s7, catalog::rela_section(d));
    let s8 = s7 + a8;
    let a9 = listed(catalog::rel_section(d));
    lemma_extended(s8, catalog::rel_section(d));
    let s9 = s8 + a9;
    let a10 = listed(catalog::relr_section(d));
    lemma_extended(s9, catalog::relr_section(d));
    let s10 = s9 + a10;
    let a11 = listed(catalog::android_rela_section(d));
    lemma_extended(s10, catalog::android_rela_section(d));
    let s11 = s10 + a11;
    let a12 = listed(catalog::android_rel_section(d));
    lemma_extended(s11, catalog::android_rel_section(d));
    let s12 = s11 + a12;
    let a13 = listed(catalog::android_relr_section(d));
    lemma_extended(s12, catalog::android_relr_section(d));
    let s13 = s12 + a13;
    let a14 = listed(catalog::plt_rel_section(d));
    lemma_extended(s13, catalog::plt_rel_section(d));
    let s14 = s13 + a14;
    lemma_group(s7, a8, a9, a10, a11, a12, a13, a14);
    let a15 = listed(catalog::init_section(d));
    lemma_extended(s14, catalog::init_section(d));
    let s15 = s14 + a15;
    let a16 = listed(catalog::plt_section(d));
    lemma_extended(s15, catalog::plt_section(d));
    let s16 = s15 + a16;
    let a17 = listed(catalog::text_section(d));
    lemma_extended(s16, catalog::text_section(d));
    let s17 = s16 + a17;
    lemma_group(s14, a15, a16, a17, none, none, none, none);
    let a18 = listed(catalog::init_array_section(d));
    lemma_extended(s17, catalog::init_array_section(d));
    let s18 = s17 + a18;
    let a19 = listed(catalog::fini_array_section(d));
    lemma_extended(s18, catalog::fini_array_section(d));
    let s19 = s18 + a19;
    let a20 = listed(catalog::dynamic_section(d));
    lemma_extended(s19, catalog::dynamic_section(d));
    let s20 = s19 + a20;
    let a21 = listed(catalog::got_plt_section(d));
    lemma_extended(s20, catalog::got_plt_section(d));
    let s21 = s20 + a21;
    let a22 = listed(catalog::data_section(d));
    lemma_extended(s21, catalog::data_section(d));
    let s22 = s21 + a22;
    let a23 = listed(catalog::bss_section(d));
    lemma_extended(s22, catalog::bss_section(d));
    let s23 = s22 + a23;
    lemma_group(s17, a18, a19, a20, a21, a22, a23, none);
}

/// A rebuild is possible when all addresses and sizes that it computes fit in 64
/// bits: that of the dynamic symbol table, the start of the linkage table and of the
/// code behind it, and the end of its slots.
pub proof fn law_addresses_that_fit(d: DynImage)
    ensures
        catalog::addresses_fit(d) <==> {
            &&& d.table.contains_key(6) ==> d.symcount * symbol_size(d) <= u64::MAX
            &&& d.table.contains_key(23) ==> value(d, 23) + value(d, 2) + 15 <= u64::MAX
            &&& code(d) != 0 ==> code(d) + 0x40 <= u64::MAX
            &&& d.table.contains_key(3) && value(d, 2) > 0 ==> slots_end(d) <= u64::MAX
        },
{
    let n = value(d, 2) as int;
    let j = jump_size(d);
    let w = elf::word(d.l);
    assert(catalog::syment(d) == symbol_size(d));
    assert(catalog::plt_rel_ent(d) == j);
    assert(n == dynamic::dyn_or_zero(d.table, dynamic::DT_PLTRELSZ));
    assert(n / j >= 0) by (nonlinear_arith)
        requires
            n >= 0,
            j > 0,
    ;
    assert((3 + n / j) * w > 0) by (nonlinear_arith)
        requires
            n / j >= 0,
            w > 0,
    ;
    assert(catalog::got_sized(d) ==> catalog::got_size(d) == slots_size(d));
    if d.table.contains_key(23) {
        let m = value(d, 23) + n;
        assert((m + 15) / 16 * 16 == next_16(m));
        assert(catalog::text_seed(d) == code(d));
    }
}

/// Whether `s` is an allocated section with `v` in its address range.
pub open spec fn is_around(s: Section, v: u64) -> bool {
    s.flags / 2 % 2 == 1 && s.addr <= v && v < s.addr + s.size
}

/// A value lies in the first allocated section with it in its address range.
pub proof fn law_values_lie_in_the_first_section_around_them(secs: Seq<Section>, v: u64, i: int)
    ensures
        0 <= i < secs.len() && is_around(secs[i], v) && (forall|j: int|
            0 <= j < i ==> !is_around(#[trigger] secs[j], v)) ==> sections::covering(v, secs, 0)
            == Some(i) && sections::covering_index(v, secs) == i as u16,
        (forall|j: int| 0 <= j < secs.len() ==> !is_around(#[trigger] secs[j], v))
            ==> sections::covering(v, secs, 0) is None && sections::covering_index(v, secs) == 0,
{
    sections::law_covering_is_first(v, secs, 0);
    assert forall|j: int| sections::covers(#[trigger] secs[j], v) == is_around(secs[j], v) by {
        let f = secs[j].flags;
        assert((f & 2 != 0) == (f / 2 % 2 == 1)) by (bit_vector);
    }
}

/// The size pass gives section `i` of those in address order the room that it has:
/// up to the next section, or, behind the last, up to the end of the mapped span if
/// it takes no room in the file (type 8), and of the file-backed part of that span if
/// it does. A section whose size is not known takes all of its room, and one whose
/// size is known takes no more. A section that has no room keeps the size it had.
pub proof fn law_sections_take_their_room(
    body: Seq<Section>,
    load_file_end: u64,
    max_vaddr: u64,
    i: int,
)
    requires
        0 <= i < body.len(),
    ensures
        ({
            let after = sections::resize_all(body, load_file_end, max_vaddr);
            let s = body[i];
            let end = if i + 1 < body.len() {
                body[i + 1].addr
            } else if s.typ == 8 {
                max_vaddr
            } else {
                load_file_end
            };
            let room = end - s.addr;
            &&& after.len() == body.len()
            &&& after[i] == (Section { size: after[i].size, ..s })
            &&& room > 0 && !s.has_size ==> after[i].size == room
            &&& room > 0 && s.has_size ==> after[i].size == if s.size > room {
                room
            } else {
                s.size as int
            }
            &&& room <= 0 ==> after[i].size == s.size
        }),
{
}

/// The sections of the image in a rebuilt file are those that the dynamic table
/// implies, in the order of their addresses, those at one address in the order of the
/// list, each with the room that it has. In front of them stands a section of zeros.
pub proof fn law_image_sections_are_laid_out(image: Seq<u8>) -> (sorted: Seq<Section>)
    ensures
        ({
            let d = rebuild::dyn_image(image);
            let list = catalog::section_list(d);
            let secs = rebuild::alloc_sections(image);
            &&& sorted.len() == list.len() == secs.len() - 1
            &&& forall|s: Section| #[trigger] sorted.contains(s) <==> list.contains(s)
            &&& forall|i: int, j: int|
                0 <= i <= j < sorted.len() ==> (#[trigger] sorted[i]).addr <= (
                #[trigger] sorted[j]).addr
            &&& forall|a: u64| #[trigger] sections::at_addr(sorted, a) == sections::at_addr(list, a)
            &&& secs[0] == section(Seq::empty(), 0, 0, 0, 0, Seq::empty(), 0, 0, 0)
            &&& forall|i: int|
                0 <= i < sorted.len() ==> {
                    let s = #[trigger] sorted[i];
                    let t = secs[i + 1];
                    let end = if i + 1 < sorted.len() {
                        sorted[i + 1].addr
                    } else if s.typ == 8 {
                        d.max_vaddr
                    } else {
                        d.load_file_end
                    };
                    let room = end - s.addr;
                    &&& t == (Section { size: t.size, ..s })
                    &&& room > 0 && !s.has_size ==> t.size == room
                    &&& room > 0 && s.has_size ==> t.size == if s.size > room {
                        room
                    } else {
                        s.size as int
                    }
                    &&& room <= 0 ==> t.size == s.size
                }
        }),
{
    let d = rebuild::dyn_image(image);
    let list = catalog::section_list(d);
    let sorted = sections::sort_by_addr(list);
    let body = sections::resize_all(sorted, d.load_file_end, d.max_vaddr);
    let secs = rebuild::alloc_sections(image);
    sections::law_sort_orders_by_address(list);
    assert forall|s: Section| #[trigger] sorted.contains(s) <==> list.contains(s) by {
        sections::law_sort_keeps_sections(list, s);
    }
    assert forall|a: u64| #[trigger] sections::at_addr(sorted, a) == sections::at_addr(list, a) by {
        sections::law_sort_is_stable(list, a);
    }
    assert forall|i: int| 0 <= i < sorted.len() implies secs[i + 1] == #[trigger] body[i] by {}
    assert forall|i: int| 0 <= i < sorted.len() implies {
        let s = #[trigger] sorted[i];
        let t = secs[i + 1];
        let end = if i + 1 < sorted.len() {
            sorted[i + 1].addr
        } else if s.typ == 8 {
            d.max_vaddr
        } else {
            d.load_file_end
        };
        let room = end - s.addr;
        &&& t == (Section { size: t.size, ..s })
        &&& room > 0 && !s.has_size ==> t.size == room
        &&& room > 0 && s.has_size ==> t.size == if s.size > room {
            room
        } else {
            s.size as int
        }
        &&& room <= 0 ==> t.size == s.size
    } by {
        law_sections_take_their_room(sorted, d.load_file_end, d.max_vaddr, i);
        assert(secs[i + 1] == body[i]);
    }
    sorted
}

} // verus!
