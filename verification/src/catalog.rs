//! The sections that a dynamic table implies.
use crate::dynamic;
use crate::dynamic::{count_local_syms, get_tag, get_tag_or_zero};
use crate::dynamic::{
    DT_ANDROID_REL, DT_ANDROID_RELA, DT_ANDROID_RELASZ, DT_ANDROID_RELR, DT_ANDROID_RELRSZ,
    DT_ANDROID_RELSZ, DT_FINI_ARRAY, DT_FINI_ARRAYSZ, DT_GNU_HASH, DT_HASH, DT_INIT, DT_INIT_ARRAY,
    DT_INIT_ARRAYSZ, DT_JMPREL, DT_PLTGOT, DT_PLTREL, DT_PLTRELSZ, DT_RELR, DT_REL, DT_RELA,
    DT_RELASZ, DT_RELRSZ, DT_RELSZ, DT_STRSZ, DT_STRTAB, DT_SYMENT, DT_SYMTAB, DT_VERDEF,
    DT_VERDEFNUM, DT_VERNEED, DT_VERNEEDNUM, DT_VERSYM,
};
use crate::layout::ElfLayout;
use crate::sections;
use crate::sections::{SecDesc, Section};
use crate::sections::{
    SHF_ALLOC, SHF_EXEC, SHF_INFO_LINK, SHF_WRITE, SHT_ANDROID_REL, SHT_ANDROID_RELA,
    SHT_ANDROID_RELR, SHT_DYNAMIC, SHT_DYNSYM, SHT_FINI_ARRAY, SHT_GNU_HASH, SHT_GNU_VERDEF,
    SHT_GNU_VERNEED, SHT_GNU_VERSYM, SHT_HASH, SHT_INIT_ARRAY, SHT_NOBITS, SHT_PROGBITS, SHT_REL,
    SHT_RELA, SHT_RELR, SHT_STRTAB,
};
use std::collections::HashMap;
use vstd::prelude::*;

verus! {

/// What the section list is derived from: an image with normalized program
/// headers, its dynamic segment and table, its dynamic symbol count, and the
/// ends of its mapped span and of the file-backed part of that span.
pub struct DynImage {
    pub l: ElfLayout,
    pub data: Seq<u8>,
    pub table: Map<i64, u64>,
    pub dyn_addr: u64,
    pub dyn_size: u64,
    pub symcount: int,
    pub max_vaddr: u64,
    pub load_file_end: u64,
}

/// Whether the PLT relocations carry addends: DT_PLTREL says, and without it
/// the class decides.
pub open spec fn plt_is_rela(d: DynImage) -> bool {
    if d.table.contains_key(DT_PLTREL) {
        d.table[DT_PLTREL] == DT_RELA
    } else {
        d.l.is64
    }
}

pub open spec fn rela_ent(l: ElfLayout) -> u64 {
    if l.is64 {
        24
    } else {
        12
    }
}

pub open spec fn rel_ent(l: ElfLayout) -> u64 {
    if l.is64 {
        16
    } else {
        8
    }
}

pub open spec fn plt_rel_ent(d: DynImage) -> u64 {
    if plt_is_rela(d) {
        rela_ent(d.l)
    } else {
        rel_ent(d.l)
    }
}

/// `DT_SYMENT`, or the class's symbol size when that is absent or 0.
pub open spec fn syment(d: DynImage) -> u64 {
    let e = dynamic::dyn_or_zero(d.table, DT_SYMENT);
    if e == 0 {
        d.l.sym_size() as u64
    } else {
        e
    }
}

/// Start of `.plt`: the first multiple of 16 past the PLT relocations.
pub open spec fn plt_addr(d: DynImage) -> int {
    (d.table[DT_JMPREL] + dynamic::dyn_or_zero(d.table, DT_PLTRELSZ) + 15) / 16 * 16
}

/// What `.text` is seeded from: the start of `.plt`, else `DT_INIT`, else 0.
pub open spec fn text_seed(d: DynImage) -> int {
    if d.table.contains_key(DT_JMPREL) {
        plt_addr(d)
    } else {
        dynamic::dyn_or_zero(d.table, DT_INIT) as int
    }
}

/// Size of `.got.plt`: 3 reserved slots and one slot per PLT relocation.
pub open spec fn got_size(d: DynImage) -> int {
    (3 + dynamic::dyn_or_zero(d.table, DT_PLTRELSZ) / plt_rel_ent(d)) * d.l.word()
}

/// Whether the size of `.got.plt` is known.
pub open spec fn got_sized(d: DynImage) -> bool {
    d.table.contains_key(DT_PLTGOT) && dynamic::dyn_or_zero(d.table, DT_PLTRELSZ) > 0
}

/// End of `.got.plt`, 0 when that is not known.
pub open spec fn got_plt_end(d: DynImage) -> int {
    if got_sized(d) {
        d.table[DT_PLTGOT] + got_size(d)
    } else {
        0
    }
}

/// Whether every address and size of the section list fits in 64 bits.
pub open spec fn addresses_fit(d: DynImage) -> bool {
    &&& d.table.contains_key(DT_SYMTAB) ==> d.symcount * syment(d) <= u64::MAX
    &&& d.table.contains_key(DT_JMPREL) ==> d.table[DT_JMPREL] + dynamic::dyn_or_zero(
        d.table,
        DT_PLTRELSZ,
    ) + 15 <= u64::MAX
    &&& text_seed(d) != 0 ==> text_seed(d) + 0x40 <= u64::MAX
    &&& got_sized(d) ==> got_size(d) <= u64::MAX && got_plt_end(d) <= u64::MAX
}

/// `.gnu.hash`.
pub open spec fn gnu_hash_section(d: DynImage) -> Option<Section> {
    if d.table.contains_key(DT_GNU_HASH) {
        Some(
            Section {
                link_name: ".dynsym"@,
                ..sections::plain_section(
                    ".gnu.hash"@,
                    SHT_GNU_HASH,
                    SHF_ALLOC,
                    d.table[DT_GNU_HASH],
                    d.l.word(),
                )
            },
        )
    } else {
        None
    }
}

/// `.hash`.
pub open spec fn hash_section(d: DynImage) -> Option<Section> {
    if d.table.contains_key(DT_HASH) {
        Some(
            Section {
                link_name: ".dynsym"@,
                entsize: 4,
                ..sections::plain_section(
                    ".hash"@,
                    SHT_HASH,
                    SHF_ALLOC,
                    d.table[DT_HASH],
                    d.l.word(),
                )
            },
        )
    } else {
        None
    }
}

/// `.dynsym`.
pub open spec fn dynsym_section(d: DynImage) -> Option<Section> {
    if d.table.contains_key(DT_SYMTAB) {
        let sym = d.table[DT_SYMTAB];
        Some(
            sections::with_size(
                Section {
                    link_name: ".dynstr"@,
                    entsize: syment(d),
                    info: dynamic::local_syms(
                        d.l,
                        d.data,
                        sym as int,
                        d.symcount as nat,
                    ) as u32,
                    ..sections::plain_section(".dynsym"@, SHT_DYNSYM, SHF_ALLOC, sym, d.l.word())
                },
                (d.symcount * syment(d)) as u64,
            ),
        )
    } else {
        None
    }
}

/// `.dynstr`.
pub open spec fn dynstr_section(d: DynImage) -> Option<Section> {
    if d.table.contains_key(DT_STRTAB) {
        Some(
            sections::with_size(
                sections::plain_section(
                    ".dynstr"@,
                    SHT_STRTAB,
                    SHF_ALLOC,
                    d.table[DT_STRTAB],
                    1,
                ),
                dynamic::dyn_or_zero(d.table, DT_STRSZ),
            ),
        )
    } else {
        None
    }
}

/// `.gnu.version`.
pub open spec fn versym_section(d: DynImage) -> Option<Section> {
    if d.table.contains_key(DT_VERSYM) {
        Some(
            sections::with_size(
                Section {
                    link_name: ".dynsym"@,
                    entsize: 2,
                    ..sections::plain_section(
                        ".gnu.version"@,
                        SHT_GNU_VERSYM,
                        SHF_ALLOC,
                        d.table[DT_VERSYM],
                        2,
                    )
                },
                (d.symcount * 2) as u64,
            ),
        )
    } else {
        None
    }
}

/// `.gnu.version_d`.
pub open spec fn verdef_section(d: DynImage) -> Option<Section> {
    if d.table.contains_key(DT_VERDEF) {
        Some(
            Section {
                link_name: ".dynstr"@,
                info: dynamic::dyn_or_zero(d.table, DT_VERDEFNUM) as u32,
                ..sections::plain_section(
                    ".gnu.version_d"@,
                    SHT_GNU_VERDEF,
                    SHF_ALLOC,
                    d.table[DT_VERDEF],
                    d.l.word(),
                )
            },
        )
    } else {
        None
    }
}

/// `.gnu.version_r`.
pub open spec fn verneed_section(d: DynImage) -> Option<Section> {
    if d.table.contains_key(DT_VERNEED) {
        Some(
            Section {
                link_name: ".dynstr"@,
                info: dynamic::dyn_or_zero(d.table, DT_VERNEEDNUM) as u32,
                ..sections::plain_section(
                    ".gnu.version_r"@,
                    SHT_GNU_VERNEED,
                    SHF_ALLOC,
                    d.table[DT_VERNEED],
                    d.l.word(),
                )
            },
        )
    } else {
        None
    }
}

/// `.rela.dyn`.
pub open spec fn rela_section(d: DynImage) -> Option<Section> {
    if d.table.contains_key(DT_RELA) {
        Some(
            sections::with_size(
                Section {
                    link_name: ".dynsym"@,
                    entsize: rela_ent(d.l),
                    ..sections::plain_section(
                        ".rela.dyn"@,
                        SHT_RELA,
                        SHF_ALLOC,
                        d.table[DT_RELA],
                        d.l.word(),
                    )
                },
                dynamic::dyn_or_zero(d.table, DT_RELASZ),
            ),
        )
    } else {
        None
    }
}

/// `.rel.dyn`.
pub open spec fn rel_section(d: DynImage) -> Option<Section> {
    if d.table.contains_key(DT_REL) {
        Some(
            sections::with_size(
                Section {
                    link_name: ".dynsym"@,
                    entsize: rel_ent(d.l),
                    ..sections::plain_section(
                        ".rel.dyn"@,
                        SHT_REL,
                        SHF_ALLOC,
                        d.table[DT_REL],
                        d.l.word(),
                    )
                },
                dynamic::dyn_or_zero(d.table, DT_RELSZ),
            ),
        )
    } else {
        None
    }
}

/// `.relr.dyn`.
pub open spec fn relr_section(d: DynImage) -> Option<Section> {
    if d.table.contains_key(DT_RELR) {
        Some(
            sections::with_size(
                Section {
                    entsize: d.l.word(),
                    ..sections::plain_section(
                        ".relr.dyn"@,
                        SHT_RELR,
                        SHF_ALLOC,
                        d.table[DT_RELR],
                        d.l.word(),
                    )
                },
                dynamic::dyn_or_zero(d.table, DT_RELRSZ),
            ),
        )
    } else {
        None
    }
}

/// `.rela.dyn` of Android packed relocations.
pub open spec fn android_rela_section(d: DynImage) -> Option<Section> {
    if d.table.contains_key(DT_ANDROID_RELA) {
        Some(
            sections::with_size(
                Section {
                    link_name: ".dynsym"@,
                    ..sections::plain_section(
                        ".rela.dyn"@,
                        SHT_ANDROID_RELA,
                        SHF_ALLOC,
                        d.table[DT_ANDROID_RELA],
                        d.l.word(),
                    )
                },
                dynamic::dyn_or_zero(d.table, DT_ANDROID_RELASZ),
            ),
        )
    } else {
        None
    }
}

/// `.rel.dyn` of Android packed relocations.
pub open spec fn android_rel_section(d: DynImage) -> Option<Section> {
    if d.table.contains_key(DT_ANDROID_REL) {
        Some(
            sections::with_size(
                Section {
                    link_name: ".dynsym"@,
                    ..sections::plain_section(
                        ".rel.dyn"@,
                        SHT_ANDROID_REL,
                        SHF_ALLOC,
                        d.table[DT_ANDROID_REL],
                        d.l.word(),
                    )
                },
                dynamic::dyn_or_zero(d.table, DT_ANDROID_RELSZ),
            ),
        )
    } else {
        None
    }
}

/// `.relr.dyn` of Android packed relocations.
pub open spec fn android_relr_section(d: DynImage) -> Option<Section> {
    if d.table.contains_key(DT_ANDROID_RELR) {
        Some(
            sections::with_size(
                Section {
                    entsize: d.l.word(),
                    ..sections::plain_section(
                        ".relr.dyn"@,
                        SHT_ANDROID_RELR,
                        SHF_ALLOC,
                        d.table[DT_ANDROID_RELR],
                        d.l.word(),
                    )
                },
                dynamic::dyn_or_zero(d.table, DT_ANDROID_RELRSZ),
            ),
        )
    } else {
        None
    }
}

/// `.rela.plt` or `.rel.plt`, the JMPREL table.
pub open spec fn plt_rel_section(d: DynImage) -> Option<Section> {
    if d.table.contains_key(DT_JMPREL) {
        Some(
            sections::with_size(
                Section {
                    link_name: ".dynsym"@,
                    info_name: ".got.plt"@,
                    entsize: plt_rel_ent(d),
                    ..sections::plain_section(
                        if plt_is_rela(d) {
                            ".rela.plt"@
                        } else {
                            ".rel.plt"@
                        },
                        if plt_is_rela(d) {
                            SHT_RELA
                        } else {
                            SHT_REL
                        },
                        SHF_ALLOC | SHF_INFO_LINK,
                        d.table[DT_JMPREL],
                        d.l.word(),
                    )
                },
                dynamic::dyn_or_zero(d.table, DT_PLTRELSZ),
            ),
        )
    } else {
        None
    }
}

/// `.init`.
pub open spec fn init_section(d: DynImage) -> Option<Section> {
    if d.table.contains_key(DT_INIT) {
        Some(
            sections::plain_section(
                ".init"@,
                SHT_PROGBITS,
                SHF_ALLOC | SHF_EXEC,
                d.table[DT_INIT],
                4,
            ),
        )
    } else {
        None
    }
}

/// `.plt`, right after the JMPREL table.
pub open spec fn plt_section(d: DynImage) -> Option<Section> {
    if d.table.contains_key(DT_JMPREL) {
        Some(
            Section {
                entsize: 16,
                ..sections::plain_section(
                    ".plt"@,
                    SHT_PROGBITS,
                    SHF_ALLOC | SHF_EXEC,
                    plt_addr(d) as u64,
                    16,
                )
            },
        )
    } else {
        None
    }
}

/// `.text`, seeded just past `.plt` or `.init`.
pub open spec fn text_section(d: DynImage) -> Option<Section> {
    if text_seed(d) != 0 {
        Some(
            sections::plain_section(
                ".text"@,
                SHT_PROGBITS,
                SHF_ALLOC | SHF_EXEC,
                (text_seed(d) + 0x40) as u64,
                d.l.word(),
            ),
        )
    } else {
        None
    }
}

/// `.init_array`.
pub open spec fn init_array_section(d: DynImage) -> Option<Section> {
    if d.table.contains_key(DT_INIT_ARRAY) {
        Some(
            sections::with_size(
                Section {
                    entsize: d.l.word(),
                    ..sections::plain_section(
                        ".init_array"@,
                        SHT_INIT_ARRAY,
                        SHF_WRITE | SHF_ALLOC,
                        d.table[DT_INIT_ARRAY],
                        d.l.word(),
                    )
                },
                dynamic::dyn_or_zero(d.table, DT_INIT_ARRAYSZ),
            ),
        )
    } else {
        None
    }
}

/// `.fini_array`.
pub open spec fn fini_array_section(d: DynImage) -> Option<Section> {
    if d.table.contains_key(DT_FINI_ARRAY) {
        Some(
            sections::with_size(
                Section {
                    entsize: d.l.word(),
                    ..sections::plain_section(
                        ".fini_array"@,
                        SHT_FINI_ARRAY,
                        SHF_WRITE | SHF_ALLOC,
                        d.table[DT_FINI_ARRAY],
                        d.l.word(),
                    )
                },
                dynamic::dyn_or_zero(d.table, DT_FINI_ARRAYSZ),
            ),
        )
    } else {
        None
    }
}

/// `.dynamic`.
pub open spec fn dynamic_section(d: DynImage) -> Option<Section> {
    Some(
        Section {
            size: d.dyn_size,
            has_size: true,
            link_name: ".dynstr"@,
            entsize: d.l.dyn_size() as u64,
            ..sections::plain_section(
                ".dynamic"@,
                SHT_DYNAMIC,
                SHF_WRITE | SHF_ALLOC,
                d.dyn_addr,
                d.l.word(),
            )
        },
    )
}

/// `.got.plt`.
pub open spec fn got_plt_section(d: DynImage) -> Option<Section> {
    if d.table.contains_key(DT_PLTGOT) {
        Some(
            sections::with_size(
                Section {
                    entsize: d.l.word(),
                    ..sections::plain_section(
                        ".got.plt"@,
                        SHT_PROGBITS,
                        SHF_WRITE | SHF_ALLOC,
                        d.table[DT_PLTGOT],
                        d.l.word(),
                    )
                },
                if got_sized(d) {
                    got_size(d) as u64
                } else {
                    0
                },
            ),
        )
    } else {
        None
    }
}

/// `.data`, from the end of `.got.plt` up to the file-backed load end.
pub open spec fn data_section(d: DynImage) -> Option<Section> {
    if 0 < got_plt_end(d) < d.load_file_end {
        Some(
            sections::plain_section(
                ".data"@,
                SHT_PROGBITS,
                SHF_WRITE | SHF_ALLOC,
                got_plt_end(d) as u64,
                d.l.word(),
            ),
        )
    } else {
        None
    }
}

/// `.bss`, the memsz-beyond-filesz tail.
pub open spec fn bss_section(d: DynImage) -> Option<Section> {
    if d.max_vaddr > d.load_file_end {
        Some(
            Section {
                size: (d.max_vaddr - d.load_file_end) as u64,
                has_size: true,
                ..sections::plain_section(
                    ".bss"@,
                    SHT_NOBITS,
                    SHF_WRITE | SHF_ALLOC,
                    d.load_file_end,
                    d.l.word(),
                )
            },
        )
    } else {
        None
    }
}

/// `secs` extended by `s`, when there is one.
#[verifier::opaque]
pub open spec fn extended(secs: Seq<Section>, s: Option<Section>) -> Seq<Section> {
    match s {
        Some(v) => secs.push(v),
        None => secs,
    }
}

/// The allocated sections, before they are put in address order.
pub open spec fn section_list(d: DynImage) -> Seq<Section> {
    let s = Seq::<Section>::empty();
    let s = extended(s, gnu_hash_section(d));
    let s = extended(s, hash_section(d));
    let s = extended(s, dynsym_section(d));
    let s = extended(s, dynstr_section(d));
    let s = extended(s, versym_section(d));
    let s = extended(s, verdef_section(d));
    let s = extended(s, verneed_section(d));
    let s = extended(s, rela_section(d));
    let s = extended(s, rel_section(d));
    let s = extended(s, relr_section(d));
    let s = extended(s, android_rela_section(d));
    let s = extended(s, android_rel_section(d));
    let s = extended(s, android_relr_section(d));
    let s = extended(s, plt_rel_section(d));
    let s = extended(s, init_section(d));
    let s = extended(s, plt_section(d));
    let s = extended(s, text_section(d));
    let s = extended(s, init_array_section(d));
    let s = extended(s, fini_array_section(d));
    let s = extended(s, dynamic_section(d));
    let s = extended(s, got_plt_section(d));
    let s = extended(s, data_section(d));
    let s = extended(s, bss_section(d));
    s
}

/// Executable counterpart of [`DynImage`].
pub struct DynInfo {
    pub l: ElfLayout,
    pub data: Vec<u8>,
    pub table: HashMap<i64, u64>,
    pub dyn_addr: u64,
    pub dyn_size: u64,
    pub symcount: u64,
    pub max_vaddr: u64,
    pub load_file_end: u64,
}

impl View for DynInfo {
    type V = DynImage;

    open spec fn view(&self) -> DynImage {
        DynImage {
            l: self.l,
            data: self.data@,
            table: self.table@,
            dyn_addr: self.dyn_addr,
            dyn_size: self.dyn_size,
            symcount: self.symcount as int,
            max_vaddr: self.max_vaddr,
            load_file_end: self.load_file_end,
        }
    }
}

/// The first multiple of 16 that is not below `start + len`.
fn align16(start: u64, len: u64) -> (r: u64)
    requires
        start + len + 15 <= u64::MAX,
    ensures
        r == (start + len + 15) / 16 * 16,
{
    (start + len + 15) / 16 * 16
}

/// The section that an optional description stands for.
pub open spec fn option_view(s: Option<SecDesc>) -> Option<Section> {
    match s {
        Some(d) => Some(d@),
        None => None,
    }
}

fn push_section(secs: &mut Vec<SecDesc>, s: Option<SecDesc>)
    ensures
        sections::section_views(final(secs)@) == extended(
            sections::section_views(old(secs)@),
            option_view(s),
        ),
{
    proof {
        reveal(extended);
    }
    match s {
        Some(d) => {
            secs.push(d);
            assert(sections::section_views(secs@) =~= sections::section_views(old(secs)@).push(d@));
        },
        None => {},
    }
}

impl ElfLayout {
    /// Size of a relocation entry with addend.
    pub fn rela_size(self) -> (r: u64)
        ensures
            r == rela_ent(self),
    {
        if self.is64 {
            24
        } else {
            12
        }
    }

    /// Size of a relocation entry without addend.
    pub fn rel_size(self) -> (r: u64)
        ensures
            r == rel_ent(self),
    {
        if self.is64 {
            16
        } else {
            8
        }
    }
}

impl DynInfo {
    fn is_plt_rela(&self) -> (r: bool)
        ensures
            r == plt_is_rela(self@),
    {
        match get_tag(&self.table, DT_PLTREL) {
            Some(pr) => pr == DT_RELA as u64,
            None => self.l.is64,
        }
    }

    fn plt_rel_size(&self) -> (r: u64)
        ensures
            r == plt_rel_ent(self@),
            r >= 8,
    {
        if self.is_plt_rela() {
            self.l.rela_size()
        } else {
            self.l.rel_size()
        }
    }

    /// Size of `.got.plt`, 0 when it is not known.
    fn got_bytes(&self) -> (r: u64)
        requires
            addresses_fit(self@),
        ensures
            r == (if got_sized(self@) {
                got_size(self@)
            } else {
                0
            }),
            got_sized(self@) ==> r > 0,
    {
        let pltrelsz: u64 = get_tag_or_zero(&self.table, DT_PLTRELSZ);
        let got: Option<u64> = get_tag(&self.table, DT_PLTGOT);
        if got.is_none() || pltrelsz == 0 {
            return 0;
        }
        let ent: u64 = self.plt_rel_size();
        let slots: u64 = pltrelsz / ent;
        let word: u64 = self.l.word();
        assert(slots <= pltrelsz / 8) by (nonlinear_arith)
            requires
                slots == pltrelsz / ent,
                ent >= 8,
        ;
        assert((3 + slots) * word > 0) by (nonlinear_arith)
            requires
                slots >= 0,
                word > 0,
        ;
        (3 + slots) * word
    }

    /// Whether every address and size of the section list fits in 64 bits.
    pub fn fits(&self) -> (r: bool)
        ensures
            r == addresses_fit(self@),
    {
        let pltrelsz: u64 = get_tag_or_zero(&self.table, DT_PLTRELSZ);
        if get_tag(&self.table, DT_SYMTAB).is_some() {
            let mut ent: u64 = get_tag_or_zero(&self.table, DT_SYMENT);
            if ent == 0 {
                ent = self.l.sym_size() as u64;
            }
            if self.symcount.checked_mul(ent).is_none() {
                return false;
            }
        }
        let mut seed: u64 = get_tag_or_zero(&self.table, DT_INIT);
        if let Some(jmp) = get_tag(&self.table, DT_JMPREL) {
            let end: u64 = match jmp.checked_add(pltrelsz) {
                Some(v) => v,
                None => {
                    return false;
                },
            };
            if end > u64::MAX - 15 {
                return false;
            }
            seed = align16(jmp, pltrelsz);
        }
        if seed > u64::MAX - 0x40 {
            return false;
        }
        if let Some(got) = get_tag(&self.table, DT_PLTGOT) {
            if pltrelsz > 0 {
                let ent: u64 = self.plt_rel_size();
                let slots: u64 = pltrelsz / ent;
                assert(slots <= pltrelsz / 8) by (nonlinear_arith)
                    requires
                        slots == pltrelsz / ent,
                        ent >= 8,
                ;
                let size: u64 = match (3 + slots).checked_mul(self.l.word()) {
                    Some(v) => v,
                    None => {
                        return false;
                    },
                };
                if got.checked_add(size).is_none() {
                    return false;
                }
            }
        }
        true
    }

    fn gnu_hash(&self) -> (r: Option<SecDesc>)
        ensures
            option_view(r) == gnu_hash_section(self@),
    {
        let addr: u64 = match get_tag(&self.table, DT_GNU_HASH) {
            Some(v) => v,
            None => {
                return None;
            },
        };
        let mut s = SecDesc::new(".gnu.hash", SHT_GNU_HASH, SHF_ALLOC, addr, self.l.word());
        s.link_name = ".dynsym".to_string();
        Some(s)
    }

    fn hash(&self) -> (r: Option<SecDesc>)
        ensures
            option_view(r) == hash_section(self@),
    {
        let addr: u64 = match get_tag(&self.table, DT_HASH) {
            Some(v) => v,
            None => {
                return None;
            },
        };
        let mut s = SecDesc::new(".hash", SHT_HASH, SHF_ALLOC, addr, self.l.word());
        s.link_name = ".dynsym".to_string();
        s.entsize = 4;
        Some(s)
    }

    fn dynsym(&self) -> (r: Option<SecDesc>)
        requires
            addresses_fit(self@),
        ensures
            option_view(r) == dynsym_section(self@),
    {
        let sym: u64 = match get_tag(&self.table, DT_SYMTAB) {
            Some(v) => v,
            None => {
                return None;
            },
        };
        let mut ent: u64 = get_tag_or_zero(&self.table, DT_SYMENT);
        if ent == 0 {
            ent = self.l.sym_size() as u64;
        }
        let mut s = SecDesc::new(".dynsym", SHT_DYNSYM, SHF_ALLOC, sym, self.l.word());
        s.link_name = ".dynstr".to_string();
        s.entsize = ent;
        s.info = count_local_syms(self.l, self.data.as_slice(), sym, self.symcount) as u32;
        assert(self.symcount * ent >= 0) by (nonlinear_arith)
            requires
                self.symcount >= 0,
                ent >= 0,
        ;
        s.sized(self.symcount * ent);
        Some(s)
    }

    fn dynstr(&self) -> (r: Option<SecDesc>)
        ensures
            option_view(r) == dynstr_section(self@),
    {
        let addr: u64 = match get_tag(&self.table, DT_STRTAB) {
            Some(v) => v,
            None => {
                return None;
            },
        };
        let mut s = SecDesc::new(".dynstr", SHT_STRTAB, SHF_ALLOC, addr, 1);
        s.sized(get_tag_or_zero(&self.table, DT_STRSZ));
        Some(s)
    }

    fn versym(&self) -> (r: Option<SecDesc>)
        requires
            self.symcount <= u64::MAX / 2,
        ensures
            option_view(r) == versym_section(self@),
    {
        let addr: u64 = match get_tag(&self.table, DT_VERSYM) {
            Some(v) => v,
            None => {
                return None;
            },
        };
        let mut s = SecDesc::new(".gnu.version", SHT_GNU_VERSYM, SHF_ALLOC, addr, 2);
        s.link_name = ".dynsym".to_string();
        s.entsize = 2;
        s.sized(self.symcount * 2);
        Some(s)
    }

    fn verdef(&self) -> (r: Option<SecDesc>)
        ensures
            option_view(r) == verdef_section(self@),
    {
        let addr: u64 = match get_tag(&self.table, DT_VERDEF) {
            Some(v) => v,
            None => {
                return None;
            },
        };
        let mut s = SecDesc::new(".gnu.version_d", SHT_GNU_VERDEF, SHF_ALLOC, addr, self.l.word());
        s.link_name = ".dynstr".to_string();
        s.info = get_tag_or_zero(&self.table, DT_VERDEFNUM) as u32;
        Some(s)
    }

    fn verneed(&self) -> (r: Option<SecDesc>)
        ensures
            option_view(r) == verneed_section(self@),
    {
        let addr: u64 = match get_tag(&self.table, DT_VERNEED) {
            Some(v) => v,
            None => {
                return None;
            },
        };
        let mut s = SecDesc::new(".gnu.version_r", SHT_GNU_VERNEED, SHF_ALLOC, addr, self.l.word());
        s.link_name = ".dynstr".to_string();
        s.info = get_tag_or_zero(&self.table, DT_VERNEEDNUM) as u32;
        Some(s)
    }

    fn rela(&self) -> (r: Option<SecDesc>)
        ensures
            option_view(r) == rela_section(self@),
    {
        let addr: u64 = match get_tag(&self.table, DT_RELA) {
            Some(v) => v,
            None => {
                return None;
            },
        };
        let mut s = SecDesc::new(".rela.dyn", SHT_RELA, SHF_ALLOC, addr, self.l.word());
        s.link_name = ".dynsym".to_string();
        s.entsize = self.l.rela_size();
        s.sized(get_tag_or_zero(&self.table, DT_RELASZ));
        Some(s)
    }

    fn rel(&self) -> (r: Option<SecDesc>)
        ensures
            option_view(r) == rel_section(self@),
    {
        let addr: u64 = match get_tag(&self.table, DT_REL) {
            Some(v) => v,
            None => {
                return None;
            },
        };
        let mut s = SecDesc::new(".rel.dyn", SHT_REL, SHF_ALLOC, addr, self.l.word());
        s.link_name = ".dynsym".to_string();
        s.entsize = self.l.rel_size();
        s.sized(get_tag_or_zero(&self.table, DT_RELSZ));
        Some(s)
    }

    fn relr(&self) -> (r: Option<SecDesc>)
        ensures
            option_view(r) == relr_section(self@),
    {
        let addr: u64 = match get_tag(&self.table, DT_RELR) {
            Some(v) => v,
            None => {
                return None;
            },
        };
        let mut s = SecDesc::new(".relr.dyn", SHT_RELR, SHF_ALLOC, addr, self.l.word());
        s.entsize = self.l.word();
        s.sized(get_tag_or_zero(&self.table, DT_RELRSZ));
        Some(s)
    }

    fn android_rela(&self) -> (r: Option<SecDesc>)
        ensures
            option_view(r) == android_rela_section(self@),
    {
        let addr: u64 = match get_tag(&self.table, DT_ANDROID_RELA) {
            Some(v) => v,
            None => {
                return None;
            },
        };
        let mut s = SecDesc::new(".rela.dyn", SHT_ANDROID_RELA, SHF_ALLOC, addr, self.l.word());
        s.link_name = ".dynsym".to_string();
        s.sized(get_tag_or_zero(&self.table, DT_ANDROID_RELASZ));
        Some(s)
    }

    fn android_rel(&self) -> (r: Option<SecDesc>)
        ensures
            option_view(r) == android_rel_section(self@),
    {
        let addr: u64 = match get_tag(&self.table, DT_ANDROID_REL) {
            Some(v) => v,
            None => {
                return None;
            },
        };
        let mut s = SecDesc::new(".rel.dyn", SHT_ANDROID_REL, SHF_ALLOC, addr, self.l.word());
        s.link_name = ".dynsym".to_string();
        s.sized(get_tag_or_zero(&self.table, DT_ANDROID_RELSZ));
        Some(s)
    }

    fn android_relr(&self) -> (r: Option<SecDesc>)
        ensures
            option_view(r) == android_relr_section(self@),
    {
        let addr: u64 = match get_tag(&self.table, DT_ANDROID_RELR) {
            Some(v) => v,
            None => {
                return None;
            },
        };
        let mut s = SecDesc::new(".relr.dyn", SHT_ANDROID_RELR, SHF_ALLOC, addr, self.l.word());
        s.entsize = self.l.word();
        s.sized(get_tag_or_zero(&self.table, DT_ANDROID_RELRSZ));
        Some(s)
    }

    fn plt_rel(&self) -> (r: Option<SecDesc>)
        ensures
            option_view(r) == plt_rel_section(self@),
    {
        let jmp: u64 = match get_tag(&self.table, DT_JMPREL) {
            Some(v) => v,
            None => {
                return None;
            },
        };
        let flags: u64 = SHF_ALLOC | SHF_INFO_LINK;
        let mut s = if self.is_plt_rela() {
            SecDesc::new(".rela.plt", SHT_RELA, flags, jmp, self.l.word())
        } else {
            SecDesc::new(".rel.plt", SHT_REL, flags, jmp, self.l.word())
        };
        s.link_name = ".dynsym".to_string();
        s.info_name = ".got.plt".to_string();
        s.entsize = self.plt_rel_size();
        s.sized(get_tag_or_zero(&self.table, DT_PLTRELSZ));
        Some(s)
    }

    fn init(&self) -> (r: Option<SecDesc>)
        ensures
            option_view(r) == init_section(self@),
    {
        let addr: u64 = match get_tag(&self.table, DT_INIT) {
            Some(v) => v,
            None => {
                return None;
            },
        };
        let s = SecDesc::new(".init", SHT_PROGBITS, SHF_ALLOC | SHF_EXEC, addr, 4);
        Some(s)
    }

    fn plt(&self) -> (r: Option<SecDesc>)
        requires
            addresses_fit(self@),
        ensures
            option_view(r) == plt_section(self@),
    {
        let jmp: u64 = match get_tag(&self.table, DT_JMPREL) {
            Some(v) => v,
            None => {
                return None;
            },
        };
        let addr: u64 = align16(jmp, get_tag_or_zero(&self.table, DT_PLTRELSZ));
        let mut s = SecDesc::new(".plt", SHT_PROGBITS, SHF_ALLOC | SHF_EXEC, addr, 16);
        s.entsize = 16;
        Some(s)
    }

    fn text(&self) -> (r: Option<SecDesc>)
        requires
            addresses_fit(self@),
        ensures
            option_view(r) == text_section(self@),
    {
        let seed: u64 = match get_tag(&self.table, DT_JMPREL) {
            Some(jmp) => align16(jmp, get_tag_or_zero(&self.table, DT_PLTRELSZ)),
            None => get_tag_or_zero(&self.table, DT_INIT),
        };
        if seed == 0 {
            return None;
        }
        let flags: u64 = SHF_ALLOC | SHF_EXEC;
        Some(SecDesc::new(".text", SHT_PROGBITS, flags, seed + 0x40, self.l.word()))
    }

    fn init_array(&self) -> (r: Option<SecDesc>)
        ensures
            option_view(r) == init_array_section(self@),
    {
        let addr: u64 = match get_tag(&self.table, DT_INIT_ARRAY) {
            Some(v) => v,
            None => {
                return None;
            },
        };
        let flags: u64 = SHF_WRITE | SHF_ALLOC;
        let mut s = SecDesc::new(".init_array", SHT_INIT_ARRAY, flags, addr, self.l.word());
        s.entsize = self.l.word();
        s.sized(get_tag_or_zero(&self.table, DT_INIT_ARRAYSZ));
        Some(s)
    }

    fn fini_array(&self) -> (r: Option<SecDesc>)
        ensures
            option_view(r) == fini_array_section(self@),
    {
        let addr: u64 = match get_tag(&self.table, DT_FINI_ARRAY) {
            Some(v) => v,
            None => {
                return None;
            },
        };
        let flags: u64 = SHF_WRITE | SHF_ALLOC;
        let mut s = SecDesc::new(".fini_array", SHT_FINI_ARRAY, flags, addr, self.l.word());
        s.entsize = self.l.word();
        s.sized(get_tag_or_zero(&self.table, DT_FINI_ARRAYSZ));
        Some(s)
    }

    fn dynamic(&self) -> (r: Option<SecDesc>)
        ensures
            option_view(r) == dynamic_section(self@),
    {
        let flags: u64 = SHF_WRITE | SHF_ALLOC;
        let mut s = SecDesc::new(".dynamic", SHT_DYNAMIC, flags, self.dyn_addr, self.l.word());
        s.size = self.dyn_size;
        s.has_size = true;
        s.link_name = ".dynstr".to_string();
        s.entsize = self.l.dyn_size() as u64;
        Some(s)
    }

    fn got_plt(&self) -> (r: Option<SecDesc>)
        requires
            addresses_fit(self@),
        ensures
            option_view(r) == got_plt_section(self@),
    {
        let got: u64 = match get_tag(&self.table, DT_PLTGOT) {
            Some(v) => v,
            None => {
                return None;
            },
        };
        let flags: u64 = SHF_WRITE | SHF_ALLOC;
        let mut s = SecDesc::new(".got.plt", SHT_PROGBITS, flags, got, self.l.word());
        s.entsize = self.l.word();
        s.sized(self.got_bytes());
        Some(s)
    }

    fn data(&self) -> (r: Option<SecDesc>)
        requires
            addresses_fit(self@),
        ensures
            option_view(r) == data_section(self@),
    {
        let got: u64 = match get_tag(&self.table, DT_PLTGOT) {
            Some(v) => v,
            None => {
                return None;
            },
        };
        let size: u64 = self.got_bytes();
        if size == 0 || got + size >= self.load_file_end {
            return None;
        }
        let flags: u64 = SHF_WRITE | SHF_ALLOC;
        Some(SecDesc::new(".data", SHT_PROGBITS, flags, got + size, self.l.word()))
    }

    fn bss(&self) -> (r: Option<SecDesc>)
        ensures
            option_view(r) == bss_section(self@),
    {
        if self.max_vaddr <= self.load_file_end {
            return None;
        }
        let flags: u64 = SHF_WRITE | SHF_ALLOC;
        let mut s = SecDesc::new(".bss", SHT_NOBITS, flags, self.load_file_end, self.l.word());
        s.size = self.max_vaddr - self.load_file_end;
        s.has_size = true;
        Some(s)
    }

    /// The allocated sections that the dynamic table implies, in table order.
    pub fn list_sections(&self) -> (r: Vec<SecDesc>)
        requires
            addresses_fit(self@),
            self.symcount <= u64::MAX / 2,
        ensures
            sections::section_views(r@) == section_list(self@),
    {
        let mut secs: Vec<SecDesc> = Vec::new();
        assert(sections::section_views(secs@) =~= Seq::<Section>::empty());
        push_section(&mut secs, self.gnu_hash());
        push_section(&mut secs, self.hash());
        push_section(&mut secs, self.dynsym());
        push_section(&mut secs, self.dynstr());
        push_section(&mut secs, self.versym());
        push_section(&mut secs, self.verdef());
        push_section(&mut secs, self.verneed());
        push_section(&mut secs, self.rela());
        push_section(&mut secs, self.rel());
        push_section(&mut secs, self.relr());
        push_section(&mut secs, self.android_rela());
        push_section(&mut secs, self.android_rel());
        push_section(&mut secs, self.android_relr());
        push_section(&mut secs, self.plt_rel());
        push_section(&mut secs, self.init());
        push_section(&mut secs, self.plt());
        push_section(&mut secs, self.text());
        push_section(&mut secs, self.init_array());
        push_section(&mut secs, self.fini_array());
        push_section(&mut secs, self.dynamic());
        push_section(&mut secs, self.got_plt());
        push_section(&mut secs, self.data());
        push_section(&mut secs, self.bss());
        secs
    }
}

/// Whether `s` is a section of the memory image: allocated, without a payload of
/// its own, and with a short name that holds no NUL.
pub open spec fn is_image_section(s: Section) -> bool {
    &&& s.flags & SHF_ALLOC != 0
    &&& s.file_data is None
    &&& 0 < s.name.len() <= 16
    &&& !s.name.contains('\0')
}

/// Whether `s` is one of the sections that the dynamic table implies.
pub open spec fn is_listed(d: DynImage, s: Section) -> bool {
    ||| gnu_hash_section(d) == Some(s)
    ||| hash_section(d) == Some(s)
    ||| dynsym_section(d) == Some(s)
    ||| dynstr_section(d) == Some(s)
    ||| versym_section(d) == Some(s)
    ||| verdef_section(d) == Some(s)
    ||| verneed_section(d) == Some(s)
    ||| rela_section(d) == Some(s)
    ||| rel_section(d) == Some(s)
    ||| relr_section(d) == Some(s)
    ||| android_rela_section(d) == Some(s)
    ||| android_rel_section(d) == Some(s)
    ||| android_relr_section(d) == Some(s)
    ||| plt_rel_section(d) == Some(s)
    ||| init_section(d) == Some(s)
    ||| plt_section(d) == Some(s)
    ||| text_section(d) == Some(s)
    ||| init_array_section(d) == Some(s)
    ||| fini_array_section(d) == Some(s)
    ||| dynamic_section(d) == Some(s)
    ||| got_plt_section(d) == Some(s)
    ||| data_section(d) == Some(s)
    ||| bss_section(d) == Some(s)
}

pub open spec fn are_listed(d: DynImage, secs: Seq<Section>) -> bool {
    forall|i: int| 0 <= i < secs.len() ==> is_listed(d, #[trigger] secs[i])
}

/// What an optional section adds to a list.
proof fn lemma_extended(d: DynImage, secs: Seq<Section>, s: Option<Section>)
    requires
        are_listed(d, secs),
        s matches Some(v) ==> is_listed(d, v),
    ensures
        are_listed(d, extended(secs, s)),
        secs.len() <= extended(secs, s).len() <= secs.len() + 1,
        forall|x: Section| #[trigger]
            secs.contains(x) ==> extended(secs, s).contains(x),
        s matches Some(v) ==> extended(secs, s).contains(v),
{
    reveal(extended);
    if let Some(v) = s {
        assert(secs.push(v)[secs.len() as int] == v);
        assert forall|x: Section| #[trigger] secs.contains(x) implies secs.push(v).contains(x) by {
            let i = choose|i: int| 0 <= i < secs.len() && secs[i] == x;
            assert(secs.push(v)[i] == x);
        }
    }
}

/// The section list holds the sections that the dynamic table implies, all of
/// them and no others, at most one from each source.
pub proof fn law_section_list(d: DynImage)
    ensures
        forall|s: Section| #[trigger] section_list(d).contains(s) <==> is_listed(d, s),
        1 <= section_list(d).len() <= 23,
{
    let s = Seq::<Section>::empty();
    lemma_extended(d, s, gnu_hash_section(d));
    let s = extended(s, gnu_hash_section(d));
    lemma_extended(d, s, hash_section(d));
    let s = extended(s, hash_section(d));
    lemma_extended(d, s, dynsym_section(d));
    let s = extended(s, dynsym_section(d));
    lemma_extended(d, s, dynstr_section(d));
    let s = extended(s, dynstr_section(d));
    lemma_extended(d, s, versym_section(d));
    let s = extended(s, versym_section(d));
    lemma_extended(d, s, verdef_section(d));
    let s = extended(s, verdef_section(d));
    lemma_extended(d, s, verneed_section(d));
    let s = extended(s, verneed_section(d));
    lemma_extended(d, s, rela_section(d));
    let s = extended(s, rela_section(d));
    lemma_extended(d, s, rel_section(d));
    let s = extended(s, rel_section(d));
    lemma_extended(d, s, relr_section(d));
    let s = extended(s, relr_section(d));
    lemma_extended(d, s, android_rela_section(d));
    let s = extended(s, android_rela_section(d));
    lemma_extended(d, s, android_rel_section(d));
    let s = extended(s, android_rel_section(d));
    lemma_extended(d, s, android_relr_section(d));
    let s = extended(s, android_relr_section(d));
    lemma_extended(d, s, plt_rel_section(d));
    let s = extended(s, plt_rel_section(d));
    lemma_extended(d, s, init_section(d));
    let s = extended(s, init_section(d));
    lemma_extended(d, s, plt_section(d));
    let s = extended(s, plt_section(d));
    lemma_extended(d, s, text_section(d));
    let s = extended(s, text_section(d));
    lemma_extended(d, s, init_array_section(d));
    let s = extended(s, init_array_section(d));
    lemma_extended(d, s, fini_array_section(d));
    let s = extended(s, fini_array_section(d));
    lemma_extended(d, s, dynamic_section(d));
    let s = extended(s, dynamic_section(d));
    lemma_extended(d, s, got_plt_section(d));
    let s = extended(s, got_plt_section(d));
    lemma_extended(d, s, data_section(d));
    let s = extended(s, data_section(d));
    lemma_extended(d, s, bss_section(d));
    let s = extended(s, bss_section(d));
    assert(section_list(d) == s);
    assert(s.contains(dynamic_section(d)->0));
    assert forall|x: Section| #[trigger] section_list(d).contains(x) <==> is_listed(d, x) by {
        if s.contains(x) {
            let i = choose|i: int| 0 <= i < s.len() && s[i] == x;
            assert(is_listed(d, s[i]));
        }
    }
}

/// The flags of listed sections include `SHF_ALLOC`.
proof fn lemma_alloc_flags()
    ensures
        SHF_ALLOC & SHF_ALLOC != 0,
        (SHF_ALLOC | SHF_EXEC) & SHF_ALLOC != 0,
        (SHF_WRITE | SHF_ALLOC) & SHF_ALLOC != 0,
        (SHF_ALLOC | SHF_INFO_LINK) & SHF_ALLOC != 0,
{
    assert(0x2u64 & 0x2u64 != 0 && (0x2u64 | 0x4u64) & 0x2u64 != 0 && (0x1u64 | 0x2u64) & 0x2u64
        != 0 && (0x2u64 | 0x40u64) & 0x2u64 != 0) by (bit_vector);
}

/// Listed sections are sections of the memory image.
pub proof fn law_listed_sections_are_allocated(d: DynImage, s: Section)
    requires
        is_listed(d, s),
    ensures
        is_image_section(s),
{
    lemma_alloc_flags();
    reveal_strlit(".gnu.hash");
    reveal_strlit(".hash");
    reveal_strlit(".dynsym");
    reveal_strlit(".dynstr");
    reveal_strlit(".gnu.version");
    reveal_strlit(".gnu.version_d");
    reveal_strlit(".gnu.version_r");
    reveal_strlit(".rela.dyn");
    reveal_strlit(".rel.dyn");
    reveal_strlit(".relr.dyn");
    reveal_strlit(".rela.plt");
    reveal_strlit(".rel.plt");
    reveal_strlit(".init");
    reveal_strlit(".plt");
    reveal_strlit(".text");
    reveal_strlit(".init_array");
    reveal_strlit(".fini_array");
    reveal_strlit(".dynamic");
    reveal_strlit(".got.plt");
    reveal_strlit(".data");
    reveal_strlit(".bss");
}

/// No listed section is called like the section name table.
pub proof fn law_name_table_is_not_listed(d: DynImage, s: Section)
    requires
        is_listed(d, s),
    ensures
        s.name != ".shstrtab"@,
{
    reveal_strlit(".shstrtab");
    reveal_strlit(".gnu.hash");
    reveal_strlit(".hash");
    reveal_strlit(".dynsym");
    reveal_strlit(".dynstr");
    reveal_strlit(".gnu.version");
    reveal_strlit(".gnu.version_d");
    reveal_strlit(".gnu.version_r");
    reveal_strlit(".rela.dyn");
    reveal_strlit(".rel.dyn");
    reveal_strlit(".relr.dyn");
    reveal_strlit(".rela.plt");
    reveal_strlit(".rel.plt");
    reveal_strlit(".init");
    reveal_strlit(".plt");
    reveal_strlit(".text");
    reveal_strlit(".init_array");
    reveal_strlit(".fini_array");
    reveal_strlit(".dynamic");
    reveal_strlit(".got.plt");
    reveal_strlit(".data");
    reveal_strlit(".bss");
    if s.name == ".shstrtab"@ {
        assert(s.name.len() == 9 && s.name[2] == 'h' && s.name[3] == 's');
    }
}

/// Only DT_STRTAB makes a section called `.dynstr`.
pub proof fn law_one_source_of_dynstr(d: DynImage, s: Section)
    requires
        is_listed(d, s),
        s.name == ".dynstr"@,
    ensures
        dynstr_section(d) == Some(s),
{
    reveal_strlit(".gnu.hash");
    reveal_strlit(".hash");
    reveal_strlit(".dynsym");
    reveal_strlit(".dynstr");
    reveal_strlit(".gnu.version");
    reveal_strlit(".gnu.version_d");
    reveal_strlit(".gnu.version_r");
    reveal_strlit(".rela.dyn");
    reveal_strlit(".rel.dyn");
    reveal_strlit(".relr.dyn");
    reveal_strlit(".rela.plt");
    reveal_strlit(".rel.plt");
    reveal_strlit(".init");
    reveal_strlit(".plt");
    reveal_strlit(".text");
    reveal_strlit(".init_array");
    reveal_strlit(".fini_array");
    reveal_strlit(".dynamic");
    reveal_strlit(".got.plt");
    reveal_strlit(".data");
    reveal_strlit(".bss");
    assert(s.name.len() == 7 && s.name[5] == 't');
}

} // verus!
