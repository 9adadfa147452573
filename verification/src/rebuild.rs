//! Reconstruction of the section header table of a memory image.
use crate::bytes;
use crate::bytes::copy_bytes;
use crate::catalog;
use crate::catalog::{DynImage, DynInfo};
use crate::dynamic;
use crate::dynamic::{dynamic_symbol_count, get_tag, read_dynamic, DT_STRTAB, DT_SYMTAB};
use crate::emit;
use crate::emit::{append_tables, emit_sections, remap_sym_shndx, InjectedSym};
use crate::layout::{ElfLayout, Shdr};
use crate::readback;
use crate::sections;
use crate::sections::{resize_sections, sort_sections, SecDesc, Section};
use crate::segments;
use crate::segments::{load_ends, scan_program_headers, PhdrScan};
use crate::text;
use crate::text::{chars_of, push_number, push_str, string_of};
use vstd::prelude::*;

verus! {

/// Why the section header table of an image cannot be rebuilt.
#[derive(Clone, Copy, Debug, PartialEq, Eq, Structural)]
pub enum RebuildError {
    ImageTooSmall,
    NotElf,
    UnsupportedClass(u8),
    NotLittleEndian(u8),
    SmallerThanHeader,
    NoProgramHeaders,
    NoDynamicSegment,
    NoLoadSegments,
}

impl RebuildError {
    pub open spec fn text(self) -> Seq<char> {
        match self {
            RebuildError::ImageTooSmall => "image too small"@,
            RebuildError::NotElf => "not an ELF image"@,
            RebuildError::UnsupportedClass(class) => "unsupported EI_CLASS="@ + text::spelled(
                class as int,
                10,
            ),
            RebuildError::NotLittleEndian(data) => {
                "only little-endian images supported (EI_DATA="@ + text::spelled(data as int, 10)
                    + ")"@
            },
            RebuildError::SmallerThanHeader => "image smaller than ELF header"@,
            RebuildError::NoProgramHeaders => "no program headers"@,
            RebuildError::NoDynamicSegment => "no PT_DYNAMIC segment; cannot rebuild sections"@,
            RebuildError::NoLoadSegments => "no PT_LOAD segments"@,
        }
    }

    pub fn message(&self) -> (r: String)
        ensures
            r@ == self.text(),
    {
        match self {
            RebuildError::ImageTooSmall => "image too small".to_string(),
            RebuildError::NotElf => "not an ELF image".to_string(),
            RebuildError::UnsupportedClass(class) => {
                let mut chars = chars_of("unsupported EI_CLASS=");
                push_number(&mut chars, *class as u64, 10);
                string_of(chars.as_slice())
            },
            RebuildError::NotLittleEndian(data) => {
                let mut chars = chars_of("only little-endian images supported (EI_DATA=");
                push_number(&mut chars, *data as u64, 10);
                push_str(&mut chars, ")");
                string_of(chars.as_slice())
            },
            RebuildError::SmallerThanHeader => "image smaller than ELF header".to_string(),
            RebuildError::NoProgramHeaders => "no program headers".to_string(),
            RebuildError::NoDynamicSegment => {
                "no PT_DYNAMIC segment; cannot rebuild sections".to_string()
            },
            RebuildError::NoLoadSegments => "no PT_LOAD segments".to_string(),
        }
    }
}

/// Whether `data` starts with the four ELF magic bytes.
pub open spec fn has_elf_magic(data: Seq<u8>) -> bool {
    data.len() >= 4 && data[0] == 0x7f && data[1] == 0x45 && data[2] == 0x4c && data[3] == 0x46
}

pub fn is_elf(data: &[u8]) -> (r: bool)
    ensures
        r == has_elf_magic(data@),
{
    data.len() >= 4 && data[0] == 0x7f && data[1] == 0x45 && data[2] == 0x4c && data[3] == 0x46
}

/// The layout that the class byte of an image selects.
pub open spec fn layout_of(image: Seq<u8>) -> ElfLayout {
    ElfLayout { is64: image[4] == 2 }
}

/// `e_phentsize`, or the size of the class's program headers when that is 0.
pub open spec fn phdr_stride(l: ElfLayout, image: Seq<u8>) -> u16 {
    if l.e_phentsize(image) == 0 {
        l.phdr_size() as u16
    } else {
        l.e_phentsize(image)
    }
}

/// The first fault of the ELF header of an image, if it has one.
pub open spec fn header_fault(image: Seq<u8>) -> Option<RebuildError> {
    let l = layout_of(image);
    if image.len() < 16 {
        Some(RebuildError::ImageTooSmall)
    } else if !has_elf_magic(image) {
        Some(RebuildError::NotElf)
    } else if image[4] != 1 && image[4] != 2 {
        Some(RebuildError::UnsupportedClass(image[4]))
    } else if image[5] != 1 {
        Some(RebuildError::NotLittleEndian(image[5]))
    } else if image.len() < l.ehdr_size() {
        Some(RebuildError::SmallerThanHeader)
    } else if l.phoff_at(image, 0) == 0 || l.e_phnum(image) == 0 {
        Some(RebuildError::NoProgramHeaders)
    } else {
        None
    }
}

/// The pass over the program headers of an image whose header has no fault.
pub open spec fn scan_image(image: Seq<u8>) -> PhdrScan {
    let l = layout_of(image);
    segments::scan_phdrs(
        l,
        image,
        l.phoff_at(image, 0) as int,
        phdr_stride(l, image) as int,
        l.e_phnum(image) as nat,
    )
}

/// Why the section header table of `image` cannot be rebuilt, if it cannot.
pub open spec fn refusal(image: Seq<u8>) -> Option<RebuildError> {
    match header_fault(image) {
        Some(e) => Some(e),
        None => {
            let scan = scan_image(image);
            if scan.dyn_addr == 0 {
                Some(RebuildError::NoDynamicSegment)
            } else if scan.loads.len() == 0 {
                Some(RebuildError::NoLoadSegments)
            } else {
                None
            }
        },
    }
}

/// What the sections of an image that can be rebuilt are derived from.
pub open spec fn dyn_image(image: Seq<u8>) -> DynImage {
    let l = layout_of(image);
    let scan = scan_image(image);
    let table = dynamic::dyn_table(l, scan.data, scan.dyn_addr, scan.dyn_size);
    DynImage {
        l,
        data: scan.data,
        table,
        dyn_addr: scan.dyn_addr,
        dyn_size: scan.dyn_size,
        symcount: dynamic::symbol_count(l, scan.data, table),
        max_vaddr: segments::mem_end(scan.loads) as u64,
        load_file_end: segments::file_end(scan.loads) as u64,
    }
}

/// Whether every address that a rebuild of `image` computes fits in 64 bits. An
/// image that is refused needs none.
pub open spec fn in_address_range(image: Seq<u8>) -> bool {
    refusal(image) is None ==> segments::loads_fit(scan_image(image).loads)
        && catalog::addresses_fit(dyn_image(image))
}

/// The allocated sections of `image` in address order, sized, behind the NULL
/// section.
pub open spec fn alloc_sections(image: Seq<u8>) -> Seq<Section> {
    let d = dyn_image(image);
    seq![sections::null_section()] + sections::resize_all(
        sections::sort_by_addr(catalog::section_list(d)),
        d.load_file_end,
        d.max_vaddr,
    )
}

/// All sections of the rebuilt image.
pub open spec fn all_sections(image: Seq<u8>, injected: Seq<InjectedSym>) -> Seq<Section> {
    emit::with_tables(layout_of(image), alloc_sections(image), injected)
}

/// The image with program headers normalized and dynamic symbols remapped.
pub open spec fn patched_image(image: Seq<u8>, injected: Seq<InjectedSym>) -> Seq<u8> {
    let d = dyn_image(image);
    if d.table.contains_key(DT_SYMTAB) {
        emit::remap_symbols(
            d.l,
            d.data,
            d.table[DT_SYMTAB] as int,
            d.symcount as nat,
            all_sections(image, injected),
        )
    } else {
        d.data
    }
}

/// The rebuilt image.
pub open spec fn rebuilt(image: Seq<u8>, injected: Seq<InjectedSym>) -> Seq<u8> {
    emit::with_section_table(
        layout_of(image),
        patched_image(image, injected),
        all_sections(image, injected),
    )
}

/// Checks the ELF header of an image.
fn check_header(image: &[u8]) -> (r: Option<RebuildError>)
    ensures
        r == header_fault(image@),
{
    if image.len() < 16 {
        return Some(RebuildError::ImageTooSmall);
    }
    if !is_elf(image) {
        return Some(RebuildError::NotElf);
    }
    if image[4] != 1 && image[4] != 2 {
        return Some(RebuildError::UnsupportedClass(image[4]));
    }
    if image[5] != 1 {
        return Some(RebuildError::NotLittleEndian(image[5]));
    }
    let l = ElfLayout { is64: image[4] == 2 };
    if image.len() < l.ehdr_size() {
        return Some(RebuildError::SmallerThanHeader);
    }
    if l.phoff(image) == 0 || l.phnum(image) == 0 {
        return Some(RebuildError::NoProgramHeaders);
    }
    None
}

/// The allocated sections behind the NULL section, sorted and sized.
fn lay_out(info: &DynInfo) -> (r: Vec<SecDesc>)
    requires
        catalog::addresses_fit(info@),
        info.symcount <= u64::MAX / 2,
    ensures
        sections::section_views(r@) == seq![sections::null_section()] + sections::resize_all(
            sections::sort_by_addr(catalog::section_list(info@)),
            info.load_file_end,
            info.max_vaddr,
        ),
{
    let mut body = sort_sections(info.list_sections());
    resize_sections(&mut body, info.load_file_end, info.max_vaddr);
    let ghost views = sections::section_views(body@);
    let mut secs: Vec<SecDesc> = Vec::new();
    let null = SecDesc::new("", 0, 0, 0, 0);
    proof {
        reveal_strlit("");
        assert(null@ =~= sections::null_section());
    }
    secs.push(null);
    secs.append(&mut body);
    assert(sections::section_views(secs@) =~= seq![sections::null_section()] + views);
    secs
}

/// Like [`rebuild_so_sections`], for any image: gives nothing when an address of
/// the section list does not fit in 64 bits.
pub fn try_rebuild_so_sections(image: &[u8], injected: &[InjectedSym]) -> (r: Option<
    Result<Vec<u8>, RebuildError>,
>)
    ensures
        r is Some <==> in_address_range(image@),
        r matches Some(res) ==> match res {
            Ok(out) => refusal(image@) is None && out@ == rebuilt(image@, injected@),
            Err(e) => refusal(image@) == Some(e),
        },
{
    if let Some(e) = check_header(image) {
        return Some(Err(e));
    }
    let l = ElfLayout { is64: image[4] == 2 };
    let phoff: u64 = l.phoff(image);
    let mut phentsize: usize = l.phentsize(image);
    let phnum: usize = l.phnum(image);
    if phentsize == 0 {
        phentsize = l.phdr_size();
    }
    let headers = scan_program_headers(l, copy_bytes(image), phoff, phentsize, phnum);
    proof {
        segments::lemma_scan_len(
            l,
            image@,
            phoff as int,
            phentsize as int,
            phnum as nat,
        );
    }
    if headers.dyn_addr == 0 {
        return Some(Err(RebuildError::NoDynamicSegment));
    }
    if headers.loads.len() == 0 {
        return Some(Err(RebuildError::NoLoadSegments));
    }
    let (max_vaddr, load_file_end) = match load_ends(&headers.loads) {
        Some(ends) => ends,
        None => {
            return None;
        },
    };
    let table = read_dynamic(l, headers.data.as_slice(), headers.dyn_addr, headers.dyn_size);
    let symcount: u64 = dynamic_symbol_count(l, headers.data.as_slice(), &table);
    let info = DynInfo {
        l,
        data: headers.data,
        table,
        dyn_addr: headers.dyn_addr,
        dyn_size: headers.dyn_size,
        symcount,
        max_vaddr,
        load_file_end,
    };
    assert(info@ == dyn_image(image@));
    if !info.fits() {
        return None;
    }
    let mut secs = lay_out(&info);
    append_tables(l, &mut secs, injected);
    let symtab: Option<u64> = get_tag(&info.table, DT_SYMTAB);
    let mut data = info.data;
    if let Some(sym_addr) = symtab {
        proof {
            emit::lemma_remap_len(
                l,
                data@,
                sym_addr as int,
                symcount as nat,
                sections::section_views(secs@),
            );
        }
        remap_sym_shndx(l, &mut data, sym_addr, symcount, &secs);
    }
    assert(data@ == patched_image(image@, injected@));
    assert(secs@.len() == sections::section_views(secs@).len());
    emit_sections(l, &mut data, &secs);
    Some(Ok(data))
}

/// Takes a memory image of an ELF shared object (ELF32 or ELF64, little-endian)
/// as produced by dumping `[base,end)` from process memory (bytes live at file
/// offset == virtual address) and returns a copy with `p_offset` normalized and
/// a freshly reconstructed section header table appended.
///
/// The reconstruction is driven by the PT_DYNAMIC segment, which survives in a
/// memory dump: DT_SYMTAB/STRTAB/HASH/GNU_HASH/REL/RELA/RELR/JMPREL/PLTGOT/
/// VERSYM/VERDEF/VERNEED/INIT_ARRAY/FINI_ARRAY give the addresses (and often
/// sizes) of the corresponding sections. Sections whose size isn't directly
/// known are sized from the next section's start after sorting by address.
pub fn rebuild_so_sections(image: &[u8], injected: &[InjectedSym]) -> (r: Result<
    Vec<u8>,
    RebuildError,
>)
    requires
        in_address_range(image@),
    ensures
        match r {
            Ok(out) => refusal(image@) is None && out@ == rebuilt(image@, injected@),
            Err(e) => refusal(image@) == Some(e),
        },
{
    try_rebuild_so_sections(image, injected).unwrap()
}

/// The sections of a rebuilt image: the NULL section, allocated sections of the
/// image in address order, and the appended tables, the last of which is the
/// section name table. There are few enough of them for every index to fit.
pub proof fn law_section_order(image: Seq<u8>, injected: Seq<InjectedSym>)
    ensures
        ({
            let secs = all_sections(image, injected);
            let n = alloc_sections(image).len();
            &&& secs.len() == if injected.len() == 0 {
                n + 1
            } else {
                n + 3
            }
            &&& 2 <= n <= 24
            &&& secs[0] == sections::null_section()
            &&& secs.last().name == ".shstrtab"@
            &&& secs.take(n as int) == alloc_sections(image)
            &&& forall|i: int| 1 <= i < n ==> catalog::is_image_section(#[trigger] secs[i])
            &&& forall|i: int, j: int|
                1 <= i <= j < n ==> (#[trigger] secs[i]).addr <= (#[trigger] secs[j]).addr
        }),
{
    let d = dyn_image(image);
    let list = catalog::section_list(d);
    let sorted = sections::sort_by_addr(list);
    let body = sections::resize_all(sorted, d.load_file_end, d.max_vaddr);
    let secs = all_sections(image, injected);
    let n = alloc_sections(image).len();
    catalog::law_section_list(d);
    sections::law_sort_orders_by_address(list);
    assert(secs.take(n as int) =~= alloc_sections(image));
    assert forall|i: int| 1 <= i < n implies catalog::is_image_section(#[trigger] secs[i]) by {
        assert(secs[i] == body[i - 1]);
        assert(sorted.contains(sorted[i - 1]));
        sections::law_sort_keeps_sections(list, sorted[i - 1]);
        catalog::law_listed_sections_are_allocated(d, sorted[i - 1]);
    }
    assert forall|i: int, j: int| 1 <= i <= j < n implies (#[trigger] secs[i]).addr <= (
    #[trigger] secs[j]).addr by {
        assert(secs[i] == body[i - 1] && secs[j] == body[j - 1]);
        assert(sorted[i - 1].addr <= sorted[j - 1].addr);
    }
}

/// The section name table of short names is short.
proof fn lemma_names_len(secs: Seq<Section>, n: nat)
    requires
        n <= secs.len(),
        forall|i: int| 0 <= i < secs.len() ==> (#[trigger] secs[i]).name.len() <= 16,
    ensures
        emit::name_table(secs, n).len() <= 1 + 65 * n,
    decreases n,
{
    if n > 0 {
        lemma_names_len(secs, (n - 1) as nat);
        readback::lemma_utf8_bytes(secs[n - 1].name);
    }
}

/// Normalizing the program headers keeps the length of the image.
pub proof fn lemma_scanned_len(image: Seq<u8>)
    ensures
        dyn_image(image).data.len() == image.len(),
{
    let l = layout_of(image);
    segments::lemma_scan_len(
        l,
        image,
        l.phoff_at(image, 0) as int,
        phdr_stride(l, image) as int,
        l.e_phnum(image) as nat,
    );
}

/// Patching keeps the length of the image.
pub proof fn lemma_patched_len(image: Seq<u8>, injected: Seq<InjectedSym>)
    ensures
        patched_image(image, injected).len() == image.len(),
{
    let d = dyn_image(image);
    lemma_scanned_len(image);
    emit::lemma_remap_len(
        d.l,
        d.data,
        d.table[DT_SYMTAB] as int,
        d.symcount as nat,
        all_sections(image, injected),
    );
}

/// A rebuilt file that its layout can address has a table that fits.
pub proof fn lemma_rebuilt_fits(image: Seq<u8>, injected: Seq<InjectedSym>)
    requires
        refusal(image) is None,
        rebuilt(image, injected).len() <= readback::max_addr(layout_of(image)),
    ensures
        readback::table_fits(
            layout_of(image),
            patched_image(image, injected),
            all_sections(image, injected),
        ),
{
    let l = layout_of(image);
    let secs = all_sections(image, injected);
    let n = alloc_sections(image).len();
    law_section_order(image, injected);
    lemma_patched_len(image, injected);
    reveal_strlit(".symtab");
    reveal_strlit(".strtab");
    reveal_strlit(".shstrtab");
    assert forall|i: int| 0 <= i < secs.len() implies (#[trigger] secs[i]).name.len() <= 16 by {
        if 1 <= i < n {
            assert(catalog::is_image_section(secs[i]));
        }
    }
    lemma_names_len(secs, secs.len());
    readback::lemma_file_len(l, patched_image(image, injected), secs);
}

/// The ELF header of a rebuilt file locates its section header table, which starts
/// at a multiple of the machine word and ends the file, and names its section name
/// table.
pub proof fn law_rebuilt_header_locates_table(image: Seq<u8>, injected: Seq<InjectedSym>)
    requires
        refusal(image) is None,
        rebuilt(image, injected).len() <= readback::max_addr(layout_of(image)),
    ensures
        ({
            let l = layout_of(image);
            let file = rebuilt(image, injected);
            let n = all_sections(image, injected).len();
            &&& l.e_shentsize(file) == l.shdr_size()
            &&& l.e_shnum(file) == n
            &&& l.e_shstrndx(file) == n - 1
            &&& image.len() <= l.e_shoff(file)
            &&& l.e_shoff(file) as int % l.word() as int == 0
            &&& l.e_shoff(file) + n * l.e_shentsize(file) == file.len()
        }),
{
    let secs = all_sections(image, injected);
    let data = patched_image(image, injected);
    lemma_rebuilt_fits(image, injected);
    lemma_patched_len(image, injected);
    readback::law_header_locates_table(layout_of(image), data, secs);
    readback::law_table_is_aligned(layout_of(image), data, secs);
    readback::lemma_file_len(layout_of(image), data, secs);
}

/// Every section of a rebuilt file reads back: its header, field by field, with
/// wide fields cut to 32 bits in the ELF32 layout, and its name.
pub proof fn law_rebuilt_sections_read_back(image: Seq<u8>, injected: Seq<InjectedSym>, i: int)
    requires
        refusal(image) is None,
        rebuilt(image, injected).len() <= readback::max_addr(layout_of(image)),
        0 <= i < all_sections(image, injected).len(),
    ensures
        ({
            let l = layout_of(image);
            let file = rebuilt(image, injected);
            let secs = all_sections(image, injected);
            let h = emit::section_header(patched_image(image, injected), secs, i);
            let names = readback::header_of(l, file, l.e_shstrndx(file) as int);
            let read = readback::header_of(l, file, i);
            &&& read == (Shdr {
                flags: l.cut(h.flags),
                addr: l.cut(h.addr),
                off: l.cut(h.off),
                size: l.cut(h.size),
                align: l.cut(h.align),
                entsize: l.cut(h.entsize),
                ..h
            })
            &&& i > 0 ==> readback::string_at(file, names.off + read.name)
                == vstd::utf8::encode_utf8(secs[i].name)
        }),
{
    let l = layout_of(image);
    let secs = all_sections(image, injected);
    let data = patched_image(image, injected);
    let n = alloc_sections(image).len();
    lemma_rebuilt_fits(image, injected);
    law_section_order(image, injected);
    readback::law_section_headers_read_back(l, data, secs, i);
    if i > 0 {
        reveal_strlit(".symtab");
        reveal_strlit(".strtab");
        reveal_strlit(".shstrtab");
        if i < n {
            assert(catalog::is_image_section(secs[i]));
        }
        readback::law_section_names_read_back(l, data, secs, i);
    }
}

/// Every injected symbol reads back from a rebuilt file, field by field, from the
/// symbol table behind the sections of the image, which starts with the null
/// symbol. Its name stands where `st_name` says, if 32 bits hold that offset; a
/// name without a NUL ends there too.
pub proof fn law_rebuilt_symbols_read_back(image: Seq<u8>, injected: Seq<InjectedSym>, i: int)
    requires
        refusal(image) is None,
        rebuilt(image, injected).len() <= readback::max_addr(layout_of(image)),
        0 <= i < injected.len(),
    ensures
        ({
            let l = layout_of(image);
            let file = rebuilt(image, injected);
            let alloc = alloc_sections(image);
            let symtab = readback::header_of(l, file, alloc.len() as int);
            let strtab = readback::header_of(l, file, symtab.link as int);
            let o = symtab.off + (i + 1) * symtab.entsize;
            &&& symtab.typ == sections::SHT_SYMTAB
            &&& strtab.typ == sections::SHT_STRTAB
            &&& symtab.info == 1
            &&& symtab.flags == 0 && symtab.addr == 0
            &&& symtab.entsize == l.sym_size()
            &&& symtab.size == (injected.len() + 1) * symtab.entsize
            &&& symtab.off + symtab.size <= file.len()
            &&& bytes::holds(file, symtab.off as int, emit::zeros(symtab.entsize as nat))
            &&& l.sym_value_at(file, o) == l.cut(injected[i].value)
            &&& l.sym_bytesize_at(file, o) == 0
            &&& l.sym_info_at(file, o) == emit::GLOBAL_FUNC
            &&& l.sym_other_at(file, o) == 0
            &&& l.sym_shndx_at(file, o) == sections::covering_index(injected[i].value, alloc)
            &&& emit::injected_strtab(injected, i as nat).len() <= u32::MAX ==> {
                let at = strtab.off + l.sym_name_at(file, o);
                &&& bytes::holds(file, at, emit::c_string(injected[i].name@))
                &&& !injected[i].name@.contains('\0') ==> readback::string_at(file, at)
                    == vstd::utf8::encode_utf8(injected[i].name@)
            }
        }),
{
    lemma_rebuilt_fits(image, injected);
    readback::law_injected_symbols_read_back(
        layout_of(image),
        patched_image(image, injected),
        alloc_sections(image),
        injected,
        i,
    );
}

/// The section index that a rebuilt file links a section to is one of its table,
/// and leads to a section of the name that was meant, if there is one.
pub proof fn law_rebuilt_links_resolve(image: Seq<u8>, injected: Seq<InjectedSym>, i: int)
    requires
        refusal(image) is None,
        rebuilt(image, injected).len() <= readback::max_addr(layout_of(image)),
        0 <= i < all_sections(image, injected).len(),
    ensures
        ({
            let secs = all_sections(image, injected);
            let link = readback::header_of(layout_of(image), rebuilt(image, injected), i).link;
            let want = secs[i].link_name;
            &&& link < secs.len()
            &&& want.len() > 0 && (exists|j: int|
                0 <= j < secs.len() && (#[trigger] secs[j]).name == want) ==> secs[link as int].name
                == want
        }),
{
    law_section_order(image, injected);
    law_rebuilt_sections_read_back(image, injected, i);
    let secs = all_sections(image, injected);
    emit::law_references_resolve(secs, secs[i].link_name);
}

/// No section of the image reaches into the next one of a rebuilt file, unless
/// both start at the same address.
pub proof fn law_rebuilt_sections_do_not_overlap(
    image: Seq<u8>,
    injected: Seq<InjectedSym>,
    i: int,
)
    requires
        1 <= i < alloc_sections(image).len() - 1,
        all_sections(image, injected)[i].addr != all_sections(image, injected)[i + 1].addr,
    ensures
        ({
            let secs = all_sections(image, injected);
            secs[i].addr + secs[i].size <= secs[i + 1].addr
        }),
{
    law_section_order(image, injected);
    let d = dyn_image(image);
    let sorted = sections::sort_by_addr(catalog::section_list(d));
    let secs = all_sections(image, injected);
    let body = sections::resize_all(sorted, d.load_file_end, d.max_vaddr);
    assert(secs[i] == body[i - 1] && secs[i + 1] == body[i]);
    sections::law_sizes_do_not_overlap(sorted, d.load_file_end, d.max_vaddr, i - 1);
}

/// Every section that the dynamic table implies is a section of the rebuilt file:
/// under its name, with its type and entry size, at its address.
pub proof fn law_listed_sections_are_rebuilt(
    image: Seq<u8>,
    injected: Seq<InjectedSym>,
    s: Section,
)
    requires
        refusal(image) is None,
        rebuilt(image, injected).len() <= readback::max_addr(layout_of(image)),
        catalog::is_listed(dyn_image(image), s),
    ensures
        exists|i: int|
            1 <= i < alloc_sections(image).len() && #[trigger] is_section_of(
                layout_of(image),
                rebuilt(image, injected),
                i,
                s,
            ),
{
    let l = layout_of(image);
    let d = dyn_image(image);
    let list = catalog::section_list(d);
    let sorted = sections::sort_by_addr(list);
    let secs = all_sections(image, injected);
    catalog::law_section_list(d);
    assert(list.contains(s));
    sections::law_sort_keeps_sections(list, s);
    let k = choose|k: int| 0 <= k < sorted.len() && sorted[k] == s;
    law_section_order(image, injected);
    assert(secs[k + 1] == sections::resize_all(sorted, d.load_file_end, d.max_vaddr)[k]);
    catalog::law_listed_sections_are_allocated(d, s);
    catalog::law_name_table_is_not_listed(d, s);
    law_rebuilt_sections_read_back(image, injected, k + 1);
    assert(is_section_of(l, rebuilt(image, injected), k + 1, s));
}

/// Whether section `i` of `file` is `s`, but for its size and its references.
pub open spec fn is_section_of(l: ElfLayout, file: Seq<u8>, i: int, s: Section) -> bool {
    let h = readback::header_of(l, file, i);
    let names = readback::header_of(l, file, l.e_shstrndx(file) as int);
    &&& h.typ == s.typ
    &&& h.flags == l.cut(s.flags)
    &&& h.addr == l.cut(s.addr)
    &&& h.off == l.cut(s.addr)
    &&& h.align == l.cut(s.align)
    &&& h.entsize == l.cut(s.entsize)
    &&& readback::string_at(file, names.off + h.name) == vstd::utf8::encode_utf8(s.name)
}

/// A section that refers to `.dynstr`, such as the dynamic symbol table, links to
/// the string table at the address that DT_STRTAB gives.
pub proof fn law_dynamic_strings_are_linked(image: Seq<u8>, injected: Seq<InjectedSym>, i: int)
    requires
        refusal(image) is None,
        rebuilt(image, injected).len() <= readback::max_addr(layout_of(image)),
        0 <= i < all_sections(image, injected).len(),
        all_sections(image, injected)[i].link_name == ".dynstr"@,
        dyn_image(image).table.contains_key(DT_STRTAB),
    ensures
        ({
            let l = layout_of(image);
            let file = rebuilt(image, injected);
            let strings = readback::header_of(
                l,
                file,
                readback::header_of(l, file, i).link as int,
            );
            &&& strings.typ == sections::SHT_STRTAB
            &&& strings.addr == l.cut(dyn_image(image).table[DT_STRTAB])
            &&& strings.off == l.cut(dyn_image(image).table[DT_STRTAB])
        }),
{
    let l = layout_of(image);
    let d = dyn_image(image);
    let file = rebuilt(image, injected);
    let secs = all_sections(image, injected);
    let n = alloc_sections(image).len();
    let s = catalog::dynstr_section(d)->0;
    let list = catalog::section_list(d);
    let sorted = sections::sort_by_addr(list);
    let body = sections::resize_all(sorted, d.load_file_end, d.max_vaddr);
    law_section_order(image, injected);
    reveal_strlit(".dynstr");
    reveal_strlit(".symtab");
    reveal_strlit(".strtab");
    reveal_strlit(".shstrtab");
    assert(catalog::is_listed(d, s));
    catalog::law_section_list(d);
    assert(list.contains(s));
    sections::law_sort_keeps_sections(list, s);
    let k = choose|k: int| 0 <= k < sorted.len() && sorted[k] == s;
    assert(secs[k + 1] == body[k]);
    assert(secs[k + 1].name == ".dynstr"@);
    law_rebuilt_links_resolve(image, injected, i);
    let link = readback::header_of(l, file, i).link as int;
    assert(secs[link].name == ".dynstr"@);
    assert(1 <= link < n) by {
        assert(".dynstr"@.len() == 7 && ".dynstr"@[1] == 'd');
    }
    let t = sorted[link - 1];
    assert(secs[link] == body[link - 1]);
    assert(sorted.contains(t));
    sections::law_sort_keeps_sections(list, t);
    catalog::law_one_source_of_dynstr(d, t);
    catalog::law_listed_sections_are_allocated(d, t);
    catalog::law_name_table_is_not_listed(d, t);
    law_rebuilt_sections_read_back(image, injected, link);
}

} // verus!
