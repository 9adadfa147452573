//! What a rebuild does to the bytes of the image itself.
use crate::bytes;
use crate::dynamic;
use crate::dynamic::DT_SYMTAB;
use crate::emit;
use crate::emit::InjectedSym;
use crate::layout::ElfLayout;
use crate::readback;
use crate::rebuild;
use crate::sections;
use crate::sections::Section;
use crate::segments;
use crate::segments::PT_LOAD;
use vstd::prelude::*;

verus! {

/// Whether byte `k` belongs to `p_offset` of the program header at `o`.
pub open spec fn in_p_offset(l: ElfLayout, o: int, k: int) -> bool {
    if l.is64 {
        o + 8 <= k < o + 16
    } else {
        o + 4 <= k < o + 8
    }
}

/// Whether byte `k` belongs to `p_filesz` of the program header at `o`.
pub open spec fn in_p_filesz(l: ElfLayout, o: int, k: int) -> bool {
    if l.is64 {
        o + 32 <= k < o + 40
    } else {
        o + 16 <= k < o + 20
    }
}

/// Whether normalizing the program header at `o` of `b` writes byte `k`: it sets
/// `p_offset`, and raises `p_filesz` of a loaded segment that is larger in memory.
pub open spec fn normalizing_writes(l: ElfLayout, b: Seq<u8>, o: int, k: int) -> bool {
    ||| in_p_offset(l, o, k)
    ||| l.p_type_at(b, o) == PT_LOAD && l.p_memsz_at(b, o) > l.p_filesz_at(b, o) && in_p_filesz(
        l,
        o,
        k,
    )
}

/// Whether byte `k` belongs to `st_shndx` of the symbol at `o`.
pub open spec fn in_symbol_patch(l: ElfLayout, o: int, k: int) -> bool {
    o + l.sym_shndx_off() <= k < o + l.sym_shndx_off() + 2
}

/// Offset of entry `j` of a table at `base` whose entries lie `size` apart.
pub open spec fn nth(base: int, j: int, size: int) -> int {
    base + j * size
}

/// Offset of program header `j` of an image.
pub open spec fn header_at(image: Seq<u8>, j: int) -> int {
    let l = rebuild::layout_of(image);
    nth(l.phoff_at(image, 0) as int, j, rebuild::phdr_stride(l, image) as int)
}

/// Offset of dynamic symbol `j` of an image.
pub open spec fn symbol_at(image: Seq<u8>, j: int) -> int {
    let d = rebuild::dyn_image(image);
    nth(d.table[DT_SYMTAB] as int, j, d.l.sym_size() as int)
}

/// Whether remapping the symbol at `o` of `b` writes byte `k`: it sets `st_shndx`
/// of a defined symbol that has a section around its value.
pub open spec fn remapping_writes(
    l: ElfLayout,
    b: Seq<u8>,
    o: int,
    secs: Seq<Section>,
    k: int,
) -> bool {
    &&& 0 < l.sym_shndx_at(b, o) < 0xff00
    &&& sections::covering(l.sym_value_at(b, o), secs, 0) is Some
    &&& in_symbol_patch(l, o, k)
}

/// Whether `j` numbers a program header that lies inside the image.
pub open spec fn is_header(image: Seq<u8>, j: int) -> bool {
    let l = rebuild::layout_of(image);
    0 <= j < l.e_phnum(image) && header_at(image, j) + l.phdr_size() <= image.len()
}

/// Whether `j` numbers a dynamic symbol that lies inside the image.
pub open spec fn is_symbol(image: Seq<u8>, j: int) -> bool {
    let d = rebuild::dyn_image(image);
    d.table.contains_key(DT_SYMTAB) && 0 <= j < d.symcount && symbol_at(image, j)
        + d.l.sym_size() <= image.len()
}

/// The image as the pass over the program headers finds it when it comes to
/// header `j`.
pub open spec fn reached(image: Seq<u8>, j: int) -> Seq<u8> {
    let l = rebuild::layout_of(image);
    segments::scan_phdrs(
        l,
        image,
        l.phoff_at(image, 0) as int,
        rebuild::phdr_stride(l, image) as int,
        j as nat,
    ).data
}

/// One step of the pass writes what normalizing its header writes.
proof fn lemma_step_frame(l: ElfLayout, s: segments::PhdrScan, o: int)
    ensures
        segments::phdr_step(l, s, o).data.len() == s.data.len(),
        forall|k: int|
            0 <= k < s.data.len() && !normalizing_writes(l, s.data, o, k)
                ==> #[trigger] segments::phdr_step(l, s, o).data[k] == s.data[k],
{
    reveal(segments::phdr_step);
}

/// The pass over the headers from `m` on leaves a byte alone that it does not
/// write.
proof fn lemma_scan_frame(
    l: ElfLayout,
    data: Seq<u8>,
    phoff: int,
    ent: int,
    m: nat,
    n: nat,
    k: int,
)
    requires
        m <= n,
        0 <= k < data.len(),
        forall|j: int|
            m <= j < n && #[trigger] nth(phoff, j, ent) + l.phdr_size() <= data.len()
                ==> !normalizing_writes(
                l,
                segments::scan_phdrs(l, data, phoff, ent, j as nat).data,
                nth(phoff, j, ent),
                k,
            ),
    ensures
        segments::scan_phdrs(l, data, phoff, ent, n).data[k] == segments::scan_phdrs(
            l,
            data,
            phoff,
            ent,
            m,
        ).data[k],
    decreases n,
{
    if m < n {
        let p = (n - 1) as nat;
        lemma_scan_frame(l, data, phoff, ent, m, p, k);
        segments::lemma_scan_len(l, data, phoff, ent, p);
        let o = phoff + (n - 1) * ent;
        if o + l.phdr_size() <= data.len() {
            assert(nth(phoff, n - 1, ent) == o);
            lemma_step_frame(l, segments::scan_phdrs(l, data, phoff, ent, p), o);
        }
    }
}

/// Remapping the symbols from `m` on leaves a byte alone that it does not write.
proof fn lemma_remap_frame(
    l: ElfLayout,
    data: Seq<u8>,
    off: int,
    m: nat,
    n: nat,
    secs: Seq<Section>,
    k: int,
)
    requires
        m <= n,
        0 <= k < data.len(),
        forall|j: int|
            m <= j < n && #[trigger] nth(off, j, l.sym_size() as int) + l.sym_size() <= data.len()
                ==> !remapping_writes(
                l,
                emit::remap_symbols(l, data, off, j as nat, secs),
                nth(off, j, l.sym_size() as int),
                secs,
                k,
            ),
    ensures
        emit::remap_symbols(l, data, off, n, secs)[k] == emit::remap_symbols(
            l,
            data,
            off,
            m,
            secs,
        )[k],
    decreases n,
{
    if m < n {
        let p = (n - 1) as nat;
        lemma_remap_frame(l, data, off, m, p, secs, k);
        emit::lemma_remap_len(l, data, off, p, secs);
        let o = off + (n - 1) * l.sym_size();
        if o + l.sym_size() <= data.len() {
            assert(nth(off, n - 1, l.sym_size() as int) == o);
        }
    }
}

/// A rebuild changes nothing of the image but the fields that locate the section
/// header table, `p_offset` of program headers, `p_filesz` of those that it raises,
/// and `st_shndx` of dynamic symbols that it points at a section. What it adds
/// comes after the image.
pub proof fn law_rebuild_keeps_the_rest(image: Seq<u8>, injected: Seq<InjectedSym>, k: int)
    requires
        rebuild::refusal(image) is None,
        0 <= k < image.len(),
        !readback::locates_sections(rebuild::layout_of(image), k),
        forall|j: int|
            is_header(image, j) ==> !normalizing_writes(
                rebuild::layout_of(image),
                reached(image, j),
                #[trigger] header_at(image, j),
                k,
            ),
        forall|j: int|
            is_symbol(image, j) ==> !remapping_writes(
                rebuild::layout_of(image),
                rebuild::dyn_image(image).data,
                #[trigger] symbol_at(image, j),
                rebuild::all_sections(image, injected),
                k,
            ),
    ensures
        rebuild::rebuilt(image, injected).len() >= image.len(),
        rebuild::rebuilt(image, injected)[k] == image[k],
{
    let l = rebuild::layout_of(image);
    let secs = rebuild::all_sections(image, injected);
    lemma_patched_byte(image, injected, k);
    rebuild::lemma_patched_len(image, injected);
    readback::law_image_is_kept(l, rebuild::patched_image(image, injected), secs, k);
    let phoff = l.phoff_at(image, 0) as int;
    let ent = rebuild::phdr_stride(l, image) as int;
    let n = l.e_phnum(image) as nat;
    assert forall|j: int|
        0 <= j < n && #[trigger] nth(phoff, j, ent) + l.phdr_size()
            <= image.len() implies !normalizing_writes(
        l,
        segments::scan_phdrs(l, image, phoff, ent, j as nat).data,
        nth(phoff, j, ent),
        k,
    ) by {
        assert(header_at(image, j) == nth(phoff, j, ent));
        assert(is_header(image, j));
        assert(reached(image, j) == segments::scan_phdrs(l, image, phoff, ent, j as nat).data);
    }
    lemma_scan_frame(l, image, phoff, ent, 0, n, k);
}

/// Remapping the dynamic symbols leaves a byte alone that it does not write.
proof fn lemma_patched_byte(image: Seq<u8>, injected: Seq<InjectedSym>, k: int)
    requires
        0 <= k < image.len(),
        forall|j: int|
            is_symbol(image, j) ==> !remapping_writes(
                rebuild::layout_of(image),
                rebuild::dyn_image(image).data,
                #[trigger] symbol_at(image, j),
                rebuild::all_sections(image, injected),
                k,
            ),
    ensures
        rebuild::patched_image(image, injected)[k] == rebuild::dyn_image(image).data[k],
{
    let d = rebuild::dyn_image(image);
    let l = d.l;
    let secs = rebuild::all_sections(image, injected);
    rebuild::lemma_scanned_len(image);
    dynamic::lemma_symbol_count(l, d.data, d.table);
    if d.table.contains_key(DT_SYMTAB) {
        let off = d.table[DT_SYMTAB] as int;
        let size = l.sym_size() as int;
        assert forall|j: int|
            0 <= j < d.symcount as nat && #[trigger] nth(off, j, size) + size
                <= d.data.len() implies !remapping_writes(
            l,
            emit::remap_symbols(l, d.data, off, j as nat, secs),
            nth(off, j, size),
            secs,
            k,
        ) by {
            assert(symbol_at(image, j) == nth(off, j, size));
            assert(is_symbol(image, j));
            lemma_symbol_waits(l, d.data, off, secs, j);
        }
        lemma_remap_frame(l, d.data, off, 0, d.symcount as nat, secs, k);
    }
}

/// What a program header says.
pub struct HeaderFields {
    pub typ: u32,
    pub offset: u64,
    pub vaddr: u64,
    pub filesz: u64,
    pub memsz: u64,
}

/// The program header at `o`.
pub open spec fn fields_at(l: ElfLayout, b: Seq<u8>, o: int) -> HeaderFields {
    HeaderFields {
        typ: l.p_type_at(b, o),
        offset: l.p_offset_at(b, o),
        vaddr: l.p_vaddr_at(b, o),
        filesz: l.p_filesz_at(b, o),
        memsz: l.p_memsz_at(b, o),
    }
}

/// A program header as it fits a memory image: its file offset is its address,
/// and a loaded segment is present in full.
pub open spec fn normalized(h: HeaderFields) -> HeaderFields {
    HeaderFields {
        offset: h.vaddr,
        filesz: if h.typ == PT_LOAD && h.memsz > h.filesz {
            h.memsz
        } else {
            h.filesz
        },
        ..h
    }
}

/// Equal bytes hold equal program headers.
pub proof fn lemma_fields_frame(l: ElfLayout, a: Seq<u8>, b: Seq<u8>, o: int)
    requires
        forall|k: int| o <= k < o + l.phdr_size() ==> #[trigger] a[k] == b[k],
    ensures
        fields_at(l, a, o) == fields_at(l, b, o),
{
}

/// One step of the pass normalizes its header.
proof fn lemma_step_normalizes(l: ElfLayout, s: segments::PhdrScan, o: int)
    requires
        0 <= o,
        o + l.phdr_size() <= s.data.len(),
    ensures
        fields_at(l, segments::phdr_step(l, s, o).data, o) == normalized(fields_at(l, s.data, o)),
{
    reveal(segments::phdr_step);
    let v = l.p_vaddr_at(s.data, o);
    let m = l.p_memsz_at(s.data, o);
    let moved = l.with_p_offset(s.data, o, v);
    lemma_with_p_offset(l, s.data, o, v);
    lemma_with_p_filesz(l, moved, o, m);
}

pub proof fn lemma_with_p_offset(l: ElfLayout, b: Seq<u8>, o: int, v: u64)
    requires
        0 <= o,
        o + l.phdr_size() <= b.len(),
        l.cut(v) == v,
    ensures
        fields_at(l, l.with_p_offset(b, o, v), o) == (HeaderFields {
            offset: v,
            ..fields_at(l, b, o)
        }),
{
    if l.is64 {
        bytes::law_u64_write_then_read(b, o + 8, v);
    } else {
        bytes::law_u32_write_then_read(b, o + 4, v as u32);
    }
}

pub proof fn lemma_with_p_filesz(l: ElfLayout, b: Seq<u8>, o: int, v: u64)
    requires
        0 <= o,
        o + l.phdr_size() <= b.len(),
        l.cut(v) == v,
    ensures
        fields_at(l, l.with_p_filesz(b, o, v), o) == (HeaderFields {
            filesz: v,
            ..fields_at(l, b, o)
        }),
{
    if l.is64 {
        bytes::law_u64_write_then_read(b, o + 32, v);
    } else {
        bytes::law_u32_write_then_read(b, o + 16, v as u32);
    }
}

/// Whether no other of `n` headers inside an image of `len` bytes overlaps header
/// `j`.
pub open spec fn stands_apart(
    l: ElfLayout,
    len: nat,
    phoff: int,
    ent: int,
    n: nat,
    j: int,
) -> bool {
    forall|i: int|
        0 <= i < n && i != j && #[trigger] nth(phoff, i, ent) + l.phdr_size() <= len ==> nth(
            phoff,
            i,
            ent,
        ) + l.phdr_size() <= nth(phoff, j, ent) || nth(phoff, j, ent) + l.phdr_size() <= nth(
            phoff,
            i,
            ent,
        )
}

/// Whether no other program header of the image overlaps header `j`.
pub open spec fn header_stands_apart(image: Seq<u8>, j: int) -> bool {
    forall|i: int|
        is_header(image, i) && i != j ==> #[trigger] header_at(image, i) + rebuild::layout_of(
            image,
        ).phdr_size() <= header_at(image, j) || header_at(image, j) + rebuild::layout_of(
            image,
        ).phdr_size() <= header_at(image, i)
}

pub proof fn lemma_stands_apart(image: Seq<u8>, j: int)
    requires
        header_stands_apart(image, j),
    ensures
        ({
            let l = rebuild::layout_of(image);
            stands_apart(
                l,
                image.len(),
                l.phoff_at(image, 0) as int,
                rebuild::phdr_stride(l, image) as int,
                l.e_phnum(image) as nat,
                j,
            )
        }),
{
    let l = rebuild::layout_of(image);
    let phoff = l.phoff_at(image, 0) as int;
    let ent = rebuild::phdr_stride(l, image) as int;
    assert forall|i: int|
        0 <= i < l.e_phnum(image) && i != j && #[trigger] nth(phoff, i, ent) + l.phdr_size()
            <= image.len() implies nth(phoff, i, ent) + l.phdr_size() <= nth(phoff, j, ent) || nth(
        phoff,
        j,
        ent,
    ) + l.phdr_size() <= nth(phoff, i, ent) by {
        assert(header_at(image, i) == nth(phoff, i, ent));
        assert(is_header(image, i));
    }
}

/// The pass over the program headers normalizes header `j`, if no other header
/// overlaps it.
proof fn lemma_scan_normalizes(
    l: ElfLayout,
    data: Seq<u8>,
    phoff: int,
    ent: int,
    n: nat,
    j: int,
)
    requires
        0 <= j < n,
        0 <= phoff,
        0 <= ent,
        stands_apart(l, data.len(), phoff, ent, n, j),
        nth(phoff, j, ent) + l.phdr_size() <= data.len(),
    ensures
        fields_at(
            l,
            segments::scan_phdrs(l, data, phoff, ent, n).data,
            nth(phoff, j, ent),
        ) == normalized(fields_at(l, data, nth(phoff, j, ent))),
{
    let o = nth(phoff, j, ent);
    let size = l.phdr_size() as int;
    assert(0 <= j * ent) by (nonlinear_arith)
        requires
            0 <= j,
            0 <= ent,
    ;
    let before = segments::scan_phdrs(l, data, phoff, ent, j as nat);
    let after = segments::scan_phdrs(l, data, phoff, ent, (j + 1) as nat);
    let all = segments::scan_phdrs(l, data, phoff, ent, n);
    segments::lemma_scan_len(l, data, phoff, ent, j as nat);
    assert forall|k: int| o <= k < o + size implies #[trigger] before.data[k] == data[k] by {
        lemma_scan_frame(l, data, phoff, ent, 0, j as nat, k);
    }
    assert forall|k: int| o <= k < o + size implies #[trigger] all.data[k] == after.data[k] by {
        lemma_scan_frame(l, data, phoff, ent, (j + 1) as nat, n, k);
    }
    lemma_fields_frame(l, before.data, data, o);
    lemma_step_normalizes(l, before, o);
    lemma_fields_frame(l, all.data, after.data, o);
}

/// A rebuild normalizes every program header of the image: its file offset is its
/// address, a loaded segment is present in full, and all else is kept. The header
/// must overlap no other, nor the ELF header, nor a dynamic symbol.
pub proof fn law_rebuild_normalizes_headers(image: Seq<u8>, injected: Seq<InjectedSym>, j: int)
    requires
        rebuild::refusal(image) is None,
        is_header(image, j),
        header_stands_apart(image, j),
        rebuild::layout_of(image).ehdr_size() <= header_at(image, j),
        forall|m: int|
            is_symbol(image, m) ==> #[trigger] symbol_at(image, m)
                + rebuild::layout_of(image).sym_size() <= header_at(image, j) || header_at(
                image,
                j,
            ) + rebuild::layout_of(image).phdr_size() <= symbol_at(image, m),
    ensures
        fields_at(
            rebuild::layout_of(image),
            rebuild::rebuilt(image, injected),
            header_at(image, j),
        ) == normalized(fields_at(rebuild::layout_of(image), image, header_at(image, j))),
{
    let l = rebuild::layout_of(image);
    let o = header_at(image, j);
    let phoff = l.phoff_at(image, 0) as int;
    let ent = rebuild::phdr_stride(l, image) as int;
    let secs = rebuild::all_sections(image, injected);
    let patched = rebuild::patched_image(image, injected);
    let d = rebuild::dyn_image(image);
    lemma_stands_apart(image, j);
    lemma_scan_normalizes(l, image, phoff, ent, l.e_phnum(image) as nat, j);
    assert forall|k: int| o <= k < o + l.phdr_size() implies #[trigger] rebuild::rebuilt(
        image,
        injected,
    )[k] == d.data[k] by {
        lemma_patched_byte(image, injected, k);
        rebuild::lemma_patched_len(image, injected);
        readback::law_image_is_kept(l, patched, secs, k);
    }
    lemma_fields_frame(l, rebuild::rebuilt(image, injected), d.data, o);
}

/// A header that no other overlaps is as it was in the image when the pass comes
/// to it.
pub proof fn law_header_is_reached_unchanged(image: Seq<u8>, j: int)
    requires
        is_header(image, j),
        header_stands_apart(image, j),
    ensures
        fields_at(rebuild::layout_of(image), reached(image, j), header_at(image, j)) == fields_at(
            rebuild::layout_of(image),
            image,
            header_at(image, j),
        ),
{
    let l = rebuild::layout_of(image);
    let o = header_at(image, j);
    let phoff = l.phoff_at(image, 0) as int;
    let ent = rebuild::phdr_stride(l, image) as int;
    lemma_stands_apart(image, j);
    assert(0 <= j * ent) by (nonlinear_arith)
        requires
            0 <= j,
            0 <= ent,
    ;
    assert forall|k: int| o <= k < o + l.phdr_size() implies #[trigger] reached(image, j)[k]
        == image[k] by {
        lemma_scan_frame(l, image, phoff, ent, 0, j as nat, k);
    }
    lemma_fields_frame(l, reached(image, j), image, o);
}

/// Whether `k` is one of `size` positions from `o` on.
spec fn in_range(o: int, k: int, size: int) -> bool {
    o <= k < o + size
}

/// No symbol of a table overlaps another.
proof fn lemma_symbols_apart(l: ElfLayout, off: int, j: int)
    ensures
        forall|k: int, i: int| #[trigger]
            in_range(nth(off, j, l.sym_size() as int), k, l.sym_size() as int) && i != j
                ==> !in_symbol_patch(l, #[trigger] nth(off, i, l.sym_size() as int), k),
{
    let size = l.sym_size() as int;
    let o = nth(off, j, size);
    assert forall|k: int, i: int| #[trigger]
        in_range(o, k, size) && i != j implies !in_symbol_patch(
        l,
        #[trigger] nth(off, i, size),
        k,
    ) by {
        if i < j {
            assert(i * size + size <= j * size) by (nonlinear_arith)
                requires
                    i + 1 <= j,
                    0 <= size,
            ;
        } else {
            assert(j * size + size <= i * size) by (nonlinear_arith)
                requires
                    j + 1 <= i,
                    0 <= size,
            ;
        }
    }
}

/// A symbol is as it was when its turn to be remapped comes.
proof fn lemma_symbol_waits(l: ElfLayout, data: Seq<u8>, off: int, secs: Seq<Section>, j: int)
    requires
        0 <= j,
        0 <= off,
        nth(off, j, l.sym_size() as int) + l.sym_size() <= data.len(),
    ensures
        ({
            let o = nth(off, j, l.sym_size() as int);
            let before = emit::remap_symbols(l, data, off, j as nat, secs);
            &&& forall|k: int| o <= k < o + l.sym_size() ==> #[trigger] before[k] == data[k]
            &&& l.sym_shndx_at(before, o) == l.sym_shndx_at(data, o)
            &&& l.sym_value_at(before, o) == l.sym_value_at(data, o)
        }),
{
    let size = l.sym_size() as int;
    let o = nth(off, j, size);
    let before = emit::remap_symbols(l, data, off, j as nat, secs);
    assert(0 <= j * size) by (nonlinear_arith)
        requires
            0 <= j,
            0 <= size,
    ;
    lemma_symbols_apart(l, off, j);
    assert forall|k: int| o <= k < o + size implies #[trigger] before[k] == data[k] by {
        assert(in_range(o, k, size));
        lemma_remap_frame(l, data, off, 0, j as nat, secs, k);
    }
}

/// Remapping touches symbol `j` once.
proof fn lemma_remap_symbol(
    l: ElfLayout,
    data: Seq<u8>,
    off: int,
    n: nat,
    secs: Seq<Section>,
    j: int,
)
    requires
        0 <= j < n,
        0 <= off,
        nth(off, j, l.sym_size() as int) + l.sym_size() <= data.len(),
    ensures
        ({
            let o = nth(off, j, l.sym_size() as int);
            let r = emit::remap_symbols(l, data, off, n, secs);
            forall|k: int|
                o <= k < o + l.sym_size() ==> #[trigger] r[k] == emit::remap_symbol(
                    l,
                    data,
                    o,
                    secs,
                )[k]
        }),
{
    let size = l.sym_size() as int;
    let o = nth(off, j, size);
    assert(0 <= j * size) by (nonlinear_arith)
        requires
            0 <= j,
            0 <= size,
    ;
    lemma_symbols_apart(l, off, j);
    lemma_symbol_waits(l, data, off, secs, j);
    let before = emit::remap_symbols(l, data, off, j as nat, secs);
    let after = emit::remap_symbols(l, data, off, (j + 1) as nat, secs);
    let all = emit::remap_symbols(l, data, off, n, secs);
    emit::lemma_remap_len(l, data, off, j as nat, secs);
    assert forall|k: int| o <= k < o + size implies #[trigger] all[k] == after[k] by {
        assert(in_range(o, k, size));
        lemma_remap_frame(l, data, off, (j + 1) as nat, n, secs, k);
    }
    assert(after == emit::remap_symbol(l, before, o, secs));
}

/// A rebuild points every defined dynamic symbol at the first allocated section
/// around its value, if there is one; undefined and reserved symbols keep their
/// section index, and every symbol all else that it holds. The symbols must
/// overlap neither the ELF header nor the program headers.
pub proof fn law_rebuild_remaps_symbols(image: Seq<u8>, injected: Seq<InjectedSym>, j: int)
    requires
        rebuild::refusal(image) is None,
        is_symbol(image, j),
        rebuild::layout_of(image).ehdr_size() <= symbol_at(image, j),
        forall|m: int|
            is_header(image, m) ==> #[trigger] header_at(image, m)
                + rebuild::layout_of(image).phdr_size() <= symbol_at(image, j) || symbol_at(
                image,
                j,
            ) + rebuild::layout_of(image).sym_size() <= header_at(image, m),
    ensures
        ({
            let l = rebuild::layout_of(image);
            let o = symbol_at(image, j);
            let file = rebuild::rebuilt(image, injected);
            let shndx = l.sym_shndx_at(image, o);
            let value = l.sym_value_at(image, o);
            &&& l.sym_name_at(file, o) == l.sym_name_at(image, o)
            &&& l.sym_value_at(file, o) == value
            &&& l.sym_bytesize_at(file, o) == l.sym_bytesize_at(image, o)
            &&& l.sym_info_at(file, o) == l.sym_info_at(image, o)
            &&& l.sym_other_at(file, o) == l.sym_other_at(image, o)
            &&& l.sym_shndx_at(file, o) == if shndx == 0 || shndx >= 0xff00 {
                shndx
            } else {
                match sections::covering(value, rebuild::all_sections(image, injected), 0) {
                    Some(i) => i as u16,
                    None => shndx,
                }
            }
        }),
{
    let l = rebuild::layout_of(image);
    let d = rebuild::dyn_image(image);
    let o = symbol_at(image, j);
    let size = l.sym_size() as int;
    let off = d.table[DT_SYMTAB] as int;
    let secs = rebuild::all_sections(image, injected);
    let patched = rebuild::patched_image(image, injected);
    let file = rebuild::rebuilt(image, injected);
    let phoff = l.phoff_at(image, 0) as int;
    let ent = rebuild::phdr_stride(l, image) as int;
    let n = l.e_phnum(image) as nat;
    rebuild::lemma_scanned_len(image);
    rebuild::lemma_patched_len(image, injected);
    assert forall|k: int| o <= k < o + size implies #[trigger] d.data[k] == image[k] by {
        assert forall|i: int|
            0 <= i < n && #[trigger] nth(phoff, i, ent) + l.phdr_size()
                <= image.len() implies !normalizing_writes(
            l,
            segments::scan_phdrs(l, image, phoff, ent, i as nat).data,
            nth(phoff, i, ent),
            k,
        ) by {
            assert(is_header(image, i));
            assert(header_at(image, i) == nth(phoff, i, ent));
        }
        lemma_scan_frame(l, image, phoff, ent, 0, n, k);
    }
    lemma_remap_symbol(l, d.data, off, d.symcount as nat, secs, j);
    let one = emit::remap_symbol(l, d.data, o, secs);
    assert forall|k: int| o <= k < o + size implies #[trigger] file[k] == one[k] by {
        readback::law_image_is_kept(l, patched, secs, k);
        assert(patched[k] == one[k]);
    }
    assert(l.sym_shndx_at(d.data, o) == l.sym_shndx_at(image, o));
    assert(l.sym_value_at(d.data, o) == l.sym_value_at(image, o));
    match sections::covering(l.sym_value_at(image, o), secs, 0) {
        Some(i) => {
            bytes::law_u16_write_then_read(d.data, o + l.sym_shndx_off(), i as u16);
        },
        None => {},
    }
}

} // verus!
