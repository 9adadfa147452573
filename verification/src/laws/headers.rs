//! The program headers of an image: which segments a rebuild goes by, and what
//! becomes of the headers.
use crate::dynamic;
use crate::emit::InjectedSym;
use crate::laws::elf;
use crate::layout::ElfLayout;
use crate::readback;
use crate::rebuild;
use crate::rebuild::RebuildError;
use crate::segments;
use crate::segments::LoadSeg;
use crate::so_fix;
use crate::so_fix::{FixError, FixFailure, FixedSo};
use crate::upkeep;
use vstd::prelude::*;

verus! {

/// The class of an image: 2 stands for the 64-bit layout.
pub open spec fn class_of(image: Seq<u8>) -> ElfLayout {
    ElfLayout { is64: image[4] == 2 }
}

/// How far apart the program headers are: as the ELF header says, or by their size
/// when it says 0.
pub open spec fn stride(image: Seq<u8>) -> int {
    let l = class_of(image);
    let n = elf::at(image, elf::by_class(l, 54, 42), 2);
    if n == 0 {
        elf::by_class(l, 56, 32)
    } else {
        n
    }
}

/// Offset of program header `j`.
pub open spec fn header(image: Seq<u8>, j: int) -> int {
    elf::address(class_of(image), image, 32, 28) + j * stride(image)
}

/// Whether the image has a program header `j` and holds all of it.
pub open spec fn has_header(image: Seq<u8>, j: int) -> bool {
    let l = class_of(image);
    &&& 0 <= j < elf::at(image, elf::by_class(l, 56, 44), 2)
    &&& header(image, j) + elf::by_class(l, 56, 32) <= image.len()
}

/// `p_type` of program header `j`.
pub open spec fn typ(image: Seq<u8>, j: int) -> int {
    elf::at(image, header(image, j), 4)
}

/// `p_vaddr` of program header `j`.
pub open spec fn vaddr(image: Seq<u8>, j: int) -> int {
    let o = header(image, j);
    elf::address(class_of(image), image, o + 16, o + 8)
}

/// `p_filesz` of program header `j`.
pub open spec fn filesz(image: Seq<u8>, j: int) -> int {
    let o = header(image, j);
    elf::address(class_of(image), image, o + 32, o + 16)
}

/// `p_memsz` of program header `j`.
pub open spec fn memsz(image: Seq<u8>, j: int) -> int {
    let o = header(image, j);
    elf::address(class_of(image), image, o + 40, o + 20)
}

/// Whether program header `j` is there and describes a loaded segment.
pub open spec fn is_load(image: Seq<u8>, j: int) -> bool {
    has_header(image, j) && typ(image, j) == 1
}

/// Whether program header `j` is there and describes the dynamic segment.
pub open spec fn is_dynamic(image: Seq<u8>, j: int) -> bool {
    has_header(image, j) && typ(image, j) == 2
}

/// Whether program header `j` is the last that describes the dynamic segment.
pub open spec fn is_last_dynamic(image: Seq<u8>, j: int) -> bool {
    is_dynamic(image, j) && forall|i: int| j < i ==> !#[trigger] is_dynamic(image, i)
}

/// Whether no program header overlaps another.
pub open spec fn headers_apart(image: Seq<u8>) -> bool {
    let size = elf::by_class(class_of(image), 56, 32);
    forall|i: int, j: int|
        i != j && #[trigger] has_header(image, i) && #[trigger] has_header(image, j) ==> header(
            image,
            i,
        ) + size <= header(image, j) || header(image, j) + size <= header(image, i)
}

/// Whether the image holds an ELF header.
pub open spec fn has_elf_header(image: Seq<u8>) -> bool {
    elf::by_class(class_of(image), 64, 52) <= image.len()
}

/// The headers are where the library looks for them.
pub proof fn lemma_same_headers(image: Seq<u8>)
    requires
        has_elf_header(image),
    ensures
        rebuild::layout_of(image) == class_of(image),
        rebuild::phdr_stride(class_of(image), image) == stride(image),
        class_of(image).phoff_at(image, 0) == elf::address(class_of(image), image, 32, 28),
        class_of(image).e_phnum(image) == elf::at(
            image,
            elf::by_class(class_of(image), 56, 44),
            2,
        ),
        forall|j: int| #[trigger] upkeep::header_at(image, j) == header(image, j),
        forall|j: int| #[trigger] upkeep::is_header(image, j) == has_header(image, j),
        headers_apart(image) ==> forall|j: int| #[trigger]
            has_header(image, j) ==> upkeep::header_stands_apart(image, j),
{
    let l = class_of(image);
    elf::law_elf_header_is_read(l, image);
    assert(forall|j: int| #[trigger] upkeep::header_at(image, j) == header(image, j));
    assert(forall|j: int| #[trigger] upkeep::is_header(image, j) == has_header(image, j));
    if headers_apart(image) {
        assert forall|j: int| #[trigger] has_header(image, j) implies upkeep::header_stands_apart(
            image,
            j,
        ) by {
            assert forall|i: int| upkeep::is_header(image, i) && i != j implies
                #[trigger] upkeep::header_at(image, i) + l.phdr_size() <= upkeep::header_at(
                image,
                j,
            ) || upkeep::header_at(image, j) + l.phdr_size() <= upkeep::header_at(image, i) by {
                assert(has_header(image, i));
            }
        }
    }
}

/// A header that is there starts inside the image.
proof fn lemma_header_start(image: Seq<u8>, j: int)
    requires
        has_elf_header(image),
        has_header(image, j),
    ensures
        0 <= header(image, j),
{
    let l = class_of(image);
    let n = stride(image);
    lemma_same_headers(image);
    assert(0 <= j * n) by (nonlinear_arith)
        requires
            0 <= j,
            0 <= n,
    ;
}

/// The segment that program header `j` describes.
pub open spec fn segment(image: Seq<u8>, j: int) -> LoadSeg {
    LoadSeg {
        vaddr: vaddr(image, j) as u64,
        filesz: filesz(image, j) as u64,
        memsz: memsz(image, j) as u64,
    }
}

/// Whether one of the first `n` program headers describes `s` as a loaded segment.
pub open spec fn is_loaded(image: Seq<u8>, n: nat, s: LoadSeg) -> bool {
    exists|j: int| 0 <= j < n && #[trigger] is_load(image, j) && s == segment(image, j)
}

/// The loaded segments among the first `n` program headers.
pub open spec fn loads_of(image: Seq<u8>, n: nat) -> Seq<LoadSeg>
    decreases n,
{
    if n == 0 {
        Seq::empty()
    } else {
        let before = loads_of(image, (n - 1) as nat);
        if is_load(image, n - 1) {
            before.push(
                segment(image, n - 1),
            )
        } else {
            before
        }
    }
}

/// The address and size of the last dynamic segment among the first `n` headers.
spec fn dynamic_of(image: Seq<u8>, n: nat) -> (u64, u64)
    decreases n,
{
    if n == 0 {
        (0, 0)
    } else if is_dynamic(image, n - 1) {
        (vaddr(image, n - 1) as u64, memsz(image, n - 1) as u64)
    } else {
        dynamic_of(image, (n - 1) as nat)
    }
}

proof fn lemma_scan(image: Seq<u8>, n: nat)
    requires
        has_elf_header(image),
        headers_apart(image),
        n <= elf::at(image, elf::by_class(class_of(image), 56, 44), 2),
    ensures
        ({
            let l = class_of(image);
            let scan = segments::scan_phdrs(
                l,
                image,
                l.phoff_at(image, 0) as int,
                rebuild::phdr_stride(l, image) as int,
                n,
            );
            &&& scan.loads == loads_of(image, n)
            &&& (scan.dyn_addr, scan.dyn_size) == dynamic_of(image, n)
        }),
    decreases n,
{
    let l = class_of(image);
    lemma_same_headers(image);
    if n > 0 {
        let j = n - 1;
        lemma_scan(image, j as nat);
        if has_header(image, j) {
            let o = header(image, j);
            lemma_header_start(image, j);
            upkeep::law_header_is_reached_unchanged(image, j);
            elf::law_program_header_is_read(l, image, o);
            assert(upkeep::header_at(image, j) == o);
            let s = segments::scan_phdrs(
                l,
                image,
                l.phoff_at(image, 0) as int,
                rebuild::phdr_stride(l, image) as int,
                j as nat,
            );
            assert(s.data == upkeep::reached(image, j));
            let f = upkeep::fields_at(l, s.data, o);
            assert(f == upkeep::fields_at(l, image, o));
            reveal(segments::phdr_step);
        } else {
            assert(!upkeep::is_header(image, j));
            assert(upkeep::header_at(image, j) == header(image, j));
        }
    }
}

proof fn lemma_dynamic_of(image: Seq<u8>, n: nat)
    ensures
        forall|j: int|
            j < n && #[trigger] is_dynamic(image, j) && (forall|i: int|
                j < i < n ==> !#[trigger] is_dynamic(image, i)) ==> dynamic_of(image, n) == (
                vaddr(image, j) as u64,
                memsz(image, j) as u64,
            ),
        (forall|j: int| j < n ==> !#[trigger] is_dynamic(image, j)) ==> dynamic_of(image, n) == (
            0u64,
            0u64,
        ),
    decreases n,
{
    if n > 0 {
        lemma_dynamic_of(image, (n - 1) as nat);
        assert(is_dynamic(image, n - 1) || !is_dynamic(image, n - 1));
    }
}

proof fn lemma_fields_are_small(image: Seq<u8>, j: int)
    requires
        has_elf_header(image),
        has_header(image, j),
    ensures
        0 <= vaddr(image, j) <= u64::MAX,
        0 <= filesz(image, j) <= u64::MAX,
        0 <= memsz(image, j) <= u64::MAX,
{
    lemma_header_start(image, j);
    elf::law_program_header_is_read(class_of(image), image, header(image, j));
}

/// A rebuild goes by the last program header of type 2, and none of any other type,
/// as the dynamic segment; it goes by all program headers of type 1, in order, and
/// none of any other type, as the loaded segments.
pub proof fn law_segments_go_by_type(image: Seq<u8>)
    requires
        has_elf_header(image),
        headers_apart(image),
    ensures
        ({
            let d = rebuild::dyn_image(image);
            let n = elf::at(image, elf::by_class(class_of(image), 56, 44), 2);
            &&& forall|j: int| #[trigger]
                is_last_dynamic(image, j) ==> d.dyn_addr == vaddr(image, j) && d.dyn_size == memsz(
                    image,
                    j,
                )
            &&& (forall|j: int| !#[trigger] is_dynamic(image, j)) ==> d.dyn_addr == 0 && d.dyn_size
                == 0
            &&& rebuild::scan_image(image).loads == loads_of(image, n as nat)
        }),
{
    let l = class_of(image);
    lemma_same_headers(image);
    let n = l.e_phnum(image) as nat;
    lemma_scan(image, n);
    lemma_dynamic_of(image, n);
    let d = rebuild::dyn_image(image);
    assert forall|j: int| #[trigger] is_last_dynamic(image, j) implies d.dyn_addr == vaddr(image, j)
        && d.dyn_size == memsz(image, j) by {
        lemma_fields_are_small(image, j);
        assert(is_dynamic(image, j));
    }
}

/// The dynamic table of an image is what stands at its dynamic segment, and the hash
/// tables that it names tell how many symbols there are.
pub proof fn law_dynamic_table_stands_at_the_segment(image: Seq<u8>)
    ensures
        ({
            let d = rebuild::dyn_image(image);
            &&& d.l == class_of(image)
            &&& d.data.len() == image.len()
            &&& d.table == dynamic::dyn_table(class_of(image), d.data, d.dyn_addr, d.dyn_size)
            &&& d.symcount == dynamic::symbol_count(class_of(image), d.data, d.table)
        }),
{
    rebuild::lemma_scanned_len(image);
}

/// What the loaded segments are: one for each program header of type 1, with the
/// address and the sizes that the header gives.
pub proof fn law_loads_are_the_load_headers(image: Seq<u8>, n: nat)
    ensures
        forall|j: int|
            0 <= j < n && #[trigger] is_load(image, j) ==> loads_of(image, n).contains(
                segment(image, j),
            ),
        forall|i: int|
            0 <= i < loads_of(image, n).len() ==> is_loaded(
                image,
                n,
                #[trigger] loads_of(image, n)[i],
            ),
    decreases n,
{
    if n > 0 {
        let m = (n - 1) as nat;
        law_loads_are_the_load_headers(image, m);
        let before = loads_of(image, m);
        let all = loads_of(image, n);
        assert forall|j: int| 0 <= j < n && #[trigger] is_load(image, j) implies all.contains(
            segment(image, j),
        ) by {
            if j < m {
                let i = choose|i: int| 0 <= i < before.len() && before[i] == segment(image, j);
                assert(all[i] == segment(image, j));
            } else {
                assert(all[before.len() as int] == segment(image, j));
            }
        }
        assert forall|i: int| 0 <= i < all.len() implies is_loaded(
            image,
            n,
            #[trigger] all[i],
        ) by {
            if i < before.len() {
                assert(all[i] == before[i]);
                assert(is_loaded(image, m, before[i]));
                let j = choose|j: int|
                    0 <= j < m && #[trigger] is_load(image, j) && before[i] == segment(image, j);
                assert(is_load(image, j) && all[i] == segment(image, j));
            } else {
                assert(is_load(image, n - 1) && all[i] == segment(image, n - 1));
            }
        }
    }
}

/// The mapped span ends where the segment that reaches furthest does in memory, and
/// its file-backed part where the segment that reaches furthest does in the file.
pub proof fn law_ends_are_the_furthest(loads: Seq<LoadSeg>)
    ensures
        forall|i: int|
            0 <= i < loads.len() ==> (#[trigger] loads[i]).vaddr + loads[i].memsz
                <= segments::mem_end(loads) && loads[i].vaddr + loads[i].filesz
                <= segments::file_end(loads),
        loads.len() == 0 ==> segments::mem_end(loads) == 0 && segments::file_end(loads) == 0,
        loads.len() > 0 ==> (exists|i: int|
            0 <= i < loads.len() && (#[trigger] loads[i]).vaddr + loads[i].memsz
                == segments::mem_end(loads)) && (exists|i: int|
            0 <= i < loads.len() && (#[trigger] loads[i]).vaddr + loads[i].filesz
                == segments::file_end(loads)),
    decreases loads.len(),
{
    if loads.len() > 0 {
        let rest = loads.drop_last();
        law_ends_are_the_furthest(rest);
        let n = loads.len() - 1;
        assert(loads[n] == loads.last());
        assert(forall|i: int| 0 <= i < n ==> rest[i] == #[trigger] loads[i]);
        if segments::mem_end(loads) != loads[n].vaddr + loads[n].memsz {
            let i = choose|i: int|
                0 <= i < rest.len() && (#[trigger] rest[i]).vaddr + rest[i].memsz
                    == segments::mem_end(rest);
            assert(rest.len() > 0);
            assert(loads[i].vaddr + loads[i].memsz == segments::mem_end(loads));
        }
        if segments::file_end(loads) != loads[n].vaddr + loads[n].filesz {
            let i = choose|i: int|
                0 <= i < rest.len() && (#[trigger] rest[i]).vaddr + rest[i].filesz
                    == segments::file_end(rest);
            assert(rest.len() > 0);
            assert(loads[i].vaddr + loads[i].filesz == segments::file_end(loads));
        }
    }
}

/// Segments fit when each ends inside the 64-bit address space.
pub proof fn law_segments_that_fit(loads: Seq<LoadSeg>)
    ensures
        segments::loads_fit(loads) <==> forall|i: int|
            0 <= i < loads.len() ==> (#[trigger] loads[i]).vaddr + loads[i].memsz
                <= 0xffff_ffff_ffff_ffff && loads[i].vaddr + loads[i].filesz
                <= 0xffff_ffff_ffff_ffff,
{
}

/// The bounds that a rebuild lays its sections out by are those of its loaded
/// segments: none reaches further, and some segment reaches as far.
pub proof fn law_bounds_are_those_of_the_loads(image: Seq<u8>)
    requires
        has_elf_header(image),
        headers_apart(image),
        exists|j: int| #[trigger] is_load(image, j),
        forall|j: int| #[trigger]
            is_load(image, j) ==> vaddr(image, j) + memsz(image, j) <= u64::MAX && vaddr(image, j)
                + filesz(image, j) <= u64::MAX,
    ensures
        ({
            let d = rebuild::dyn_image(image);
            &&& forall|j: int| #[trigger]
                is_load(image, j) ==> vaddr(image, j) + memsz(image, j) <= d.max_vaddr && vaddr(
                    image,
                    j,
                ) + filesz(image, j) <= d.load_file_end
            &&& exists|j: int| #[trigger]
                is_load(image, j) && vaddr(image, j) + memsz(image, j) == d.max_vaddr
            &&& exists|j: int| #[trigger]
                is_load(image, j) && vaddr(image, j) + filesz(image, j) == d.load_file_end
        }),
{
    let l = class_of(image);
    lemma_same_headers(image);
    law_segments_go_by_type(image);
    let n = elf::at(image, elf::by_class(l, 56, 44), 2) as nat;
    let loads = loads_of(image, n);
    let d = rebuild::dyn_image(image);
    law_loads_are_the_load_headers(image, n);
    law_ends_are_the_furthest(loads);
    assert forall|j: int| #[trigger] is_load(image, j) implies vaddr(image, j) + memsz(image, j)
        <= segments::mem_end(loads) && vaddr(image, j) + filesz(image, j) <= segments::file_end(
        loads,
    ) by {
        lemma_fields_are_small(image, j);
        let x = segment(image, j);
        assert(loads.contains(x));
        let i = choose|i: int| 0 <= i < loads.len() && loads[i] == x;
        assert(loads[i].vaddr + loads[i].memsz <= segments::mem_end(loads));
    }
    let j0 = choose|j: int| #[trigger] is_load(image, j);
    assert(is_load(image, j0));
    assert(loads.len() > 0) by {
        let x = segment(image, j0);
        assert(loads.contains(x));
    }
    let a = choose|i: int|
        0 <= i < loads.len() && (#[trigger] loads[i]).vaddr + loads[i].memsz == segments::mem_end(
            loads,
        );
    let b = choose|i: int|
        0 <= i < loads.len() && (#[trigger] loads[i]).vaddr + loads[i].filesz == segments::file_end(
            loads,
        );
    assert(loads[a].vaddr + loads[a].memsz == segments::mem_end(loads));
    assert(loads[b].vaddr + loads[b].filesz == segments::file_end(loads));
    let ja = choose|j: int|
        0 <= j < n && #[trigger] is_load(image, j) && loads[a] == segment(image, j);
    let jb = choose|j: int|
        0 <= j < n && #[trigger] is_load(image, j) && loads[b] == segment(image, j);
    lemma_fields_are_small(image, ja);
    lemma_fields_are_small(image, jb);
    assert(segments::mem_end(loads) <= u64::MAX && segments::file_end(loads) <= u64::MAX);
    assert(is_load(image, ja) && vaddr(image, ja) + memsz(image, ja) == d.max_vaddr);
    assert(is_load(image, jb) && vaddr(image, jb) + filesz(image, jb) == d.load_file_end);
}

/// The ELF magic is the four bytes 0x7f, 'E', 'L', 'F' at the start.
pub proof fn law_magic_is_at_the_start(data: Seq<u8>)
    ensures
        rebuild::has_elf_magic(data) <==> data.len() >= 4 && data.take(4) == seq![
            0x7fu8,
            0x45u8,
            0x4cu8,
            0x46u8,
        ],
{
    if data.len() >= 4 {
        let m = data.take(4);
        assert(m[0] == data[0] && m[1] == data[1] && m[2] == data[2] && m[3] == data[3]);
        if rebuild::has_elf_magic(data) {
            assert(m =~= seq![0x7fu8, 0x45u8, 0x4cu8, 0x46u8]);
        }
    }
}

/// Whether an image starts as an ELF file of a known class does.
pub open spec fn starts_as_elf(image: Seq<u8>) -> bool {
    &&& image.len() >= 16
    &&& image.take(4) == seq![0x7fu8, 0x45u8, 0x4cu8, 0x46u8]
    &&& image[4] == 1 || image[4] == 2
}

/// Whether the ELF header names a program header table with headers in it.
pub open spec fn names_headers(image: Seq<u8>) -> bool {
    let l = class_of(image);
    elf::address(l, image, 32, 28) != 0 && elf::at(image, elf::by_class(l, 56, 44), 2) != 0
}

/// Every image is refused for the first thing that is wrong with its ELF header, and
/// for no other reason.
pub proof fn law_header_faults(image: Seq<u8>)
    ensures
        ({
            let r = rebuild::refusal(image);
            let magic = image.take(4) == seq![0x7fu8, 0x45u8, 0x4cu8, 0x46u8];
            &&& image.len() < 16 ==> r == Some(RebuildError::ImageTooSmall)
            &&& image.len() >= 16 && !magic ==> r == Some(RebuildError::NotElf)
            &&& image.len() >= 16 && magic && image[4] != 1 && image[4] != 2 ==> r == Some(
                RebuildError::UnsupportedClass(image[4]),
            )
            &&& starts_as_elf(image) && image[5] != 1 ==> r == Some(
                RebuildError::NotLittleEndian(image[5]),
            )
            &&& starts_as_elf(image) && image[5] == 1 && !has_elf_header(image) ==> r == Some(
                RebuildError::SmallerThanHeader,
            )
            &&& starts_as_elf(image) && image[5] == 1 && has_elf_header(image) && !names_headers(
                image,
            ) ==> r == Some(RebuildError::NoProgramHeaders)
        }),
{
    law_magic_is_at_the_start(image);
    if has_elf_header(image) {
        elf::law_elf_header_is_read(class_of(image), image);
    }
}

/// An image with a good ELF header is refused when no program header describes a
/// dynamic segment, or the last that does puts it at address 0, and when none
/// describes a loaded segment. All others can be rebuilt.
pub proof fn law_segments_that_are_needed(image: Seq<u8>)
    requires
        starts_as_elf(image),
        image[5] == 1,
        has_elf_header(image),
        names_headers(image),
        headers_apart(image),
    ensures
        ({
            let r = rebuild::refusal(image);
            let located = exists|j: int| #[trigger]
                is_last_dynamic(image, j) && vaddr(image, j) != 0;
            let loaded = exists|j: int| #[trigger] is_load(image, j);
            &&& !located ==> r == Some(RebuildError::NoDynamicSegment)
            &&& located && !loaded ==> r == Some(RebuildError::NoLoadSegments)
            &&& located && loaded ==> r is None
        }),
{
    let l = class_of(image);
    law_magic_is_at_the_start(image);
    lemma_same_headers(image);
    law_segments_go_by_type(image);
    let n = elf::at(image, elf::by_class(l, 56, 44), 2) as nat;
    law_loads_are_the_load_headers(image, n);
    let loads = loads_of(image, n);
    let located = exists|j: int| #[trigger] is_last_dynamic(image, j) && vaddr(image, j) != 0;
    if exists|j: int| #[trigger] is_dynamic(image, j) {
        let j = choose|j: int| #[trigger] is_dynamic(image, j);
        let k = lemma_last_dynamic(image, j, n as int);
        assert(is_last_dynamic(image, k));
        if !located {
            assert(vaddr(image, k) == 0);
        }
    }
    if exists|j: int| #[trigger] is_load(image, j) {
        let j = choose|j: int| #[trigger] is_load(image, j);
        assert(loads.contains(segment(image, j)));
    } else if loads.len() > 0 {
        assert(is_loaded(image, n, loads[0]));
    }
}

/// Where there is a dynamic header there is a last one.
proof fn lemma_last_dynamic(image: Seq<u8>, j: int, n: int) -> (k: int)
    requires
        is_dynamic(image, j),
        n == elf::at(image, elf::by_class(class_of(image), 56, 44), 2),
    ensures
        is_last_dynamic(image, k),
    decreases n - j,
{
    if forall|i: int| j < i ==> !#[trigger] is_dynamic(image, i) {
        j
    } else {
        let i = choose|i: int| j < i && #[trigger] is_dynamic(image, i);
        lemma_last_dynamic(image, i, n)
    }
}

/// In a rebuilt file the program headers fit the memory image: each segment lies at
/// its address, a loaded one in full, and all else is as it was. The header must
/// overlap neither the ELF header nor a dynamic symbol.
pub proof fn law_rebuilt_headers_fit_the_image(
    image: Seq<u8>,
    injected: Seq<InjectedSym>,
    j: int,
)
    requires
        rebuild::refusal(image) is None,
        headers_apart(image),
        has_header(image, j),
        elf::by_class(class_of(image), 64, 52) <= header(image, j),
        forall|m: int|
            upkeep::is_symbol(image, m) ==> #[trigger] upkeep::symbol_at(image, m) + elf::by_class(
                class_of(image),
                24,
                16,
            ) <= header(image, j) || header(image, j) + elf::by_class(class_of(image), 56, 32)
                <= upkeep::symbol_at(image, m),
    ensures
        ({
            let l = class_of(image);
            let file = rebuild::rebuilt(image, injected);
            let o = header(image, j);
            &&& elf::at(file, o, 4) == typ(image, j)
            &&& elf::address(l, file, o + 8, o + 4) == vaddr(image, j)
            &&& elf::address(l, file, o + 16, o + 8) == vaddr(image, j)
            &&& elf::address(l, file, o + 32, o + 16) == if typ(image, j) == 1 && memsz(image, j)
                > filesz(image, j) {
                memsz(image, j)
            } else {
                filesz(image, j)
            }
            &&& elf::address(l, file, o + 40, o + 20) == memsz(image, j)
        }),
{
    let l = class_of(image);
    let o = header(image, j);
    let file = rebuild::rebuilt(image, injected);
    lemma_same_headers(image);
    lemma_header_start(image, j);
    upkeep::law_rebuild_normalizes_headers(image, injected, j);
    rebuild::lemma_patched_len(image, injected);
    readback::lemma_file_len(
        l,
        rebuild::patched_image(image, injected),
        rebuild::all_sections(image, injected),
    );
    assert(upkeep::header_at(image, j) == o);
    elf::law_program_header_is_read(l, image, o);
    elf::law_program_header_is_read(l, file, o);
    let h = upkeep::fields_at(l, image, o);
    let g = upkeep::fields_at(l, file, o);
    assert(g == upkeep::normalized(h));
}

/// After the header-only repair the headers of loaded segments fit the memory image,
/// and all others are as they were.
pub proof fn law_repaired_headers_fit_the_image(data: Seq<u8>, j: int)
    requires
        has_elf_header(data),
        headers_apart(data),
        has_header(data, j),
        elf::by_class(class_of(data), 64, 52) <= header(data, j),
    ensures
        ({
            let l = class_of(data);
            let file = so_fix::header_only(data);
            let o = header(data, j);
            &&& file.len() == data.len()
            &&& elf::at(file, o, 4) == typ(data, j)
            &&& elf::address(l, file, o + 8, o + 4) == if typ(data, j) == 1 {
                vaddr(data, j)
            } else {
                elf::address(l, data, o + 8, o + 4)
            }
            &&& elf::address(l, file, o + 16, o + 8) == vaddr(data, j)
            &&& elf::address(l, file, o + 32, o + 16) == if typ(data, j) == 1 && memsz(data, j)
                > filesz(data, j) {
                memsz(data, j)
            } else {
                filesz(data, j)
            }
            &&& elf::address(l, file, o + 40, o + 20) == memsz(data, j)
        }),
{
    let l = class_of(data);
    let o = header(data, j);
    let file = so_fix::header_only(data);
    lemma_same_headers(data);
    lemma_header_start(data, j);
    so_fix::law_header_only_normalizes_loads(data, j);
    so_fix::law_header_only_drops_sections(data);
    assert(upkeep::header_at(data, j) == o);
    elf::law_program_header_is_read(l, data, o);
    elf::law_program_header_is_read(l, file, o);
    let h = upkeep::fields_at(l, data, o);
    let g = upkeep::fields_at(l, file, o);
    assert(g == if h.typ == 1 {
        upkeep::normalized(h)
    } else {
        h
    });
}

/// After the header-only repair the ELF header tells of no section headers.
pub proof fn law_repaired_header_tells_of_no_sections(data: Seq<u8>)
    requires
        has_elf_header(data),
    ensures
        ({
            let l = class_of(data);
            let file = so_fix::header_only(data);
            &&& elf::address(l, file, 40, 32) == 0
            &&& elf::at(file, elf::by_class(l, 60, 48), 2) == 0
            &&& elf::at(file, elf::by_class(l, 62, 50), 2) == 0
        }),
{
    lemma_same_headers(data);
    so_fix::law_header_only_drops_sections(data);
    elf::law_elf_header_is_read(class_of(data), so_fix::header_only(data));
}

/// The header-only repair counts the headers of loaded segments.
proof fn lemma_repair_counts(data: Seq<u8>, n: nat)
    requires
        has_elf_header(data),
        headers_apart(data),
        n <= elf::at(data, elf::by_class(class_of(data), 56, 44), 2),
    ensures
        ({
            let l = class_of(data);
            so_fix::header_scan(
                l,
                data,
                l.phoff_at(data, 0) as int,
                rebuild::phdr_stride(l, data) as int,
                n,
            ).1 == loads_of(data, n).len()
        }),
    decreases n,
{
    let l = class_of(data);
    lemma_same_headers(data);
    if n > 0 {
        let j = n - 1;
        lemma_repair_counts(data, j as nat);
        assert(upkeep::header_at(data, j) == header(data, j));
        if has_header(data, j) {
            lemma_header_start(data, j);
            so_fix::law_header_is_repaired_as_dumped(data, j);
            elf::law_program_header_is_read(l, data, header(data, j));
            let b = so_fix::repair_reached(data, j);
            let f = upkeep::fields_at(l, b, header(data, j));
            assert(f == upkeep::fields_at(l, data, header(data, j)));
        } else {
            assert(!upkeep::is_header(data, j));
        }
    }
}

/// What a repair comes to. What is no ELF file of a known class fails at once. A
/// dump that can be rebuilt is rebuilt. Any other is repaired in its headers, if it
/// has an ELF header that names program headers, and among these one of a loaded
/// segment; else it fails for the first of these that is missing.
pub proof fn law_repair_does_what_it_can(
    data: Seq<u8>,
    injected: Seq<InjectedSym>,
    r: Result<FixedSo, FixFailure>,
)
    requires
        so_fix::is_fix_of(data, injected, r),
        headers_apart(data),
    ensures
        ({
            let why = rebuild::refusal(data);
            let magic = data.len() >= 16 && data.take(4) == seq![0x7fu8, 0x45u8, 0x4cu8, 0x46u8];
            let known = starts_as_elf(data);
            let loaded = exists|j: int| #[trigger] is_load(data, j);
            &&& !magic ==> r == Err::<FixedSo, FixFailure>(
                FixFailure { error: FixError::NotElf, rebuild: None },
            )
            &&& magic && !known ==> r == Err::<FixedSo, FixFailure>(
                FixFailure { error: FixError::UnsupportedClass(data[4]), rebuild: None },
            )
            &&& known && why is None ==> (r matches Ok(FixedSo::Rebuilt(out)) && out@
                == rebuild::rebuilt(data, injected))
            &&& known && why is Some && !has_elf_header(data) ==> r == Err::<FixedSo, FixFailure>(
                FixFailure { error: FixError::TruncatedHeader, rebuild: why },
            )
            &&& known && why is Some && has_elf_header(data) && !names_headers(data) ==> r == Err::<
                FixedSo,
                FixFailure,
            >(FixFailure { error: FixError::NoProgramHeaders, rebuild: why })
            &&& known && why is Some && has_elf_header(data) && names_headers(data) && !loaded
                ==> r == Err::<FixedSo, FixFailure>(
                FixFailure { error: FixError::NoLoadSegments, rebuild: why },
            )
            &&& known && why is Some && has_elf_header(data) && names_headers(data) && loaded ==> (
            r matches Ok(FixedSo::HeaderOnly(out, w)) && out@ == so_fix::header_only(data) && why
                == Some(w))
        }),
{
    law_magic_is_at_the_start(data);
    if has_elf_header(data) {
        let l = class_of(data);
        elf::law_elf_header_is_read(l, data);
        lemma_same_headers(data);
        let n = elf::at(data, elf::by_class(l, 56, 44), 2) as nat;
        lemma_repair_counts(data, n);
        law_loads_are_the_load_headers(data, n);
        let loads = loads_of(data, n);
        if exists|j: int| #[trigger] is_load(data, j) {
            let j = choose|j: int| #[trigger] is_load(data, j);
            assert(loads.contains(segment(data, j)));
        } else if loads.len() > 0 {
            assert(is_loaded(data, n, loads[0]));
        }
    }
}

} // verus!
