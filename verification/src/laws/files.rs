//! A rebuilt file as a reader finds it, from its ELF header on.
use crate::bytes;
use crate::catalog;
use crate::emit;
use crate::emit::InjectedSym;
use crate::laws::contents;
use crate::laws::elf;
use crate::laws::headers;
use crate::layout::ElfLayout;
use crate::readback;
use crate::rebuild;
use crate::sections;
use crate::sections::Section;
use crate::upkeep;
use vstd::prelude::*;

verus! {

/// Whether every offset in a file fits in an address.
pub open spec fn is_addressable(l: ElfLayout, file: Seq<u8>) -> bool {
    file.len() <= elf::by_class(l, 0xffff_ffff_ffff_ffff, 0xffff_ffff)
}

/// Offset of section header `i` of a file.
pub open spec fn header(l: ElfLayout, file: Seq<u8>, i: int) -> int {
    elf::address(l, file, 40, 32) + i * elf::by_class(l, 64, 40)
}

/// The ELF header of a rebuilt file leads to the section header table: one header
/// for each section, at a multiple of the word size, up to the end of the file. The
/// last of them is that of the section names.
pub proof fn law_section_table_ends_the_file(image: Seq<u8>, injected: Seq<InjectedSym>)
    requires
        rebuild::refusal(image) is None,
        is_addressable(headers::class_of(image), rebuild::rebuilt(image, injected)),
    ensures
        ({
            let file = rebuild::rebuilt(image, injected);
            let l = headers::class_of(image);
            let n = rebuild::all_sections(image, injected).len();
            let shoff = elf::address(l, file, 40, 32);
            &&& elf::at(file, elf::by_class(l, 58, 46), 2) == elf::by_class(l, 64, 40)
            &&& elf::at(file, elf::by_class(l, 60, 48), 2) == n
            &&& elf::at(file, elf::by_class(l, 62, 50), 2) == n - 1
            &&& image.len() <= shoff
            &&& shoff % elf::word(l) == 0
            &&& header(l, file, n as int) == file.len()
        }),
{
    let l = headers::class_of(image);
    let file = rebuild::rebuilt(image, injected);
    rebuild::law_rebuilt_header_locates_table(image, injected);
    let n = rebuild::all_sections(image, injected).len();
    assert(n * l.shdr_size() >= 0) by (nonlinear_arith);
    elf::law_elf_header_is_read(l, file);
}

/// Section header `i` is read where it stands.
proof fn lemma_header(image: Seq<u8>, injected: Seq<InjectedSym>, i: int)
    requires
        rebuild::refusal(image) is None,
        is_addressable(headers::class_of(image), rebuild::rebuilt(image, injected)),
        0 <= i < rebuild::all_sections(image, injected).len(),
    ensures
        ({
            let l = headers::class_of(image);
            let file = rebuild::rebuilt(image, injected);
            let o = header(l, file, i);
            let h = readback::header_of(l, file, i);
            &&& h.name == elf::at(file, o, 4)
            &&& h.typ == elf::at(file, o + 4, 4)
            &&& h.flags == elf::address(l, file, o + 8, o + 8)
            &&& h.addr == elf::address(l, file, o + 16, o + 12)
            &&& h.off == elf::address(l, file, o + 24, o + 16)
            &&& h.size == elf::address(l, file, o + 32, o + 20)
            &&& h.link == elf::at(file, elf::by_class(l, o + 40, o + 24), 4)
            &&& h.info == elf::at(file, elf::by_class(l, o + 44, o + 28), 4)
            &&& h.align == elf::address(l, file, o + 48, o + 32)
            &&& h.entsize == elf::address(l, file, o + 56, o + 36)
        }),
{
    let l = headers::class_of(image);
    let file = rebuild::rebuilt(image, injected);
    let n = rebuild::all_sections(image, injected).len() as int;
    let size = elf::by_class(l, 64, 40);
    law_section_table_ends_the_file(image, injected);
    assert(0 <= i * size && i * size + size <= n * size) by (nonlinear_arith)
        requires
            0 <= i,
            i + 1 <= n,
            0 <= size,
    ;
    elf::law_elf_header_is_read(l, file);
    elf::law_section_header_is_read(l, file, header(l, file, i));
}

/// Whether `k` is the section that `name` refers to: the last one of that name, or
/// the first of all where no section has it or there is nothing to refer to.
pub open spec fn is_referred(secs: Seq<Section>, name: Seq<char>, k: int) -> bool {
    if name.len() > 0 && exists|j: int| 0 <= j < secs.len() && (#[trigger] secs[j]).name == name {
        &&& 0 <= k < secs.len()
        &&& secs[k].name == name
        &&& forall|j: int| k < j < secs.len() ==> (#[trigger] secs[j]).name != name
    } else {
        k == 0
    }
}

/// Every section of the image has a header with its type, flags, address, size,
/// alignment and entry size, each with the low bytes that it has room for; its
/// offset is its address. It names the sections that it refers to, and stands under
/// its own name.
pub proof fn law_sections_of_the_image_are_found(
    image: Seq<u8>,
    injected: Seq<InjectedSym>,
    i: int,
)
    requires
        rebuild::refusal(image) is None,
        is_addressable(headers::class_of(image), rebuild::rebuilt(image, injected)),
        1 <= i < rebuild::alloc_sections(image).len(),
    ensures
        ({
            let l = headers::class_of(image);
            let file = rebuild::rebuilt(image, injected);
            let secs = rebuild::all_sections(image, injected);
            let s = rebuild::alloc_sections(image)[i];
            let n = elf::word(l);
            let o = header(l, file, i);
            let names = header(l, file, secs.len() - 1);
            let link = elf::at(file, elf::by_class(l, o + 40, o + 24), 4);
            let info = elf::at(file, elf::by_class(l, o + 44, o + 28), 4);
            &&& elf::at(file, o + 4, 4) == s.typ
            &&& elf::at(file, o + 8, n) == elf::low(s.flags as int, n)
            &&& elf::address(l, file, o + 16, o + 12) == elf::low(s.addr as int, n)
            &&& elf::address(l, file, o + 24, o + 16) == elf::low(s.addr as int, n)
            &&& elf::address(l, file, o + 32, o + 20) == elf::low(s.size as int, n)
            &&& is_referred(secs, s.link_name, link)
            &&& s.info_name.len() > 0 ==> is_referred(secs, s.info_name, info)
            &&& s.info_name.len() == 0 ==> info == s.info
            &&& elf::address(l, file, o + 48, o + 32) == elf::low(s.align as int, n)
            &&& elf::address(l, file, o + 56, o + 36) == elf::low(s.entsize as int, n)
            &&& readback::string_at(
                file,
                elf::address(l, file, names + 24, names + 16) + elf::at(file, o, 4),
            ) == vstd::utf8::encode_utf8(s.name)
        }),
{
    let l = headers::class_of(image);
    let file = rebuild::rebuilt(image, injected);
    let secs = rebuild::all_sections(image, injected);
    let s = rebuild::alloc_sections(image)[i];
    rebuild::law_section_order(image, injected);
    assert(secs[i] == secs.take(rebuild::alloc_sections(image).len() as int)[i]);
    lemma_header(image, injected, i);
    lemma_header(image, injected, secs.len() - 1);
    rebuild::law_rebuilt_header_locates_table(image, injected);
    rebuild::law_rebuilt_sections_read_back(image, injected, i);
    emit::law_references_resolve(secs, s.link_name);
    emit::law_references_resolve(secs, s.info_name);
    elf::lemma_cut(l, s.flags);
    elf::lemma_cut(l, s.addr);
    elf::lemma_cut(l, s.size);
    elf::lemma_cut(l, s.align);
    elf::lemma_cut(l, s.entsize);
    lemma_not_the_name_table(image, i);
    assert(catalog::is_image_section(secs[i]));
}

/// No section of the image is taken for the section names.
proof fn lemma_not_the_name_table(image: Seq<u8>, i: int)
    requires
        1 <= i < rebuild::alloc_sections(image).len(),
    ensures
        rebuild::alloc_sections(image)[i].name != ".shstrtab"@,
{
    let d = rebuild::dyn_image(image);
    let list = catalog::section_list(d);
    let sorted = sections::sort_by_addr(list);
    let body = sections::resize_all(sorted, d.load_file_end, d.max_vaddr);
    assert(rebuild::alloc_sections(image)[i] == body[i - 1]);
    assert(sorted.contains(sorted[i - 1]));
    sections::law_sort_keeps_sections(list, sorted[i - 1]);
    catalog::law_section_list(d);
    catalog::law_listed_sections_are_allocated(d, sorted[i - 1]);
    catalog::law_name_table_is_not_listed(d, sorted[i - 1]);
}

/// A string table: a NUL, then each of the texts in UTF-8 with a NUL behind it.
pub open spec fn strings(texts: Seq<Seq<char>>) -> Seq<u8>
    decreases texts.len(),
{
    if texts.len() == 0 {
        seq![0u8]
    } else {
        strings(texts.drop_last()) + vstd::utf8::encode_utf8(texts.last()) + seq![0u8]
    }
}

/// The texts that are not empty, each where it comes first.
pub open spec fn distinct(texts: Seq<Seq<char>>) -> Seq<Seq<char>>
    decreases texts.len(),
{
    if texts.len() == 0 {
        Seq::empty()
    } else {
        let before = distinct(texts.drop_last());
        if texts.last().len() == 0 || texts.drop_last().contains(texts.last()) {
            before
        } else {
            before.push(texts.last())
        }
    }
}

/// The names of sections.
pub open spec fn section_names(secs: Seq<Section>) -> Seq<Seq<char>> {
    Seq::new(secs.len(), |i: int| secs[i].name)
}

/// The names of injected symbols.
pub open spec fn symbol_names(injected: Seq<InjectedSym>) -> Seq<Seq<char>> {
    Seq::new(injected.len(), |i: int| injected[i].name@)
}

proof fn lemma_symbol_names(injected: Seq<InjectedSym>, n: nat)
    requires
        n <= injected.len(),
    ensures
        emit::injected_strtab(injected, n) == strings(symbol_names(injected).take(n as int)),
    decreases n,
{
    let texts = symbol_names(injected).take(n as int);
    if n > 0 {
        lemma_symbol_names(injected, (n - 1) as nat);
        assert(texts.drop_last() =~= symbol_names(injected).take(n - 1));
        assert(emit::injected_strtab(injected, n) =~= strings(texts));
    }
}

/// Whether an earlier section has the name of section `i`.
proof fn lemma_named_before(secs: Seq<Section>, i: int)
    requires
        0 <= i < secs.len(),
    ensures
        emit::first_named(secs, secs[i].name, 0) < i <==> section_names(secs).take(i).contains(
            secs[i].name,
        ),
{
    let name = secs[i].name;
    let texts = section_names(secs).take(i);
    emit::lemma_first_named(secs, name, 0, i);
    let j = emit::first_named(secs, name, 0);
    if j < i {
        assert(texts[j] == name);
    }
    if texts.contains(name) {
        let k = choose|k: int| 0 <= k < i && texts[k] == name;
        assert(secs[k].name == name);
        emit::lemma_first_named(secs, name, 0, k);
    }
}

proof fn lemma_section_names(secs: Seq<Section>, n: nat)
    requires
        n <= secs.len(),
    ensures
        emit::name_table(secs, n) == strings(distinct(section_names(secs).take(n as int))),
    decreases n,
{
    let texts = section_names(secs).take(n as int);
    if n > 0 {
        lemma_section_names(secs, (n - 1) as nat);
        assert(texts.drop_last() =~= section_names(secs).take(n - 1));
        assert(texts.last() == secs[n - 1].name);
        lemma_named_before(secs, n - 1);
        let before = distinct(texts.drop_last());
        let all = distinct(texts);
        if all != before {
            assert(all.drop_last() =~= before);
            assert(emit::name_table(secs, n) =~= strings(all));
        }
    } else {
        assert(texts =~= Seq::empty());
    }
}

/// A string table holds every text in full: of injected symbols in their order, and
/// of sections each name once.
pub proof fn law_string_tables_list_the_names(injected: Seq<InjectedSym>, secs: Seq<Section>)
    ensures
        emit::injected_strtab(injected, injected.len()) == strings(symbol_names(injected)),
        emit::name_table(secs, secs.len()) == strings(distinct(section_names(secs))),
{
    lemma_symbol_names(injected, injected.len());
    assert(symbol_names(injected).take(injected.len() as int) =~= symbol_names(injected));
    lemma_section_names(secs, secs.len());
    assert(section_names(secs).take(secs.len() as int) =~= section_names(secs));
}

/// How far the next multiple of `n` is.
pub open spec fn gap(at: int, n: int) -> int {
    if at % n == 0 {
        0
    } else {
        n - at % n
    }
}

/// Offset of a section in the file, as its header gives it.
pub open spec fn offset(l: ElfLayout, file: Seq<u8>, i: int) -> int {
    elf::address(l, file, header(l, file, i) + 24, header(l, file, i) + 16)
}

/// Size of a section, as its header gives it.
pub open spec fn size(l: ElfLayout, file: Seq<u8>, i: int) -> int {
    elf::address(l, file, header(l, file, i) + 32, header(l, file, i) + 20)
}

/// What follows the image in a file, up to where the section names start.
proof fn lemma_payloads(image: Seq<u8>, injected: Seq<InjectedSym>, n: nat)
    requires
        n <= rebuild::all_sections(image, injected).len(),
    ensures
        ({
            let l = headers::class_of(image);
            let data = rebuild::patched_image(image, injected);
            let secs = rebuild::all_sections(image, injected);
            let alloc = rebuild::alloc_sections(image);
            let symbols = emit::injected_symtab(l, alloc, injected, injected.len());
            let names = emit::injected_strtab(injected, injected.len());
            let filled = data + emit::zeros(gap(data.len() as int, elf::word(l)) as nat);
            let r = emit::with_payloads(data, secs, n);
            &&& n <= alloc.len() || injected.len() == 0 ==> r == data
            &&& n == alloc.len() + 1 && injected.len() > 0 ==> r == filled + symbols
            &&& n > alloc.len() + 1 && injected.len() > 0 ==> r == filled + symbols + names
        }),
    decreases n,
{
    let l = headers::class_of(image);
    let secs = rebuild::all_sections(image, injected);
    let alloc = rebuild::alloc_sections(image);
    rebuild::law_section_order(image, injected);
    if n > 0 {
        lemma_payloads(image, injected, (n - 1) as nat);
        if n <= alloc.len() {
            assert(secs[n - 1] == secs.take(alloc.len() as int)[n - 1]);
            if n > 1 {
                assert(catalog::is_image_section(secs[n - 1]));
            }
        } else {
            let before = emit::with_payloads(
                rebuild::patched_image(image, injected),
                secs,
                (n - 1) as nat,
            );
            assert(emit::padded(before, 1) =~= before);
        }
    }
}

/// The file behind its ELF header: what is appended, padded to the word size, and the
/// section header table.
proof fn lemma_tail(image: Seq<u8>, injected: Seq<InjectedSym>)
    requires
        rebuild::refusal(image) is None,
    ensures
        ({
            let l = headers::class_of(image);
            let data = rebuild::patched_image(image, injected);
            let secs = rebuild::all_sections(image, injected);
            let file = rebuild::rebuilt(image, injected);
            let names = strings(distinct(section_names(secs)));
            let front = emit::with_payloads(data, secs, secs.len()) + names;
            let filled = front + emit::zeros(gap(front.len() as int, elf::word(l)) as nat);
            &&& readback::table_offset(l, data, secs) == filled.len()
            &&& filled.len() <= file.len()
            &&& forall|k: int|
                elf::by_class(l, 64, 52) <= k < filled.len() ==> #[trigger] file[k] == filled[k]
        }),
{
    let l = headers::class_of(image);
    let data = rebuild::patched_image(image, injected);
    let secs = rebuild::all_sections(image, injected);
    law_string_tables_list_the_names(injected, secs);
    readback::lemma_file_len(l, data, secs);
    rebuild::lemma_patched_len(image, injected);
    let front = emit::with_payloads(data, secs, secs.len()) + strings(
        distinct(section_names(secs)),
    );
    assert(emit::before_headers(l, data, secs) =~= front + emit::zeros(
        gap(front.len() as int, elf::word(l)) as nat,
    ));
}

/// The header of the section names tells where they are.
proof fn lemma_names_at(image: Seq<u8>, injected: Seq<InjectedSym>)
    requires
        rebuild::refusal(image) is None,
        is_addressable(headers::class_of(image), rebuild::rebuilt(image, injected)),
    ensures
        ({
            let l = headers::class_of(image);
            let data = rebuild::patched_image(image, injected);
            let secs = rebuild::all_sections(image, injected);
            let file = rebuild::rebuilt(image, injected);
            let names = strings(distinct(section_names(secs)));
            let i = secs.len() - 1;
            &&& offset(l, file, i) == emit::with_payloads(data, secs, secs.len()).len()
            &&& size(l, file, i) == names.len()
            &&& bytes::holds(file, offset(l, file, i), names)
            &&& elf::address(l, file, 40, 32) == readback::table_offset(l, data, secs)
        }),
{
    let l = headers::class_of(image);
    let file = rebuild::rebuilt(image, injected);
    let data = rebuild::patched_image(image, injected);
    let secs = rebuild::all_sections(image, injected);
    reveal_strlit(".shstrtab");
    rebuild::law_section_order(image, injected);
    rebuild::lemma_rebuilt_fits(image, injected);
    law_string_tables_list_the_names(injected, secs);
    law_section_table_ends_the_file(image, injected);
    elf::law_elf_header_is_read(l, file);
    readback::law_header_locates_table(l, data, secs);
    readback::lemma_file_len(l, data, secs);
    lemma_tail(image, injected);
    lemma_header(image, injected, secs.len() - 1);
    rebuild::law_rebuilt_sections_read_back(image, injected, secs.len() - 1);
    readback::law_name_table_stands_at_its_offset(l, data, secs);
}

/// The header of a table of the injected symbols tells where it is.
proof fn lemma_table_at(image: Seq<u8>, injected: Seq<InjectedSym>, i: int)
    requires
        rebuild::refusal(image) is None,
        is_addressable(headers::class_of(image), rebuild::rebuilt(image, injected)),
        injected.len() > 0,
        rebuild::alloc_sections(image).len() <= i <= rebuild::alloc_sections(image).len() + 1,
    ensures
        ({
            let l = headers::class_of(image);
            let data = rebuild::patched_image(image, injected);
            let secs = rebuild::all_sections(image, injected);
            let file = rebuild::rebuilt(image, injected);
            let table = secs[i].file_data->0;
            let before = emit::with_payloads(data, secs, i as nat);
            &&& secs[i].file_data is Some
            &&& offset(l, file, i) == emit::padded(before, secs[i].align).len()
            &&& size(l, file, i) == table.len()
            &&& bytes::holds(file, offset(l, file, i), table)
        }),
{
    let l = headers::class_of(image);
    let data = rebuild::patched_image(image, injected);
    let secs = rebuild::all_sections(image, injected);
    reveal_strlit(".symtab");
    reveal_strlit(".strtab");
    reveal_strlit(".shstrtab");
    rebuild::law_section_order(image, injected);
    rebuild::lemma_rebuilt_fits(image, injected);
    lemma_header(image, injected, i);
    rebuild::law_rebuilt_sections_read_back(image, injected, i);
    assert(secs[i].name.len() == 7);
    readback::law_payload_stands_at_its_offset(l, data, secs, i);
    let at = emit::padded(emit::with_payloads(data, secs, i as nat), secs[i].align).len();
    lemma_payloads(image, injected, i as nat);
    lemma_payloads(image, injected, secs.len());
    lemma_tail(image, injected);
    assert(at <= u64::MAX);
}

/// What a rebuild adds stands behind the image: the symbol table of the injected
/// symbols at a multiple of the word size and their names behind it, if there are
/// any; the section names; and, at a multiple of the word size, the section header
/// table. The gaps are filled with zeros.
pub proof fn law_tables_follow_the_image(image: Seq<u8>, injected: Seq<InjectedSym>)
    requires
        rebuild::refusal(image) is None,
        is_addressable(headers::class_of(image), rebuild::rebuilt(image, injected)),
    ensures
        ({
            let l = headers::class_of(image);
            let w = elf::word(l);
            let file = rebuild::rebuilt(image, injected);
            let secs = rebuild::all_sections(image, injected);
            let alloc = rebuild::alloc_sections(image);
            let a = alloc.len() as int;
            let last = secs.len() - 1;
            let end = offset(l, file, last) + size(l, file, last);
            let shoff = elf::address(l, file, 40, 32);
            &&& injected.len() == 0 ==> last == a && offset(l, file, last) == image.len()
            &&& injected.len() > 0 ==> {
                &&& last == a + 2
                &&& offset(l, file, a) == image.len() + gap(image.len() as int, w)
                &&& forall|k: int|
                    image.len() <= k < offset(l, file, a) ==> #[trigger] file[k] == 0
                &&& size(l, file, a) == (injected.len() + 1) * elf::by_class(l, 24, 16)
                &&& offset(l, file, a + 1) == offset(l, file, a) + size(l, file, a)
                &&& file.subrange(
                    offset(l, file, a + 1),
                    offset(l, file, a + 1) + size(l, file, a + 1),
                ) == strings(symbol_names(injected))
                &&& offset(l, file, last) == offset(l, file, a + 1) + size(l, file, a + 1)
            }
            &&& file.subrange(offset(l, file, last), end) == strings(distinct(section_names(secs)))
            &&& shoff == end + gap(end, w)
            &&& forall|k: int| end <= k < shoff ==> #[trigger] file[k] == 0
        }),
{
    let l = headers::class_of(image);
    let file = rebuild::rebuilt(image, injected);
    let secs = rebuild::all_sections(image, injected);
    let a = rebuild::alloc_sections(image).len() as int;
    let data = rebuild::patched_image(image, injected);
    rebuild::law_section_order(image, injected);
    rebuild::lemma_patched_len(image, injected);
    law_string_tables_list_the_names(injected, secs);
    lemma_names_at(image, injected);
    lemma_payloads(image, injected, secs.len());
    lemma_tail(image, injected);
    if injected.len() > 0 {
        lemma_table_at(image, injected, a);
        lemma_table_at(image, injected, a + 1);
        lemma_payloads(image, injected, a as nat);
        lemma_payloads(image, injected, (a + 1) as nat);
        let before = emit::with_payloads(data, secs, (a + 1) as nat);
        assert(emit::padded(before, 1) =~= before);
        lemma_table_len(image, injected);
    }
}

/// The symbol table has an entry for each injected symbol, and one more.
proof fn lemma_table_len(image: Seq<u8>, injected: Seq<InjectedSym>)
    requires
        rebuild::refusal(image) is None,
        is_addressable(headers::class_of(image), rebuild::rebuilt(image, injected)),
        injected.len() > 0,
    ensures
        size(
            headers::class_of(image),
            rebuild::rebuilt(image, injected),
            rebuild::alloc_sections(image).len() as int,
        ) == (injected.len() + 1) * elf::by_class(headers::class_of(image), 24, 16),
{
    rebuild::law_section_order(image, injected);
    lemma_header(image, injected, rebuild::alloc_sections(image).len() as int);
    rebuild::law_rebuilt_symbols_read_back(image, injected, 0);
}

/// Whether section header `i` of a file tells of an appended table with this type,
/// reference, count of local symbols, alignment and entry size; such a table is not
/// part of the image.
pub open spec fn is_table(
    l: ElfLayout,
    file: Seq<u8>,
    i: int,
    typ: int,
    link: int,
    info: int,
    align: int,
    entsize: int,
) -> bool {
    let o = header(l, file, i);
    &&& elf::at(file, o + 4, 4) == typ
    &&& elf::at(file, o + 8, elf::word(l)) == 0
    &&& elf::address(l, file, o + 16, o + 12) == 0
    &&& elf::at(file, elf::by_class(l, o + 40, o + 24), 4) == link
    &&& elf::at(file, elf::by_class(l, o + 44, o + 28), 4) == info
    &&& elf::address(l, file, o + 48, o + 32) == align
    &&& elf::address(l, file, o + 56, o + 36) == entsize
}

/// The UTF-8 bytes of the name that section header `i` of a file gives, with the
/// section names in the last of `n` sections.
pub open spec fn name(l: ElfLayout, file: Seq<u8>, n: int, i: int) -> Seq<u8> {
    readback::string_at(file, offset(l, file, n - 1) + elf::at(file, header(l, file, i), 4))
}

/// Of the section headers behind those of the image, the last is that of the section
/// names. In front of it, if symbols are injected, are a symbol table that links to
/// the string table behind it and counts one local symbol, and that string table.
pub proof fn law_tables_are_found(image: Seq<u8>, injected: Seq<InjectedSym>)
    requires
        rebuild::refusal(image) is None,
        is_addressable(headers::class_of(image), rebuild::rebuilt(image, injected)),
    ensures
        ({
            let l = headers::class_of(image);
            let file = rebuild::rebuilt(image, injected);
            let a = rebuild::alloc_sections(image).len() as int;
            let n = rebuild::all_sections(image, injected).len() as int;
            &&& n == a + if injected.len() == 0 {
                1int
            } else {
                3int
            }
            &&& is_table(l, file, n - 1, 3, 0, 0, 1, 0)
            &&& name(l, file, n, n - 1) == vstd::utf8::encode_utf8(".shstrtab"@)
            &&& injected.len() > 0 ==> {
                &&& is_table(l, file, a, 2, a + 1, 1, elf::word(l), elf::by_class(l, 24, 16))
                &&& name(l, file, n, a) == vstd::utf8::encode_utf8(".symtab"@)
                &&& is_table(l, file, a + 1, 3, 0, 0, 1, 0)
                &&& name(l, file, n, a + 1) == vstd::utf8::encode_utf8(".strtab"@)
            }
        }),
{
    let a = rebuild::alloc_sections(image).len() as int;
    let n = rebuild::all_sections(image, injected).len() as int;
    rebuild::law_section_order(image, injected);
    lemma_table_found(image, injected, n - 1);
    if injected.len() > 0 {
        lemma_table_found(image, injected, a);
        lemma_table_found(image, injected, a + 1);
        lemma_names_of_tables(image, injected);
    }
}

/// The string table is the last section of its name.
proof fn lemma_names_of_tables(image: Seq<u8>, injected: Seq<InjectedSym>)
    requires
        injected.len() > 0,
    ensures
        emit::index_named(rebuild::all_sections(image, injected), ".strtab"@)
            == rebuild::alloc_sections(image).len() + 1,
{
    let secs = rebuild::all_sections(image, injected);
    let a = rebuild::alloc_sections(image).len() as int;
    reveal_strlit(".strtab");
    reveal_strlit(".shstrtab");
    rebuild::law_section_order(image, injected);
    emit::law_references_resolve(secs, ".strtab"@);
    assert(secs[a + 1].name == ".strtab"@);
    assert(secs[a + 2].name != ".strtab"@);
}

/// The header of an appended table.
proof fn lemma_table_found(image: Seq<u8>, injected: Seq<InjectedSym>, i: int)
    requires
        rebuild::refusal(image) is None,
        is_addressable(headers::class_of(image), rebuild::rebuilt(image, injected)),
        rebuild::alloc_sections(image).len() <= i < rebuild::all_sections(image, injected).len(),
    ensures
        ({
            let l = headers::class_of(image);
            let file = rebuild::rebuilt(image, injected);
            let secs = rebuild::all_sections(image, injected);
            let s = secs[i];
            &&& is_table(
                l,
                file,
                i,
                s.typ as int,
                emit::index_named(secs, s.link_name) as int,
                s.info as int,
                s.align as int,
                s.entsize as int,
            )
            &&& name(l, file, secs.len() as int, i) == vstd::utf8::encode_utf8(s.name)
        }),
{
    let secs = rebuild::all_sections(image, injected);
    reveal_strlit(".symtab");
    reveal_strlit(".strtab");
    reveal_strlit(".shstrtab");
    rebuild::law_section_order(image, injected);
    lemma_header(image, injected, i);
    lemma_header(image, injected, secs.len() - 1);
    rebuild::law_rebuilt_header_locates_table(image, injected);
    rebuild::law_rebuilt_sections_read_back(image, injected, i);
    elf::lemma_cut(headers::class_of(image), secs[i].align);
    elf::lemma_cut(headers::class_of(image), secs[i].entsize);
    elf::lemma_cut(headers::class_of(image), 0);
}

/// The section header table starts with a header of zeros.
pub proof fn law_first_section_is_null(image: Seq<u8>, injected: Seq<InjectedSym>)
    requires
        rebuild::refusal(image) is None,
        is_addressable(headers::class_of(image), rebuild::rebuilt(image, injected)),
    ensures
        ({
            let l = headers::class_of(image);
            let file = rebuild::rebuilt(image, injected);
            &&& is_table(l, file, 0, 0, 0, 0, 0, 0)
            &&& offset(l, file, 0) == 0
            &&& size(l, file, 0) == 0
            &&& elf::at(file, header(l, file, 0), 4) == 0
        }),
{
    rebuild::law_section_order(image, injected);
    lemma_header(image, injected, 0);
    rebuild::law_rebuilt_sections_read_back(image, injected, 0);
    elf::lemma_cut(headers::class_of(image), 0);
}

/// Whether symbol `i` of the table in section `a` has this value, and is a global
/// function without a size.
pub open spec fn is_function(l: ElfLayout, file: Seq<u8>, a: int, i: int, value: int) -> bool {
    let o = offset(l, file, a) + i * elf::by_class(l, 24, 16);
    &&& elf::address(l, file, o + 8, o + 4) == value
    &&& elf::address(l, file, o + 16, o + 8) == 0
    &&& file[elf::by_class(l, o + 4, o + 12)] == 0x12
    &&& file[elf::by_class(l, o + 5, o + 13)] == 0
}

/// Where injected symbol `i` stands, and what is read of it.
proof fn lemma_symbol_place(image: Seq<u8>, injected: Seq<InjectedSym>, i: int)
    requires
        rebuild::refusal(image) is None,
        is_addressable(headers::class_of(image), rebuild::rebuilt(image, injected)),
        0 <= i < injected.len(),
    ensures
        ({
            let l = headers::class_of(image);
            let file = rebuild::rebuilt(image, injected);
            let a = rebuild::alloc_sections(image).len() as int;
            let n = elf::by_class(l, 24, 16);
            let o = offset(l, file, a) + (i + 1) * n;
            let symtab = readback::header_of(l, file, a);
            let strtab = readback::header_of(l, file, symtab.link as int);
            &&& 0 <= offset(l, file, a)
            &&& o + n <= file.len()
            &&& symtab.off + (i + 1) * symtab.entsize == o
            &&& symtab.entsize == n
            &&& symtab.off == offset(l, file, a)
            &&& strtab.off == offset(l, file, a + 1)
            &&& l.sym_name_at(file, o) == elf::at(file, o, 4)
            &&& l.sym_value_at(file, o) == elf::address(l, file, o + 8, o + 4)
            &&& l.sym_bytesize_at(file, o) == elf::address(l, file, o + 16, o + 8)
            &&& l.sym_info_at(file, o) == file[elf::by_class(l, o + 4, o + 12)]
            &&& l.sym_other_at(file, o) == file[elf::by_class(l, o + 5, o + 13)]
            &&& l.sym_shndx_at(file, o) == elf::at(file, elf::by_class(l, o + 6, o + 14), 2)
        }),
{
    let l = headers::class_of(image);
    let file = rebuild::rebuilt(image, injected);
    let a = rebuild::alloc_sections(image).len() as int;
    let n = elf::by_class(l, 24, 16);
    rebuild::law_section_order(image, injected);
    lemma_header(image, injected, a);
    lemma_header(image, injected, a + 1);
    law_tables_are_found(image, injected);
    rebuild::law_rebuilt_symbols_read_back(image, injected, i);
    assert(0 <= (i + 1) * n && (i + 1) * n + n <= (injected.len() + 1) * n) by (nonlinear_arith)
        requires
            0 <= i,
            i + 1 <= injected.len(),
            0 <= n,
    ;
    elf::law_symbol_is_read(l, file, offset(l, file, a) + (i + 1) * n);
}

/// What an injected symbol holds, and that the first symbol is all zeros.
proof fn lemma_symbol_found(image: Seq<u8>, injected: Seq<InjectedSym>, i: int)
    requires
        rebuild::refusal(image) is None,
        is_addressable(headers::class_of(image), rebuild::rebuilt(image, injected)),
        0 <= i < injected.len(),
    ensures
        ({
            let l = headers::class_of(image);
            let file = rebuild::rebuilt(image, injected);
            let alloc = rebuild::alloc_sections(image);
            let a = alloc.len() as int;
            let n = elf::by_class(l, 24, 16);
            let o = offset(l, file, a) + (i + 1) * n;
            let v = injected[i].value;
            &&& forall|p: int|
                offset(l, file, a) <= p < offset(l, file, a) + n ==> #[trigger] file[p] == 0
            &&& is_function(l, file, a, i + 1, elf::low(v as int, elf::word(l)))
            &&& elf::at(file, elf::by_class(l, o + 6, o + 14), 2) == sections::covering_index(
                v,
                alloc,
            )
        }),
{
    let l = headers::class_of(image);
    let file = rebuild::rebuilt(image, injected);
    let a = rebuild::alloc_sections(image).len() as int;
    let n = elf::by_class(l, 24, 16);
    lemma_symbol_place(image, injected, i);
    rebuild::law_rebuilt_symbols_read_back(image, injected, i);
    elf::lemma_cut(l, injected[i].value);
    let zeros = emit::zeros(n as nat);
    let from = offset(l, file, a);
    assert forall|p: int| from <= p < from + n implies #[trigger] file[p] == 0 by {
        assert(file.subrange(from, from + zeros.len())[p - from] == zeros[p - from]);
    }
}

/// The name of an injected symbol.
proof fn lemma_symbol_name_found(image: Seq<u8>, injected: Seq<InjectedSym>, i: int)
    requires
        rebuild::refusal(image) is None,
        is_addressable(headers::class_of(image), rebuild::rebuilt(image, injected)),
        0 <= i < injected.len(),
        strings(symbol_names(injected)).len() <= u32::MAX,
    ensures
        ({
            let l = headers::class_of(image);
            let file = rebuild::rebuilt(image, injected);
            let a = rebuild::alloc_sections(image).len() as int;
            let o = offset(l, file, a) + (i + 1) * elf::by_class(l, 24, 16);
            let text = vstd::utf8::encode_utf8(injected[i].name@);
            let at = offset(l, file, a + 1) + elf::at(file, o, 4);
            &&& file.subrange(at, at + text.len()) == text
            &&& file[at + text.len()] == 0
        }),
{
    let l = headers::class_of(image);
    let file = rebuild::rebuilt(image, injected);
    let a = rebuild::alloc_sections(image).len() as int;
    let o = offset(l, file, a) + (i + 1) * elf::by_class(l, 24, 16);
    let text = vstd::utf8::encode_utf8(injected[i].name@);
    let at = offset(l, file, a + 1) + elf::at(file, o, 4);
    lemma_names_grow(injected, i as nat);
    lemma_symbol_place(image, injected, i);
    rebuild::law_rebuilt_symbols_read_back(image, injected, i);
    lemma_c_string(file, at, text);
}

/// Bytes with a NUL behind them.
proof fn lemma_c_string(file: Seq<u8>, at: int, text: Seq<u8>)
    requires
        bytes::holds(file, at, text.push(0u8)),
    ensures
        file.subrange(at, at + text.len()) == text,
        file[at + text.len()] == 0,
{
    let s = text.push(0u8);
    assert(file.subrange(at, at + s.len())[text.len() as int] == s[text.len() as int]);
    assert(file.subrange(at, at + text.len()) =~= s.subrange(0, text.len() as int));
    assert(s.subrange(0, text.len() as int) =~= text);
}

/// Every injected symbol is found in the symbol table, behind one that is all zeros:
/// a global function at its value, in the first allocated section around that value,
/// or in none, under its name, which may be cut short by a NUL of its own.
pub proof fn law_injected_symbols_are_found(
    image: Seq<u8>,
    injected: Seq<InjectedSym>,
    i: int,
    k: int,
)
    requires
        rebuild::refusal(image) is None,
        is_addressable(headers::class_of(image), rebuild::rebuilt(image, injected)),
        0 <= i < injected.len(),
        strings(symbol_names(injected)).len() <= u32::MAX,
    ensures
        ({
            let l = headers::class_of(image);
            let file = rebuild::rebuilt(image, injected);
            let alloc = rebuild::alloc_sections(image);
            let a = alloc.len() as int;
            let v = injected[i].value;
            let n = elf::by_class(l, 24, 16);
            let o = offset(l, file, a) + (i + 1) * n;
            let text = vstd::utf8::encode_utf8(injected[i].name@);
            let at = offset(l, file, a + 1) + elf::at(file, o, 4);
            let shndx = elf::at(file, elf::by_class(l, o + 6, o + 14), 2);
            &&& forall|p: int|
                offset(l, file, a) <= p < offset(l, file, a) + n ==> #[trigger] file[p] == 0
            &&& is_function(l, file, a, i + 1, elf::low(v as int, elf::word(l)))
            &&& file.subrange(at, at + text.len()) == text
            &&& file[at + text.len()] == 0
            &&& 0 <= k < a && contents::is_around(alloc[k], v) && (forall|j: int|
                0 <= j < k ==> !contents::is_around(#[trigger] alloc[j], v)) ==> shndx == k
            &&& (forall|j: int| 0 <= j < a ==> !contents::is_around(#[trigger] alloc[j], v))
                ==> shndx == 0
        }),
{
    let alloc = rebuild::alloc_sections(image);
    rebuild::law_section_order(image, injected);
    lemma_symbol_found(image, injected, i);
    lemma_symbol_name_found(image, injected, i);
    contents::law_values_lie_in_the_first_section_around_them(alloc, injected[i].value, k);
}

proof fn lemma_names_grow(injected: Seq<InjectedSym>, n: nat)
    requires
        n <= injected.len(),
    ensures
        emit::injected_strtab(injected, n).len() <= strings(symbol_names(injected)).len(),
    decreases injected.len() - n,
{
    if n < injected.len() {
        lemma_names_grow(injected, n + 1);
    } else {
        law_string_tables_list_the_names(injected, Seq::empty());
    }
}

/// Offset of dynamic symbol `j`, in the table at the address that tag 6 gives.
pub open spec fn symbol(image: Seq<u8>, j: int) -> int {
    rebuild::dyn_image(image).table[6] + j * elf::by_class(headers::class_of(image), 24, 16)
}

/// Whether the image holds dynamic symbol `j`.
pub open spec fn has_symbol(image: Seq<u8>, j: int) -> bool {
    &&& rebuild::dyn_image(image).table.contains_key(6)
    &&& 0 <= j < rebuild::dyn_image(image).symcount
    &&& symbol(image, j) + elf::by_class(headers::class_of(image), 24, 16) <= image.len()
}

/// A dynamic symbol that is defined, and not by a reserved index, points at the first
/// allocated section around its value, if there is one. Otherwise it points where it
/// did, and all else that it holds stays. It must overlap no header of the file.
pub proof fn law_dynamic_symbols_point_at_their_sections(
    image: Seq<u8>,
    injected: Seq<InjectedSym>,
    j: int,
    k: int,
)
    requires
        rebuild::refusal(image) is None,
        has_symbol(image, j),
        elf::by_class(headers::class_of(image), 64, 52) <= symbol(image, j),
        forall|m: int| #[trigger]
            headers::has_header(image, m) ==> headers::header(image, m) + elf::by_class(
                headers::class_of(image),
                56,
                32,
            ) <= symbol(image, j) || symbol(image, j) + elf::by_class(
                headers::class_of(image),
                24,
                16,
            ) <= headers::header(image, m),
    ensures
        ({
            let l = headers::class_of(image);
            let file = rebuild::rebuilt(image, injected);
            let secs = rebuild::all_sections(image, injected);
            let o = symbol(image, j);
            let v = elf::address(l, image, o + 8, o + 4) as u64;
            let was = elf::at(image, elf::by_class(l, o + 6, o + 14), 2);
            let is = elf::at(file, elf::by_class(l, o + 6, o + 14), 2);
            &&& elf::at(file, o, 4) == elf::at(image, o, 4)
            &&& elf::address(l, file, o + 8, o + 4) == elf::address(l, image, o + 8, o + 4)
            &&& elf::address(l, file, o + 16, o + 8) == elf::address(l, image, o + 16, o + 8)
            &&& file[elf::by_class(l, o + 4, o + 12)] == image[elf::by_class(l, o + 4, o + 12)]
            &&& file[elf::by_class(l, o + 5, o + 13)] == image[elf::by_class(l, o + 5, o + 13)]
            &&& was == 0 || was >= 0xff00 ==> is == was
            &&& 0 < was < 0xff00 && 0 <= k < secs.len() && contents::is_around(secs[k], v) && (
            forall|i: int| 0 <= i < k ==> !contents::is_around(#[trigger] secs[i], v)) ==> is == k
            &&& (forall|i: int| 0 <= i < secs.len() ==> !contents::is_around(#[trigger] secs[i], v))
                ==> is == was
        }),
{
    let l = headers::class_of(image);
    let o = symbol(image, j);
    let file = rebuild::rebuilt(image, injected);
    let secs = rebuild::all_sections(image, injected);
    headers::lemma_same_headers(image);
    assert(upkeep::symbol_at(image, j) == o);
    assert(upkeep::is_symbol(image, j));
    assert forall|m: int| upkeep::is_header(image, m) implies #[trigger] upkeep::header_at(
        image,
        m,
    ) + l.phdr_size() <= o || o + l.sym_size() <= upkeep::header_at(image, m) by {
        assert(headers::has_header(image, m));
    }
    upkeep::law_rebuild_remaps_symbols(image, injected, j);
    rebuild::law_section_order(image, injected);
    readback::lemma_file_len(l, rebuild::patched_image(image, injected), secs);
    rebuild::lemma_patched_len(image, injected);
    elf::law_symbol_is_read(l, image, o);
    elf::law_symbol_is_read(l, file, o);
    contents::law_values_lie_in_the_first_section_around_them(secs, l.sym_value_at(image, o), k);
}

} // verus!
