//! What a reader of a file with a rebuilt section header table finds in it.
use crate::bytes;
use crate::emit;
use crate::emit::InjectedSym;
use crate::layout;
use crate::layout::{ElfLayout, Shdr};
use crate::sections;
use crate::sections::Section;
use vstd::prelude::*;

verus! {

/// Whether byte `k` of a file belongs to the fields of its ELF header that locate
/// the section header table.
pub open spec fn locates_sections(l: ElfLayout, k: int) -> bool {
    if l.is64 {
        40 <= k < 48 || 58 <= k < 64
    } else {
        32 <= k < 36 || 46 <= k < 52
    }
}

/// The largest value of an address-sized field.
pub open spec fn max_addr(l: ElfLayout) -> int {
    if l.is64 {
        u64::MAX as int
    } else {
        u32::MAX as int
    }
}

/// Offset of the section header table.
pub open spec fn table_offset(l: ElfLayout, data: Seq<u8>, secs: Seq<Section>) -> int {
    emit::before_headers(l, data, secs).len() as int
}

/// Offset of the section name table.
pub open spec fn names_offset(data: Seq<u8>, secs: Seq<Section>) -> int {
    emit::with_payloads(data, secs, secs.len()).len() as int
}

/// Whether the table of `secs` can be appended to `data` without cutting any
/// offset or count.
pub open spec fn table_fits(l: ElfLayout, data: Seq<u8>, secs: Seq<Section>) -> bool {
    &&& l.ehdr_size() <= data.len()
    &&& 0 < secs.len() <= u16::MAX
    &&& table_offset(l, data, secs) <= max_addr(l)
    &&& emit::name_table(secs, secs.len()).len() <= u32::MAX
}

/// A file before the ELF header is pointed at the section header table.
spec fn unlinked(l: ElfLayout, data: Seq<u8>, secs: Seq<Section>) -> Seq<u8> {
    emit::before_headers(l, data, secs) + emit::header_table(l, data, secs, secs.len())
}

/// Payloads, names and headers leave what is in front of them alone.
proof fn lemma_front(l: ElfLayout, data: Seq<u8>, secs: Seq<Section>)
    ensures
        data.len() <= names_offset(data, secs),
        names_offset(data, secs) + emit::name_table(secs, secs.len()).len() <= table_offset(
            l,
            data,
            secs,
        ),
        forall|k: int|
            0 <= k < names_offset(data, secs) ==> #[trigger] unlinked(l, data, secs)[k]
                == emit::with_payloads(data, secs, secs.len())[k],
        bytes::holds(
            unlinked(l, data, secs),
            names_offset(data, secs),
            emit::name_table(secs, secs.len()),
        ),
{
    emit::lemma_payloads_len(data, secs, secs.len());
    let names = emit::name_table(secs, secs.len());
    let at = names_offset(data, secs);
    let all = unlinked(l, data, secs);
    assert(all.subrange(at, at + names.len()) =~= names);
}

/// Pointing the ELF header at the table changes the locating fields alone.
proof fn lemma_link(l: ElfLayout, data: Seq<u8>, secs: Seq<Section>)
    requires
        l.ehdr_size() <= data.len(),
    ensures
        emit::with_section_table(l, data, secs).len() == unlinked(l, data, secs).len(),
        forall|k: int|
            0 <= k < unlinked(l, data, secs).len() && !locates_sections(l, k)
                ==> #[trigger] emit::with_section_table(l, data, secs)[k] == unlinked(
                l,
                data,
                secs,
            )[k],
{
}

/// What stands behind the ELF header before the header is linked stands there
/// afterwards.
proof fn lemma_linked_holds(l: ElfLayout, data: Seq<u8>, secs: Seq<Section>, o: int, w: Seq<u8>)
    requires
        l.ehdr_size() <= data.len(),
        l.ehdr_size() <= o,
        bytes::holds(unlinked(l, data, secs), o, w),
    ensures
        bytes::holds(emit::with_section_table(l, data, secs), o, w),
{
    lemma_link(l, data, secs);
    let a = unlinked(l, data, secs);
    let t = emit::with_section_table(l, data, secs);
    assert(t.subrange(o, o + w.len()) =~= a.subrange(o, o + w.len()));
}

/// The file is as long as the section header table reaches.
pub proof fn lemma_file_len(l: ElfLayout, data: Seq<u8>, secs: Seq<Section>)
    ensures
        emit::with_section_table(l, data, secs).len() == table_offset(l, data, secs) + secs.len()
            * l.shdr_size(),
        data.len() <= table_offset(l, data, secs) <= emit::with_section_table(
            l,
            data,
            secs,
        ).len(),
{
    lemma_front(l, data, secs);
    lemma_table(l, data, secs, secs.len(), 0);
}

/// The ELF header of the file locates the section header table, which ends the
/// file, and names the section name table.
pub proof fn law_header_locates_table(l: ElfLayout, data: Seq<u8>, secs: Seq<Section>)
    requires
        table_fits(l, data, secs),
    ensures
        ({
            let file = emit::with_section_table(l, data, secs);
            &&& l.e_shoff(file) == table_offset(l, data, secs)
            &&& l.e_shentsize(file) == l.shdr_size()
            &&& l.e_shnum(file) == secs.len()
            &&& l.e_shstrndx(file) == secs.len() - 1
            &&& file.len() == table_offset(l, data, secs) + secs.len() * l.shdr_size()
        }),
{
    lemma_front(l, data, secs);
    lemma_link(l, data, secs);
    lemma_table(l, data, secs, secs.len(), 0);
    let file = emit::with_section_table(l, data, secs);
    let at = table_offset(l, data, secs);
    let num = l.pick(60, 48) as int;
    let ent = l.pick(58, 46) as int;
    let ndx = l.pick(62, 50) as int;
    let size = l.shdr_size() as u16;
    let n = secs.len() as u16;
    let last = (secs.len() - 1) as u16;
    assert(file.subrange(ent, ent + 2) =~= bytes::le16(size));
    bytes::law_le_bytes_read_back(file, ent, size, 0, 0);
    assert(file.subrange(num, num + 2) =~= bytes::le16(n));
    bytes::law_le_bytes_read_back(file, num, n, 0, 0);
    assert(file.subrange(ndx, ndx + 2) =~= bytes::le16(last));
    bytes::law_le_bytes_read_back(file, ndx, last, 0, 0);
    if l.is64 {
        assert(file.subrange(40, 48) =~= bytes::le64(at as u64));
        bytes::law_le_bytes_read_back(file, 40, 0, 0, at as u64);
    } else {
        assert(file.subrange(32, 36) =~= bytes::le32(at as u32));
        bytes::law_le_bytes_read_back(file, 32, 0, at as u32, 0);
        assert(at as u64 as u32 == at as u32);
    }
}

/// The entries of a section header table.
proof fn lemma_table(l: ElfLayout, data: Seq<u8>, secs: Seq<Section>, n: nat, i: int)
    ensures
        emit::header_table(l, data, secs, n).len() == n * l.shdr_size(),
        0 <= i < n ==> bytes::holds(
            emit::header_table(l, data, secs, n),
            i * l.shdr_size(),
            l.shdr_bytes(emit::section_header(data, secs, i)),
        ),
    decreases n,
{
    let size = l.shdr_size() as int;
    if n == 0 {
        assert(n * size == 0) by (nonlinear_arith)
            requires
                n == 0,
        ;
    } else {
        let m = (n - 1) as nat;
        let before = emit::header_table(l, data, secs, m);
        let last = l.shdr_bytes(emit::section_header(data, secs, n - 1));
        lemma_table(l, data, secs, m, i);
        assert(n * size == m * size + size) by (nonlinear_arith)
            requires
                n == m + 1,
        ;
        l.lemma_shdr_len(emit::section_header(data, secs, n - 1));
        let all = emit::header_table(l, data, secs, n);
        assert(all == before + last);
        if i == n - 1 {
            assert(all.subrange(m * size, m * size + size) =~= last);
        } else if 0 <= i < n - 1 {
            let w = l.shdr_bytes(emit::section_header(data, secs, i));
            l.lemma_shdr_len(emit::section_header(data, secs, i));
            assert((i + 1) * size <= m * size && (i + 1) * size == i * size + size)
                by (nonlinear_arith)
                requires
                    i + 1 <= m,
                    size >= 0,
            ;
            assert(all.subrange(i * size, i * size + size) =~= before.subrange(
                i * size,
                i * size + size,
            ));
        }
    }
}

/// The section header with index `k` that the ELF header of `file` leads to.
pub open spec fn header_of(l: ElfLayout, file: Seq<u8>, k: int) -> Shdr {
    l.shdr_at(file, l.e_shoff(file) + k * l.e_shentsize(file))
}

/// Every entry of the section header table reads back as the header of its
/// section; the ELF32 layout keeps the low 32 bits of the wide fields.
pub proof fn law_section_headers_read_back(l: ElfLayout, data: Seq<u8>, secs: Seq<Section>, i: int)
    requires
        table_fits(l, data, secs),
        0 <= i < secs.len(),
    ensures
        ({
            let file = emit::with_section_table(l, data, secs);
            let h = emit::section_header(data, secs, i);
            header_of(l, file, i) == (Shdr {
                flags: l.cut(h.flags),
                addr: l.cut(h.addr),
                off: l.cut(h.off),
                size: l.cut(h.size),
                align: l.cut(h.align),
                entsize: l.cut(h.entsize),
                ..h
            })
        }),
{
    law_header_locates_table(l, data, secs);
    lemma_front(l, data, secs);
    let n = secs.len();
    let at = table_offset(l, data, secs);
    let size = l.shdr_size() as int;
    let h = emit::section_header(data, secs, i);
    let table = emit::header_table(l, data, secs, n);
    let all = unlinked(l, data, secs);
    lemma_table(l, data, secs, n, i);
    l.lemma_shdr_len(h);
    assert(i * size >= 0) by (nonlinear_arith)
        requires
            i >= 0,
            size >= 0,
    ;
    assert(all.subrange(at + i * size, at + i * size + size) =~= table.subrange(
        i * size,
        i * size + size,
    ));
    lemma_linked_holds(l, data, secs, at + i * size, l.shdr_bytes(h));
    layout::law_section_header_reads_back(
        l,
        emit::with_section_table(l, data, secs),
        at + i * size,
        h,
    );
}

/// All bytes of the image stay where they are, but for the fields of the ELF
/// header that locate the section header table.
pub proof fn law_image_is_kept(l: ElfLayout, data: Seq<u8>, secs: Seq<Section>, k: int)
    requires
        l.ehdr_size() <= data.len(),
        0 <= k < data.len(),
        !locates_sections(l, k),
    ensures
        emit::with_section_table(l, data, secs).len() >= data.len(),
        emit::with_section_table(l, data, secs)[k] == data[k],
{
    lemma_front(l, data, secs);
    lemma_link(l, data, secs);
    lemma_payloads_keep(data, secs, secs.len(), k);
}

proof fn lemma_payloads_keep(data: Seq<u8>, secs: Seq<Section>, n: nat, k: int)
    requires
        0 <= k < data.len(),
    ensures
        emit::with_payloads(data, secs, n).len() >= data.len(),
        emit::with_payloads(data, secs, n)[k] == data[k],
    decreases n,
{
    if n > 0 {
        lemma_payloads_keep(data, secs, (n - 1) as nat, k);
    }
}

/// The payload of section `i` stands at its offset.
proof fn lemma_payload(data: Seq<u8>, secs: Seq<Section>, n: nat, i: int)
    requires
        0 <= i < n <= secs.len(),
        secs[i].file_data is Some,
    ensures
        bytes::holds(
            emit::with_payloads(data, secs, n),
            emit::padded(
                emit::with_payloads(data, secs, i as nat),
                secs[i].align,
            ).len() as int,
            secs[i].file_data->0,
        ),
        data.len() <= emit::padded(
            emit::with_payloads(data, secs, i as nat),
            secs[i].align,
        ).len(),
    decreases n,
{
    let at = emit::padded(emit::with_payloads(data, secs, i as nat), secs[i].align).len() as int;
    let payload = secs[i].file_data->0;
    let all = emit::with_payloads(data, secs, n);
    emit::lemma_payloads_len(data, secs, i as nat);
    if i == n - 1 {
        assert(all.subrange(at, at + payload.len()) =~= payload);
    } else {
        let m = (n - 1) as nat;
        lemma_payload(data, secs, m, i);
        let before = emit::with_payloads(data, secs, m);
        assert(all.subrange(at, at + payload.len()) =~= before.subrange(at, at + payload.len()));
    }
}

/// A section that carries a payload is found in the file at the offset that its
/// header gives, with the size that its header gives.
pub proof fn law_payload_stands_at_its_offset(
    l: ElfLayout,
    data: Seq<u8>,
    secs: Seq<Section>,
    i: int,
)
    requires
        table_fits(l, data, secs),
        0 <= i < secs.len(),
        secs[i].file_data is Some,
        secs[i].name.len() > 0,
        secs[i].name != ".shstrtab"@,
    ensures
        ({
            let file = emit::with_section_table(l, data, secs);
            let h = emit::section_header(data, secs, i);
            &&& h.size == (secs[i].file_data->0).len()
            &&& bytes::holds(file, h.off as int, secs[i].file_data->0)
            &&& l.cut(h.off) == h.off
            &&& l.cut(h.size) == h.size
        }),
{
    lemma_front(l, data, secs);
    lemma_payload(data, secs, secs.len(), i);
    let payload = secs[i].file_data->0;
    let at = emit::padded(emit::with_payloads(data, secs, i as nat), secs[i].align).len() as int;
    let all = unlinked(l, data, secs);
    let part = emit::with_payloads(data, secs, secs.len());
    assert(all.subrange(at, at + payload.len()) =~= part.subrange(at, at + payload.len()));
    lemma_linked_holds(l, data, secs, at, payload);
}

/// The last section is found in the file as the section name table.
pub proof fn law_name_table_stands_at_its_offset(
    l: ElfLayout,
    data: Seq<u8>,
    secs: Seq<Section>,
)
    requires
        table_fits(l, data, secs),
        secs.last().name == ".shstrtab"@,
    ensures
        ({
            let file = emit::with_section_table(l, data, secs);
            let h = emit::section_header(data, secs, secs.len() - 1);
            let names = emit::name_table(secs, secs.len());
            &&& h.size == names.len()
            &&& bytes::holds(file, h.off as int, names)
            &&& l.cut(h.off) == h.off
            &&& l.cut(h.size) == h.size
        }),
{
    reveal_strlit(".shstrtab");
    lemma_front(l, data, secs);
    lemma_linked_holds(
        l,
        data,
        secs,
        names_offset(data, secs),
        emit::name_table(secs, secs.len()),
    );
}

/// The bytes of `b` from `o` on, up to a NUL or the end.
pub open spec fn string_at(b: Seq<u8>, o: int) -> Seq<u8>
    decreases b.len() - o,
{
    if o >= b.len() || b[o] == 0 {
        Seq::empty()
    } else {
        seq![b[o]] + string_at(b, o + 1)
    }
}

proof fn lemma_string_at(b: Seq<u8>, o: int, w: Seq<u8>)
    requires
        bytes::holds(b, o, w.push(0u8)),
        forall|k: int| 0 <= k < w.len() ==> #[trigger] w[k] != 0,
    ensures
        string_at(b, o) == w,
    decreases w.len(),
{
    let s = w.push(0u8);
    assert(b.subrange(o, o + s.len())[0] == b[o]);
    if w.len() == 0 {
        assert(b[o] == 0);
    } else {
        let rest = w.drop_first();
        bytes::lemma_holds_part(b, o, s, 1, s.len() as int);
        assert(s.subrange(1, s.len() as int) =~= rest.push(0u8));
        assert forall|k: int| 0 <= k < rest.len() implies #[trigger] rest[k] != 0 by {
            assert(rest[k] == w[k + 1]);
        }
        lemma_string_at(b, o + 1, rest);
        assert(seq![w[0]] + rest =~= w);
    }
}

proof fn lemma_scalar_bytes(c: u32)
    by (bit_vector)
    ensures
        0 < c <= 0x7f ==> vstd::utf8::leading_byte_width_1(c) != 0,
        vstd::utf8::leading_byte_width_2(c) != 0,
        vstd::utf8::leading_byte_width_3(c) != 0,
        vstd::utf8::leading_byte_width_4(c) != 0,
        vstd::utf8::last_continuation_byte(c) != 0,
        vstd::utf8::second_last_continuation_byte(c) != 0,
        vstd::utf8::third_last_continuation_byte(c) != 0,
{
}

/// The UTF-8 bytes of a text, at most four for each character, hold a NUL only
/// where the text does.
pub proof fn lemma_utf8_bytes(name: Seq<char>)
    ensures
        vstd::utf8::encode_utf8(name).len() <= 4 * name.len(),
        !name.contains('\0') ==> forall|k: int|
            0 <= k < vstd::utf8::encode_utf8(name).len() ==> #[trigger] vstd::utf8::encode_utf8(
                name,
            )[k] != 0,
    decreases name.len(),
{
    if name.len() > 0 {
        let c = name[0] as u32;
        let rest = name.drop_first();
        vstd::utf8::char_is_scalar(name[0]);
        lemma_scalar_bytes(c);
        lemma_utf8_bytes(rest);
        let head = vstd::utf8::encode_scalar(c);
        let tail = vstd::utf8::encode_utf8(rest);
        if !name.contains('\0') {
            assert(name[0] != '\0');
            if c == 0 {
                assert('\0' as u32 == 0);
                vstd::utf8::char_u32_cast('\0', 0u32);
                vstd::utf8::char_u32_cast(name[0], 0u32);
            }
            if rest.contains('\0') {
                let k = choose|k: int| 0 <= k < rest.len() && rest[k] == '\0';
                assert(name[k + 1] == '\0');
            }
            let all = vstd::utf8::encode_utf8(name);
            assert(all == head + tail);
            assert forall|k: int| 0 <= k < all.len() implies #[trigger] all[k] != 0 by {
                if k < head.len() {
                    assert(all[k] == head[k]);
                } else {
                    assert(all[k] == tail[k - head.len()]);
                }
            }
        }
    }
}

/// A NUL-terminated text reads back as its UTF-8 bytes, if it holds no NUL itself.
pub proof fn law_string_reads_back(b: Seq<u8>, o: int, name: Seq<char>)
    requires
        bytes::holds(b, o, emit::c_string(name)),
        !name.contains('\0'),
    ensures
        string_at(b, o) == vstd::utf8::encode_utf8(name),
{
    lemma_utf8_bytes(name);
    lemma_string_at(b, o, vstd::utf8::encode_utf8(name));
}

/// An earlier state of the section name table starts a later one.
proof fn lemma_names_grow(secs: Seq<Section>, m: nat, n: nat, o: int, w: Seq<u8>)
    requires
        m <= n,
        bytes::holds(emit::name_table(secs, m), o, w),
    ensures
        bytes::holds(emit::name_table(secs, n), o, w),
    decreases n,
{
    if m < n {
        let k = (n - 1) as nat;
        lemma_names_grow(secs, m, k, o, w);
        let a = emit::name_table(secs, k);
        let b = emit::name_table(secs, n);
        assert(b.subrange(o, o + w.len()) =~= a.subrange(o, o + w.len()));
    }
}

/// The name offset of a section leads to its name in the section name table.
pub proof fn law_section_name_stands_at_its_offset(secs: Seq<Section>, i: int)
    requires
        0 <= i < secs.len(),
        secs[i].name.len() > 0,
        emit::name_table(secs, secs.len()).len() <= u32::MAX,
    ensures
        bytes::holds(
            emit::name_table(secs, secs.len()),
            emit::name_offset(secs, i) as int,
            emit::c_string(secs[i].name),
        ),
{
    let name = secs[i].name;
    emit::lemma_first_named(secs, name, 0, i);
    let j = emit::first_named(secs, name, 0);
    let before = emit::name_table(secs, j as nat);
    let after = emit::name_table(secs, (j + 1) as nat);
    let w = emit::c_string(name);
    assert(after == before + w);
    assert(after.subrange(before.len() as int, before.len() as int + w.len()) =~= w);
    lemma_names_grow(secs, (j + 1) as nat, secs.len(), before.len() as int, w);
}

/// The name of every section reads back through the file: the ELF header leads to
/// the section header table and to the section name table, and the header of a
/// section to its name in there.
pub proof fn law_section_names_read_back(l: ElfLayout, data: Seq<u8>, secs: Seq<Section>, i: int)
    requires
        table_fits(l, data, secs),
        secs.last().name == ".shstrtab"@,
        0 <= i < secs.len(),
        secs[i].name.len() > 0,
        !secs[i].name.contains('\0'),
    ensures
        ({
            let file = emit::with_section_table(l, data, secs);
            let names = header_of(l, file, l.e_shstrndx(file) as int);
            string_at(file, names.off + header_of(l, file, i).name) == vstd::utf8::encode_utf8(
                secs[i].name,
            )
        }),
{
    let file = emit::with_section_table(l, data, secs);
    law_header_locates_table(l, data, secs);
    law_section_headers_read_back(l, data, secs, i);
    law_section_headers_read_back(l, data, secs, secs.len() - 1);
    law_name_table_stands_at_its_offset(l, data, secs);
    law_section_name_stands_at_its_offset(secs, i);
    let names = emit::name_table(secs, secs.len());
    let off = emit::section_header(data, secs, secs.len() - 1).off as int;
    let o = emit::name_offset(secs, i) as int;
    let w = emit::c_string(secs[i].name);
    bytes::lemma_holds_part(file, off, names, o, o + w.len());
    law_string_reads_back(file, off + o, secs[i].name);
}

/// An earlier state of the string table of injected symbols starts a later one.
proof fn lemma_strings_grow(injected: Seq<InjectedSym>, m: nat, n: nat, o: int, w: Seq<u8>)
    requires
        m <= n,
        bytes::holds(emit::injected_strtab(injected, m), o, w),
    ensures
        bytes::holds(emit::injected_strtab(injected, n), o, w),
    decreases n,
{
    if m < n {
        let k = (n - 1) as nat;
        lemma_strings_grow(injected, m, k, o, w);
        let a = emit::injected_strtab(injected, k);
        let b = emit::injected_strtab(injected, n);
        assert(b.subrange(o, o + w.len()) =~= a.subrange(o, o + w.len()));
    }
}

/// The name of injected symbol `i` stands in the string table.
proof fn lemma_injected_name(injected: Seq<InjectedSym>, i: int)
    requires
        0 <= i < injected.len(),
    ensures
        bytes::holds(
            emit::injected_strtab(injected, injected.len()),
            emit::injected_strtab(injected, i as nat).len() as int,
            emit::c_string(injected[i].name@),
        ),
{
    let before = emit::injected_strtab(injected, i as nat);
    let after = emit::injected_strtab(injected, (i + 1) as nat);
    let w = emit::c_string(injected[i].name@);
    assert(after.subrange(before.len() as int, before.len() as int + w.len()) =~= w);
    lemma_strings_grow(injected, (i + 1) as nat, injected.len(), before.len() as int, w);
}

/// The entry of injected symbol `i` follows the null symbol and the entries in
/// front of it.
proof fn lemma_injected_entry(
    l: ElfLayout,
    secs: Seq<Section>,
    injected: Seq<InjectedSym>,
    n: nat,
    i: int,
)
    requires
        n <= injected.len(),
    ensures
        emit::injected_symtab(l, secs, injected, n).len() == (n + 1) * l.sym_size(),
        0 <= i < n ==> bytes::holds(
            emit::injected_symtab(l, secs, injected, n),
            (i + 1) * l.sym_size(),
            emit::injected_entry(l, secs, injected, i),
        ),
    decreases n,
{
    let size = l.sym_size() as int;
    if n > 0 {
        let m = (n - 1) as nat;
        lemma_injected_entry(l, secs, injected, m, i);
        let before = emit::injected_symtab(l, secs, injected, m);
        let all = emit::injected_symtab(l, secs, injected, n);
        let last = emit::injected_entry(l, secs, injected, n - 1);
        lemma_entry_len(l, secs, injected, n - 1);
        assert((n + 1) * size == (m + 1) * size + size) by (nonlinear_arith)
            requires
                n == m + 1,
        ;
        if i == n - 1 {
            assert(all.subrange((m + 1) * size, (m + 1) * size + size) =~= last);
        } else if 0 <= i < n - 1 {
            lemma_entry_len(l, secs, injected, i);
            assert((i + 2) * size <= (m + 1) * size && (i + 2) * size == (i + 1) * size + size
                && 0 <= (i + 1) * size) by (nonlinear_arith)
                requires
                    0 <= i,
                    i + 1 <= m,
                    size >= 0,
            ;
            let o = (i + 1) * size;
            assert(all.subrange(o, o + size) =~= before.subrange(o, o + size));
        }
    }
}

proof fn lemma_entry_len(l: ElfLayout, secs: Seq<Section>, injected: Seq<InjectedSym>, i: int)
    ensures
        emit::injected_entry(l, secs, injected, i).len() == l.sym_size(),
{
    l.lemma_sym_len(
        emit::injected_strtab(injected, i as nat).len() as u32,
        injected[i].value,
        0,
        emit::GLOBAL_FUNC,
        0,
        sections::covering_index(injected[i].value, secs),
    );
}

/// The symbol table starts with the null symbol.
proof fn lemma_null_symbol(
    l: ElfLayout,
    secs: Seq<Section>,
    injected: Seq<InjectedSym>,
    n: nat,
)
    ensures
        l.sym_size() <= emit::injected_symtab(l, secs, injected, n).len(),
        emit::injected_symtab(l, secs, injected, n).subrange(0, l.sym_size() as int)
            == emit::zeros(l.sym_size() as nat),
    decreases n,
{
    if n > 0 {
        let m = (n - 1) as nat;
        lemma_null_symbol(l, secs, injected, m);
        assert(emit::injected_symtab(l, secs, injected, n).subrange(0, l.sym_size() as int)
            =~= emit::injected_symtab(l, secs, injected, m).subrange(0, l.sym_size() as int));
    } else {
        assert(emit::zeros(l.sym_size() as nat).subrange(0, l.sym_size() as int) =~= emit::zeros(
            l.sym_size() as nat,
        ));
    }
}

/// Every injected symbol reads back through the file. Behind the sections `alloc`
/// of the image stands a symbol table, whose header links to its string table and
/// counts one local symbol, the null symbol of entry 0. Entry `i + 1` carries the
/// value of symbol `i`, cut to 32 bits in the ELF32 layout, its binding and type,
/// the section around that value, and the offset of its NUL-terminated name, where
/// 32 bits hold that; its size and visibility are 0.
pub proof fn law_injected_symbols_read_back(
    l: ElfLayout,
    data: Seq<u8>,
    alloc: Seq<Section>,
    injected: Seq<InjectedSym>,
    i: int,
)
    requires
        table_fits(l, data, emit::with_tables(l, alloc, injected)),
        0 <= i < injected.len(),
    ensures
        ({
            let file = emit::with_section_table(l, data, emit::with_tables(l, alloc, injected));
            let symtab = header_of(l, file, alloc.len() as int);
            let strtab = header_of(l, file, symtab.link as int);
            let o = symtab.off + (i + 1) * symtab.entsize;
            &&& symtab.typ == sections::SHT_SYMTAB
            &&& strtab.typ == sections::SHT_STRTAB
            &&& symtab.info == 1
            &&& symtab.flags == 0 && symtab.addr == 0
            &&& symtab.entsize == l.sym_size()
            &&& symtab.size == (injected.len() + 1) * symtab.entsize
            &&& symtab.off + symtab.size <= file.len()
            &&& bytes::holds(file, symtab.off as int, emit::zeros(symtab.entsize as nat))
            &&& l.sym_value_at(file, o) == l.cut(injected[i].value)
            &&& l.sym_bytesize_at(file, o) == 0
            &&& l.sym_info_at(file, o) == emit::GLOBAL_FUNC
            &&& l.sym_other_at(file, o) == 0
            &&& l.sym_shndx_at(file, o) == sections::covering_index(injected[i].value, alloc)
            &&& emit::injected_strtab(injected, i as nat).len() <= u32::MAX ==> {
                let at = strtab.off + l.sym_name_at(file, o);
                &&& bytes::holds(file, at, emit::c_string(injected[i].name@))
                &&& !injected[i].name@.contains('\0') ==> string_at(file, at)
                    == vstd::utf8::encode_utf8(injected[i].name@)
            }
        }),
{
    let secs = emit::with_tables(l, alloc, injected);
    let file = emit::with_section_table(l, data, secs);
    let n = alloc.len() as int;
    let count = injected.len();
    let size = l.sym_size() as int;
    reveal_strlit(".symtab");
    reveal_strlit(".strtab");
    reveal_strlit(".shstrtab");
    assert(secs[n] == emit::symtab_section(l, alloc, injected));
    assert(secs[n + 1] == emit::strtab_section(injected));
    assert(secs[n + 2].name == ".shstrtab"@);
    assert(secs.len() == n + 3);
    assert(secs[n].name.len() == 7 && secs[n + 1].name.len() == 7 && secs[n + 2].name.len() == 9);
    law_section_headers_read_back(l, data, secs, n);
    law_section_headers_read_back(l, data, secs, n + 1);
    law_payload_stands_at_its_offset(l, data, secs, n);
    law_payload_stands_at_its_offset(l, data, secs, n + 1);
    let hs = emit::section_header(data, secs, n);
    let ht = emit::section_header(data, secs, n + 1);
    assert(emit::last_named(secs, ".strtab"@, (n + 3) as nat) == n + 1) by {
        assert(secs[n + 2].name != ".strtab"@);
        assert(secs[n + 1].name == ".strtab"@);
        assert(emit::last_named(secs, ".strtab"@, (n + 2) as nat) == n + 1);
    }
    assert(hs.link == n + 1);
    lemma_injected_entry(l, alloc, injected, count, i);
    lemma_entry_len(l, alloc, injected, i);
    let symbols = emit::injected_symtab(l, alloc, injected, count);
    let entry = emit::injected_entry(l, alloc, injected, i);
    let from = (i + 1) * size;
    bytes::lemma_holds_part(file, hs.off as int, symbols, from, from + size);
    lemma_null_symbol(l, alloc, injected, count);
    bytes::lemma_holds_part(file, hs.off as int, symbols, 0, size);
    let o = hs.off + from;
    layout::law_symbol_reads_back(
        l,
        file,
        o,
        emit::injected_strtab(injected, i as nat).len() as u32,
        injected[i].value,
        0,
        emit::GLOBAL_FUNC,
        0,
        sections::covering_index(injected[i].value, alloc),
    );
    lemma_injected_name(injected, i);
    let strings = emit::injected_strtab(injected, count);
    let at = emit::injected_strtab(injected, i as nat).len() as int;
    let w = emit::c_string(injected[i].name@);
    bytes::lemma_holds_part(file, ht.off as int, strings, at, at + w.len());
    if !injected[i].name@.contains('\0') {
        law_string_reads_back(file, ht.off + at, injected[i].name@);
    }
}

/// Padding ends at a multiple of the alignment, and adds less than one.
pub proof fn law_padding_aligns(data: Seq<u8>, align: u64)
    requires
        align > 0,
    ensures
        emit::padded(data, align).len() % (align as nat) == 0,
        emit::padded(data, align).len() < data.len() + align,
{
    let n = data.len() as int;
    let a = align as int;
    if a > 1 && n % a != 0 {
        let q = n / a;
        assert(n == a * q + n % a) by {
            vstd::arithmetic::div_mod::lemma_fundamental_div_mod(n, a);
        }
        assert(n + (a - n % a) == a * (q + 1)) by (nonlinear_arith)
            requires
                n == a * q + n % a,
        ;
        assert((a * (q + 1)) % a == 0) by {
            vstd::arithmetic::div_mod::lemma_mod_multiples_basic(q + 1, a);
            assert(a * (q + 1) == (q + 1) * a) by (nonlinear_arith);
        }
        assert(0 <= n % a < a) by {
            vstd::arithmetic::div_mod::lemma_mod_bound(n, a);
        }
    } else if a == 1 {
        assert(n % 1 == 0);
    }
}

/// The section header table starts at a multiple of the machine word.
pub proof fn law_table_is_aligned(l: ElfLayout, data: Seq<u8>, secs: Seq<Section>)
    ensures
        table_offset(l, data, secs) % (l.word() as int) == 0,
{
    law_padding_aligns(
        emit::with_payloads(data, secs, secs.len()) + emit::name_table(secs, secs.len()),
        l.word(),
    );
}

} // verus!
