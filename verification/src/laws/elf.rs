//! The structures of the ELF format, and that each field is read and written where
//! the format puts it.
use crate::bytes;
use crate::layout;
use crate::layout::{ElfLayout, Shdr};
use vstd::prelude::*;

verus! {

/// The number that bytes stand for, least significant byte first.
pub open spec fn number(b: Seq<u8>) -> int
    decreases b.len(),
{
    if b.len() == 0 {
        0
    } else {
        b[0] + 0x100 * number(b.drop_first())
    }
}

/// The number in the `n` bytes at `o`.
pub open spec fn at(b: Seq<u8>, o: int, n: int) -> int {
    number(b.subrange(o, o + n))
}

/// What `n` bytes keep of a number.
pub open spec fn low(v: int, n: int) -> int {
    if n == 8 {
        v % 0x1_0000_0000_0000_0000
    } else if n == 4 {
        v % 0x1_0000_0000
    } else {
        v % 0x1_0000
    }
}

/// A number of `n` bytes that is told with a sign.
pub open spec fn signed(v: int, n: int) -> int {
    if n == 8 && v >= 0x8000_0000_0000_0000 {
        v - 0x1_0000_0000_0000_0000
    } else if n == 4 && v >= 0x8000_0000 {
        v - 0x1_0000_0000
    } else {
        v
    }
}

proof fn lemma_number_steps(b: Seq<u8>)
    ensures
        b.len() == 2 ==> number(b) == b[0] + 0x100 * b[1],
        b.len() == 4 ==> number(b) == b[0] + 0x100 * b[1] + 0x1_0000 * b[2] + 0x100_0000 * b[3],
{
    reveal_with_fuel(number, 5);
    if b.len() == 2 || b.len() == 4 {
        let c = b.drop_first();
        let d = c.drop_first();
        assert(c[0] == b[1]);
        if b.len() == 4 {
            let e = d.drop_first();
            assert(d[0] == b[2] && e[0] == b[3]);
            assert(number(e) == e[0] + 0x100 * number(e.drop_first()));
        }
    }
}

/// A number of eight bytes is made of two of four bytes.
proof fn lemma_number_halves(b: Seq<u8>)
    requires
        b.len() == 8,
    ensures
        number(b) == number(b.subrange(0, 4)) + 0x1_0000_0000 * number(b.subrange(4, 8)),
{
    reveal_with_fuel(number, 5);
    lemma_number_steps(b.subrange(0, 4));
    let c = b.drop_first();
    let d = c.drop_first();
    let e = d.drop_first();
    let f = e.drop_first();
    assert(c[0] == b[1] && d[0] == b[2] && e[0] == b[3]);
    assert(f =~= b.subrange(4, 8));
}

/// Integers are read with their least significant byte first.
pub proof fn law_integers_are_little_endian(b: Seq<u8>, o: int)
    requires
        0 <= o,
    ensures
        o + 2 <= b.len() ==> bytes::u16_at(b, o) == at(b, o, 2),
        o + 4 <= b.len() ==> bytes::u32_at(b, o) == at(b, o, 4),
        o + 8 <= b.len() ==> bytes::u64_at(b, o) == at(b, o, 8),
{
    if o + 2 <= b.len() {
        lemma_number_steps(b.subrange(o, o + 2));
    }
    if o + 4 <= b.len() {
        lemma_number_steps(b.subrange(o, o + 4));
    }
    if o + 8 <= b.len() {
        let s = b.subrange(o, o + 8);
        lemma_number_halves(s);
        lemma_number_steps(b.subrange(o + 4, o + 8));
        assert(s.subrange(0, 4) =~= b.subrange(o, o + 4));
        assert(s.subrange(4, 8) =~= b.subrange(o + 4, o + 8));
    }
}

/// Integers are written with their least significant byte first, all of them.
pub proof fn law_integers_are_written_in_full(v16: u16, v32: u32, v64: u64)
    ensures
        bytes::le16(v16).len() == 2,
        bytes::le32(v32).len() == 4,
        bytes::le64(v64).len() == 8,
        number(bytes::le16(v16)) == v16,
        number(bytes::le32(v32)) == v32,
        number(bytes::le64(v64)) == v64,
{
    let a = bytes::le16(v16);
    let b = bytes::le32(v32);
    let c = bytes::le64(v64);
    assert(a.subrange(0, 2) =~= a && b.subrange(0, 4) =~= b && c.subrange(0, 8) =~= c);
    bytes::law_le_bytes_read_back(a, 0, v16, 0, 0);
    bytes::law_le_bytes_read_back(b, 0, 0, v32, 0);
    bytes::law_le_bytes_read_back(c, 0, 0, 0, v64);
    law_integers_are_little_endian(a, 0);
    law_integers_are_little_endian(b, 0);
    law_integers_are_little_endian(c, 0);
}

/// A write replaces the bytes that it covers, and no others.
pub proof fn law_write_replaces_its_bytes(b: Seq<u8>, o: int, w: Seq<u8>)
    requires
        0 <= o,
        o + w.len() <= b.len(),
    ensures
        bytes::splice(b, o, w) == b.take(o) + w + b.skip(o + w.len()),
{
    assert(bytes::splice(b, o, w) =~= b.take(o) + w + b.skip(o + w.len()));
}

/// The size of an address in the 64-bit and in the 32-bit layout.
pub open spec fn word(l: ElfLayout) -> int {
    if l.is64 {
        8
    } else {
        4
    }
}

/// One of two numbers, by the layout.
pub open spec fn by_class(l: ElfLayout, wide: int, narrow: int) -> int {
    if l.is64 {
        wide
    } else {
        narrow
    }
}

/// An address-sized field of `b`, by its offset in either layout.
pub open spec fn address(l: ElfLayout, b: Seq<u8>, wide: int, narrow: int) -> int {
    at(b, by_class(l, wide, narrow), word(l))
}

/// A structure has the size that the format gives it.
pub proof fn law_sizes_of_structures(l: ElfLayout)
    ensures
        l.ehdr_size() == by_class(l, 64, 52),
        l.phdr_size() == 8 + 6 * word(l),
        l.shdr_size() == 16 + 6 * word(l),
        l.dyn_size() == 2 * word(l),
        l.sym_size() == 8 + 2 * word(l),
        l.word() == word(l),
{
}

/// The ELF header is read where the format puts its fields.
pub proof fn law_elf_header_is_read(l: ElfLayout, b: Seq<u8>)
    requires
        by_class(l, 64, 52) <= b.len(),
    ensures
        l.phoff_at(b, 0) == address(l, b, 32, 28),
        l.e_phentsize(b) == at(b, by_class(l, 54, 42), 2),
        l.e_phnum(b) == at(b, by_class(l, 56, 44), 2),
        l.e_shoff(b) == address(l, b, 40, 32),
        l.e_shentsize(b) == at(b, by_class(l, 58, 46), 2),
        l.e_shnum(b) == at(b, by_class(l, 60, 48), 2),
        l.e_shstrndx(b) == at(b, by_class(l, 62, 50), 2),
{
    law_integers_are_little_endian(b, by_class(l, 32, 28));
    law_integers_are_little_endian(b, by_class(l, 54, 42));
    law_integers_are_little_endian(b, by_class(l, 56, 44));
    law_integers_are_little_endian(b, by_class(l, 40, 32));
    law_integers_are_little_endian(b, by_class(l, 58, 46));
    law_integers_are_little_endian(b, by_class(l, 60, 48));
    law_integers_are_little_endian(b, by_class(l, 62, 50));
}

/// A program header is read where the format puts its fields.
pub proof fn law_program_header_is_read(l: ElfLayout, b: Seq<u8>, o: int)
    requires
        0 <= o,
        o + by_class(l, 56, 32) <= b.len(),
    ensures
        l.p_type_at(b, o) == at(b, o, 4),
        l.p_offset_at(b, o) == address(l, b, o + 8, o + 4),
        l.p_vaddr_at(b, o) == address(l, b, o + 16, o + 8),
        l.p_filesz_at(b, o) == address(l, b, o + 32, o + 16),
        l.p_memsz_at(b, o) == address(l, b, o + 40, o + 20),
{
    law_integers_are_little_endian(b, o);
    law_integers_are_little_endian(b, by_class(l, o + 8, o + 4));
    law_integers_are_little_endian(b, by_class(l, o + 16, o + 8));
    law_integers_are_little_endian(b, by_class(l, o + 32, o + 16));
    law_integers_are_little_endian(b, by_class(l, o + 40, o + 20));
}

/// A dynamic entry is read where the format puts its fields, its tag with a sign.
pub proof fn law_dynamic_entry_is_read(l: ElfLayout, b: Seq<u8>, o: int)
    requires
        0 <= o,
        o + by_class(l, 16, 8) <= b.len(),
    ensures
        l.d_tag_at(b, o) == signed(at(b, o, word(l)), word(l)),
        l.d_val_at(b, o) == address(l, b, o + 8, o + 4),
{
    law_integers_are_little_endian(b, o);
    law_integers_are_little_endian(b, by_class(l, o + 8, o + 4));
    let x = bytes::u64_at(b, o);
    let y = bytes::u32_at(b, o);
    assert(x < 0x8000_0000_0000_0000u64 ==> x as i64 as int == x) by (bit_vector);
    assert(x >= 0x8000_0000_0000_0000u64 ==> x as i64 as int == x - 0x1_0000_0000_0000_0000)
        by (bit_vector);
    assert(y < 0x8000_0000u32 ==> y as i32 as i64 as int == y) by (bit_vector);
    assert(y >= 0x8000_0000u32 ==> y as i32 as i64 as int == y - 0x1_0000_0000) by (bit_vector);
}

/// A symbol is read where the format puts its fields, which either class orders in
/// its own way.
pub proof fn law_symbol_is_read(l: ElfLayout, b: Seq<u8>, o: int)
    requires
        0 <= o,
        o + by_class(l, 24, 16) <= b.len(),
    ensures
        l.sym_name_at(b, o) == at(b, o, 4),
        l.sym_value_at(b, o) == address(l, b, o + 8, o + 4),
        l.sym_bytesize_at(b, o) == address(l, b, o + 16, o + 8),
        l.sym_info_at(b, o) == b[by_class(l, o + 4, o + 12)],
        l.sym_other_at(b, o) == b[by_class(l, o + 5, o + 13)],
        l.sym_shndx_at(b, o) == at(b, by_class(l, o + 6, o + 14), 2),
{
    law_integers_are_little_endian(b, o);
    law_integers_are_little_endian(b, by_class(l, o + 8, o + 4));
    law_integers_are_little_endian(b, by_class(l, o + 16, o + 8));
    law_integers_are_little_endian(b, by_class(l, o + 6, o + 14));
}

/// A section header is read where the format puts its fields.
pub proof fn law_section_header_is_read(l: ElfLayout, b: Seq<u8>, o: int)
    requires
        0 <= o,
        o + by_class(l, 64, 40) <= b.len(),
    ensures
        ({
            let h = l.shdr_at(b, o);
            &&& h.name == at(b, o, 4)
            &&& h.typ == at(b, o + 4, 4)
            &&& h.flags == address(l, b, o + 8, o + 8)
            &&& h.addr == address(l, b, o + 16, o + 12)
            &&& h.off == address(l, b, o + 24, o + 16)
            &&& h.size == address(l, b, o + 32, o + 20)
            &&& h.link == at(b, by_class(l, o + 40, o + 24), 4)
            &&& h.info == at(b, by_class(l, o + 44, o + 28), 4)
            &&& h.align == address(l, b, o + 48, o + 32)
            &&& h.entsize == address(l, b, o + 56, o + 36)
        }),
{
    law_integers_are_little_endian(b, o);
    law_integers_are_little_endian(b, o + 4);
    law_integers_are_little_endian(b, o + 8);
    law_integers_are_little_endian(b, by_class(l, o + 16, o + 12));
    law_integers_are_little_endian(b, by_class(l, o + 24, o + 16));
    law_integers_are_little_endian(b, by_class(l, o + 32, o + 20));
    law_integers_are_little_endian(b, by_class(l, o + 40, o + 24));
    law_integers_are_little_endian(b, by_class(l, o + 44, o + 28));
    law_integers_are_little_endian(b, by_class(l, o + 48, o + 32));
    law_integers_are_little_endian(b, by_class(l, o + 56, o + 36));
}

/// Whether `after` is `before` but for the `n` bytes at `o`, which hold `v`, or the
/// low bytes of it.
pub open spec fn is_set(before: Seq<u8>, after: Seq<u8>, o: int, n: int, v: int) -> bool {
    &&& after.len() == before.len()
    &&& after.take(o) == before.take(o)
    &&& at(after, o, n) == low(v, n)
    &&& after.skip(o + n) == before.skip(o + n)
}

proof fn lemma_is_set(b: Seq<u8>, o: int, w: Seq<u8>, v: int)
    requires
        0 <= o,
        o + w.len() <= b.len(),
        number(w) == low(v, w.len() as int),
    ensures
        is_set(b, bytes::splice(b, o, w), o, w.len() as int, v),
{
    let after = bytes::splice(b, o, w);
    assert(after.take(o) =~= b.take(o));
    assert(after.skip(o + w.len()) =~= b.skip(o + w.len()));
    assert(after.subrange(o, o + w.len()) =~= w);
}

proof fn lemma_low(v: u64)
    ensures
        v as u32 == v % 0x1_0000_0000,
{
    assert(v as u32 == v % 0x1_0000_0000) by (bit_vector);
}

proof fn lemma_address_is_set(l: ElfLayout, b: Seq<u8>, wide: int, narrow: int, v: u64)
    requires
        0 <= wide,
        0 <= narrow,
        by_class(l, wide, narrow) + word(l) <= b.len(),
    ensures
        is_set(b, l.with_addr(b, wide, narrow, v), by_class(l, wide, narrow), word(l), v as int),
{
    law_integers_are_written_in_full(0, v as u32, v);
    lemma_low(v);
    if l.is64 {
        lemma_is_set(b, wide, bytes::le64(v), v as int);
    } else {
        lemma_is_set(b, narrow, bytes::le32(v as u32), v as int);
    }
}

/// A field is written where the format puts it, and nothing beside it is touched.
pub proof fn law_header_fields_are_written(l: ElfLayout, b: Seq<u8>, v: u64, n: u16)
    requires
        by_class(l, 64, 52) <= b.len(),
    ensures
        is_set(b, l.with_shoff(b, 0, v), by_class(l, 40, 32), word(l), v as int),
        is_set(b, l.with_shentsize(b, n), by_class(l, 58, 46), 2, n as int),
        is_set(b, l.with_shnum(b, n), by_class(l, 60, 48), 2, n as int),
        is_set(b, l.with_shstrndx(b, n), by_class(l, 62, 50), 2, n as int),
{
    lemma_address_is_set(l, b, 40, 32, v);
    law_integers_are_written_in_full(n, 0, 0);
    lemma_is_set(b, by_class(l, 58, 46), bytes::le16(n), n as int);
    lemma_is_set(b, by_class(l, 60, 48), bytes::le16(n), n as int);
    lemma_is_set(b, by_class(l, 62, 50), bytes::le16(n), n as int);
}

/// So it is in a program header.
pub proof fn law_program_header_fields_are_written(l: ElfLayout, b: Seq<u8>, o: int, v: u64)
    requires
        0 <= o,
        o + by_class(l, 56, 32) <= b.len(),
    ensures
        is_set(b, l.with_p_offset(b, o, v), by_class(l, o + 8, o + 4), word(l), v as int),
        is_set(b, l.with_p_filesz(b, o, v), by_class(l, o + 32, o + 16), word(l), v as int),
{
    lemma_address_is_set(l, b, o + 8, o + 4, v);
    lemma_address_is_set(l, b, o + 32, o + 16, v);
}

/// And in a symbol.
pub proof fn law_symbol_fields_are_written(l: ElfLayout, b: Seq<u8>, o: int, n: u16)
    requires
        0 <= o,
        o + by_class(l, 24, 16) <= b.len(),
    ensures
        is_set(b, l.with_sym_shndx(b, o, n), by_class(l, o + 6, o + 14), 2, n as int),
{
    law_integers_are_written_in_full(n, 0, 0);
    lemma_is_set(b, by_class(l, o + 6, o + 14), bytes::le16(n), n as int);
}

/// What an address-sized field keeps of a number.
pub proof fn lemma_cut(l: ElfLayout, v: u64)
    ensures
        l.cut(v) == low(v as int, word(l)),
{
    lemma_low(v);
}

/// A section header is written as the format lays it out, each field in full or,
/// where it is address-sized, with the low bytes that it has room for.
pub proof fn law_section_header_is_written(l: ElfLayout, h: Shdr)
    ensures
        ({
            let w = l.shdr_bytes(h);
            let n = word(l);
            &&& w.len() == by_class(l, 64, 40)
            &&& at(w, 0, 4) == h.name
            &&& at(w, 4, 4) == h.typ
            &&& at(w, 8, n) == low(h.flags as int, n)
            &&& address(l, w, 16, 12) == low(h.addr as int, n)
            &&& address(l, w, 24, 16) == low(h.off as int, n)
            &&& address(l, w, 32, 20) == low(h.size as int, n)
            &&& at(w, by_class(l, 40, 24), 4) == h.link
            &&& at(w, by_class(l, 44, 28), 4) == h.info
            &&& address(l, w, 48, 32) == low(h.align as int, n)
            &&& address(l, w, 56, 36) == low(h.entsize as int, n)
        }),
{
    let w = l.shdr_bytes(h);
    l.lemma_shdr_len(h);
    assert(w.subrange(0, w.len() as int) =~= w);
    layout::law_section_header_reads_back(l, w, 0, h);
    law_section_header_is_read(l, w, 0);
    lemma_cut(l, h.flags);
    lemma_cut(l, h.addr);
    lemma_cut(l, h.off);
    lemma_cut(l, h.size);
    lemma_cut(l, h.align);
    lemma_cut(l, h.entsize);
}

/// A symbol is written as the format lays it out.
pub proof fn law_symbol_is_written(
    l: ElfLayout,
    name: u32,
    value: u64,
    size: u64,
    info: u8,
    other: u8,
    shndx: u16,
)
    ensures
        ({
            let w = l.sym_bytes(name, value, size, info, other, shndx);
            let n = word(l);
            &&& w.len() == by_class(l, 24, 16)
            &&& at(w, 0, 4) == name
            &&& address(l, w, 8, 4) == low(value as int, n)
            &&& address(l, w, 16, 8) == low(size as int, n)
            &&& w[by_class(l, 4, 12)] == info
            &&& w[by_class(l, 5, 13)] == other
            &&& at(w, by_class(l, 6, 14), 2) == shndx
        }),
{
    let w = l.sym_bytes(name, value, size, info, other, shndx);
    l.lemma_sym_len(name, value, size, info, other, shndx);
    assert(w.subrange(0, w.len() as int) =~= w);
    layout::law_symbol_reads_back(l, w, 0, name, value, size, info, other, shndx);
    law_symbol_is_read(l, w, 0);
    lemma_cut(l, value);
    lemma_cut(l, size);
}

} // verus!
