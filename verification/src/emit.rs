//! Symbol tables, string tables and the section header table of a rebuilt image.
use crate::bytes;
use crate::layout::{ElfLayout, Shdr};
use crate::sections;
use crate::sections::{find_covering, section_index_of, SecDesc, Section};
use crate::sections::{SHT_STRTAB, SHT_SYMTAB};
use vstd::prelude::*;
use vstd::slice::slice_subrange;

verus! {

/// A caller-supplied symbol (e.g. a recovered JNI function name at a known
/// offset) to write into a real `.symtab` so IDA/Ghidra show the name.
#[derive(Clone, Debug, PartialEq, Eq)]
pub struct InjectedSym {
    pub name: String,
    /// Offset within the module.
    pub value: u64,
}

/// `n` zero bytes.
pub open spec fn zeros(n: nat) -> Seq<u8> {
    Seq::new(n, |i: int| 0u8)
}

/// A string as a string table holds it: its UTF-8 bytes and a NUL.
pub open spec fn c_string(name: Seq<char>) -> Seq<u8> {
    vstd::utf8::encode_utf8(name).push(0u8)
}

/// `b` extended by the NUL-terminated `name`.
fn push_c_string(b: &mut Vec<u8>, name: &str)
    ensures
        final(b)@ == old(b)@ + c_string(name@),
{
    b.extend_from_slice(name.as_bytes());
    b.push(0);
    assert(b@ =~= old(b)@ + c_string(name@));
}

/// The string table of the first `n` injected symbols: a NUL, then their names.
pub open spec fn injected_strtab(injected: Seq<InjectedSym>, n: nat) -> Seq<u8>
    decreases n,
{
    if n == 0 {
        seq![0u8]
    } else {
        injected_strtab(injected, (n - 1) as nat) + c_string(injected[n - 1].name@)
    }
}

/// `STB_GLOBAL` and `STT_FUNC`.
pub const GLOBAL_FUNC: u8 = 0x12;

/// The symbol table entry of injected symbol `i`.
pub open spec fn injected_entry(
    l: ElfLayout,
    secs: Seq<Section>,
    injected: Seq<InjectedSym>,
    i: int,
) -> Seq<u8> {
    l.sym_bytes(
        injected_strtab(injected, i as nat).len() as u32,
        injected[i].value,
        0,
        GLOBAL_FUNC,
        0,
        sections::covering_index(injected[i].value, secs),
    )
}

/// The symbol table of the first `n` injected symbols; entry 0 is the null
/// symbol.
pub open spec fn injected_symtab(
    l: ElfLayout,
    secs: Seq<Section>,
    injected: Seq<InjectedSym>,
    n: nat,
) -> Seq<u8>
    decreases n,
{
    if n == 0 {
        zeros(l.sym_size() as nat)
    } else {
        injected_symtab(l, secs, injected, (n - 1) as nat) + injected_entry(
            l,
            secs,
            injected,
            n - 1,
        )
    }
}

pub open spec fn symtab_section(
    l: ElfLayout,
    secs: Seq<Section>,
    injected: Seq<InjectedSym>,
) -> Section {
    Section {
        entsize: l.sym_size() as u64,
        link_name: ".strtab"@,
        info: 1,
        file_data: Some(injected_symtab(l, secs, injected, injected.len())),
        ..sections::plain_section(".symtab"@, SHT_SYMTAB, 0, 0, l.word())
    }
}

pub open spec fn strtab_section(injected: Seq<InjectedSym>) -> Section {
    Section {
        file_data: Some(injected_strtab(injected, injected.len())),
        ..sections::plain_section(".strtab"@, SHT_STRTAB, 0, 0, 1)
    }
}

/// `secs` followed by the tables of the injected symbols, when there are any,
/// and by the section name table.
pub open spec fn with_tables(
    l: ElfLayout,
    secs: Seq<Section>,
    injected: Seq<InjectedSym>,
) -> Seq<Section> {
    let named = if injected.len() == 0 {
        secs
    } else {
        secs.push(symtab_section(l, secs, injected)).push(strtab_section(injected))
    };
    named.push(sections::plain_section(".shstrtab"@, SHT_STRTAB, 0, 0, 1))
}

/// Builds the symbol and string table of the injected symbols.
fn build_symtab(l: ElfLayout, secs: &Vec<SecDesc>, injected: &[InjectedSym]) -> (r: (
    Vec<u8>,
    Vec<u8>,
))
    ensures
        r.0@ == injected_symtab(
            l,
            sections::section_views(secs@),
            injected@,
            injected@.len(),
        ),
        r.1@ == injected_strtab(injected@, injected@.len()),
{
    let ghost views = sections::section_views(secs@);
    let sym_sz: usize = l.sym_size();
    let mut strtab: Vec<u8> = vec![0u8];
    let mut symtab: Vec<u8> = vec![0u8; sym_sz];
    assert(strtab@ =~= seq![0u8]);
    assert(symtab@ =~= zeros(l.sym_size() as nat));
    let mut i: usize = 0;
    while i < injected.len()
        invariant
            i <= injected.len(),
            sym_sz == l.sym_size(),
            views == sections::section_views(secs@),
            symtab@ == injected_symtab(l, views, injected@, i as nat),
            strtab@ == injected_strtab(injected@, i as nat),
        decreases injected.len() - i,
    {
        let s = &injected[i];
        let name_off: u32 = strtab.len() as u32;
        push_c_string(&mut strtab, s.name.as_str());
        let shndx: u16 = section_index_of(s.value, secs);
        let mut entry: Vec<u8> = vec![0u8; sym_sz];
        l.put_sym(entry.as_mut_slice(), name_off, s.value, 0, GLOBAL_FUNC, 0, shndx);
        proof {
            l.lemma_sym_len(name_off, s.value, 0, GLOBAL_FUNC, 0, shndx);
            assert(entry@ =~= injected_entry(l, views, injected@, i as int));
        }
        symtab.append(&mut entry);
        i += 1;
    }
    (symtab, strtab)
}

/// Appends the tables that are not part of the image.
pub fn append_tables(l: ElfLayout, secs: &mut Vec<SecDesc>, injected: &[InjectedSym])
    ensures
        sections::section_views(final(secs)@) == with_tables(
            l,
            sections::section_views(old(secs)@),
            injected@,
        ),
{
    let ghost views = sections::section_views(secs@);
    if injected.len() > 0 {
        let (symtab, strtab) = build_symtab(l, secs, injected);
        let mut d = SecDesc::new(".symtab", SHT_SYMTAB, 0, 0, l.word());
        d.entsize = l.sym_size() as u64;
        d.link_name = ".strtab".to_string();
        d.info = 1;
        d.file_data = Some(symtab);
        assert(d@ == symtab_section(l, views, injected@));
        let mut e = SecDesc::new(".strtab", SHT_STRTAB, 0, 0, 1);
        e.file_data = Some(strtab);
        assert(e@ == strtab_section(injected@));
        secs.push(d);
        assert(sections::section_views(secs@) =~= views.push(d@));
        secs.push(e);
        assert(sections::section_views(secs@) =~= views.push(d@).push(e@));
    }
    let ghost named = sections::section_views(secs@);
    let d = SecDesc::new(".shstrtab", SHT_STRTAB, 0, 0, 1);
    secs.push(d);
    assert(sections::section_views(secs@) =~= named.push(d@));
}

/// The first section from `from` on that is called `name`, else the number of
/// sections.
pub open spec fn first_named(secs: Seq<Section>, name: Seq<char>, from: int) -> int
    decreases secs.len() - from,
{
    if from >= secs.len() || secs[from].name == name {
        from
    } else {
        first_named(secs, name, from + 1)
    }
}

/// The last of the first `n` sections that is called `name`, else 0.
pub open spec fn last_named(secs: Seq<Section>, name: Seq<char>, n: nat) -> int
    decreases n,
{
    if n == 0 {
        0
    } else if secs[n - 1].name == name {
        n - 1
    } else {
        last_named(secs, name, (n - 1) as nat)
    }
}

/// Index of the section that `name` refers to: 0 for the empty name and for one
/// that no section has.
pub open spec fn index_named(secs: Seq<Section>, name: Seq<char>) -> u32 {
    if name.len() == 0 {
        0
    } else {
        last_named(secs, name, secs.len()) as u32
    }
}

fn find_first_named(secs: &Vec<SecDesc>, name: &String) -> (r: usize)
    ensures
        r == first_named(sections::section_views(secs@), name@, 0),
        r <= secs.len(),
{
    let mut i: usize = 0;
    while i < secs.len()
        invariant
            i <= secs.len(),
            first_named(sections::section_views(secs@), name@, i as int) == first_named(
                sections::section_views(secs@),
                name@,
                0,
            ),
        decreases secs.len() - i,
    {
        assert(sections::section_views(secs@)[i as int] == secs@[i as int]@);
        if secs[i].name == *name {
            return i;
        }
        i += 1;
    }
    i
}

fn find_index_named(secs: &Vec<SecDesc>, name: &String) -> (r: u32)
    ensures
        r == index_named(sections::section_views(secs@), name@),
{
    if name.as_str().is_empty() {
        return 0;
    }
    let ghost views = sections::section_views(secs@);
    let mut i: usize = secs.len();
    while i > 0
        invariant
            i <= secs.len(),
            name@.len() != 0,
            views == sections::section_views(secs@),
            last_named(views, name@, i as nat) == last_named(views, name@, views.len()),
        decreases i,
    {
        assert(views[i - 1] == secs@[i - 1]@);
        if secs[i - 1].name == *name {
            return (i - 1) as u32;
        }
        i -= 1;
    }
    0
}

/// The section name table after the first `n` sections: a NUL, then each name
/// that no earlier section has.
pub open spec fn name_table(secs: Seq<Section>, n: nat) -> Seq<u8>
    decreases n,
{
    if n == 0 {
        seq![0u8]
    } else {
        let before = name_table(secs, (n - 1) as nat);
        let name = secs[n - 1].name;
        if name.len() == 0 || first_named(secs, name, 0) < n - 1 {
            before
        } else {
            before + c_string(name)
        }
    }
}

/// Offset of the name of section `i` in the section name table.
pub open spec fn name_offset(secs: Seq<Section>, i: int) -> u32 {
    if secs[i].name.len() == 0 {
        0
    } else {
        name_table(secs, first_named(secs, secs[i].name, 0) as nat).len() as u32
    }
}

/// The first section that has the name of section `i` lies at or before `i`.
pub proof fn lemma_first_named(secs: Seq<Section>, name: Seq<char>, from: int, i: int)
    requires
        0 <= from <= i < secs.len(),
        secs[i].name == name,
    ensures
        from <= first_named(secs, name, from) <= i,
        secs[first_named(secs, name, from)].name == name,
    decreases i - from,
{
    if secs[from].name != name {
        lemma_first_named(secs, name, from + 1, i);
    }
}

/// Builds the section name table and the offset of each section's name in it.
fn build_name_table(secs: &Vec<SecDesc>) -> (r: (Vec<u8>, Vec<u32>))
    ensures
        r.0@ == name_table(sections::section_views(secs@), secs@.len()),
        r.1@.len() == secs@.len(),
        forall|i: int|
            0 <= i < secs@.len() ==> #[trigger] r.1@[i] == name_offset(
                sections::section_views(secs@),
                i,
            ),
{
    let ghost views = sections::section_views(secs@);
    let mut names: Vec<u8> = vec![0u8];
    let mut offs: Vec<u32> = Vec::new();
    assert(names@ =~= seq![0u8]);
    let mut i: usize = 0;
    while i < secs.len()
        invariant
            i <= secs.len(),
            views == sections::section_views(secs@),
            names@ == name_table(views, i as nat),
            offs@.len() == i,
            forall|k: int| 0 <= k < i ==> #[trigger] offs@[k] == name_offset(views, k),
        decreases secs.len() - i,
    {
        assert(views[i as int] == secs@[i as int]@);
        if secs[i].name.as_str().is_empty() {
            offs.push(0);
        } else {
            proof {
                lemma_first_named(views, views[i as int].name, 0, i as int);
            }
            let j: usize = find_first_named(secs, &secs[i].name);
            if j < i {
                let o: u32 = offs[j];
                offs.push(o);
            } else {
                offs.push(names.len() as u32);
                push_c_string(&mut names, secs[i].name.as_str());
            }
        }
        i += 1;
    }
    (names, offs)
}

/// `data` with `st_shndx` of the symbol at `o` pointing at the section that
/// contains the symbol's value. Undefined and reserved entries stay as they are.
pub open spec fn remap_symbol(
    l: ElfLayout,
    data: Seq<u8>,
    o: int,
    secs: Seq<Section>,
) -> Seq<u8> {
    let shndx = l.sym_shndx_at(data, o);
    if shndx == 0 || shndx >= 0xff00 {
        data
    } else {
        match sections::covering(l.sym_value_at(data, o), secs, 0) {
            Some(i) => l.with_sym_shndx(data, o, i as u16),
            None => data,
        }
    }
}

/// `data` with the first `n` symbols of the table at `off` remapped.
pub open spec fn remap_symbols(
    l: ElfLayout,
    data: Seq<u8>,
    off: int,
    n: nat,
    secs: Seq<Section>,
) -> Seq<u8>
    decreases n,
{
    if n == 0 {
        data
    } else {
        let before = remap_symbols(l, data, off, (n - 1) as nat, secs);
        let o = off + (n - 1) * l.sym_size();
        if o + l.sym_size() <= data.len() {
            remap_symbol(l, before, o, secs)
        } else {
            before
        }
    }
}

pub proof fn lemma_remap_len(l: ElfLayout, data: Seq<u8>, off: int, n: nat, secs: Seq<Section>)
    ensures
        remap_symbols(l, data, off, n, secs).len() == data.len(),
    decreases n,
{
    if n > 0 {
        lemma_remap_len(l, data, off, (n - 1) as nat, secs);
    }
}

/// Symbols past the end of the image have no effect.
proof fn lemma_remap_past_end(
    l: ElfLayout,
    data: Seq<u8>,
    off: int,
    i: nat,
    n: nat,
    secs: Seq<Section>,
)
    requires
        i <= n,
        i < n ==> off + i * l.sym_size() + l.sym_size() > data.len(),
    ensures
        remap_symbols(l, data, off, n, secs) == remap_symbols(l, data, off, i, secs),
    decreases n,
{
    if i < n {
        lemma_remap_past_end(l, data, off, i, (n - 1) as nat, secs);
        let size = l.sym_size() as int;
        assert(i * size <= (n - 1) * size) by (nonlinear_arith)
            requires
                i <= n - 1,
                0 <= size,
        ;
    }
}

/// Remaps the symbol at `o`.
fn remap_one(l: ElfLayout, data: &mut Vec<u8>, o: usize, secs: &Vec<SecDesc>)
    requires
        o + l.sym_size() <= old(data)@.len(),
    ensures
        final(data)@ == remap_symbol(
            l,
            old(data)@,
            o as int,
            sections::section_views(secs@),
        ),
{
    let sym = slice_subrange(data.as_slice(), o, data.len());
    let shndx: u16 = l.sym_shndx(sym);
    if shndx == 0 || shndx >= 0xff00 {
        return ;
    }
    let value: u64 = l.sym_value(sym);
    if let Some(si) = find_covering(value, secs) {
        let (_head, tail) = data.as_mut_slice().split_at_mut(o);
        l.set_sym_shndx(tail, si as u16);
        assert(data@ =~= l.with_sym_shndx(old(data)@, o as int, si as u16));
    }
}

/// Rewrites each defined .dynsym entry's st_shndx to the rebuilt allocatable
/// section whose address range contains the symbol's value. UND (0) and
/// reserved (>=0xff00, e.g. SHN_ABS) entries are left untouched.
pub fn remap_sym_shndx(
    l: ElfLayout,
    data: &mut Vec<u8>,
    off: u64,
    count: u64,
    secs: &Vec<SecDesc>,
)
    ensures
        final(data)@ == remap_symbols(
            l,
            old(data)@,
            off as int,
            count as nat,
            sections::section_views(secs@),
        ),
{
    let ghost image = data@;
    let ghost views = sections::section_views(secs@);
    let size: u64 = l.sym_size() as u64;
    let len: u64 = data.len() as u64;
    let mut i: u64 = 0;
    if off <= len {
        let mut left: u64 = len - off;
        while i < count && left >= size
            invariant
                i <= count,
                left <= len,
                size == l.sym_size(),
                len == image.len(),
                views == sections::section_views(secs@),
                off + i * size + left == len,
                data@ == remap_symbols(l, image, off as int, i as nat, views),
            decreases left,
        {
            proof {
                lemma_remap_len(l, image, off as int, i as nat, views);
                assert((i + 1) * size == i * size + size) by (nonlinear_arith);
                assert(len - left <= data.len());
            }
            remap_one(l, data, (len - left) as usize, secs);
            i += 1;
            left -= size;
        }
    }
    proof {
        lemma_remap_past_end(l, image, off as int, i as nat, count as nat, views);
    }
}

/// Number of bytes from `n` up to the next multiple of `align`.
pub open spec fn pad_len(n: nat, align: u64) -> nat {
    if align <= 1 || n % (align as nat) == 0 {
        0
    } else {
        (align - n % (align as nat)) as nat
    }
}

/// `data` filled up with zeros to a multiple of `align`.
pub open spec fn padded(data: Seq<u8>, align: u64) -> Seq<u8> {
    data + zeros(pad_len(data.len(), align))
}

fn pad(data: &mut Vec<u8>, align: u64)
    ensures
        final(data)@ == padded(old(data)@, align),
{
    let mut left: u64 = 0;
    if align > 1 {
        let rem: u64 = data.len() as u64 % align;
        if rem != 0 {
            left = align - rem;
        }
    }
    let ghost total = left as nat;
    assert(data@ =~= old(data)@ + zeros(0));
    while left > 0
        invariant
            left <= total,
            data@ == old(data)@ + zeros((total - left) as nat),
        decreases left,
    {
        data.push(0);
        left -= 1;
        assert(data@ =~= old(data)@ + zeros((total - left) as nat));
    }
}

/// `data` followed by the payloads of the first `n` sections, each aligned as
/// its section asks.
pub open spec fn with_payloads(data: Seq<u8>, secs: Seq<Section>, n: nat) -> Seq<u8>
    decreases n,
{
    if n == 0 {
        data
    } else {
        let before = with_payloads(data, secs, (n - 1) as nat);
        match secs[n - 1].file_data {
            Some(payload) => padded(before, secs[n - 1].align) + payload,
            None => before,
        }
    }
}

/// File offset of the payload of section `i`.
pub open spec fn payload_offset(data: Seq<u8>, secs: Seq<Section>, i: int) -> u64 {
    padded(with_payloads(data, secs, i as nat), secs[i].align).len() as u64
}

/// Appends the payloads; returns the file offset of each, 0 where there is none.
fn append_payloads(data: &mut Vec<u8>, secs: &Vec<SecDesc>) -> (offs: Vec<u64>)
    ensures
        final(data)@ == with_payloads(
            old(data)@,
            sections::section_views(secs@),
            secs@.len(),
        ),
        offs@.len() == secs@.len(),
        forall|i: int|
            0 <= i < secs@.len() && secs@[i].file_data is Some ==> #[trigger] offs@[i]
                == payload_offset(old(data)@, sections::section_views(secs@), i),
{
    let ghost image = data@;
    let ghost views = sections::section_views(secs@);
    let mut offs: Vec<u64> = Vec::new();
    let mut i: usize = 0;
    while i < secs.len()
        invariant
            i <= secs.len(),
            views == sections::section_views(secs@),
            data@ == with_payloads(image, views, i as nat),
            offs@.len() == i,
            forall|k: int|
                0 <= k < i && secs@[k].file_data is Some ==> #[trigger] offs@[k]
                    == payload_offset(image, views, k),
        decreases secs.len() - i,
    {
        assert(views[i as int] == secs@[i as int]@);
        match &secs[i].file_data {
            Some(payload) => {
                pad(data, secs[i].align);
                offs.push(data.len() as u64);
                let ghost before = data@;
                data.extend_from_slice(payload.as_slice());
                assert(data@ =~= before + payload@);
            },
            None => {
                offs.push(0);
            },
        }
        i += 1;
    }
    offs
}

/// The section header of section `i`, when the payloads follow `data` and the
/// section name table follows the payloads.
pub open spec fn section_header(data: Seq<u8>, secs: Seq<Section>, i: int) -> Shdr {
    let s = secs[i];
    let n = secs.len();
    let (addr, off, size) = if s.name.len() == 0 {
        (0u64, 0u64, s.size)
    } else if s.name == ".shstrtab"@ {
        (0u64, with_payloads(data, secs, n).len() as u64, name_table(secs, n).len() as u64)
    } else {
        match s.file_data {
            Some(payload) => (0u64, payload_offset(data, secs, i), payload.len() as u64),
            None => (s.addr, s.addr, s.size),
        }
    };
    Shdr {
        name: name_offset(secs, i),
        typ: s.typ,
        flags: s.flags,
        addr,
        off,
        size,
        link: index_named(secs, s.link_name),
        info: if s.info_name.len() == 0 {
            s.info
        } else {
            index_named(secs, s.info_name)
        },
        align: s.align,
        entsize: s.entsize,
    }
}

/// The first `n` entries of the section header table.
pub open spec fn header_table(l: ElfLayout, data: Seq<u8>, secs: Seq<Section>, n: nat) -> Seq<u8>
    decreases n,
{
    if n == 0 {
        Seq::empty()
    } else {
        header_table(l, data, secs, (n - 1) as nat) + l.shdr_bytes(
            section_header(data, secs, n - 1),
        )
    }
}

/// `data`, the payloads and the section name table, up to where the section
/// header table starts.
pub open spec fn before_headers(l: ElfLayout, data: Seq<u8>, secs: Seq<Section>) -> Seq<u8> {
    padded(with_payloads(data, secs, secs.len()) + name_table(secs, secs.len()), l.word())
}

/// `data` with the section header table of `secs` appended and the ELF header
/// pointing at it.
pub open spec fn with_section_table(
    l: ElfLayout,
    data: Seq<u8>,
    secs: Seq<Section>,
) -> Seq<u8> {
    let front = before_headers(l, data, secs);
    let all = front + header_table(l, data, secs, secs.len());
    let all = l.with_shoff(all, 0, front.len() as u64);
    let all = l.with_shentsize(all, l.shdr_size() as u16);
    let all = l.with_shnum(all, secs.len() as u16);
    l.with_shstrndx(all, (secs.len() - 1) as u16)
}

/// The section header of section `i`.
fn describe_section(
    secs: &Vec<SecDesc>,
    i: usize,
    name: u32,
    payload_off: u64,
    names_off: u64,
    names_len: u64,
    Ghost(data): Ghost<Seq<u8>>,
) -> (r: Shdr)
    requires
        i < secs@.len(),
        name == name_offset(sections::section_views(secs@), i as int),
        secs@[i as int].file_data is Some ==> payload_off == payload_offset(
            data,
            sections::section_views(secs@),
            i as int,
        ),
        names_off == with_payloads(
            data,
            sections::section_views(secs@),
            secs@.len(),
        ).len() as u64,
        names_len == name_table(sections::section_views(secs@), secs@.len()).len() as u64,
    ensures
        r == section_header(data, sections::section_views(secs@), i as int),
{
    let s = &secs[i];
    assert(sections::section_views(secs@)[i as int] == s@);
    let mut addr: u64 = 0;
    let mut off: u64 = 0;
    let mut size: u64 = s.size;
    if s.name.as_str().is_empty() {
    } else if s.name == ".shstrtab".to_string() {
        off = names_off;
        size = names_len;
    } else {
        match &s.file_data {
            Some(payload) => {
                // non-alloc appended section (.symtab/.strtab): file only, no addr
                off = payload_off;
                size = payload.len() as u64;
            },
            None => {
                addr = s.addr;
                off = s.addr;  // memory image: offset == addr
            },
        }
    }
    let link: u32 = find_index_named(secs, &s.link_name);
    let info: u32 = if s.info_name.as_str().is_empty() {
        s.info
    } else {
        find_index_named(secs, &s.info_name)
    };
    Shdr {
        name,
        typ: s.typ,
        flags: s.flags,
        addr,
        off,
        size,
        link,
        info,
        align: s.align,
        entsize: s.entsize,
    }
}

/// The entry of a section header in the table.
fn encode_header(l: ElfLayout, h: Shdr) -> (r: Vec<u8>)
    ensures
        r@ == l.shdr_bytes(h),
{
    let mut b: Vec<u8> = vec![0u8; l.shdr_size()];
    l.put_shdr(
        b.as_mut_slice(),
        h.name,
        h.typ,
        h.flags,
        h.addr,
        h.off,
        h.size,
        h.link,
        h.info,
        h.align,
        h.entsize,
    );
    proof {
        l.lemma_shdr_len(h);
        assert(b@ =~= l.shdr_bytes(h));
    }
    b
}

/// Appends payloads, section names and the section header table, and points the
/// ELF header at the table.
pub fn emit_sections(l: ElfLayout, data: &mut Vec<u8>, secs: &Vec<SecDesc>)
    requires
        l.ehdr_size() <= old(data)@.len(),
        secs@.len() > 0,
    ensures
        final(data)@ == with_section_table(l, old(data)@, sections::section_views(secs@)),
{
    let ghost image = data@;
    let ghost views = sections::section_views(secs@);
    let (mut names, name_offs) = build_name_table(secs);
    let payload_offs = append_payloads(data, secs);
    let names_off: u64 = data.len() as u64;
    let names_len: u64 = names.len() as u64;
    data.append(&mut names);
    pad(data, l.word());
    let ghost front = data@;
    assert(front == before_headers(l, image, views));
    let shoff: u64 = data.len() as u64;
    let mut i: usize = 0;
    assert(front + header_table(l, image, views, 0) =~= front);
    while i < secs.len()
        invariant
            i <= secs.len(),
            views == sections::section_views(secs@),
            data@ == front + header_table(l, image, views, i as nat),
            name_offs@.len() == secs@.len(),
            payload_offs@.len() == secs@.len(),
            forall|k: int|
                0 <= k < secs@.len() ==> #[trigger] name_offs@[k] == name_offset(views, k),
            forall|k: int|
                0 <= k < secs@.len() && secs@[k].file_data is Some ==> #[trigger] payload_offs@[k]
                    == payload_offset(image, views, k),
            names_off == with_payloads(image, views, views.len()).len() as u64,
            names_len == name_table(views, views.len()).len() as u64,
        decreases secs.len() - i,
    {
        let h = describe_section(
            secs,
            i,
            name_offs[i],
            payload_offs[i],
            names_off,
            names_len,
            Ghost(image),
        );
        let mut b = encode_header(l, h);
        let ghost before = data@;
        let ghost entry = b@;
        data.append(&mut b);
        assert(data@ =~= before + entry);
        i += 1;
        assert(front + header_table(l, image, views, i as nat) =~= before + entry);
    }
    assert(l.ehdr_size() <= data@.len()) by {
        lemma_payloads_len(image, views, views.len());
    }
    l.set_shoff(data.as_mut_slice(), shoff);
    l.set_shentsize(data.as_mut_slice(), l.shdr_size() as u16);
    l.set_shnum(data.as_mut_slice(), secs.len() as u16);
    l.set_shstrndx(data.as_mut_slice(), (secs.len() - 1) as u16);
}

pub proof fn lemma_payloads_len(data: Seq<u8>, secs: Seq<Section>, n: nat)
    ensures
        with_payloads(data, secs, n).len() >= data.len(),
    decreases n,
{
    if n > 0 {
        lemma_payloads_len(data, secs, (n - 1) as nat);
    }
}

proof fn lemma_last_named(secs: Seq<Section>, name: Seq<char>, n: nat)
    requires
        n <= secs.len(),
    ensures
        ({
            let i = last_named(secs, name, n);
            &&& 0 <= i
            &&& n > 0 ==> i < n
            &&& secs[i].name == name || i == 0
            &&& forall|j: int| i < j < n ==> (#[trigger] secs[j]).name != name
            &&& (exists|j: int| 0 <= j < n && (#[trigger] secs[j]).name == name) ==> secs[i].name
                == name
        }),
    decreases n,
{
    if n > 0 && secs[n - 1].name != name {
        lemma_last_named(secs, name, (n - 1) as nat);
    }
}

/// A reference by name resolves to the last section so named, and to the NULL
/// section when the name is empty or no section has it. The index is one of the
/// table.
pub proof fn law_references_resolve(secs: Seq<Section>, name: Seq<char>)
    requires
        0 < secs.len() <= u32::MAX,
    ensures
        ({
            let i = index_named(secs, name) as int;
            let named = name.len() > 0 && exists|j: int|
                0 <= j < secs.len() && (#[trigger] secs[j]).name == name;
            &&& i < secs.len()
            &&& named ==> secs[i].name == name && forall|j: int|
                i < j < secs.len() ==> (#[trigger] secs[j]).name != name
            &&& !named ==> i == 0
        }),
{
    lemma_last_named(secs, name, secs.len());
}

} // verus!
