//! Field layout of ELF32 and ELF64 structures, little-endian.
use crate::bytes;
use crate::bytes::{rd_u16, rd_u32, rd_u64, wr_u16, wr_u32, wr_u64};
use vstd::prelude::*;

verus! {

/// Abstracts the byte-level differences between ELF32 and ELF64. Executable
/// accessors take a slice positioned at the start of the relevant structure (or
/// the whole file, for the header); the specification functions take the offset
/// of that structure inside a larger buffer.
#[derive(Clone, Copy)]
pub struct ElfLayout {
    pub is64: bool,
}

/// The fields of a section header.
#[derive(Clone, Copy)]
pub struct Shdr {
    pub name: u32,
    pub typ: u32,
    pub flags: u64,
    pub addr: u64,
    pub off: u64,
    pub size: u64,
    pub link: u32,
    pub info: u32,
    pub align: u64,
    pub entsize: u64,
}

impl ElfLayout {
    #[verifier::allow_in_spec]
    pub fn pick(self, a: usize, b: usize) -> usize
        returns
            (if self.is64 {
                a
            } else {
                b
            }),
    {
        if self.is64 {
            a
        } else {
            b
        }
    }

    /// Size of the ELF header.
    #[verifier::allow_in_spec]
    pub fn ehdr_size(self) -> usize
        returns
            (if self.is64 {
                64usize
            } else {
                52usize
            }),
    {
        self.pick(64, 52)
    }

    /// Size of a program header.
    #[verifier::allow_in_spec]
    pub fn phdr_size(self) -> usize
        returns
            (if self.is64 {
                56usize
            } else {
                32usize
            }),
    {
        self.pick(56, 32)
    }

    /// Size of a section header.
    #[verifier::allow_in_spec]
    pub fn shdr_size(self) -> usize
        returns
            (if self.is64 {
                64usize
            } else {
                40usize
            }),
    {
        self.pick(64, 40)
    }

    /// Size of a dynamic entry.
    #[verifier::allow_in_spec]
    pub fn dyn_size(self) -> usize
        returns
            (if self.is64 {
                16usize
            } else {
                8usize
            }),
    {
        self.pick(16, 8)
    }

    /// Size of a symbol table entry.
    #[verifier::allow_in_spec]
    pub fn sym_size(self) -> usize
        returns
            (if self.is64 {
                24usize
            } else {
                16usize
            }),
    {
        self.pick(24, 16)
    }

    /// Size of a machine word.
    #[verifier::allow_in_spec]
    pub fn word(self) -> u64
        returns
            (if self.is64 {
                8u64
            } else {
                4u64
            }),
    {
        self.pick(8, 4) as u64
    }

    /// The address-sized integer whose offset is `o64` in the ELF64 layout and
    /// `o32` in the ELF32 layout.
    pub open spec fn addr_at(self, b: Seq<u8>, o64: int, o32: int) -> u64 {
        if self.is64 {
            bytes::u64_at(b, o64)
        } else {
            bytes::u32_at(b, o32) as u64
        }
    }

    /// `b` with that integer set to `v`, cut to 32 bits in the ELF32 layout.
    pub open spec fn with_addr(self, b: Seq<u8>, o64: int, o32: int, v: u64) -> Seq<u8> {
        if self.is64 {
            bytes::splice(b, o64, bytes::le64(v))
        } else {
            bytes::splice(b, o32, bytes::le32(v as u32))
        }
    }

    pub fn read_addr(self, b: &[u8], off64: usize, off32: usize) -> (v: u64)
        requires
            self.is64 ==> off64 + 8 <= b@.len(),
            !self.is64 ==> off32 + 4 <= b@.len(),
        ensures
            v == self.addr_at(b@, off64 as int, off32 as int),
    {
        if self.is64 {
            rd_u64(b, off64)
        } else {
            rd_u32(b, off32) as u64
        }
    }

    pub fn put_addr(self, b: &mut [u8], off64: usize, off32: usize, v: u64)
        requires
            self.is64 ==> off64 + 8 <= old(b)@.len(),
            !self.is64 ==> off32 + 4 <= old(b)@.len(),
        ensures
            final(b)@ == self.with_addr(old(b)@, off64 as int, off32 as int, v),
    {
        if self.is64 {
            wr_u64(b, off64, v);
        } else {
            wr_u32(b, off32, v as u32);
        }
    }

    /// `e_phoff` of the ELF header at `o`.
    pub open spec fn phoff_at(self, b: Seq<u8>, o: int) -> u64 {
        self.addr_at(b, o + 32, o + 28)
    }

    pub fn phoff(self, b: &[u8]) -> (v: u64)
        requires
            self.ehdr_size() <= b@.len(),
        ensures
            v == self.phoff_at(b@, 0),
    {
        self.read_addr(b, 32, 28)
    }

    /// `e_phentsize` of the ELF header that `b` starts with.
    pub open spec fn e_phentsize(self, b: Seq<u8>) -> u16 {
        bytes::u16_at(b, self.pick(54, 42) as int)
    }

    pub fn phentsize(self, d: &[u8]) -> (v: usize)
        requires
            self.ehdr_size() <= d@.len(),
        ensures
            v == self.e_phentsize(d@),
    {
        rd_u16(d, self.pick(54, 42)) as usize
    }

    /// `e_phnum` of the ELF header that `b` starts with.
    pub open spec fn e_phnum(self, b: Seq<u8>) -> u16 {
        bytes::u16_at(b, self.pick(56, 44) as int)
    }

    pub fn phnum(self, d: &[u8]) -> (v: usize)
        requires
            self.ehdr_size() <= d@.len(),
        ensures
            v == self.e_phnum(d@),
    {
        rd_u16(d, self.pick(56, 44)) as usize
    }

    /// `b` with `e_shoff` of the ELF header at `o` set to `v`.
    pub open spec fn with_shoff(self, b: Seq<u8>, o: int, v: u64) -> Seq<u8> {
        self.with_addr(b, o + 40, o + 32, v)
    }

    pub fn set_shoff(self, b: &mut [u8], v: u64)
        requires
            self.ehdr_size() <= old(b)@.len(),
        ensures
            final(b)@ == self.with_shoff(old(b)@, 0, v),
    {
        self.put_addr(b, 40, 32, v);
    }

    /// `b` with `e_shentsize` set to `v`.
    pub open spec fn with_shentsize(self, b: Seq<u8>, v: u16) -> Seq<u8> {
        bytes::splice(b, self.pick(58, 46) as int, bytes::le16(v))
    }

    pub fn set_shentsize(self, d: &mut [u8], v: u16)
        requires
            self.ehdr_size() <= old(d)@.len(),
        ensures
            final(d)@ == self.with_shentsize(old(d)@, v),
    {
        wr_u16(d, self.pick(58, 46), v);
    }

    /// `b` with `e_shnum` set to `v`.
    pub open spec fn with_shnum(self, b: Seq<u8>, v: u16) -> Seq<u8> {
        bytes::splice(b, self.pick(60, 48) as int, bytes::le16(v))
    }

    pub fn set_shnum(self, d: &mut [u8], v: u16)
        requires
            self.ehdr_size() <= old(d)@.len(),
        ensures
            final(d)@ == self.with_shnum(old(d)@, v),
    {
        wr_u16(d, self.pick(60, 48), v);
    }

    /// `b` with `e_shstrndx` set to `v`.
    pub open spec fn with_shstrndx(self, b: Seq<u8>, v: u16) -> Seq<u8> {
        bytes::splice(b, self.pick(62, 50) as int, bytes::le16(v))
    }

    pub fn set_shstrndx(self, d: &mut [u8], v: u16)
        requires
            self.ehdr_size() <= old(d)@.len(),
        ensures
            final(d)@ == self.with_shstrndx(old(d)@, v),
    {
        wr_u16(d, self.pick(62, 50), v);
    }

    /// `p_type` of the program header at `o`.
    pub open spec fn p_type_at(self, b: Seq<u8>, o: int) -> u32 {
        bytes::u32_at(b, o)
    }

    pub fn p_type(self, b: &[u8]) -> (v: u32)
        requires
            self.phdr_size() <= b@.len(),
        ensures
            v == self.p_type_at(b@, 0),
    {
        rd_u32(b, 0)
    }

    /// `p_offset` of the program header at `o`.
    pub open spec fn p_offset_at(self, b: Seq<u8>, o: int) -> u64 {
        self.addr_at(b, o + 8, o + 4)
    }

    /// `p_vaddr` of the program header at `o`.
    pub open spec fn p_vaddr_at(self, b: Seq<u8>, o: int) -> u64 {
        self.addr_at(b, o + 16, o + 8)
    }

    pub fn p_vaddr(self, b: &[u8]) -> (v: u64)
        requires
            self.phdr_size() <= b@.len(),
        ensures
            v == self.p_vaddr_at(b@, 0),
    {
        self.read_addr(b, 16, 8)
    }

    /// `p_filesz` of the program header at `o`.
    pub open spec fn p_filesz_at(self, b: Seq<u8>, o: int) -> u64 {
        self.addr_at(b, o + 32, o + 16)
    }

    pub fn p_filesz(self, b: &[u8]) -> (v: u64)
        requires
            self.phdr_size() <= b@.len(),
        ensures
            v == self.p_filesz_at(b@, 0),
    {
        self.read_addr(b, 32, 16)
    }

    /// `p_memsz` of the program header at `o`.
    pub open spec fn p_memsz_at(self, b: Seq<u8>, o: int) -> u64 {
        self.addr_at(b, o + 40, o + 20)
    }

    pub fn p_memsz(self, b: &[u8]) -> (v: u64)
        requires
            self.phdr_size() <= b@.len(),
        ensures
            v == self.p_memsz_at(b@, 0),
    {
        self.read_addr(b, 40, 20)
    }

    /// `b` with `p_offset` of the program header at `o` set to `v`.
    pub open spec fn with_p_offset(self, b: Seq<u8>, o: int, v: u64) -> Seq<u8> {
        self.with_addr(b, o + 8, o + 4, v)
    }

    pub fn set_p_offset(self, b: &mut [u8], v: u64)
        requires
            self.phdr_size() <= old(b)@.len(),
        ensures
            final(b)@ == self.with_p_offset(old(b)@, 0, v),
    {
        self.put_addr(b, 8, 4, v);
    }

    /// `b` with `p_filesz` of the program header at `o` set to `v`.
    pub open spec fn with_p_filesz(self, b: Seq<u8>, o: int, v: u64) -> Seq<u8> {
        self.with_addr(b, o + 32, o + 16, v)
    }

    pub fn set_p_filesz(self, b: &mut [u8], v: u64)
        requires
            self.phdr_size() <= old(b)@.len(),
        ensures
            final(b)@ == self.with_p_filesz(old(b)@, 0, v),
    {
        self.put_addr(b, 32, 16, v);
    }

    /// `d_tag` of the dynamic entry at `o`, sign-extended in the ELF32 layout.
    pub open spec fn d_tag_at(self, b: Seq<u8>, o: int) -> i64 {
        if self.is64 {
            bytes::u64_at(b, o) as i64
        } else {
            bytes::u32_at(b, o) as i32 as i64
        }
    }

    pub fn d_tag(self, b: &[u8]) -> (v: i64)
        requires
            self.dyn_size() <= b@.len(),
        ensures
            v == self.d_tag_at(b@, 0),
    {
        if self.is64 {
            rd_u64(b, 0) as i64
        } else {
            rd_u32(b, 0) as i32 as i64
        }
    }

    /// `d_val` of the dynamic entry at `o`.
    pub open spec fn d_val_at(self, b: Seq<u8>, o: int) -> u64 {
        self.addr_at(b, o + 8, o + 4)
    }

    pub fn d_val(self, b: &[u8]) -> (v: u64)
        requires
            self.dyn_size() <= b@.len(),
        ensures
            v == self.d_val_at(b@, 0),
    {
        self.read_addr(b, 8, 4)
    }

    /// `st_value` of the symbol at `o`.
    pub open spec fn sym_value_at(self, b: Seq<u8>, o: int) -> u64 {
        self.addr_at(b, o + 8, o + 4)
    }

    pub fn sym_value(self, b: &[u8]) -> (v: u64)
        requires
            self.sym_size() <= b@.len(),
        ensures
            v == self.sym_value_at(b@, 0),
    {
        self.read_addr(b, 8, 4)
    }

    /// `st_info` of the symbol at `o`.
    pub open spec fn sym_info_at(self, b: Seq<u8>, o: int) -> u8 {
        if self.is64 {
            b[o + 4]
        } else {
            b[o + 12]
        }
    }

    pub fn sym_info(self, b: &[u8]) -> (v: u8)
        requires
            self.sym_size() <= b@.len(),
        ensures
            v == self.sym_info_at(b@, 0),
    {
        if self.is64 {
            b[4]
        } else {
            b[12]
        }
    }

    /// Offset of `st_shndx` inside a symbol.
    #[verifier::allow_in_spec]
    pub fn sym_shndx_off(self) -> usize
        returns
            (if self.is64 {
                6usize
            } else {
                14usize
            }),
    {
        self.pick(6, 14)
    }

    /// `st_shndx` of the symbol at `o`.
    pub open spec fn sym_shndx_at(self, b: Seq<u8>, o: int) -> u16 {
        bytes::u16_at(b, o + self.sym_shndx_off())
    }

    pub fn sym_shndx(self, b: &[u8]) -> (v: u16)
        requires
            self.sym_size() <= b@.len(),
        ensures
            v == self.sym_shndx_at(b@, 0),
    {
        rd_u16(b, self.sym_shndx_off())
    }

    /// `b` with `st_shndx` of the symbol at `o` set to `v`.
    pub open spec fn with_sym_shndx(self, b: Seq<u8>, o: int, v: u16) -> Seq<u8> {
        bytes::splice(b, o + self.sym_shndx_off(), bytes::le16(v))
    }

    pub fn set_sym_shndx(self, b: &mut [u8], v: u16)
        requires
            self.sym_size() <= old(b)@.len(),
        ensures
            final(b)@ == self.with_sym_shndx(old(b)@, 0, v),
    {
        let o: usize = self.sym_shndx_off();
        wr_u16(b, o, v);
    }

    /// The bytes of a section header; ELF32 keeps the low 32 bits of each field.
    #[verifier::opaque]
    pub open spec fn shdr_bytes(self, h: Shdr) -> Seq<u8> {
        if self.is64 {
            bytes::le32(h.name) + bytes::le32(h.typ) + bytes::le64(h.flags) + bytes::le64(h.addr)
                + bytes::le64(h.off) + bytes::le64(h.size) + bytes::le32(h.link) + bytes::le32(
                h.info,
            ) + bytes::le64(h.align) + bytes::le64(h.entsize)
        } else {
            bytes::le32(h.name) + bytes::le32(h.typ) + bytes::le32(h.flags as u32) + bytes::le32(
                h.addr as u32,
            ) + bytes::le32(h.off as u32) + bytes::le32(h.size as u32) + bytes::le32(h.link)
                + bytes::le32(h.info) + bytes::le32(h.align as u32) + bytes::le32(h.entsize as u32)
        }
    }

    pub proof fn lemma_shdr_len(self, h: Shdr)
        ensures
            self.shdr_bytes(h).len() == self.shdr_size(),
    {
        reveal(ElfLayout::shdr_bytes);
    }

    /// Writes one section header entry in the right class layout.
    pub fn put_shdr(
        self,
        b: &mut [u8],
        name: u32,
        typ: u32,
        flags: u64,
        addr: u64,
        off: u64,
        size: u64,
        link: u32,
        info: u32,
        align: u64,
        entsize: u64,
    )
        requires
            self.shdr_size() <= old(b)@.len(),
        ensures
            final(b)@ == bytes::splice(
                old(b)@,
                0,
                self.shdr_bytes(
                    Shdr { name, typ, flags, addr, off, size, link, info, align, entsize },
                ),
            ),
    {
        wr_u32(b, 0, name);
        wr_u32(b, 4, typ);
        if self.is64 {
            wr_u64(b, 8, flags);
            wr_u64(b, 16, addr);
            wr_u64(b, 24, off);
            wr_u64(b, 32, size);
            wr_u32(b, 40, link);
            wr_u32(b, 44, info);
            wr_u64(b, 48, align);
            wr_u64(b, 56, entsize);
        } else {
            wr_u32(b, 8, flags as u32);
            wr_u32(b, 12, addr as u32);
            wr_u32(b, 16, off as u32);
            wr_u32(b, 20, size as u32);
            wr_u32(b, 24, link);
            wr_u32(b, 28, info);
            wr_u32(b, 32, align as u32);
            wr_u32(b, 36, entsize as u32);
        }
        proof {
            reveal(ElfLayout::shdr_bytes);
            let b0 = old(b)@;
            let w1 = bytes::le32(name);
            let w2 = w1 + bytes::le32(typ);
            bytes::lemma_splice_next(b0, w1, bytes::le32(typ));
            if self.is64 {
                let w3 = w2 + bytes::le64(flags);
                bytes::lemma_splice_next(b0, w2, bytes::le64(flags));
                let w4 = w3 + bytes::le64(addr);
                bytes::lemma_splice_next(b0, w3, bytes::le64(addr));
                let w5 = w4 + bytes::le64(off);
                bytes::lemma_splice_next(b0, w4, bytes::le64(off));
                let w6 = w5 + bytes::le64(size);
                bytes::lemma_splice_next(b0, w5, bytes::le64(size));
                let w7 = w6 + bytes::le32(link);
                bytes::lemma_splice_next(b0, w6, bytes::le32(link));
                let w8 = w7 + bytes::le32(info);
                bytes::lemma_splice_next(b0, w7, bytes::le32(info));
                let w9 = w8 + bytes::le64(align);
                bytes::lemma_splice_next(b0, w8, bytes::le64(align));
                bytes::lemma_splice_next(b0, w9, bytes::le64(entsize));
            } else {
                let w3 = w2 + bytes::le32(flags as u32);
                bytes::lemma_splice_next(b0, w2, bytes::le32(flags as u32));
                let w4 = w3 + bytes::le32(addr as u32);
                bytes::lemma_splice_next(b0, w3, bytes::le32(addr as u32));
                let w5 = w4 + bytes::le32(off as u32);
                bytes::lemma_splice_next(b0, w4, bytes::le32(off as u32));
                let w6 = w5 + bytes::le32(size as u32);
                bytes::lemma_splice_next(b0, w5, bytes::le32(size as u32));
                let w7 = w6 + bytes::le32(link);
                bytes::lemma_splice_next(b0, w6, bytes::le32(link));
                let w8 = w7 + bytes::le32(info);
                bytes::lemma_splice_next(b0, w7, bytes::le32(info));
                let w9 = w8 + bytes::le32(align as u32);
                bytes::lemma_splice_next(b0, w8, bytes::le32(align as u32));
                bytes::lemma_splice_next(b0, w9, bytes::le32(entsize as u32));
            }
        }
    }

    /// The bytes of a symbol table entry. ELF32 and ELF64 order the fields
    /// differently; ELF32 keeps the low 32 bits of the value and the size.
    #[verifier::opaque]
    pub open spec fn sym_bytes(
        self,
        name: u32,
        value: u64,
        size: u64,
        info: u8,
        other: u8,
        shndx: u16,
    ) -> Seq<u8> {
        if self.is64 {
            bytes::le32(name) + seq![info, other] + bytes::le16(shndx) + bytes::le64(value)
                + bytes::le64(size)
        } else {
            bytes::le32(name) + bytes::le32(value as u32) + bytes::le32(size as u32) + seq![
                info,
                other,
            ] + bytes::le16(shndx)
        }
    }

    pub proof fn lemma_sym_len(
        self,
        name: u32,
        value: u64,
        size: u64,
        info: u8,
        other: u8,
        shndx: u16,
    )
        ensures
            self.sym_bytes(name, value, size, info, other, shndx).len() == self.sym_size(),
    {
        reveal(ElfLayout::sym_bytes);
    }

    /// Writes one symbol table entry in the right class layout.
    pub fn put_sym(
        self,
        b: &mut [u8],
        name: u32,
        value: u64,
        size: u64,
        info: u8,
        other: u8,
        shndx: u16,
    )
        requires
            self.sym_size() <= old(b)@.len(),
        ensures
            final(b)@ == bytes::splice(
                old(b)@,
                0,
                self.sym_bytes(name, value, size, info, other, shndx),
            ),
    {
        if self.is64 {
            wr_u32(b, 0, name);
            b[4] = info;
            b[5] = other;
            wr_u16(b, 6, shndx);
            wr_u64(b, 8, value);
            wr_u64(b, 16, size);
        } else {
            wr_u32(b, 0, name);
            wr_u32(b, 4, value as u32);
            wr_u32(b, 8, size as u32);
            b[12] = info;
            b[13] = other;
            wr_u16(b, 14, shndx);
        }
        proof {
            reveal(ElfLayout::sym_bytes);
            let w = self.sym_bytes(name, value, size, info, other, shndx);
            assert(b@ =~= bytes::splice(old(b)@, 0, w));
        }
    }
}

impl ElfLayout {
    /// What an address-sized field keeps of `v`.
    pub open spec fn cut(self, v: u64) -> u64 {
        if self.is64 {
            v
        } else {
            v as u32 as u64
        }
    }

    /// The section header at `o`.
    pub open spec fn shdr_at(self, b: Seq<u8>, o: int) -> Shdr {
        Shdr {
            name: bytes::u32_at(b, o),
            typ: bytes::u32_at(b, o + 4),
            flags: self.addr_at(b, o + 8, o + 8),
            addr: self.addr_at(b, o + 16, o + 12),
            off: self.addr_at(b, o + 24, o + 16),
            size: self.addr_at(b, o + 32, o + 20),
            link: bytes::u32_at(b, o + self.pick(40, 24)),
            info: bytes::u32_at(b, o + self.pick(44, 28)),
            align: self.addr_at(b, o + 48, o + 32),
            entsize: self.addr_at(b, o + 56, o + 36),
        }
    }

    /// `st_name` of the symbol at `o`.
    pub open spec fn sym_name_at(self, b: Seq<u8>, o: int) -> u32 {
        bytes::u32_at(b, o)
    }

    /// `st_size` of the symbol at `o`.
    pub open spec fn sym_bytesize_at(self, b: Seq<u8>, o: int) -> u64 {
        self.addr_at(b, o + 16, o + 8)
    }

    /// `st_other` of the symbol at `o`.
    pub open spec fn sym_other_at(self, b: Seq<u8>, o: int) -> u8 {
        if self.is64 {
            b[o + 5]
        } else {
            b[o + 13]
        }
    }

    /// `e_shoff` of the ELF header that `b` starts with.
    pub open spec fn e_shoff(self, b: Seq<u8>) -> u64 {
        self.addr_at(b, 40, 32)
    }

    /// `e_shentsize` of the ELF header that `b` starts with.
    pub open spec fn e_shentsize(self, b: Seq<u8>) -> u16 {
        bytes::u16_at(b, self.pick(58, 46) as int)
    }

    /// `e_shnum` of the ELF header that `b` starts with.
    pub open spec fn e_shnum(self, b: Seq<u8>) -> u16 {
        bytes::u16_at(b, self.pick(60, 48) as int)
    }

    /// `e_shstrndx` of the ELF header that `b` starts with.
    pub open spec fn e_shstrndx(self, b: Seq<u8>) -> u16 {
        bytes::u16_at(b, self.pick(62, 50) as int)
    }
}

/// The integers at `from` inside bytes that stand in `b`.
proof fn lemma_field(b: Seq<u8>, o: int, w: Seq<u8>, from: int, v32: u32, v64: u64)
    requires
        bytes::holds(b, o, w),
        0 <= from,
    ensures
        from + 4 <= w.len() && w.subrange(from, from + 4) == bytes::le32(v32) ==> bytes::u32_at(
            b,
            o + from,
        ) == v32,
        from + 8 <= w.len() && w.subrange(from, from + 8) == bytes::le64(v64) ==> bytes::u64_at(
            b,
            o + from,
        ) == v64,
{
    if from + 4 <= w.len() {
        bytes::lemma_holds_part(b, o, w, from, from + 4);
    }
    if from + 8 <= w.len() {
        bytes::lemma_holds_part(b, o, w, from, from + 8);
    }
    bytes::law_le_bytes_read_back(b, o + from, 0, v32, v64);
}

/// What a row of bytes starts with stays where it is when more follow, and what
/// follows stands behind it.
proof fn lemma_row_grows(row: Seq<u8>, part: Seq<u8>)
    ensures
        (row + part).subrange(row.len() as int, row.len() as int + part.len()) == part,
        forall|from: int, to: int|
            0 <= from <= to <= row.len() ==> #[trigger] (row + part).subrange(from, to)
                == row.subrange(from, to),
{
    assert((row + part).subrange(row.len() as int, row.len() as int + part.len()) =~= part);
    assert forall|from: int, to: int| 0 <= from <= to <= row.len() implies #[trigger] (row
        + part).subrange(from, to) == row.subrange(from, to) by {
        assert((row + part).subrange(from, to) =~= row.subrange(from, to));
    }
}

/// The fields of an ELF64 section header.
proof fn lemma_wide_header(l: ElfLayout, h: Shdr)
    requires
        l.is64,
    ensures
        ({
            let w = l.shdr_bytes(h);
            &&& w.len() == 64
            &&& w.subrange(0, 4) == bytes::le32(h.name)
            &&& w.subrange(4, 8) == bytes::le32(h.typ)
            &&& w.subrange(8, 16) == bytes::le64(h.flags)
            &&& w.subrange(16, 24) == bytes::le64(h.addr)
            &&& w.subrange(24, 32) == bytes::le64(h.off)
            &&& w.subrange(32, 40) == bytes::le64(h.size)
            &&& w.subrange(40, 44) == bytes::le32(h.link)
            &&& w.subrange(44, 48) == bytes::le32(h.info)
            &&& w.subrange(48, 56) == bytes::le64(h.align)
            &&& w.subrange(56, 64) == bytes::le64(h.entsize)
        }),
{
    reveal(ElfLayout::shdr_bytes);
    let r0 = bytes::le32(h.name);
    assert(r0.subrange(0, 4) =~= r0);
    lemma_row_grows(r0, bytes::le32(h.typ));
    let r1 = r0 + bytes::le32(h.typ);
    lemma_row_grows(r1, bytes::le64(h.flags));
    let r2 = r1 + bytes::le64(h.flags);
    lemma_row_grows(r2, bytes::le64(h.addr));
    let r3 = r2 + bytes::le64(h.addr);
    lemma_row_grows(r3, bytes::le64(h.off));
    let r4 = r3 + bytes::le64(h.off);
    lemma_row_grows(r4, bytes::le64(h.size));
    let r5 = r4 + bytes::le64(h.size);
    lemma_row_grows(r5, bytes::le32(h.link));
    let r6 = r5 + bytes::le32(h.link);
    lemma_row_grows(r6, bytes::le32(h.info));
    let r7 = r6 + bytes::le32(h.info);
    lemma_row_grows(r7, bytes::le64(h.align));
    let r8 = r7 + bytes::le64(h.align);
    lemma_row_grows(r8, bytes::le64(h.entsize));
}

/// The fields of an ELF32 section header.
proof fn lemma_narrow_header(l: ElfLayout, h: Shdr)
    requires
        !l.is64,
    ensures
        ({
            let w = l.shdr_bytes(h);
            &&& w.len() == 40
            &&& w.subrange(0, 4) == bytes::le32(h.name)
            &&& w.subrange(4, 8) == bytes::le32(h.typ)
            &&& w.subrange(8, 12) == bytes::le32(h.flags as u32)
            &&& w.subrange(12, 16) == bytes::le32(h.addr as u32)
            &&& w.subrange(16, 20) == bytes::le32(h.off as u32)
            &&& w.subrange(20, 24) == bytes::le32(h.size as u32)
            &&& w.subrange(24, 28) == bytes::le32(h.link)
            &&& w.subrange(28, 32) == bytes::le32(h.info)
            &&& w.subrange(32, 36) == bytes::le32(h.align as u32)
            &&& w.subrange(36, 40) == bytes::le32(h.entsize as u32)
        }),
{
    reveal(ElfLayout::shdr_bytes);
    let r0 = bytes::le32(h.name);
    assert(r0.subrange(0, 4) =~= r0);
    lemma_row_grows(r0, bytes::le32(h.typ));
    let r1 = r0 + bytes::le32(h.typ);
    lemma_row_grows(r1, bytes::le32(h.flags as u32));
    let r2 = r1 + bytes::le32(h.flags as u32);
    lemma_row_grows(r2, bytes::le32(h.addr as u32));
    let r3 = r2 + bytes::le32(h.addr as u32);
    lemma_row_grows(r3, bytes::le32(h.off as u32));
    let r4 = r3 + bytes::le32(h.off as u32);
    lemma_row_grows(r4, bytes::le32(h.size as u32));
    let r5 = r4 + bytes::le32(h.size as u32);
    lemma_row_grows(r5, bytes::le32(h.link));
    let r6 = r5 + bytes::le32(h.link);
    lemma_row_grows(r6, bytes::le32(h.info));
    let r7 = r6 + bytes::le32(h.info);
    lemma_row_grows(r7, bytes::le32(h.align as u32));
    let r8 = r7 + bytes::le32(h.align as u32);
    lemma_row_grows(r8, bytes::le32(h.entsize as u32));
}

/// A section header that was written reads back field by field; the ELF32 layout
/// keeps the low 32 bits of the wide fields.
pub proof fn law_section_header_reads_back(l: ElfLayout, b: Seq<u8>, o: int, h: Shdr)
    requires
        bytes::holds(b, o, l.shdr_bytes(h)),
    ensures
        l.shdr_at(b, o) == (Shdr {
            flags: l.cut(h.flags),
            addr: l.cut(h.addr),
            off: l.cut(h.off),
            size: l.cut(h.size),
            align: l.cut(h.align),
            entsize: l.cut(h.entsize),
            ..h
        }),
{
    let w = l.shdr_bytes(h);
    if l.is64 {
        lemma_wide_header(l, h);
        lemma_field(b, o, w, 8, 0, h.flags);
        lemma_field(b, o, w, 16, 0, h.addr);
        lemma_field(b, o, w, 24, 0, h.off);
        lemma_field(b, o, w, 32, 0, h.size);
        lemma_field(b, o, w, 40, h.link, 0);
        lemma_field(b, o, w, 44, h.info, 0);
        lemma_field(b, o, w, 48, 0, h.align);
        lemma_field(b, o, w, 56, 0, h.entsize);
    } else {
        lemma_narrow_header(l, h);
        lemma_field(b, o, w, 8, h.flags as u32, 0);
        lemma_field(b, o, w, 12, h.addr as u32, 0);
        lemma_field(b, o, w, 16, h.off as u32, 0);
        lemma_field(b, o, w, 20, h.size as u32, 0);
        lemma_field(b, o, w, 24, h.link, 0);
        lemma_field(b, o, w, 28, h.info, 0);
        lemma_field(b, o, w, 32, h.align as u32, 0);
        lemma_field(b, o, w, 36, h.entsize as u32, 0);
    }
    lemma_field(b, o, w, 0, h.name, 0);
    lemma_field(b, o, w, 4, h.typ, 0);
}

/// A symbol that was written reads back, field by field. The ELF32 layout keeps
/// the low 32 bits of the value and the size.
pub proof fn law_symbol_reads_back(
    l: ElfLayout,
    b: Seq<u8>,
    o: int,
    name: u32,
    value: u64,
    size: u64,
    info: u8,
    other: u8,
    shndx: u16,
)
    requires
        bytes::holds(b, o, l.sym_bytes(name, value, size, info, other, shndx)),
    ensures
        l.sym_name_at(b, o) == name,
        l.sym_value_at(b, o) == l.cut(value),
        l.sym_bytesize_at(b, o) == l.cut(size),
        l.sym_info_at(b, o) == info,
        l.sym_other_at(b, o) == other,
        l.sym_shndx_at(b, o) == shndx,
{
    reveal(ElfLayout::sym_bytes);
    let w = l.sym_bytes(name, value, size, info, other, shndx);
    assert(w.subrange(0, 4) =~= bytes::le32(name));
    lemma_field(b, o, w, 0, name, 0);
    let at = l.sym_shndx_off() as int;
    assert(w.subrange(at, at + 2) =~= bytes::le16(shndx));
    bytes::lemma_holds_part(b, o, w, at, at + 2);
    bytes::law_le_bytes_read_back(b, o + at, shndx, 0, 0);
    let s = b.subrange(o, o + w.len());
    if l.is64 {
        assert(w.subrange(8, 16) =~= bytes::le64(value));
        lemma_field(b, o, w, 8, 0, value);
        assert(w.subrange(16, 24) =~= bytes::le64(size));
        lemma_field(b, o, w, 16, 0, size);
        assert(s[4] == b[o + 4] && s[5] == b[o + 5]);
    } else {
        assert(w.subrange(4, 8) =~= bytes::le32(value as u32));
        lemma_field(b, o, w, 4, value as u32, 0);
        assert(w.subrange(8, 12) =~= bytes::le32(size as u32));
        lemma_field(b, o, w, 8, size as u32, 0);
        assert(s[12] == b[o + 12] && s[13] == b[o + 13]);
    }
}

} // verus!
