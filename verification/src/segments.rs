//! Program headers of a memory image.
use crate::layout::ElfLayout;
use vstd::prelude::*;
use vstd::slice::slice_subrange;

verus! {

pub const PT_LOAD: u32 = 1;

pub const PT_DYNAMIC: u32 = 2;

/// The parts of a PT_LOAD header that the section layout depends on.
#[derive(Clone, Copy)]
pub struct LoadSeg {
    pub vaddr: u64,
    pub filesz: u64,
    pub memsz: u64,
}

/// What the pass over the program headers leaves behind: the image with its
/// headers normalized, the PT_LOAD segments in order, and the last PT_DYNAMIC
/// segment (both numbers 0 when there is none).
pub struct PhdrScan {
    pub data: Seq<u8>,
    pub loads: Seq<LoadSeg>,
    pub dyn_addr: u64,
    pub dyn_size: u64,
}

/// The effect of the program header at `o`. In a memory image the file offset
/// equals the virtual address, and a loaded segment is present in full.
#[verifier::opaque]
pub open spec fn phdr_step(l: ElfLayout, s: PhdrScan, o: int) -> PhdrScan {
    let typ = l.p_type_at(s.data, o);
    let vaddr = l.p_vaddr_at(s.data, o);
    let filesz = l.p_filesz_at(s.data, o);
    let memsz = l.p_memsz_at(s.data, o);
    let moved = l.with_p_offset(s.data, o, vaddr);
    if typ == PT_LOAD {
        PhdrScan {
            data: if memsz > filesz {
                l.with_p_filesz(moved, o, memsz)
            } else {
                moved
            },
            loads: s.loads.push(LoadSeg { vaddr, filesz, memsz }),
            ..s
        }
    } else if typ == PT_DYNAMIC {
        PhdrScan { data: moved, dyn_addr: vaddr, dyn_size: memsz, ..s }
    } else {
        PhdrScan { data: moved, ..s }
    }
}

/// The state after the first `n` headers of the table at `phoff`. Headers that
/// do not lie inside the image have no effect.
pub open spec fn scan_phdrs(
    l: ElfLayout,
    data: Seq<u8>,
    phoff: int,
    entsize: int,
    n: nat,
) -> PhdrScan
    decreases n,
{
    if n == 0 {
        PhdrScan { data, loads: Seq::empty(), dyn_addr: 0, dyn_size: 0 }
    } else {
        let s = scan_phdrs(l, data, phoff, entsize, (n - 1) as nat);
        let o = phoff + (n - 1) * entsize;
        if o + l.phdr_size() <= data.len() {
            phdr_step(l, s, o)
        } else {
            s
        }
    }
}

pub proof fn lemma_scan_len(l: ElfLayout, data: Seq<u8>, phoff: int, entsize: int, n: nat)
    ensures
        scan_phdrs(l, data, phoff, entsize, n).data.len() == data.len(),
    decreases n,
{
    if n > 0 {
        reveal(phdr_step);
        lemma_scan_len(l, data, phoff, entsize, (n - 1) as nat);
    }
}

/// Once a header lies past the end of the image, so do all later ones.
proof fn lemma_scan_past_end(
    l: ElfLayout,
    data: Seq<u8>,
    phoff: int,
    entsize: int,
    i: nat,
    n: nat,
)
    requires
        i <= n,
        0 <= entsize,
        i < n ==> phoff + i * entsize + l.phdr_size() > data.len(),
    ensures
        scan_phdrs(l, data, phoff, entsize, n) == scan_phdrs(l, data, phoff, entsize, i),
    decreases n,
{
    if i < n {
        lemma_scan_past_end(l, data, phoff, entsize, i, (n - 1) as nat);
        assert(i * entsize <= (n - 1) * entsize) by (nonlinear_arith)
            requires
                i <= n - 1,
                0 <= entsize,
        ;
    }
}

/// The program headers of an image whose headers have been normalized.
pub struct ProgramHeaders {
    pub data: Vec<u8>,
    pub loads: Vec<LoadSeg>,
    pub dyn_addr: u64,
    pub dyn_size: u64,
}

impl View for ProgramHeaders {
    type V = PhdrScan;

    open spec fn view(&self) -> PhdrScan {
        PhdrScan {
            data: self.data@,
            loads: self.loads@,
            dyn_addr: self.dyn_addr,
            dyn_size: self.dyn_size,
        }
    }
}

/// Sets `p_offset` of the program header at `off`.
pub fn patch_p_offset(l: ElfLayout, data: &mut Vec<u8>, off: usize, v: u64)
    requires
        off + l.phdr_size() <= old(data)@.len(),
    ensures
        final(data)@ == l.with_p_offset(old(data)@, off as int, v),
{
    let (_head, tail) = data.as_mut_slice().split_at_mut(off);
    l.set_p_offset(tail, v);
    assert(data@ =~= l.with_p_offset(old(data)@, off as int, v));
}

/// Sets `p_filesz` of the program header at `off`.
pub fn patch_p_filesz(l: ElfLayout, data: &mut Vec<u8>, off: usize, v: u64)
    requires
        off + l.phdr_size() <= old(data)@.len(),
    ensures
        final(data)@ == l.with_p_filesz(old(data)@, off as int, v),
{
    let (_head, tail) = data.as_mut_slice().split_at_mut(off);
    l.set_p_filesz(tail, v);
    assert(data@ =~= l.with_p_filesz(old(data)@, off as int, v));
}

/// The `p_type` of the program header at `o` and the segment it describes.
pub fn read_header(l: ElfLayout, data: &Vec<u8>, o: usize) -> (r: (u32, LoadSeg))
    requires
        o + l.phdr_size() <= data@.len(),
    ensures
        r.0 == l.p_type_at(data@, o as int),
        r.1.vaddr == l.p_vaddr_at(data@, o as int),
        r.1.filesz == l.p_filesz_at(data@, o as int),
        r.1.memsz == l.p_memsz_at(data@, o as int),
{
    let ph = slice_subrange(data.as_slice(), o, data.len());
    (l.p_type(ph), LoadSeg { vaddr: l.p_vaddr(ph), filesz: l.p_filesz(ph), memsz: l.p_memsz(ph) })
}

/// Normalizes the program header at `o` and records its segment.
fn take_header(l: ElfLayout, r: &mut ProgramHeaders, o: usize)
    requires
        o + l.phdr_size() <= old(r).data@.len(),
    ensures
        final(r)@ == phdr_step(l, old(r)@, o as int),
{
    proof {
        reveal(phdr_step);
    }
    let (p_type, seg): (u32, LoadSeg) = read_header(l, &r.data, o);

    // memory image: file offset equals virtual address
    patch_p_offset(l, &mut r.data, o, seg.vaddr);

    if p_type == PT_LOAD {
        r.loads.push(seg);
        if seg.memsz > seg.filesz {
            // in a memory image the whole segment is present
            patch_p_filesz(l, &mut r.data, o, seg.memsz);
        }
    } else if p_type == PT_DYNAMIC {
        r.dyn_addr = seg.vaddr;
        r.dyn_size = seg.memsz;
    }
}

/// Normalizes the program headers of `data` and collects its PT_LOAD and
/// PT_DYNAMIC segments.
pub fn scan_program_headers(
    l: ElfLayout,
    data: Vec<u8>,
    phoff: u64,
    phentsize: usize,
    phnum: usize,
) -> (r: ProgramHeaders)
    requires
        phentsize <= 0xffff,
        phnum <= 0xffff,
    ensures
        r@ == scan_phdrs(l, data@, phoff as int, phentsize as int, phnum as nat),
{
    let ghost image = data@;
    let len: u64 = data.len() as u64;
    let size: u64 = l.phdr_size() as u64;
    let mut r = ProgramHeaders { data, loads: Vec::new(), dyn_addr: 0, dyn_size: 0 };
    let mut i: usize = 0;
    let mut off: u64 = phoff;
    assert(r@.loads =~= Seq::<LoadSeg>::empty());
    while i < phnum && off <= len && size <= len - off
        invariant
            i <= phnum <= 0xffff,
            phentsize <= 0xffff,
            size == l.phdr_size(),
            len == image.len(),
            phoff + i * phentsize <= u64::MAX ==> off == phoff + i * phentsize,
            phoff + i * phentsize > u64::MAX ==> off == u64::MAX,
            r@ == scan_phdrs(l, image, phoff as int, phentsize as int, i as nat),
        decreases phnum - i,
    {
        proof {
            lemma_scan_len(l, image, phoff as int, phentsize as int, i as nat);
            assert((i + 1) * phentsize == i * phentsize + phentsize) by (nonlinear_arith);
            assert(off <= r.data.len());
        }
        take_header(l, &mut r, off as usize);
        i += 1;
        off = off.saturating_add(phentsize as u64);
    }
    proof {
        lemma_scan_past_end(l, image, phoff as int, phentsize as int, i as nat, phnum as nat);
    }
    r
}

/// The largest `vaddr + memsz` of the segments, 0 without any.
pub open spec fn mem_end(loads: Seq<LoadSeg>) -> int
    decreases loads.len(),
{
    if loads.len() == 0 {
        0
    } else {
        let end = loads.last().vaddr + loads.last().memsz;
        let rest = mem_end(loads.drop_last());
        if end > rest {
            end
        } else {
            rest
        }
    }
}

/// The largest `vaddr + filesz` of the segments, 0 without any.
pub open spec fn file_end(loads: Seq<LoadSeg>) -> int
    decreases loads.len(),
{
    if loads.len() == 0 {
        0
    } else {
        let end = loads.last().vaddr + loads.last().filesz;
        let rest = file_end(loads.drop_last());
        if end > rest {
            end
        } else {
            rest
        }
    }
}

/// Whether every segment ends inside the 64-bit address space.
pub open spec fn loads_fit(loads: Seq<LoadSeg>) -> bool {
    forall|i: int|
        0 <= i < loads.len() ==> (#[trigger] loads[i]).vaddr + loads[i].memsz <= u64::MAX
            && loads[i].vaddr + loads[i].filesz <= u64::MAX
}

/// The end of the mapped span and the end of its file-backed part, or nothing
/// when some segment reaches past the 64-bit address space.
pub fn load_ends(loads: &Vec<LoadSeg>) -> (r: Option<(u64, u64)>)
    ensures
        r is Some <==> loads_fit(loads@),
        r matches Some(ends) ==> ends.0 == mem_end(loads@) && ends.1 == file_end(loads@),
{
    let mut max_vaddr: u64 = 0;
    let mut load_file_end: u64 = 0;
    let mut i: usize = 0;
    while i < loads.len()
        invariant
            i <= loads.len(),
            max_vaddr == mem_end(loads@.take(i as int)),
            load_file_end == file_end(loads@.take(i as int)),
            loads_fit(loads@.take(i as int)),
        decreases loads.len() - i,
    {
        let seg = loads[i];
        let mem: u64 = match seg.vaddr.checked_add(seg.memsz) {
            Some(v) => v,
            None => {
                return None;
            },
        };
        let file: u64 = match seg.vaddr.checked_add(seg.filesz) {
            Some(v) => v,
            None => {
                return None;
            },
        };
        if mem > max_vaddr {
            max_vaddr = mem;
        }
        if file > load_file_end {
            load_file_end = file;
        }
        assert(loads@.take(i + 1).drop_last() =~= loads@.take(i as int));
        i += 1;
        proof {
            assert forall|k: int| 0 <= k < i implies (#[trigger] loads@.take(i as int)[k]).vaddr
                + loads@.take(i as int)[k].memsz <= u64::MAX && loads@.take(i as int)[k].vaddr
                + loads@.take(i as int)[k].filesz <= u64::MAX by {
                if k < i - 1 {
                    assert(loads@.take(i - 1)[k] == loads@[k]);
                }
            }
        }
    }
    assert(loads@.take(i as int) =~= loads@);
    Some((max_vaddr, load_file_end))
}

} // verus!
