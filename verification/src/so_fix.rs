//! Repair of raw memory dumps of native libraries, so that static-analysis tools
//! (IDA/Ghidra/objdump) can load them.
//!
//! A dump built from `/proc/<pid>/maps` places each segment's bytes at
//! `vaddr - base`, which does not match the file layout its ELF header
//! describes. The preferred repair reconstructs the section header table; where
//! that cannot be done, a minimal repair of the headers takes its place.
use crate::bytes;
use crate::bytes::copy_bytes;
use crate::capture;
use crate::emit::InjectedSym;
use crate::layout::ElfLayout;
use crate::rebuild;
use crate::rebuild::{is_elf, try_rebuild_so_sections, RebuildError};
use crate::segments::{patch_p_filesz, patch_p_offset, read_header, LoadSeg, PT_LOAD};
use crate::so;
use crate::so::sanitize_so_name;
use crate::text;
use crate::text::{
    chars_of, is_prefix, is_suffix, parse_number, push_chars, push_number, push_str, split_fields,
    split_lines, string_of, strip_suffix,
};
use crate::upkeep;
use vstd::prelude::*;
use vstd::slice::slice_subrange;

verus! {

/// Trusted: the error of goblin's parsers, carried as it is.
#[verifier::external_type_specification]
#[verifier::external_body]
pub struct ExGoblinError(goblin::error::Error);

/// What `goblin::elf::Elf::parse` makes of an ELF file on a 64-bit machine: the
/// number of dynamic symbols that it finds, or the error with which it rejects the
/// file.
pub uninterp spec fn elf_dynsyms(data: Seq<u8>) -> Result<usize, goblin::error::Error>;

/// Trusted: parses `data` with `goblin::elf::Elf::parse` and returns the length
/// of the dynamic symbol table found, or the parser's error. Both depend on the
/// bytes alone. On narrower machines the parser truncates 64-bit offsets and its
/// arithmetic can overflow, so those are left out.
#[verifier::external_body]
fn count_elf_dynsyms(data: &[u8]) -> (r: Result<usize, goblin::error::Error>)
    requires
        usize::BITS == 64,
    ensures
        r == elf_dynsyms(data@),
{
    goblin::elf::Elf::parse(data).map(|elf| elf.dynsyms.len())
}

/// The rebuilt file does not parse as an ELF file.
#[derive(Debug)]
pub struct SelfCheckError {
    /// What the parser found wrong.
    pub cause: goblin::error::Error,
}

impl SelfCheckError {
    pub fn message(&self) -> (r: String)
        ensures
            r@ == "parse rebuilt elf"@,
    {
        "parse rebuilt elf".to_string()
    }
}

/// The outcome of a self-check whose parse came to `parsed`.
pub open spec fn checked(parsed: Result<usize, goblin::error::Error>) -> Result<
    usize,
    SelfCheckError,
> {
    match parsed {
        Ok(n) => Ok(n),
        Err(cause) => Err(SelfCheckError { cause }),
    }
}

/// Judges what a parser made of a rebuilt file; a parse that failed is kept as the
/// cause.
pub fn judge_parse(parsed: Result<usize, goblin::error::Error>) -> (r: Result<
    usize,
    SelfCheckError,
>)
    ensures
        r == checked(parsed),
{
    match parsed {
        Ok(n) => Ok(n),
        Err(cause) => Err(SelfCheckError { cause }),
    }
}

/// Parses rebuilt ELF bytes strictly (via the section header table, the way
/// IDA/BFD would) and returns how many dynamic symbols are readable, as a
/// confidence signal that the rebuild is loadable and useful.
pub fn self_check_so(data: &[u8]) -> (r: Result<usize, SelfCheckError>)
    requires
        usize::BITS == 64,
    ensures
        r == checked(elf_dynsyms(data@)),
{
    judge_parse(count_elf_dynsyms(data))
}

/// Like [`self_check_so`], on any machine: gives nothing where addresses are not
/// 64 bits wide.
pub fn try_self_check_so(data: &[u8]) -> (r: Option<Result<usize, SelfCheckError>>)
    ensures
        r is Some <==> usize::BITS == 64,
        r matches Some(check) ==> check == checked(elf_dynsyms(data@)),
{
    if usize::BITS == 64 {
        Some(self_check_so(data))
    } else {
        None
    }
}

/// What a self-check that ended in `check` says about a rebuilt file.
pub open spec fn check_report(check: Result<usize, SelfCheckError>) -> Seq<char> {
    match check {
        Ok(n) => "rebuilt section headers, "@ + text::spelled(n as int, 10)
            + " dynamic symbols readable"@,
        Err(_) => "rebuilt section headers, but self-check couldn't read symbols: "@
            + "parse rebuilt elf"@,
    }
}

pub fn describe_check(check: &Result<usize, SelfCheckError>) -> (r: String)
    ensures
        r@ == check_report(*check),
{
    let mut chars: Vec<char> = Vec::new();
    match check {
        Ok(n) => {
            let start = chars_of("rebuilt section headers, ");
            push_chars(&mut chars, start.as_slice());
            push_number(&mut chars, *n as u64, 10);
            push_str(&mut chars, " dynamic symbols readable");
        },
        Err(e) => {
            push_str(&mut chars, "rebuilt section headers, but self-check couldn't read symbols: ");
            let why = e.message();
            push_str(&mut chars, why.as_str());
        },
    }
    assert(chars@ =~= check_report(*check));
    string_of(chars.as_slice())
}

/// Why a dump cannot be repaired.
#[derive(Clone, Copy, Debug, PartialEq, Eq, Structural)]
pub enum FixError {
    NotElf,
    UnsupportedClass(u8),
    TruncatedHeader,
    NoProgramHeaders,
    NoLoadSegments,
}

impl FixError {
    pub open spec fn text(self) -> Seq<char> {
        match self {
            FixError::NotElf => "not a valid ELF file"@,
            FixError::UnsupportedClass(class) => "unsupported EI_CLASS="@ + text::spelled(
                class as int,
                10,
            ) + " (want ELF32 or ELF64)"@,
            FixError::TruncatedHeader => "truncated ELF header"@,
            FixError::NoProgramHeaders => "no program headers"@,
            FixError::NoLoadSegments => "no PT_LOAD segments found"@,
        }
    }

    pub fn message(&self) -> (r: String)
        ensures
            r@ == self.text(),
    {
        match self {
            FixError::NotElf => "not a valid ELF file".to_string(),
            FixError::UnsupportedClass(class) => {
                let mut chars = chars_of("unsupported EI_CLASS=");
                push_number(&mut chars, *class as u64, 10);
                push_str(&mut chars, " (want ELF32 or ELF64)");
                string_of(chars.as_slice())
            },
            FixError::TruncatedHeader => "truncated ELF header".to_string(),
            FixError::NoProgramHeaders => "no program headers".to_string(),
            FixError::NoLoadSegments => "no PT_LOAD segments found".to_string(),
        }
    }
}

/// A dump that cannot be repaired.
#[derive(Clone, Copy, Debug, PartialEq, Eq, Structural)]
pub struct FixFailure {
    pub error: FixError,
    /// Why the rebuild was not possible, when it got so far.
    pub rebuild: Option<RebuildError>,
}

/// A repaired dump.
#[derive(Clone, Debug)]
pub enum FixedSo {
    /// With a section header table rebuilt from the dynamic segment.
    Rebuilt(Vec<u8>),
    /// With repaired headers only, and why the rebuild was not possible.
    HeaderOnly(Vec<u8>, RebuildError),
}

/// The effect of the header-only repair on the program header at `o`.
#[verifier::opaque]
pub open spec fn header_step(l: ElfLayout, data: Seq<u8>, o: int) -> Seq<u8> {
    if l.p_type_at(data, o) != PT_LOAD {
        data
    } else {
        let memsz = l.p_memsz_at(data, o);
        let moved = l.with_p_offset(data, o, l.p_vaddr_at(data, o));
        if memsz > l.p_filesz_at(data, o) {
            l.with_p_filesz(moved, o, memsz)
        } else {
            moved
        }
    }
}

/// The header-only repair of the first `n` program headers, and how many PT_LOAD
/// headers are among them. Headers that do not lie inside the dump are left out.
pub open spec fn header_scan(l: ElfLayout, data: Seq<u8>, phoff: int, entsize: int, n: nat) -> (
    Seq<u8>,
    nat,
)
    decreases n,
{
    if n == 0 {
        (data, 0)
    } else {
        let (before, count) = header_scan(l, data, phoff, entsize, (n - 1) as nat);
        let o = phoff + (n - 1) * entsize;
        if o + l.phdr_size() > data.len() {
            (before, count)
        } else if l.p_type_at(before, o) == PT_LOAD {
            (header_step(l, before, o), count + 1)
        } else {
            (before, count)
        }
    }
}

/// The header-only repair of all program headers of a dump.
pub open spec fn scan_headers(data: Seq<u8>) -> (Seq<u8>, nat) {
    let l = rebuild::layout_of(data);
    header_scan(
        l,
        data,
        l.phoff_at(data, 0) as int,
        rebuild::phdr_stride(l, data) as int,
        l.e_phnum(data) as nat,
    )
}

/// `data` without a section header table.
pub open spec fn without_sections(l: ElfLayout, data: Seq<u8>) -> Seq<u8> {
    l.with_shstrndx(l.with_shnum(l.with_shoff(data, 0, 0), 0), 0)
}

/// The dump with repaired program headers and no section header table.
pub open spec fn header_only(data: Seq<u8>) -> Seq<u8> {
    without_sections(rebuild::layout_of(data), scan_headers(data).0)
}

/// Why the headers of a dump of a known class cannot be repaired, if they cannot.
pub open spec fn header_only_fault(data: Seq<u8>) -> Option<FixError> {
    let l = rebuild::layout_of(data);
    if data.len() < l.ehdr_size() {
        Some(FixError::TruncatedHeader)
    } else if l.phoff_at(data, 0) == 0 || l.e_phnum(data) == 0 {
        Some(FixError::NoProgramHeaders)
    } else if scan_headers(data).1 == 0 {
        Some(FixError::NoLoadSegments)
    } else {
        None
    }
}

/// Why the section header table of a dump cannot be rebuilt, if that is tried and
/// cannot.
pub open spec fn failed_rebuild(data: Seq<u8>) -> Option<RebuildError> {
    if data.len() < 16 || !rebuild::has_elf_magic(data) || (data[4] != 1 && data[4] != 2) {
        None
    } else {
        rebuild::refusal(data)
    }
}

/// Why a dump cannot be repaired, if it cannot.
pub open spec fn fix_fault(data: Seq<u8>) -> Option<FixError> {
    if data.len() < 16 || !rebuild::has_elf_magic(data) {
        Some(FixError::NotElf)
    } else if data[4] != 1 && data[4] != 2 {
        Some(FixError::UnsupportedClass(data[4]))
    } else if rebuild::refusal(data) is None {
        None
    } else {
        header_only_fault(data)
    }
}

/// Whether `r` is what repairing `data` comes to.
pub open spec fn is_fix_of(
    data: Seq<u8>,
    injected: Seq<InjectedSym>,
    r: Result<FixedSo, FixFailure>,
) -> bool {
    match r {
        Err(e) => fix_fault(data) == Some(e.error) && failed_rebuild(data) == e.rebuild,
        Ok(FixedSo::Rebuilt(out)) => fix_fault(data) is None && rebuild::refusal(data) is None
            && out@ == rebuild::rebuilt(data, injected),
        Ok(FixedSo::HeaderOnly(out, why)) => fix_fault(data) is None && rebuild::refusal(data)
            == Some(why) && out@ == header_only(data),
    }
}

/// Whether the header-only repair of the program header at `o` of `b` writes byte
/// `k`: it normalizes PT_LOAD headers.
pub open spec fn repair_writes(l: ElfLayout, b: Seq<u8>, o: int, k: int) -> bool {
    l.p_type_at(b, o) == PT_LOAD && upkeep::normalizing_writes(l, b, o, k)
}

/// The repair of a header changes no more than that.
proof fn lemma_header_step(l: ElfLayout, data: Seq<u8>, o: int)
    ensures
        header_step(l, data, o).len() == data.len(),
        forall|k: int|
            0 <= k < data.len() && !repair_writes(l, data, o, k) ==> #[trigger] header_step(
                l,
                data,
                o,
            )[k] == data[k],
{
    reveal(header_step);
}

proof fn lemma_header_scan_len(l: ElfLayout, data: Seq<u8>, phoff: int, entsize: int, n: nat)
    ensures
        header_scan(l, data, phoff, entsize, n).0.len() == data.len(),
        header_scan(l, data, phoff, entsize, n).1 <= n,
    decreases n,
{
    if n > 0 {
        let p = (n - 1) as nat;
        lemma_header_scan_len(l, data, phoff, entsize, p);
        lemma_header_step(l, header_scan(l, data, phoff, entsize, p).0, phoff + (n - 1) * entsize);
    }
}

/// Once a header lies past the end of the dump, so do all later ones.
proof fn lemma_header_scan_past_end(
    l: ElfLayout,
    data: Seq<u8>,
    phoff: int,
    entsize: int,
    i: nat,
    n: nat,
)
    requires
        i <= n,
        0 <= entsize,
        i < n ==> phoff + i * entsize + l.phdr_size() > data.len(),
    ensures
        header_scan(l, data, phoff, entsize, n) == header_scan(l, data, phoff, entsize, i),
    decreases n,
{
    if i < n {
        lemma_header_scan_past_end(l, data, phoff, entsize, i, (n - 1) as nat);
        assert(i * entsize <= (n - 1) * entsize) by (nonlinear_arith)
            requires
                i <= n - 1,
                0 <= entsize,
        ;
    }
}

/// Repairs the program header at `o`; says whether it is a PT_LOAD header.
fn repair_header(l: ElfLayout, data: &mut Vec<u8>, o: usize) -> (r: bool)
    requires
        o + l.phdr_size() <= old(data)@.len(),
    ensures
        r == (l.p_type_at(old(data)@, o as int) == PT_LOAD),
        final(data)@ == header_step(l, old(data)@, o as int),
        !r ==> final(data)@ == old(data)@,
{
    proof {
        reveal(header_step);
    }
    let (p_type, seg): (u32, LoadSeg) = read_header(l, data, o);
    if p_type != PT_LOAD {
        return false;
    }
    patch_p_offset(l, data, o, seg.vaddr);
    if seg.memsz > seg.filesz {
        patch_p_filesz(l, data, o, seg.memsz);
    }
    true
}

/// Repairs the program headers of a dump; returns how many PT_LOAD headers it has.
fn repair_headers(
    l: ElfLayout,
    data: &mut Vec<u8>,
    phoff: u64,
    phentsize: usize,
    phnum: usize,
) -> (r: usize)
    requires
        phentsize <= 0xffff,
        phnum <= 0xffff,
    ensures
        header_scan(l, old(data)@, phoff as int, phentsize as int, phnum as nat) == (
            final(data)@,
            r as nat,
        ),
{
    let ghost image = data@;
    let len: u64 = data.len() as u64;
    let size: u64 = l.phdr_size() as u64;
    let mut fixed: usize = 0;
    let mut i: usize = 0;
    let mut off: u64 = phoff;
    while i < phnum && off <= len && size <= len - off
        invariant
            i <= phnum <= 0xffff,
            phentsize <= 0xffff,
            size == l.phdr_size(),
            len == image.len(),
            fixed <= i,
            phoff + i * phentsize <= u64::MAX ==> off == phoff + i * phentsize,
            phoff + i * phentsize > u64::MAX ==> off == u64::MAX,
            header_scan(l, image, phoff as int, phentsize as int, i as nat) == (
                data@,
                fixed as nat,
            ),
        decreases phnum - i,
    {
        proof {
            lemma_header_scan_len(l, image, phoff as int, phentsize as int, i as nat);
            assert((i + 1) * phentsize == i * phentsize + phentsize) by (nonlinear_arith);
            assert(off <= data.len());
        }
        if repair_header(l, data, off as usize) {
            fixed += 1;
        }
        i += 1;
        off = off.saturating_add(phentsize as u64);
    }
    proof {
        lemma_header_scan_past_end(
            l,
            image,
            phoff as int,
            phentsize as int,
            i as nat,
            phnum as nat,
        );
    }
    fixed
}

/// The minimal repair: normalizes `p_offset`, raises `p_filesz` to `p_memsz` and
/// drops the section header table.
fn fix_headers(image: &[u8]) -> (r: Result<Vec<u8>, FixError>)
    requires
        image@.len() >= 16,
    ensures
        match r {
            Ok(out) => header_only_fault(image@) is None && out@ == header_only(image@),
            Err(e) => header_only_fault(image@) == Some(e),
        },
{
    let l = ElfLayout { is64: image[4] == 2 };
    if image.len() < l.ehdr_size() {
        return Err(FixError::TruncatedHeader);
    }
    let phoff: u64 = l.phoff(image);
    let mut phentsize: usize = l.phentsize(image);
    let phnum: usize = l.phnum(image);
    if phentsize == 0 {
        phentsize = l.phdr_size();
    }
    if phoff == 0 || phnum == 0 {
        return Err(FixError::NoProgramHeaders);
    }
    let mut data = copy_bytes(image);
    let fixed: usize = repair_headers(l, &mut data, phoff, phentsize, phnum);
    proof {
        lemma_header_scan_len(l, image@, phoff as int, phentsize as int, phnum as nat);
    }
    if fixed == 0 {
        return Err(FixError::NoLoadSegments);
    }
    l.set_shoff(data.as_mut_slice(), 0);
    l.set_shnum(data.as_mut_slice(), 0);
    l.set_shstrndx(data.as_mut_slice(), 0);
    Ok(data)
}

/// Like [`fix_one_so`], for any dump: gives nothing when an address of the
/// section list does not fit in 64 bits.
pub fn try_fix_one_so(data: &[u8], injected: &[InjectedSym]) -> (r: Option<
    Result<FixedSo, FixFailure>,
>)
    ensures
        r is Some <==> rebuild::in_address_range(data@),
        r matches Some(res) ==> is_fix_of(data@, injected@, res),
{
    if data.len() < 16 || !is_elf(data) {
        return Some(Err(FixFailure { error: FixError::NotElf, rebuild: None }));
    }
    if data[4] != 1 && data[4] != 2 {
        let error = FixError::UnsupportedClass(data[4]);
        return Some(Err(FixFailure { error, rebuild: None }));
    }
    match try_rebuild_so_sections(data, injected) {
        None => None,
        Some(Ok(out)) => Some(Ok(FixedSo::Rebuilt(out))),
        Some(Err(why)) => match fix_headers(data) {
            Ok(out) => Some(Ok(FixedSo::HeaderOnly(out, why))),
            Err(error) => Some(Err(FixFailure { error, rebuild: Some(why) })),
        },
    }
}

/// Repairs a raw memory dump of a native library. Prefers a full section-header
/// rebuild; falls back to a minimal header-only fix (normalize p_offset, raise
/// p_filesz to p_memsz, zero the section header table).
pub fn fix_one_so(data: &[u8], injected: &[InjectedSym]) -> (r: Result<FixedSo, FixFailure>)
    requires
        rebuild::in_address_range(data@),
    ensures
        is_fix_of(data@, injected@, r),
{
    try_fix_one_so(data, injected).unwrap()
}

/// Whether a dumped file of this name belongs to module `stem`.
pub open spec fn names_module(so_file_name: Seq<char>, stem: Seq<char>) -> bool {
    let base = so::sanitized(so_file_name);
    base == stem || text::ends_with(base, "_"@ + stem)
}

/// Whether a dumped .so file belongs to module `stem`. dumpso names files
/// `so_<pid>_<base>_<size>_<stem>.so`; JNI maps are `jni_symbols_<stem>.txt`,
/// so stems are compared after sanitizing; a plain `<stem>.so` matches too.
pub fn so_matches_module(so_file_name: &str, stem: &str) -> (r: bool)
    ensures
        r == names_module(so_file_name@, stem@),
{
    let base = sanitize_so_name(so_file_name);
    let base_chars = chars_of(base.as_str());
    let stem_chars = chars_of(stem);
    let mut tail = chars_of("_");
    push_chars(&mut tail, stem_chars.as_slice());
    let whole: bool = base_chars.len() == stem_chars.len() && is_prefix(
        base_chars.as_slice(),
        stem_chars.as_slice(),
    );
    assert(whole == (base@ == stem@)) by {
        assert(base@.subrange(0, base@.len() as int) =~= base@);
    }
    whole || is_suffix(base_chars.as_slice(), tail.as_slice())
}

/// Whether a symbol map for module `target` is meant for the file `name`. An
/// empty target stands for an unknown module, which any file may be.
pub open spec fn takes_symbols(target: Seq<char>, name: Seq<char>) -> bool {
    target.len() == 0 || names_module(name, target)
}

/// Routes a symbol map only to its own library: the symbols to inject into the
/// file `name`.
pub fn symbols_for<'a>(injected: &'a [InjectedSym], target: &str, name: &str) -> (r:
    &'a [InjectedSym])
    ensures
        r@ == if takes_symbols(target@, name@) {
            injected@
        } else {
            Seq::empty()
        },
        target@.len() == 0 ==> r@ == injected@,
        target@.len() > 0 && injected@.len() > 0 ==> (r@ == injected@ <==> names_module(
            name@,
            target@,
        )),
{
    if target.is_empty() || so_matches_module(name, target) {
        injected
    } else {
        slice_subrange(injected, 0, 0)
    }
}

/// Whether the extension of a file name is "so".
pub open spec fn is_so_file(name: Seq<char>) -> bool {
    text::ends_with(name, ".so"@) && name.len() > 3
}

pub fn has_so_extension(name: &str) -> (r: bool)
    ensures
        r == is_so_file(name@),
{
    let chars = chars_of(name);
    let so = chars_of(".so");
    is_suffix(chars.as_slice(), so.as_slice()) && chars.len() > 3
}

/// The name under which the repaired copy of the file `name` is written.
pub open spec fn fixed_name(name: Seq<char>) -> Seq<char> {
    text::without_suffix(name, ".so"@) + "_fix.so"@
}

pub fn fixed_file_name(name: &str) -> (r: String)
    ensures
        r@ == fixed_name(name@),
{
    let chars = chars_of(name);
    let so = chars_of(".so");
    let stem = strip_suffix(chars.as_slice(), so.as_slice());
    let mut out: Vec<char> = Vec::new();
    push_chars(&mut out, stem);
    push_str(&mut out, "_fix.so");
    assert(out@ =~= fixed_name(name@));
    string_of(out.as_slice())
}

/// How many of the first `n` files were repaired.
pub open spec fn fixed_count(files: Seq<(String, bool)>, n: nat) -> nat
    decreases n,
{
    if n == 0 {
        0
    } else {
        fixed_count(files, (n - 1) as nat) + if files[n - 1].1 {
            1nat
        } else {
            0
        }
    }
}

/// How many of the first `n` files were repaired and are meant for a symbol map
/// of module `target`.
pub open spec fn matched_count(files: Seq<(String, bool)>, n: nat, target: Seq<char>) -> nat
    decreases n,
{
    if n == 0 {
        0
    } else {
        matched_count(files, (n - 1) as nat, target) + if files[n - 1].1 && takes_symbols(
            target,
            files[n - 1].0@,
        ) {
            1nat
        } else {
            0
        }
    }
}

/// What became of a directory of dumps.
#[derive(Clone, Copy, Debug, PartialEq, Eq, Structural)]
pub struct DirectoryReport {
    /// How many files were repaired.
    pub fixed: usize,
    /// How many of them took symbols.
    pub injected_into: usize,
    /// Whether there were symbols for a certain module, and no file took them.
    pub unmatched: bool,
}

/// No file of the directory was repaired.
#[derive(Clone, Copy, Debug, PartialEq, Eq, Structural)]
pub struct NothingFixed;

impl NothingFixed {
    pub fn message(&self, dir: &str) -> (r: String)
        ensures
            r@ == "no .so files found in "@ + dir@,
    {
        let mut chars = chars_of("no .so files found in ");
        push_str(&mut chars, dir);
        string_of(chars.as_slice())
    }
}

/// Sums up the repair of a directory from the name of each file and whether it
/// was repaired. Injected symbols are module-relative, so `symbols_target` (the
/// module stem from a jni_symbols_<stem>.txt) restricts injection to the matching
/// library; an empty target with a non-empty set injects into every .so (origin
/// couldn't be determined).
pub fn fix_so_directory(
    files: &[(String, bool)],
    injected: &[InjectedSym],
    symbols_target: &str,
) -> (r: Result<DirectoryReport, NothingFixed>)
    ensures
        ({
            let fixed = fixed_count(files@, files@.len());
            let matched = matched_count(files@, files@.len(), symbols_target@);
            match r {
                Ok(report) => {
                    &&& fixed > 0
                    &&& report.fixed == fixed
                    &&& report.injected_into == if injected@.len() > 0 {
                        matched
                    } else {
                        0
                    }
                    &&& report.unmatched == (injected@.len() > 0 && symbols_target@.len() > 0
                        && matched == 0)
                },
                Err(_) => fixed == 0,
            }
        }),
        r is Err <==> forall|i: int| 0 <= i < files@.len() ==> !(#[trigger] files@[i]).1,
        r matches Ok(report) ==> {
            &&& report.injected_into <= report.fixed <= files@.len()
            &&& symbols_target@.len() == 0 && injected@.len() > 0 ==> report.injected_into
                == report.fixed
            &&& report.unmatched ==> report.injected_into == 0
        },
{
    let mut fixed: usize = 0;
    let mut injected_into: usize = 0;
    let mut i: usize = 0;
    while i < files.len()
        invariant
            i <= files@.len(),
            injected_into <= fixed <= i,
            fixed == 0 <==> forall|k: int| 0 <= k < i ==> !(#[trigger] files@[k]).1,
            symbols_target@.len() == 0 && injected@.len() > 0 ==> injected_into == fixed,
            fixed == fixed_count(files@, i as nat),
            injected_into == if injected@.len() > 0 {
                matched_count(files@, i as nat, symbols_target@)
            } else {
                0
            },
        decreases files.len() - i,
    {
        if files[i].1 {
            let syms = symbols_for(injected, symbols_target, files[i].0.as_str());
            if syms.len() > 0 {
                injected_into += 1;
            }
            fixed += 1;
        }
        i += 1;
    }
    if fixed == 0 {
        return Err(NothingFixed);
    }
    let unmatched: bool = injected.len() > 0 && !symbols_target.is_empty() && injected_into == 0;
    Ok(DirectoryReport { fixed, injected_into, unmatched })
}

/// What a line of a symbol map says.
pub enum SymbolLine {
    /// Nothing: it is blank, a comment, or a single word.
    Nothing,
    /// This symbol is at this offset.
    Symbol(Seq<char>, u64),
    /// A symbol at an offset that is no hex number.
    BadOffset(Seq<char>),
}

/// A number in hex, with or without a leading "0x" or "0X".
pub open spec fn hex_offset(s: Seq<char>) -> Option<u64> {
    let digits = if text::starts_with(s, "0x"@) || text::starts_with(s, "0X"@) {
        s.skip(2)
    } else {
        s
    };
    text::parsed(digits, 16, u64::MAX as int)
}

pub open spec fn symbol_line(line: Seq<char>) -> SymbolLine {
    let f = text::fields(line);
    if f.len() < 2 || text::starts_with(f[0], "#"@) {
        SymbolLine::Nothing
    } else {
        match hex_offset(f[0]) {
            Some(value) => SymbolLine::Symbol(f[1], value),
            None => SymbolLine::BadOffset(f[0]),
        }
    }
}

/// The symbols of the first `n` lines of a map, as names and offsets.
pub open spec fn symbols_in(lines: Seq<Seq<char>>, n: nat) -> Seq<(Seq<char>, u64)>
    decreases n,
{
    if n == 0 {
        Seq::empty()
    } else {
        let before = symbols_in(lines, (n - 1) as nat);
        match symbol_line(lines[n - 1]) {
            SymbolLine::Symbol(name, value) => before.push((name, value)),
            _ => before,
        }
    }
}

/// The bad offsets of the first `n` lines of a map, as line numbers (from 1) and
/// texts.
pub open spec fn bad_offsets_in(lines: Seq<Seq<char>>, n: nat) -> Seq<(nat, Seq<char>)>
    decreases n,
{
    if n == 0 {
        Seq::empty()
    } else {
        let before = bad_offsets_in(lines, (n - 1) as nat);
        match symbol_line(lines[n - 1]) {
            SymbolLine::BadOffset(offset) => before.push((n, offset)),
            _ => before,
        }
    }
}

/// A line that was skipped because its offset is no hex number.
#[derive(Clone, Debug, PartialEq, Eq)]
pub struct BadOffset {
    /// Number of the line, from 1.
    pub line: usize,
    pub offset: String,
}

/// What a symbol map holds.
pub struct SymbolMap {
    pub symbols: Vec<InjectedSym>,
    pub skipped: Vec<BadOffset>,
}

pub open spec fn symbol_views(symbols: Seq<InjectedSym>) -> Seq<(Seq<char>, u64)> {
    Seq::new(symbols.len(), |i: int| (symbols[i].name@, symbols[i].value))
}

pub open spec fn skipped_views(skipped: Seq<BadOffset>) -> Seq<(nat, Seq<char>)> {
    Seq::new(skipped.len(), |i: int| (skipped[i].line as nat, skipped[i].offset@))
}

fn parse_hex_offset(s: &Vec<char>) -> (r: Option<u64>)
    ensures
        r == hex_offset(s@),
{
    let lower = chars_of("0x");
    let upper = chars_of("0X");
    proof {
        reveal_strlit("0x");
        reveal_strlit("0X");
    }
    if is_prefix(s.as_slice(), lower.as_slice()) || is_prefix(s.as_slice(), upper.as_slice()) {
        let digits = slice_subrange(s.as_slice(), 2, s.len());
        assert(digits@ =~= s@.skip(2));
        parse_number(digits, 16, u64::MAX)
    } else {
        parse_number(s.as_slice(), 16, u64::MAX)
    }
}

/// Adds what line number `number` says to `map`.
fn read_symbol_line(line: &Vec<char>, number: usize, map: &mut SymbolMap)
    ensures
        symbol_views(final(map).symbols@) == match symbol_line(line@) {
            SymbolLine::Symbol(name, value) => symbol_views(old(map).symbols@).push((name, value)),
            _ => symbol_views(old(map).symbols@),
        },
        skipped_views(final(map).skipped@) == match symbol_line(line@) {
            SymbolLine::BadOffset(offset) => skipped_views(old(map).skipped@).push(
                (number as nat, offset),
            ),
            _ => skipped_views(old(map).skipped@),
        },
{
    let f = split_fields(line.as_slice());
    let hash = chars_of("#");
    let ghost views = text::text_views(f@);
    if f.len() < 2 {
        return ;
    }
    assert(views[0] == f@[0]@ && views[1] == f@[1]@);
    if is_prefix(f[0].as_slice(), hash.as_slice()) {
        return ;
    }
    let ghost symbols = symbol_views(map.symbols@);
    let ghost skipped = skipped_views(map.skipped@);
    match parse_hex_offset(&f[0]) {
        Some(value) => {
            let name = string_of(f[1].as_slice());
            map.symbols.push(InjectedSym { name, value });
            assert(symbol_views(map.symbols@) =~= symbols.push((f@[1]@, value)));
        },
        None => {
            let offset = string_of(f[0].as_slice());
            map.skipped.push(BadOffset { line: number, offset });
            assert(skipped_views(map.skipped@) =~= skipped.push((number as nat, f@[0]@)));
        },
    }
}

/// Reads an "offset name" map for `fixso --symbols`. Blank lines and `#`
/// comments are ignored. The offset is a hex module offset (0x/0X optional).
pub fn parse_symbol_file(content: &str) -> (r: SymbolMap)
    ensures
        ({
            let lines = text::lines(content@);
            &&& symbol_views(r.symbols@) == symbols_in(lines, lines.len())
            &&& skipped_views(r.skipped@) == bad_offsets_in(lines, lines.len())
        }),
{
    let chars = chars_of(content);
    let lines = split_lines(chars.as_slice());
    let ghost views = text::text_views(lines@);
    let mut map = SymbolMap { symbols: Vec::new(), skipped: Vec::new() };
    let mut i: usize = 0;
    assert(symbol_views(map.symbols@) =~= Seq::<(Seq<char>, u64)>::empty());
    assert(skipped_views(map.skipped@) =~= Seq::<(nat, Seq<char>)>::empty());
    while i < lines.len()
        invariant
            i <= lines@.len(),
            views == text::text_views(lines@),
            symbol_views(map.symbols@) == symbols_in(views, i as nat),
            skipped_views(map.skipped@) == bad_offsets_in(views, i as nat),
        decreases lines.len() - i,
    {
        assert(views[i as int] == lines@[i as int]@);
        read_symbol_line(&lines[i], i + 1, &mut map);
        i += 1;
    }
    map
}

/// The module stem in a name of the form `jni_symbols_<stem>.txt`, empty for any
/// other name.
pub open spec fn symbols_stem(name: Seq<char>) -> Seq<char> {
    let rest = name.skip(12);
    if text::starts_with(name, "jni_symbols_"@) && text::ends_with(rest, ".txt"@) {
        rest.take(rest.len() - 4)
    } else {
        Seq::empty()
    }
}

/// Extracts the module stem from the name of a `jni_symbols_<stem>.txt` file so
/// fixso can inject those symbols only into the matching .so. Returns "" for any
/// other name, letting the caller fall back to injecting into every library.
pub fn module_stem_from_symbols_file(name: &str) -> (r: String)
    ensures
        r@ == symbols_stem(name@),
{
    let chars = chars_of(name);
    let prefix = chars_of("jni_symbols_");
    let suffix = chars_of(".txt");
    proof {
        reveal_strlit("jni_symbols_");
        reveal_strlit(".txt");
    }
    if !is_prefix(chars.as_slice(), prefix.as_slice()) {
        return String::new();
    }
    let rest = slice_subrange(chars.as_slice(), 12, chars.len());
    assert(rest@ =~= chars@.skip(12));
    if !is_suffix(rest, suffix.as_slice()) {
        return String::new();
    }
    let stem = slice_subrange(rest, 0, rest.len() - 4);
    assert(stem@ =~= rest@.take(rest@.len() - 4));
    string_of(stem)
}

/// The header-only repair of the headers from `m` on leaves a byte alone that it
/// does not write.
proof fn lemma_header_scan_frame(
    l: ElfLayout,
    data: Seq<u8>,
    phoff: int,
    ent: int,
    m: nat,
    n: nat,
    k: int,
)
    requires
        m <= n,
        0 <= k < data.len(),
        forall|j: int|
            m <= j < n && #[trigger] upkeep::nth(phoff, j, ent) + l.phdr_size() <= data.len()
                ==> !repair_writes(
                l,
                header_scan(l, data, phoff, ent, j as nat).0,
                upkeep::nth(phoff, j, ent),
                k,
            ),
    ensures
        header_scan(l, data, phoff, ent, n).0[k] == header_scan(l, data, phoff, ent, m).0[k],
    decreases n,
{
    if m < n {
        let p = (n - 1) as nat;
        lemma_header_scan_frame(l, data, phoff, ent, m, p, k);
        lemma_header_scan_len(l, data, phoff, ent, p);
        let o = phoff + (n - 1) * ent;
        if o + l.phdr_size() <= data.len() {
            assert(upkeep::nth(phoff, n - 1, ent) == o);
            lemma_header_step(l, header_scan(l, data, phoff, ent, p).0, o);
        }
    }
}

/// The repair of a PT_LOAD header normalizes it.
proof fn lemma_header_step_normalizes(l: ElfLayout, data: Seq<u8>, o: int)
    requires
        0 <= o,
        o + l.phdr_size() <= data.len(),
        l.p_type_at(data, o) == PT_LOAD,
    ensures
        upkeep::fields_at(l, header_step(l, data, o), o) == upkeep::normalized(
            upkeep::fields_at(l, data, o),
        ),
{
    reveal(header_step);
    let v = l.p_vaddr_at(data, o);
    let m = l.p_memsz_at(data, o);
    upkeep::lemma_with_p_offset(l, data, o, v);
    upkeep::lemma_with_p_filesz(l, l.with_p_offset(data, o, v), o, m);
}

/// The header-only repair normalizes every PT_LOAD header and keeps all others.
proof fn lemma_header_scan_normalizes(
    l: ElfLayout,
    data: Seq<u8>,
    phoff: int,
    ent: int,
    n: nat,
    j: int,
)
    requires
        0 <= j < n,
        0 <= phoff,
        0 <= ent,
        upkeep::stands_apart(l, data.len(), phoff, ent, n, j),
        upkeep::nth(phoff, j, ent) + l.phdr_size() <= data.len(),
    ensures
        ({
            let o = upkeep::nth(phoff, j, ent);
            let h = upkeep::fields_at(l, data, o);
            upkeep::fields_at(l, header_scan(l, data, phoff, ent, n).0, o) == if h.typ == PT_LOAD {
                upkeep::normalized(h)
            } else {
                h
            }
        }),
{
    let o = upkeep::nth(phoff, j, ent);
    let size = l.phdr_size() as int;
    assert(0 <= j * ent) by (nonlinear_arith)
        requires
            0 <= j,
            0 <= ent,
    ;
    let before = header_scan(l, data, phoff, ent, j as nat).0;
    let after = header_scan(l, data, phoff, ent, (j + 1) as nat).0;
    let all = header_scan(l, data, phoff, ent, n).0;
    lemma_header_scan_len(l, data, phoff, ent, j as nat);
    assert forall|k: int| o <= k < o + size implies #[trigger] before[k] == data[k] by {
        lemma_header_scan_frame(l, data, phoff, ent, 0, j as nat, k);
    }
    assert forall|k: int| o <= k < o + size implies #[trigger] all[k] == after[k] by {
        lemma_header_scan_frame(l, data, phoff, ent, (j + 1) as nat, n, k);
    }
    upkeep::lemma_fields_frame(l, before, data, o);
    upkeep::lemma_fields_frame(l, all, after, o);
    if l.p_type_at(before, o) == PT_LOAD {
        lemma_header_step_normalizes(l, before, o);
    }
}

/// The header-only repair keeps the length of the dump, and the dump then names
/// no section header table.
pub proof fn law_header_only_drops_sections(data: Seq<u8>)
    requires
        rebuild::layout_of(data).ehdr_size() <= data.len(),
    ensures
        ({
            let l = rebuild::layout_of(data);
            let file = header_only(data);
            &&& file.len() == data.len()
            &&& l.e_shoff(file) == 0
            &&& l.e_shnum(file) == 0
            &&& l.e_shstrndx(file) == 0
        }),
{
    let l = rebuild::layout_of(data);
    lemma_header_scan_len(
        l,
        data,
        l.phoff_at(data, 0) as int,
        rebuild::phdr_stride(l, data) as int,
        l.e_phnum(data) as nat,
    );
    let a = scan_headers(data).0;
    let b = l.with_shoff(a, 0, 0);
    let c = l.with_shnum(b, 0);
    let num = l.pick(60, 48) as int;
    let ndx = l.pick(62, 50) as int;
    if l.is64 {
        bytes::law_u64_write_then_read(a, 40, 0);
        bytes::law_write_leaves_other_integers(b, num, bytes::le16(0), 40);
        bytes::law_write_leaves_other_integers(c, ndx, bytes::le16(0), 40);
    } else {
        bytes::law_u32_write_then_read(a, 32, 0);
        bytes::law_write_leaves_other_integers(b, num, bytes::le16(0), 32);
        bytes::law_write_leaves_other_integers(c, ndx, bytes::le16(0), 32);
    }
    bytes::law_u16_write_then_read(b, num, 0);
    bytes::law_write_leaves_other_integers(c, ndx, bytes::le16(0), num);
    bytes::law_u16_write_then_read(c, ndx, 0);
}

/// Whether byte `k` of a file belongs to `e_shoff`, `e_shnum` or `e_shstrndx` of its
/// ELF header.
pub open spec fn names_sections(l: ElfLayout, k: int) -> bool {
    if l.is64 {
        40 <= k < 48 || 60 <= k < 64
    } else {
        32 <= k < 36 || 48 <= k < 52
    }
}

/// The dump as the header-only repair finds it when it comes to header `j`.
pub open spec fn repair_reached(data: Seq<u8>, j: int) -> Seq<u8> {
    let l = rebuild::layout_of(data);
    header_scan(
        l,
        data,
        l.phoff_at(data, 0) as int,
        rebuild::phdr_stride(l, data) as int,
        j as nat,
    ).0
}

/// The header-only repair changes nothing but `e_shoff`, `e_shnum` and `e_shstrndx`
/// of the ELF header, `p_offset` of PT_LOAD headers, and `p_filesz` of those whose
/// segment is larger in memory.
pub proof fn law_header_only_keeps_the_rest(data: Seq<u8>, k: int)
    requires
        rebuild::layout_of(data).ehdr_size() <= data.len(),
        0 <= k < data.len(),
        !names_sections(rebuild::layout_of(data), k),
        forall|j: int|
            upkeep::is_header(data, j) ==> !repair_writes(
                rebuild::layout_of(data),
                repair_reached(data, j),
                #[trigger] upkeep::header_at(data, j),
                k,
            ),
    ensures
        header_only(data)[k] == data[k],
{
    let l = rebuild::layout_of(data);
    let phoff = l.phoff_at(data, 0) as int;
    let ent = rebuild::phdr_stride(l, data) as int;
    let n = l.e_phnum(data) as nat;
    lemma_header_scan_len(l, data, phoff, ent, n);
    assert forall|j: int|
        0 <= j < n && #[trigger] upkeep::nth(phoff, j, ent) + l.phdr_size()
            <= data.len() implies !repair_writes(
        l,
        header_scan(l, data, phoff, ent, j as nat).0,
        upkeep::nth(phoff, j, ent),
        k,
    ) by {
        assert(upkeep::header_at(data, j) == upkeep::nth(phoff, j, ent));
        assert(upkeep::is_header(data, j));
        assert(repair_reached(data, j) == header_scan(l, data, phoff, ent, j as nat).0);
    }
    lemma_header_scan_frame(l, data, phoff, ent, 0, n, k);
}

/// A header that no other overlaps is as it was in the dump when the header-only
/// repair comes to it.
pub proof fn law_header_is_repaired_as_dumped(data: Seq<u8>, j: int)
    requires
        upkeep::is_header(data, j),
        upkeep::header_stands_apart(data, j),
    ensures
        upkeep::fields_at(
            rebuild::layout_of(data),
            repair_reached(data, j),
            upkeep::header_at(data, j),
        ) == upkeep::fields_at(rebuild::layout_of(data), data, upkeep::header_at(data, j)),
{
    let l = rebuild::layout_of(data);
    let o = upkeep::header_at(data, j);
    let phoff = l.phoff_at(data, 0) as int;
    let ent = rebuild::phdr_stride(l, data) as int;
    upkeep::lemma_stands_apart(data, j);
    assert(0 <= j * ent) by (nonlinear_arith)
        requires
            0 <= j,
            0 <= ent,
    ;
    assert forall|k: int| o <= k < o + l.phdr_size() implies #[trigger] repair_reached(data, j)[k]
        == data[k] by {
        lemma_header_scan_frame(l, data, phoff, ent, 0, j as nat, k);
    }
    upkeep::lemma_fields_frame(l, repair_reached(data, j), data, o);
}

/// The header-only repair normalizes every PT_LOAD header of the dump: its file
/// offset is its address and its segment is present in full. All other headers
/// are kept. The header must overlap no other, nor the ELF header.
pub proof fn law_header_only_normalizes_loads(data: Seq<u8>, j: int)
    requires
        rebuild::layout_of(data).ehdr_size() <= data.len(),
        upkeep::is_header(data, j),
        upkeep::header_stands_apart(data, j),
        rebuild::layout_of(data).ehdr_size() <= upkeep::header_at(data, j),
    ensures
        ({
            let l = rebuild::layout_of(data);
            let o = upkeep::header_at(data, j);
            let h = upkeep::fields_at(l, data, o);
            upkeep::fields_at(l, header_only(data), o) == if h.typ == PT_LOAD {
                upkeep::normalized(h)
            } else {
                h
            }
        }),
{
    let l = rebuild::layout_of(data);
    let phoff = l.phoff_at(data, 0) as int;
    let ent = rebuild::phdr_stride(l, data) as int;
    let n = l.e_phnum(data) as nat;
    lemma_header_scan_len(l, data, phoff, ent, n);
    upkeep::lemma_stands_apart(data, j);
    lemma_header_scan_normalizes(l, data, phoff, ent, n, j);
    upkeep::lemma_fields_frame(
        l,
        header_only(data),
        scan_headers(data).0,
        upkeep::header_at(data, j),
    );
}

/// A PT_LOAD header among the first `n` is counted, as long as no repair of
/// another header changes it.
proof fn lemma_load_is_counted(
    l: ElfLayout,
    data: Seq<u8>,
    phoff: int,
    ent: int,
    n: nat,
    j: int,
)
    requires
        0 <= j < n,
        0 <= phoff,
        0 <= ent,
        upkeep::stands_apart(l, data.len(), phoff, ent, n, j),
        upkeep::nth(phoff, j, ent) + l.phdr_size() <= data.len(),
        l.p_type_at(data, upkeep::nth(phoff, j, ent)) == PT_LOAD,
    ensures
        header_scan(l, data, phoff, ent, n).1 > 0,
    decreases n,
{
    if j < n - 1 {
        lemma_load_is_counted(l, data, phoff, ent, (n - 1) as nat, j);
    } else {
        let o = upkeep::nth(phoff, j, ent);
        let size = l.phdr_size() as int;
        let before = header_scan(l, data, phoff, ent, j as nat).0;
        assert forall|k: int| o <= k < o + size implies #[trigger] before[k] == data[k] by {
            lemma_header_scan_frame(l, data, phoff, ent, 0, j as nat, k);
        }
        upkeep::lemma_fields_frame(l, before, data, o);
    }
}

/// Where the section rebuild is not possible, the header-only repair takes its
/// place: every dump of a known class that has a PT_LOAD header, which no other
/// header overlaps, is repaired.
pub proof fn law_loadable_dump_is_fixed(data: Seq<u8>, j: int)
    requires
        data.len() >= 16,
        rebuild::has_elf_magic(data),
        data[4] == 1 || data[4] == 2,
        rebuild::layout_of(data).ehdr_size() <= data.len(),
        rebuild::layout_of(data).phoff_at(data, 0) != 0,
        upkeep::is_header(data, j),
        upkeep::header_stands_apart(data, j),
        rebuild::layout_of(data).p_type_at(data, upkeep::header_at(data, j)) == PT_LOAD,
    ensures
        fix_fault(data) is None,
{
    let l = rebuild::layout_of(data);
    upkeep::lemma_stands_apart(data, j);
    lemma_load_is_counted(
        l,
        data,
        l.phoff_at(data, 0) as int,
        rebuild::phdr_stride(l, data) as int,
        l.e_phnum(data) as nat,
        j,
    );
}

/// Spelled numbers consist of characters that a file name may hold.
proof fn lemma_spelled_is_safe(n: int, radix: int)
    requires
        0 <= n,
        2 <= radix <= 16,
    ensures
        forall|i: int|
            0 <= i < text::spelled(n, radix).len() ==> so::is_safe_char(
                #[trigger] text::spelled(n, radix)[i],
            ),
{
    text::law_number_spelled(n, radix);
    let s = text::spelled(n, radix);
    assert forall|i: int| 0 <= i < s.len() implies so::is_safe_char(#[trigger] s[i]) by {
        assert(text::digit(s[i]) < radix);
    }
}

/// What stands in front of the ".so" of a dump's name.
pub proof fn lemma_dump_stem(pid: u32, base: u64, size: u64, name: Seq<char>) -> (stem: Seq<char>)
    ensures
        capture::dump_name(pid, base, size, name) == stem + ".so"@,
        text::ends_with(stem, "_"@ + so::sanitized(name)),
        forall|i: int| 0 <= i < stem.len() ==> so::is_safe_char(#[trigger] stem[i]),
{
    reveal_strlit("so_");
    reveal_strlit("_");
    lemma_spelled_is_safe(pid as int, 10);
    lemma_spelled_is_safe(base as int, 16);
    lemma_spelled_is_safe(size as int, 16);
    so::law_sanitized_is_safe(name);
    let a = "so_"@ + text::spelled(pid as int, 10) + "_"@;
    let b = a + text::spelled(base as int, 16) + "_"@;
    let head = b + text::spelled(size as int, 16);
    let tail = "_"@ + so::sanitized(name);
    assert forall|i: int| 0 <= i < a.len() implies so::is_safe_char(#[trigger] a[i]) by {}
    assert forall|i: int| 0 <= i < b.len() implies so::is_safe_char(#[trigger] b[i]) by {
        if i < a.len() {
            assert(b[i] == a[i]);
        }
    }
    assert forall|i: int| 0 <= i < head.len() implies so::is_safe_char(#[trigger] head[i]) by {
        if i < b.len() {
            assert(head[i] == b[i]);
        }
    }
    let stem = head + tail;
    assert forall|i: int| 0 <= i < stem.len() implies so::is_safe_char(#[trigger] stem[i]) by {
        if i < head.len() {
            assert(stem[i] == head[i]);
        } else {
            assert(stem[i] == tail[i - head.len()]);
        }
    }
    assert(stem.subrange(head.len() as int, stem.len() as int) =~= tail);
    assert(capture::dump_name(pid, base, size, name) =~= stem + ".so"@);
    stem
}

/// A dump matches the module that it was made of, by the module's sanitized name.
pub proof fn law_dump_matches_its_module(pid: u32, base: u64, size: u64, name: Seq<char>)
    ensures
        names_module(capture::dump_name(pid, base, size, name), so::sanitized(name)),
{
    let stem = lemma_dump_stem(pid, base, size, name);
    so::law_sanitize_keeps_safe_names(stem);
}

/// The stem of `jni_symbols_<stem>.txt` is `<stem>`.
pub proof fn law_stem_of_symbol_map(stem: Seq<char>)
    ensures
        symbols_stem("jni_symbols_"@ + stem + ".txt"@) == stem,
{
    reveal_strlit("jni_symbols_");
    reveal_strlit(".txt");
    let name = "jni_symbols_"@ + stem + ".txt"@;
    let rest = name.skip(12);
    assert(name.subrange(0, 12) =~= "jni_symbols_"@);
    assert(rest =~= stem + ".txt"@);
    assert(rest.subrange(rest.len() - 4, rest.len() as int) =~= ".txt"@);
    assert(rest.take(rest.len() - 4) =~= stem);
}

/// A symbol map that is named after a module reaches the dump of that module.
pub proof fn law_symbol_map_reaches_its_dump(pid: u32, base: u64, size: u64, name: Seq<char>)
    ensures
        takes_symbols(
            symbols_stem("jni_symbols_"@ + so::sanitized(name) + ".txt"@),
            capture::dump_name(pid, base, size, name),
        ),
{
    law_stem_of_symbol_map(so::sanitized(name));
    law_dump_matches_its_module(pid, base, size, name);
}

/// Different files are repaired under different names.
pub proof fn law_fixed_names_differ(a: Seq<char>, b: Seq<char>)
    requires
        is_so_file(a),
        is_so_file(b),
        a != b,
    ensures
        fixed_name(a) != fixed_name(b),
{
    reveal_strlit(".so");
    reveal_strlit("_fix.so");
    if fixed_name(a) == fixed_name(b) {
        let x = a.take(a.len() - 3);
        let y = b.take(b.len() - 3);
        assert(fixed_name(a).take(x.len() as int) =~= x);
        assert(fixed_name(b).take(y.len() as int) =~= y);
        assert(fixed_name(a) == x + "_fix.so"@ && fixed_name(b) == y + "_fix.so"@);
        assert(fixed_name(a).len() == x.len() + 7 && fixed_name(b).len() == y.len() + 7);
        assert(x.len() == y.len());
        assert(x == y);
        assert(a =~= x + ".so"@) by {
            assert(a.subrange(a.len() - 3, a.len() as int) == ".so"@);
            assert(a =~= x + a.subrange(a.len() - 3, a.len() as int));
        }
        assert(b =~= y + ".so"@) by {
            assert(b.subrange(b.len() - 3, b.len() as int) == ".so"@);
            assert(b =~= y + b.subrange(b.len() - 3, b.len() as int));
        }
    }
}

/// A hex number reads back, with and without a prefix.
pub proof fn law_hex_offset_reads_back(n: u64)
    ensures
        hex_offset(text::spelled(n as int, 16)) == Some(n),
        hex_offset("0x"@ + text::spelled(n as int, 16)) == Some(n),
        hex_offset("0X"@ + text::spelled(n as int, 16)) == Some(n),
{
    reveal_strlit("0x");
    reveal_strlit("0X");
    let s = text::spelled(n as int, 16);
    text::law_number_spelled(n as int, 16);
    text::law_parse_spelled(n as int, 16, u64::MAX as int);
    if s.len() >= 2 {
        assert(text::digit(s[1]) < 16);
        assert(s.subrange(0, 2)[1] == s[1]);
    }
    assert(("0x"@ + s).subrange(0, 2) =~= "0x"@);
    assert(("0X"@ + s).subrange(0, 2) =~= "0X"@);
    assert(("0x"@ + s).skip(2) =~= s);
    assert(("0X"@ + s).skip(2) =~= s);
}

/// A line of a symbol map as an author writes it.
pub enum MapLine {
    /// This symbol is at this offset.
    Symbol(Seq<char>, u64),
    /// A blank line or a comment.
    Remark(Seq<char>),
}

impl MapLine {
    /// The text of the line; an offset is written in hex, behind "0x".
    pub open spec fn text(self) -> Seq<char> {
        match self {
            MapLine::Symbol(name, value) => "0x"@ + text::spelled(value as int, 16) + seq![' ']
                + name,
            MapLine::Remark(remark) => remark,
        }
    }

    /// Whether the line can be told from others: a symbol has a name without white
    /// space, and a remark is one line that is blank or whose first character,
    /// white space aside, is '#'.
    pub open spec fn is_plain(self) -> bool {
        match self {
            MapLine::Symbol(name, _) => name.len() > 0 && forall|k: int|
                0 <= k < name.len() ==> !text::is_white(#[trigger] name[k]),
            MapLine::Remark(remark) => {
                let a = text::white_end(remark, 0);
                !remark.contains('\n') && (a < remark.len() ==> remark[a] == '#')
            },
        }
    }
}

/// The text of a symbol map, line by line.
pub open spec fn map_text(map: Seq<MapLine>) -> Seq<char> {
    text::lined(map.map_values(|m: MapLine| m.text()))
}

/// The symbols that the first `n` lines of a map were written for.
pub open spec fn symbols_of(map: Seq<MapLine>, n: nat) -> Seq<(Seq<char>, u64)>
    decreases n,
{
    if n == 0 {
        Seq::empty()
    } else {
        let before = symbols_of(map, (n - 1) as nat);
        match map[n - 1] {
            MapLine::Symbol(name, value) => before.push((name, value)),
            MapLine::Remark(_) => before,
        }
    }
}

/// A hex offset behind "0x" is a word that starts with '0'.
proof fn lemma_offset_is_a_word(n: u64)
    ensures
        ({
            let w = "0x"@ + text::spelled(n as int, 16);
            &&& w.len() > 2
            &&& w[0] == '0'
            &&& forall|k: int| 0 <= k < w.len() ==> !text::is_white(#[trigger] w[k])
        }),
{
    let hex = text::spelled(n as int, 16);
    let w = "0x"@ + hex;
    reveal_strlit("0x");
    text::law_number_spelled(n as int, 16);
    assert forall|k: int| 0 <= k < w.len() implies !text::is_white(#[trigger] w[k]) by {
        if k >= 2 {
            assert(w[k] == hex[k - 2]);
            assert(text::digit(hex[k - 2]) < 16);
        }
    }
}

/// A plain line of a symbol says what it was written for.
proof fn lemma_plain_symbol(name: Seq<char>, value: u64)
    requires
        MapLine::Symbol(name, value).is_plain(),
    ensures
        ({
            let line = MapLine::Symbol(name, value).text();
            &&& !line.contains('\n')
            &&& symbol_line(text::without_return(line)) == SymbolLine::Symbol(name, value)
        }),
{
    let line = MapLine::Symbol(name, value).text();
    let t = text::without_return(line);
    let w = "0x"@ + text::spelled(value as int, 16);
    let n = w.len() as int;
    reveal_strlit("#");
    lemma_offset_is_a_word(value);
    law_hex_offset_reads_back(value);
    text::law_words_are_fields(w, name);
    assert(line == w + seq![' '] + name);
    assert forall|k: int| 0 <= k < line.len() implies #[trigger] line[k] != '\n' by {
        if k < n {
            assert(line[k] == w[k]);
        } else if k > n {
            assert(line[k] == name[k - n - 1]);
        }
    }
    assert(line.last() == name[name.len() - 1]);
    assert(t == line);
    assert(w.subrange(0, 1)[0] == '0');
    assert("#"@[0] == '#');
    assert(!text::starts_with(w, "#"@));
}

/// A plain remark says nothing.
proof fn lemma_plain_remark(remark: Seq<char>)
    requires
        MapLine::Remark(remark).is_plain(),
    ensures
        ({
            let line = MapLine::Remark(remark).text();
            &&& !line.contains('\n')
            &&& symbol_line(text::without_return(line)) == SymbolLine::Nothing
        }),
{
    let line = MapLine::Remark(remark).text();
    let t = text::without_return(line);
    reveal_strlit("#");
    let a = text::white_end(t, 0);
    if t != line {
        assert(t =~= line.take(line.len() - 1));
        text::lemma_white_end_take(line, 0, line.len() - 1);
    }
    text::lemma_white_end(line, 0);
    text::lemma_white_end(t, 0);
    if a < t.len() {
        text::lemma_word_end(t, a);
        let b = text::word_end(t, a);
        assert(t[a] == '#');
        assert(text::fields(t)[0] == t.subrange(a, b));
        assert(t.subrange(a, b).subrange(0, 1) =~= "#"@);
    }
}

/// A plain line says what it was written for, with or without a carriage return at
/// its end, and holds no line feed.
proof fn lemma_plain_line(m: MapLine)
    requires
        m.is_plain(),
    ensures
        !m.text().contains('\n'),
        symbol_line(text::without_return(m.text())) == match m {
            MapLine::Symbol(name, value) => SymbolLine::Symbol(name, value),
            MapLine::Remark(_) => SymbolLine::Nothing,
        },
{
    match m {
        MapLine::Symbol(name, value) => lemma_plain_symbol(name, value),
        MapLine::Remark(remark) => lemma_plain_remark(remark),
    }
}

/// A symbol map reads back: its symbols come in the order of their lines, each as
/// often as it was written, and no line is found to be bad.
pub proof fn law_symbol_map_reads_back(map: Seq<MapLine>)
    requires
        forall|i: int| 0 <= i < map.len() ==> (#[trigger] map[i]).is_plain(),
    ensures
        ({
            let lines = text::lines(map_text(map));
            &&& lines.len() == map.len()
            &&& symbols_in(lines, lines.len()) == symbols_of(map, map.len())
            &&& bad_offsets_in(lines, lines.len()).len() == 0
        }),
{
    let rows = map.map_values(|m: MapLine| m.text());
    assert forall|i: int| 0 <= i < rows.len() implies !(#[trigger] rows[i]).contains('\n') by {
        lemma_plain_line(map[i]);
    }
    text::law_lines_read_back(rows);
    let lines = text::lines(map_text(map));
    assert forall|i: int| 0 <= i < map.len() implies #[trigger] lines[i] == text::without_return(
        map[i].text(),
    ) by {
        assert(rows[i] == map[i].text());
    }
    lemma_plain_lines(map, lines, map.len());
}

proof fn lemma_plain_lines(map: Seq<MapLine>, lines: Seq<Seq<char>>, n: nat)
    requires
        n <= map.len(),
        forall|i: int| 0 <= i < map.len() ==> (#[trigger] map[i]).is_plain(),
        forall|i: int|
            0 <= i < map.len() ==> #[trigger] lines[i] == text::without_return(map[i].text()),
    ensures
        symbols_in(lines, n) == symbols_of(map, n),
        bad_offsets_in(lines, n).len() == 0,
    decreases n,
{
    if n > 0 {
        lemma_plain_lines(map, lines, (n - 1) as nat);
        lemma_plain_line(map[n - 1]);
        assert(lines[n - 1] == text::without_return(map[n - 1].text()));
    }
}

} // verus!
