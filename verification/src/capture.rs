//! Decisions behind dumping modules out of a running process: what to read, how
//! to name it, and when to capture it again.
use crate::rebuild;
use crate::rebuild::is_elf;
use crate::so::{sanitize_so_name, SoModule};
use crate::so;
use crate::text;
use crate::text::{
    chars_of, is_prefix, parse_number, push_number, push_str, split_fields, split_lines, string_of,
};
use std::collections::hash_map::DefaultHasher;
use std::hash::Hasher;
use std::path::PathBuf;
use std::time::Duration;
use vstd::prelude::*;
use vstd::slice::slice_subrange;
use vstd::std_specs::hash::DefaultHasherAdditionalSpecFns;

verus! {

/// Safety cap: refuse to allocate/dump a single module larger than this.
pub const MAX_SO_DUMP_SIZE: u64 = 0x2000_0000;

/// Used to retry a failed whole-range read page by page, so a single
/// unreadable guard page doesn't sacrifice an entire dump.
pub const SO_READ_CHUNK: usize = 4096;

/// Caps how many times a single (pid, base, end) region is re-dumped when its
/// contents change, so an app that keeps writing can't drive an unbounded loop.
pub const WATCH_MAX_REDUMPS: u32 = 3;

/// The longest sleep between two looks at the stop flag, in nanoseconds.
pub const SLEEP_STEP_NANOS: u128 = 100_000_000;

/// Trusted: `std::path::PathBuf`, carried as it is.
#[verifier::external_type_specification]
#[verifier::external_body]
pub struct ExPathBuf(std::path::PathBuf);

/// Trusted: `PathBuf::clone` returns a duplicate of the path.
pub assume_specification[ <std::path::PathBuf as Clone>::clone ](p: &std::path::PathBuf) -> (r:
    std::path::PathBuf)
    ensures
        r == *p,
;

#[derive(Debug)]
pub struct DumpSoConfig {
    pub uid: u32,
    /// Only dump libraries whose path contains this substring (None = all).
    pub lib_filter: Option<String>,
    pub out: PathBuf,
    pub include_anon: bool,
    pub include_system: bool,
    pub auto_fix: bool,
    pub watch: bool,
    pub watch_interval: Duration,
    /// None = watch until interrupted.
    pub watch_timeout: Option<Duration>,
}

impl Clone for DumpSoConfig {
    fn clone(&self) -> (r: DumpSoConfig)
        ensures
            r == *self,
    {
        DumpSoConfig {
            uid: self.uid,
            lib_filter: match &self.lib_filter {
                Some(f) => Some(f.clone()),
                None => None,
            },
            out: self.out.clone(),
            include_anon: self.include_anon,
            include_system: self.include_system,
            auto_fix: self.auto_fix,
            watch: self.watch,
            watch_interval: self.watch_interval,
            watch_timeout: self.watch_timeout,
        }
    }
}

/// How a run goes about its dumps.
#[derive(Clone, Copy, Debug, PartialEq, Eq, Structural)]
pub enum RunMode {
    /// Every process of the uid once.
    Once,
    /// Polling until the deadline or an interrupt.
    Watch,
}

impl RunMode {
    /// Whether a run passes over what it cannot find or read, a uid without
    /// processes or a process without readable mappings, rather than failing: it
    /// may be there at the next scan of a watch.
    pub fn passes_over_faults(self) -> (r: bool)
        ensures
            r == (self == RunMode::Watch),
    {
        match self {
            RunMode::Once => false,
            RunMode::Watch => true,
        }
    }
}

/// The host has no way to read another process's memory.
#[derive(Clone, Copy, Debug, PartialEq, Eq, Structural)]
pub struct UnsupportedHost;

impl UnsupportedHost {
    pub fn message(&self) -> (r: String)
        ensures
            r@ == "dumpso is only supported on Linux/Android targets"@,
    {
        "dumpso is only supported on Linux/Android targets".to_string()
    }
}

/// How to carry out `config` on a host that can (`supported`) or cannot read
/// other processes' memory.
pub fn run(config: &DumpSoConfig, supported: bool) -> (r: Result<RunMode, UnsupportedHost>)
    ensures
        match r {
            Ok(RunMode::Watch) => supported && config.watch,
            Ok(RunMode::Once) => supported && !config.watch,
            Err(_) => !supported,
        },
        r is Ok <==> supported,
        r matches Ok(mode) ==> (mode == RunMode::Watch <==> config.watch),
{
    if !supported {
        Err(UnsupportedHost)
    } else if config.watch {
        Ok(RunMode::Watch)
    } else {
        Ok(RunMode::Once)
    }
}

/// Whether the dumps are to be fixed after a run that wrote `written` files.
pub fn is_fix_due(config: &DumpSoConfig, written: usize) -> (r: bool)
    ensures
        r == (config.auto_fix && written > 0),
        !config.auto_fix || written == 0 ==> !r,
        config.auto_fix && written >= 1 ==> r,
{
    config.auto_fix && written > 0
}

/// The process id that a directory name under /proc spells, if it spells one.
pub fn parse_pid(name: &str) -> (r: Option<u32>)
    ensures
        match r {
            Some(pid) => text::parsed(name@, 10, u32::MAX as int) == Some(pid as u64),
            None => text::parsed(name@, 10, u32::MAX as int) is None,
        },
{
    let chars = chars_of(name);
    match parse_number(chars.as_slice(), 10, u32::MAX as u64) {
        Some(v) => Some(v as u32),
        None => None,
    }
}

/// Whether the text of /proc/<pid>/status, from line `i` on, names `uid` as the
/// real user: the first field behind the first "Uid:" is that number.
pub open spec fn status_names_uid(lines: Seq<Seq<char>>, i: int, uid: u32) -> bool
    decreases lines.len() - i,
{
    if i >= lines.len() {
        false
    } else if text::starts_with(lines[i], "Uid:"@) {
        let f = text::fields(lines[i].skip(4));
        f.len() > 0 && text::parsed(f[0], 10, u32::MAX as int) == Some(uid as u64)
    } else {
        status_names_uid(lines, i + 1, uid)
    }
}

/// Whether a process with this /proc/<pid>/status text belongs to `uid`.
pub fn belongs_to_uid(status: &str, uid: u32) -> (r: bool)
    ensures
        r == status_names_uid(text::lines(status@), 0, uid),
{
    let chars = chars_of(status);
    let lines = split_lines(chars.as_slice());
    let key = chars_of("Uid:");
    proof {
        reveal_strlit("Uid:");
    }
    let ghost views = text::text_views(lines@);
    let mut i: usize = 0;
    while i < lines.len()
        invariant
            i <= lines@.len(),
            views == text::text_views(lines@),
            views == text::lines(status@),
            key@ == "Uid:"@,
            key@.len() == 4,
            status_names_uid(views, i as int, uid) == status_names_uid(views, 0, uid),
        decreases lines.len() - i,
    {
        let line = &lines[i];
        assert(views[i as int] == line@);
        if is_prefix(line.as_slice(), key.as_slice()) {
            let rest = slice_subrange(line.as_slice(), 4, line.len());
            assert(rest@ =~= line@.skip(4));
            let f = split_fields(rest);
            if f.len() == 0 {
                return false;
            }
            assert(text::text_views(f@)[0] == f@[0]@);
            return match parse_number(f[0].as_slice(), 10, u32::MAX as u64) {
                Some(v) => v == uid as u64,
                None => false,
            };
        }
        i += 1;
    }
    false
}

/// The pids among the first `n` processes whose status text names `uid`.
pub open spec fn pids_of_uid(procs: Seq<(u32, String)>, n: nat, uid: u32) -> Seq<u32>
    decreases n,
{
    if n == 0 {
        Seq::empty()
    } else {
        let before = pids_of_uid(procs, (n - 1) as nat, uid);
        if status_names_uid(text::lines(procs[n - 1].1@), 0, uid) {
            before.push(procs[n - 1].0)
        } else {
            before
        }
    }
}

/// No process belongs to this uid.
#[derive(Clone, Copy, Debug, PartialEq, Eq, Structural)]
pub struct NoProcess {
    pub uid: u32,
}

impl NoProcess {
    pub fn message(&self) -> (r: String)
        ensures
            r@ == "no running process found for uid "@ + text::spelled(self.uid as int, 10),
    {
        let mut chars = chars_of("no running process found for uid ");
        push_number(&mut chars, self.uid as u64, 10);
        string_of(chars.as_slice())
    }
}

/// Picks the processes owned by `uid` out of (pid, status text) pairs.
pub fn find_pids_for_uid(procs: &[(u32, String)], uid: u32) -> (r: Result<Vec<u32>, NoProcess>)
    ensures
        match r {
            Ok(pids) => pids@.len() > 0 && pids@ == pids_of_uid(procs@, procs@.len(), uid),
            Err(e) => e.uid == uid && pids_of_uid(procs@, procs@.len(), uid).len() == 0,
        },
{
    let mut pids: Vec<u32> = Vec::new();
    let mut i: usize = 0;
    assert(pids@ =~= Seq::<u32>::empty());
    while i < procs.len()
        invariant
            i <= procs@.len(),
            pids@ == pids_of_uid(procs@, i as nat, uid),
        decreases procs.len() - i,
    {
        if belongs_to_uid(procs[i].1.as_str(), uid) {
            pids.push(procs[i].0);
        }
        i += 1;
    }
    if pids.len() == 0 {
        Err(NoProcess { uid })
    } else {
        Ok(pids)
    }
}

/// Whether a read of 4 bytes that returned `n` found the ELF magic.
pub fn peek_is_elf(n: isize, buf: &[u8]) -> (r: bool)
    ensures
        r == (n == 4 && rebuild::has_elf_magic(buf@)),
        r ==> n == 4 && buf@.len() >= 4 && buf@.take(4) == seq![0x7fu8, 0x45, 0x4c, 0x46],
        n == 4 && buf@.len() >= 4 && buf@.take(4) == seq![0x7fu8, 0x45, 0x4c, 0x46] ==> r,
{
    proof {
        let magic = seq![0x7fu8, 0x45, 0x4c, 0x46];
        if buf@.len() >= 4 {
            let start = buf@.take(4);
            assert(forall|i: int| 0 <= i < 4 ==> #[trigger] start[i] == buf@[i]);
            if rebuild::has_elf_magic(buf@) {
                assert(start =~= magic);
            }
            if start == magic {
                assert(start[0] == 0x7f && start[1] == 0x45 && start[2] == 0x4c && start[3]
                    == 0x46);
            }
        }
    }
    n == 4 && is_elf(buf)
}

/// What to do about a module.
#[derive(Clone, Copy, Debug, PartialEq, Eq, Structural)]
pub enum DumpStep {
    /// Nothing is mapped.
    Skip,
    /// The span exceeds the safety cap.
    TooLarge(u64),
    /// Read this many bytes.
    Read(u64),
}

pub fn dump_step(m: &SoModule) -> (r: DumpStep)
    requires
        m.base <= m.end,
    ensures
        ({
            let size = (m.end - m.base) as u64;
            r == if size == 0 {
                DumpStep::Skip
            } else if size > MAX_SO_DUMP_SIZE {
                DumpStep::TooLarge(size)
            } else {
                DumpStep::Read(size)
            }
        }),
        r is Skip <==> m.base == m.end,
        r matches DumpStep::Read(n) ==> m.base + n == m.end && 0 < n <= 512 * 1024 * 1024,
        r matches DumpStep::TooLarge(n) ==> m.base + n == m.end && n > 512 * 1024 * 1024,
{
    let size: u64 = m.end - m.base;
    if size == 0 {
        DumpStep::Skip
    } else if size > MAX_SO_DUMP_SIZE {
        DumpStep::TooLarge(size)
    } else {
        DumpStep::Read(size)
    }
}

/// How much of a module a read has captured.
#[derive(Clone, Copy, Debug, PartialEq, Eq, Structural)]
pub enum Capture {
    Failed,
    Partial,
    Complete,
}

/// Judges a read that populated `got` of `size` bytes.
pub fn judge_capture(got: u64, size: u64) -> (r: Capture)
    ensures
        r == if got == 0 {
            Capture::Failed
        } else if got < size {
            Capture::Partial
        } else {
            Capture::Complete
        },
        r is Failed <==> got == 0,
        r is Complete <==> got > 0 && got >= size,
{
    if got == 0 {
        Capture::Failed
    } else if got < size {
        Capture::Partial
    } else {
        Capture::Complete
    }
}

/// The file name of a dump: `so_<pid>_<base>_<size>_<stem>.so`.
pub open spec fn dump_name(pid: u32, base: u64, size: u64, name: Seq<char>) -> Seq<char> {
    "so_"@ + text::spelled(pid as int, 10) + "_"@ + text::spelled(base as int, 16) + "_"@
        + text::spelled(size as int, 16) + "_"@ + so::sanitized(name) + ".so"@
}

pub fn dump_file_name(pid: u32, base: u64, size: u64, name: &str) -> (r: String)
    ensures
        r@ == dump_name(pid, base, size, name@),
{
    let mut chars = chars_of("so_");
    push_number(&mut chars, pid as u64, 10);
    push_str(&mut chars, "_");
    push_number(&mut chars, base, 16);
    push_str(&mut chars, "_");
    push_number(&mut chars, size, 16);
    push_str(&mut chars, "_");
    let stem = sanitize_so_name(name);
    push_str(&mut chars, stem.as_str());
    push_str(&mut chars, ".so");
    string_of(chars.as_slice())
}

/// A read of `len` bytes in progress: first the whole range at once, and if that
/// fails page by page, so that an unreadable page only costs that page.
#[derive(Clone, Copy, Debug, PartialEq, Eq, Structural)]
pub struct RangeRead {
    pub len: usize,
    /// Whether the whole range is still to be tried.
    pub whole: bool,
    /// Where the next page-sized read starts.
    pub off: usize,
    /// Bytes populated so far.
    pub total: usize,
}

/// What a [`RangeRead`] asks for next.
#[derive(Clone, Copy, Debug, PartialEq, Eq, Structural)]
pub enum ReadStep {
    /// Read the bytes from the first offset up to the second.
    Read(usize, usize),
    /// This many bytes have been populated.
    Done(usize),
}

impl RangeRead {
    /// No more has been populated than has been asked for, and nothing before
    /// the page-sized reads.
    pub open spec fn well_formed(self) -> bool {
        &&& self.off <= self.len
        &&& self.total <= self.off
        &&& self.whole ==> self.off == 0
    }

    pub open spec fn next_spec(self) -> ReadStep {
        if self.off >= self.len {
            ReadStep::Done(self.total)
        } else if self.whole {
            ReadStep::Read(0, self.len)
        } else if self.len - self.off > SO_READ_CHUNK {
            ReadStep::Read(self.off, (self.off + SO_READ_CHUNK) as usize)
        } else {
            ReadStep::Read(self.off, self.len)
        }
    }

    /// The state after the requested read returned `n`: a count that falls short
    /// of the request, or is negative, counts as nothing read.
    pub open spec fn after(self, n: isize) -> RangeRead {
        match self.next_spec() {
            ReadStep::Done(_) => self,
            ReadStep::Read(start, end) => {
                let full = n == end - start;
                if self.whole && !full {
                    RangeRead { whole: false, ..self }
                } else {
                    RangeRead {
                        whole: false,
                        off: end,
                        total: if full {
                            (self.total + (end - start)) as usize
                        } else {
                            self.total
                        },
                        ..self
                    }
                }
            },
        }
    }

    pub fn new(len: usize) -> (r: RangeRead)
        ensures
            r.well_formed(),
            r == (RangeRead { len, whole: true, off: 0, total: 0 }),
    {
        RangeRead { len, whole: true, off: 0, total: 0 }
    }

    pub fn next_step(&self) -> (r: ReadStep)
        requires
            self.well_formed(),
        ensures
            r == self.next_spec(),
    {
        if self.off >= self.len {
            ReadStep::Done(self.total)
        } else if self.whole {
            ReadStep::Read(0, self.len)
        } else if self.len - self.off > SO_READ_CHUNK {
            ReadStep::Read(self.off, self.off + SO_READ_CHUNK)
        } else {
            ReadStep::Read(self.off, self.len)
        }
    }

    pub fn record(&mut self, n: isize)
        requires
            old(self).well_formed(),
        ensures
            final(self).well_formed(),
            *final(self) == old(self).after(n),
    {
        match self.next_step() {
            ReadStep::Done(_) => {},
            ReadStep::Read(start, end) => {
                let full: bool = n >= 0 && n as usize == end - start;
                if self.whole && !full {
                    self.whole = false;
                } else {
                    self.whole = false;
                    self.off = end;
                    if full {
                        self.total = self.total + (end - start);
                    }
                }
            },
        }
    }
}

/// Where the windows start that a module's fingerprint samples.
pub fn sample_offsets(span: u64) -> (r: [u64; 4])
    requires
        span * 3 <= u64::MAX,
    ensures
        r@ == seq![0u64, span / 4, span / 2, (span * 3 / 4) as u64],
        forall|k: int| 0 <= k < 4 ==> #[trigger] r@[k] == k * span / 4,
{
    let r: [u64; 4] = [0, span / 4, span / 2, (span * 3) / 4];
    assert(r@ =~= seq![0u64, span / 4, span / 2, (span * 3 / 4) as u64]);
    assert forall|k: int| 0 <= k < 4 implies #[trigger] r@[k] == k * span / 4 by {
        if k == 0 {
            assert(k * span == 0);
        } else if k == 1 {
            assert(k * span == span);
        } else if k == 2 {
            assert(k * span == 2 * span);
        } else {
            assert(k * span == 3 * span);
        }
    }
    r
}

/// The windows among the first `n` that hold something.
pub open spec fn read_windows(windows: Seq<Vec<u8>>, n: nat) -> Seq<Seq<u8>>
    decreases n,
{
    if n == 0 {
        Seq::empty()
    } else {
        let before = read_windows(windows, (n - 1) as nat);
        if windows[n - 1]@.len() > 0 {
            before.push(windows[n - 1]@)
        } else {
            before
        }
    }
}

/// Hashes the sampled windows of a module, each cut to what could be read.
/// Changes when a packer rewrites code in place (e.g. decrypts .text), which is
/// what tells the watcher to re-dump.
pub fn module_fingerprint(span: u64, windows: &[Vec<u8>]) -> (r: u64)
    ensures
        r == if span == 0 {
            0
        } else {
            DefaultHasher::spec_finish(read_windows(windows@, windows@.len()))
        },
{
    if span == 0 {
        return 0;
    }
    let mut h = DefaultHasher::new();
    let mut i: usize = 0;
    while i < windows.len()
        invariant
            i <= windows@.len(),
            h@ == read_windows(windows@, i as nat),
        decreases windows.len() - i,
    {
        if windows[i].len() > 0 {
            h.write(windows[i].as_slice());
        }
        i += 1;
    }
    h.finish()
}

/// A region across scans: `fp` is the fingerprint of its last capture, `dumps`
/// how many times it's been captured so far.
#[derive(Clone, Copy, Debug, PartialEq, Eq, Structural)]
pub struct ModWatchState {
    pub fp: u64,
    pub dumps: u32,
}

/// Whether a region with this history is settled: captured as often as allowed.
pub open spec fn is_settled(prev: Option<ModWatchState>) -> bool {
    match prev {
        Some(st) => st.dumps >= WATCH_MAX_REDUMPS,
        None => false,
    }
}

/// Whether a region with this history is to be captured when its fingerprint
/// is `fp`: it is not settled, and new or changed.
pub open spec fn is_fresh(prev: Option<ModWatchState>, fp: u64) -> bool {
    match prev {
        Some(st) => st.dumps < WATCH_MAX_REDUMPS && st.fp != fp,
        None => true,
    }
}

/// The history of a region after it was seen with fingerprint `fp`.
pub open spec fn history_after(prev: Option<ModWatchState>, fp: u64) -> Option<ModWatchState> {
    if is_fresh(prev, fp) {
        match prev {
            Some(st) => Some(ModWatchState { fp, dumps: (st.dumps + 1) as u32 }),
            None => Some(ModWatchState { fp, dumps: 1 }),
        }
    } else {
        prev
    }
}

/// A region and its history.
pub struct SeenRegion {
    pub pid: u32,
    pub base: u64,
    pub end: u64,
    pub state: ModWatchState,
}

/// The regions that a watch has captured so far.
pub struct WatchLog {
    pub regions: Vec<SeenRegion>,
}

/// The history that the first `n` records keep of a region.
pub open spec fn history_of(
    regions: Seq<SeenRegion>,
    n: nat,
    pid: u32,
    base: u64,
    end: u64,
) -> Option<ModWatchState>
    decreases n,
{
    if n == 0 {
        None
    } else {
        let r = regions[n - 1];
        if r.pid == pid && r.base == base && r.end == end {
            Some(r.state)
        } else {
            history_of(regions, (n - 1) as nat, pid, base, end)
        }
    }
}

impl WatchLog {
    /// No region has two records, and none was captured more often than allowed.
    pub open spec fn well_formed(self) -> bool {
        &&& forall|i: int, j: int|
            0 <= i < j < self.regions@.len() ==> {
                ||| (#[trigger] self.regions@[i]).pid != (#[trigger] self.regions@[j]).pid
                ||| self.regions@[i].base != self.regions@[j].base
                ||| self.regions@[i].end != self.regions@[j].end
            }
        &&& forall|i: int|
            0 <= i < self.regions@.len() ==> 1 <= (#[trigger] self.regions@[i]).state.dumps
                <= WATCH_MAX_REDUMPS
    }

    /// The history of the region `[base, end)` of process `pid`.
    pub open spec fn history(self, pid: u32, base: u64, end: u64) -> Option<ModWatchState> {
        history_of(self.regions@, self.regions@.len(), pid, base, end)
    }

    pub fn new() -> (r: WatchLog)
        ensures
            r.well_formed(),
            forall|pid: u32, base: u64, end: u64| #[trigger]
                r.history(pid, base, end) is None,
    {
        WatchLog { regions: Vec::new() }
    }

    /// Position of the record of a region.
    fn find(&self, pid: u32, base: u64, end: u64) -> (r: Option<usize>)
        ensures
            match r {
                Some(i) => {
                    &&& i < self.regions@.len()
                    &&& self.regions@[i as int].pid == pid
                    &&& self.regions@[i as int].base == base
                    &&& self.regions@[i as int].end == end
                    &&& self.history(pid, base, end) == Some(self.regions@[i as int].state)
                },
                None => {
                    &&& self.history(pid, base, end) is None
                    &&& forall|i: int|
                        0 <= i < self.regions@.len() ==> {
                            ||| (#[trigger] self.regions@[i]).pid != pid
                            ||| self.regions@[i].base != base
                            ||| self.regions@[i].end != end
                        }
                },
            },
    {
        let mut i: usize = self.regions.len();
        while i > 0
            invariant
                i <= self.regions@.len(),
                history_of(self.regions@, i as nat, pid, base, end) == self.history(
                    pid,
                    base,
                    end,
                ),
                forall|k: int|
                    i <= k < self.regions@.len() ==> {
                        ||| (#[trigger] self.regions@[k]).pid != pid
                        ||| self.regions@[k].base != base
                        ||| self.regions@[k].end != end
                    },
            decreases i,
        {
            let r = &self.regions[i - 1];
            if r.pid == pid && r.base == base && r.end == end {
                return Some(i - 1);
            }
            i -= 1;
        }
        None
    }

    /// Whether a region has been captured as often as allowed, so that it need
    /// not be looked at again.
    pub fn settled(&self, pid: u32, base: u64, end: u64) -> (r: bool)
        ensures
            r == is_settled(self.history(pid, base, end)),
    {
        match self.find(pid, base, end) {
            Some(i) => self.regions[i].state.dumps >= WATCH_MAX_REDUMPS,
            None => false,
        }
    }

    /// Notes that a region was seen with fingerprint `fp`; says whether it is to
    /// be captured.
    pub fn observe(&mut self, pid: u32, base: u64, end: u64, fp: u64) -> (r: bool)
        requires
            old(self).well_formed(),
        ensures
            final(self).well_formed(),
            r == is_fresh(old(self).history(pid, base, end), fp),
            old(self).history(pid, base, end) is None ==> r,
            old(self).history(pid, base, end) matches Some(st) ==> (r <==> st.dumps
                < WATCH_MAX_REDUMPS && fp != st.fp),
            r ==> (final(self).history(pid, base, end) matches Some(st) && st.fp == fp),
            final(self).history(pid, base, end) == history_after(
                old(self).history(pid, base, end),
                fp,
            ),
            forall|p: u32, b: u64, e: u64|
                p != pid || b != base || e != end ==> #[trigger] final(self).history(p, b, e)
                    == old(self).history(p, b, e),
    {
        match self.find(pid, base, end) {
            Some(i) => {
                let st: ModWatchState = self.regions[i].state;
                if st.dumps >= WATCH_MAX_REDUMPS || st.fp == fp {
                    return false;
                }
                let ghost before = self.regions@;
                self.regions[i].state = ModWatchState { fp, dumps: st.dumps + 1 };
                proof {
                    lemma_history_at(
                        self.regions@,
                        self.regions@.len(),
                        pid,
                        base,
                        end,
                        i as int,
                    );
                    assert forall|p: u32, b: u64, e: u64| p != pid || b != base || e
                        != end implies #[trigger] self.history(p, b, e) == old(self).history(
                        p,
                        b,
                        e,
                    ) by {
                        lemma_history_frame(before, self.regions@, before.len(), p, b, e, i as int);
                    }
                }
                true
            },
            None => {
                let ghost before = self.regions@;
                self.regions.push(
                    SeenRegion { pid, base, end, state: ModWatchState { fp, dumps: 1 } },
                );
                proof {
                    assert forall|p: u32, b: u64, e: u64| p != pid || b != base || e
                        != end implies #[trigger] self.history(p, b, e) == old(self).history(
                        p,
                        b,
                        e,
                    ) by {
                        lemma_history_prefix(before, self.regions@, before.len(), p, b, e);
                    }
                }
                true
            },
        }
    }
}

/// A region's only record is its history.
proof fn lemma_history_at(
    regions: Seq<SeenRegion>,
    n: nat,
    pid: u32,
    base: u64,
    end: u64,
    i: int,
)
    requires
        0 <= i < n <= regions.len(),
        regions[i].pid == pid,
        regions[i].base == base,
        regions[i].end == end,
        forall|k: int|
            i < k < n ==> {
                ||| (#[trigger] regions[k]).pid != pid
                ||| regions[k].base != base
                ||| regions[k].end != end
            },
    ensures
        history_of(regions, n, pid, base, end) == Some(regions[i].state),
    decreases n,
{
    if n - 1 > i {
        assert(regions[n - 1].pid != pid || regions[n - 1].base != base || regions[n - 1].end
            != end);
        lemma_history_at(regions, (n - 1) as nat, pid, base, end, i);
    }
}

/// A change to the state of one record leaves other regions' histories alone.
proof fn lemma_history_frame(
    a: Seq<SeenRegion>,
    b: Seq<SeenRegion>,
    n: nat,
    pid: u32,
    base: u64,
    end: u64,
    i: int,
)
    requires
        n <= a.len() == b.len(),
        0 <= i < a.len(),
        a[i].pid != pid || a[i].base != base || a[i].end != end,
        b[i].pid == a[i].pid,
        b[i].base == a[i].base,
        b[i].end == a[i].end,
        forall|k: int| 0 <= k < a.len() && k != i ==> a[k] == b[k],
    ensures
        history_of(a, n, pid, base, end) == history_of(b, n, pid, base, end),
    decreases n,
{
    if n > 0 {
        lemma_history_frame(a, b, (n - 1) as nat, pid, base, end, i);
    }
}

/// Later records do not matter to the history that earlier ones keep.
proof fn lemma_history_prefix(
    a: Seq<SeenRegion>,
    b: Seq<SeenRegion>,
    n: nat,
    pid: u32,
    base: u64,
    end: u64,
)
    requires
        n <= a.len() <= b.len(),
        forall|k: int| 0 <= k < a.len() ==> a[k] == b[k],
    ensures
        history_of(a, n, pid, base, end) == history_of(b, n, pid, base, end),
    decreases n,
{
    if n > 0 {
        lemma_history_prefix(a, b, (n - 1) as nat, pid, base, end);
    }
}

/// Whether a watch goes on after a scan.
pub fn keeps_watching(running: bool, deadline_reached: bool) -> (r: bool)
    ensures
        r == (running && !deadline_reached),
        !running || deadline_reached ==> !r,
        running && !deadline_reached ==> r,
{
    running && !deadline_reached
}

/// What a watch has done last.
#[derive(Clone, Copy, Debug, PartialEq, Eq, Structural)]
pub enum WatchEvent {
    Started,
    /// Every process of the uid has been scanned.
    Scanned,
    /// The interval between two scans has passed, or was cut short.
    Slept,
}

/// What a watch does next.
#[derive(Clone, Copy, Debug, PartialEq, Eq, Structural)]
pub enum WatchStep {
    /// Scan every process of the uid, and dump what is new or has changed.
    Scan,
    /// Sleep for the interval between two scans.
    Sleep,
    End,
}

/// The step of a watch after `last`: it scans at least once, looks at the stop
/// request and the deadline after a scan, and at the stop request after a sleep.
pub open spec fn watch_step(last: WatchEvent, running: bool, deadline_reached: bool) -> WatchStep {
    match last {
        WatchEvent::Started => WatchStep::Scan,
        WatchEvent::Scanned => if running && !deadline_reached {
            WatchStep::Sleep
        } else {
            WatchStep::End
        },
        WatchEvent::Slept => if running {
            WatchStep::Scan
        } else {
            WatchStep::End
        },
    }
}

pub fn next_watch_step(last: WatchEvent, running: bool, deadline_reached: bool) -> (r: WatchStep)
    ensures
        r == watch_step(last, running, deadline_reached),
{
    match last {
        WatchEvent::Started => WatchStep::Scan,
        WatchEvent::Scanned => if keeps_watching(running, deadline_reached) {
            WatchStep::Sleep
        } else {
            WatchStep::End
        },
        WatchEvent::Slept => if running {
            WatchStep::Scan
        } else {
            WatchStep::End
        },
    }
}

/// The step of a watch at time `k`, when `looks` tells for each time whether the
/// watch is still to run and whether the deadline has been reached.
pub open spec fn watch_at(looks: Seq<(bool, bool)>, k: nat) -> WatchStep
    decreases k,
{
    let (running, deadline_reached) = looks[k as int];
    if k == 0 {
        watch_step(WatchEvent::Started, running, deadline_reached)
    } else {
        match watch_at(looks, (k - 1) as nat) {
            WatchStep::Scan => watch_step(WatchEvent::Scanned, running, deadline_reached),
            WatchStep::Sleep => watch_step(WatchEvent::Slept, running, deadline_reached),
            WatchStep::End => WatchStep::End,
        }
    }
}

/// Every watch begins with a scan, whatever has been requested by then.
pub proof fn law_watch_begins_with_a_scan(looks: Seq<(bool, bool)>)
    ensures
        watch_at(looks, 0) == WatchStep::Scan,
{
}

/// A watch scans and sleeps in turn until it ends. A stop request ends it at the
/// next look, a deadline at the next look after a scan; nothing else does.
pub proof fn law_watch_scans_and_sleeps_in_turn(looks: Seq<(bool, bool)>, k: nat)
    ensures
        k % 2 == 0 ==> watch_at(looks, k) != WatchStep::Sleep,
        k % 2 == 1 ==> watch_at(looks, k) != WatchStep::Scan,
        k > 0 ==> (watch_at(looks, k) == WatchStep::End <==> {
            ||| watch_at(looks, (k - 1) as nat) == WatchStep::End
            ||| !looks[k as int].0
            ||| k % 2 == 1 && looks[k as int].1
        }),
    decreases k,
{
    if k > 0 {
        law_watch_scans_and_sleeps_in_turn(looks, (k - 1) as nat);
    }
}

/// The next step of a sleep of `total` nanoseconds that has lasted for `slept`.
pub open spec fn sleep_step(total: u128, slept: u128) -> Option<u128> {
    if slept >= total {
        None
    } else if total - slept < SLEEP_STEP_NANOS {
        Some((total - slept) as u128)
    } else {
        Some(SLEEP_STEP_NANOS)
    }
}

/// How long to sleep next, in nanoseconds, when `slept` of `total` have passed:
/// short steps, so that a stop request is seen soon.
pub fn next_sleep(total: u128, slept: u128) -> (r: Option<u128>)
    ensures
        r == sleep_step(total, slept),
{
    if slept >= total {
        None
    } else if total - slept < SLEEP_STEP_NANOS {
        Some(total - slept)
    } else {
        Some(SLEEP_STEP_NANOS)
    }
}

/// How often a region with history `prev` is captured when it is seen with the
/// fingerprints `fps`, one after the other.
pub open spec fn captures(prev: Option<ModWatchState>, fps: Seq<u64>) -> nat
    decreases fps.len(),
{
    if fps.len() == 0 {
        0
    } else {
        let rest = captures(history_after(prev, fps[0]), fps.drop_first());
        if is_fresh(prev, fps[0]) {
            1 + rest
        } else {
            rest
        }
    }
}

/// However often a region changes, it is captured at most
/// [`WATCH_MAX_REDUMPS`] times, and a new region at least once.
pub proof fn law_captures_are_capped(fps: Seq<u64>)
    ensures
        captures(None, fps) <= WATCH_MAX_REDUMPS,
        fps.len() > 0 ==> captures(None, fps) >= 1,
{
    if fps.len() > 0 {
        lemma_captures_left(history_after(None, fps[0]), fps.drop_first());
    }
}

proof fn lemma_captures_left(prev: Option<ModWatchState>, fps: Seq<u64>)
    requires
        prev matches Some(st) && st.dumps <= WATCH_MAX_REDUMPS,
    ensures
        captures(prev, fps) <= WATCH_MAX_REDUMPS - prev->0.dumps,
    decreases fps.len(),
{
    if fps.len() > 0 {
        lemma_captures_left(history_after(prev, fps[0]), fps.drop_first());
    }
}

/// A region that is seen unchanged after its capture is not captured again.
pub proof fn law_unchanged_region_is_not_fresh(prev: Option<ModWatchState>, fp: u64)
    ensures
        is_fresh(prev, fp) ==> !is_fresh(history_after(prev, fp), fp),
{
}

/// Every requested read lies inside the buffer and makes progress: either the
/// read is done, or it asks for a non-empty range of at most one page once the
/// whole range has failed.
pub proof fn law_requests_are_in_bounds(s: RangeRead)
    requires
        s.well_formed(),
    ensures
        match s.next_spec() {
            ReadStep::Done(total) => total <= s.len,
            ReadStep::Read(start, end) => start < end <= s.len && (!s.whole ==> start == s.off
                && end - start <= SO_READ_CHUNK),
        },
{
}

/// A read of the whole range that succeeds populates all of the buffer.
pub proof fn law_whole_read_succeeds(len: usize, n: isize)
    requires
        n == len,
        len > 0,
    ensures
        (RangeRead { len, whole: true, off: 0, total: 0 }).after(n).next_spec()
            == ReadStep::Done(len),
{
}

/// A read of the whole range that fails is followed by page-sized reads from the
/// start.
pub proof fn law_failed_read_goes_page_by_page(len: usize, n: isize)
    requires
        n != len,
        len > 0,
    ensures
        (RangeRead { len, whole: true, off: 0, total: 0 }).after(n) == (RangeRead {
            len,
            whole: false,
            off: 0,
            total: 0,
        }),
{
}

/// The end of the first `n` pages of a buffer.
pub open spec fn pages_end(len: usize, n: nat) -> int {
    if n * SO_READ_CHUNK < len {
        n * SO_READ_CHUNK
    } else {
        len as int
    }
}

/// The number of bytes that the first `n` page-sized reads populate when they
/// return `results`: a page counts if its read returned all of it.
pub open spec fn pages_read(len: usize, results: Seq<isize>, n: nat) -> int
    decreases n,
{
    if n == 0 {
        0
    } else {
        let size = pages_end(len, n) - pages_end(len, (n - 1) as nat);
        pages_read(len, results, (n - 1) as nat) + if results[n - 1] == size {
            size
        } else {
            0
        }
    }
}

/// The state of a page-by-page read after the first `n` reads returned `results`.
pub open spec fn after_pages(len: usize, results: Seq<isize>, n: nat) -> RangeRead
    decreases n,
{
    if n == 0 {
        RangeRead { len, whole: false, off: 0, total: 0 }
    } else {
        after_pages(len, results, (n - 1) as nat).after(results[n - 1])
    }
}

/// A page-by-page read goes through the buffer once, and an unreadable page only
/// costs that page.
pub proof fn law_unreadable_page_costs_itself(len: usize, results: Seq<isize>, n: nat)
    requires
        n <= results.len(),
    ensures
        ({
            let s = after_pages(len, results, n);
            &&& s.well_formed()
            &&& s.len == len && !s.whole
            &&& s.off == pages_end(len, n)
            &&& s.total == pages_read(len, results, n)
            &&& n * SO_READ_CHUNK >= len ==> s.next_spec() == ReadStep::Done(s.total)
        }),
    decreases n,
{
    if n > 0 {
        law_unreadable_page_costs_itself(len, results, (n - 1) as nat);
    }
}

/// The processes found for a uid are those whose status text names it.
pub proof fn law_found_pids_belong_to_uid(procs: Seq<(u32, String)>, n: nat, uid: u32, pid: u32)
    requires
        n <= procs.len(),
    ensures
        pids_of_uid(procs, n, uid).contains(pid) <==> exists|k: int|
            0 <= k < n && (#[trigger] procs[k]).0 == pid && status_names_uid(
                text::lines(procs[k].1@),
                0,
                uid,
            ),
    decreases n,
{
    if n > 0 {
        let p = (n - 1) as nat;
        law_found_pids_belong_to_uid(procs, p, uid, pid);
        let before = pids_of_uid(procs, p, uid);
        let all = pids_of_uid(procs, n, uid);
        let last = procs[n - 1];
        if all.contains(pid) {
            let i = choose|i: int| 0 <= i < all.len() && all[i] == pid;
            if i < before.len() {
                assert(before[i] == pid);
                assert(before.contains(pid));
            } else {
                assert(procs[n - 1].0 == pid);
            }
        }
        if before.contains(pid) {
            let i = choose|i: int| 0 <= i < before.len() && before[i] == pid;
            assert(all[i] == pid);
        }
        if last.0 == pid && status_names_uid(text::lines(last.1@), 0, uid) {
            assert(all[before.len() as int] == pid);
        }
    }
}

/// How long a sleep of `total` has lasted after `n` steps that ran to their end.
pub open spec fn slept_after(total: u128, n: nat) -> u128
    decreases n,
{
    if n == 0 {
        0
    } else {
        let slept = slept_after(total, (n - 1) as nat);
        match sleep_step(total, slept) {
            Some(step) => (slept + step) as u128,
            None => slept,
        }
    }
}

/// A sleep in steps never lasts longer than asked for, and ends on time.
pub proof fn law_sleep_ends_on_time(total: u128, n: nat)
    ensures
        slept_after(total, n) == if n * SLEEP_STEP_NANOS < total {
            n * SLEEP_STEP_NANOS
        } else {
            total as int
        },
    decreases n,
{
    if n > 0 {
        assert(n * SLEEP_STEP_NANOS == (n - 1) * SLEEP_STEP_NANOS + SLEEP_STEP_NANOS)
            by (nonlinear_arith);
        law_sleep_ends_on_time(total, (n - 1) as nat);
    }
}

} // verus!
