//! Native libraries in a process's memory map.
use crate::text;
use crate::text::{
    chars_of, is_inside, is_prefix, is_suffix, parse_number, push_chars, push_number,
    split_fields, split_lines, string_of, strip_suffix,
};
use vstd::prelude::*;
use vstd::slice::slice_subrange;

verus! {

/// One candidate native image to dump: either a file-backed shared library
/// (spanning all of its mapped segments) or an anonymous, self-mapped ELF
/// image.
#[derive(Clone, Debug, PartialEq, Eq)]
pub struct SoModule {
    /// Library file name, or "anon_<base>" for self-mapped images.
    pub name: String,
    /// Full path from /proc/<pid>/maps, empty for anonymous modules.
    pub path: String,
    pub base: u64,
    pub end: u64,  // exclusive
}

/// One line of /proc/<pid>/maps.
#[derive(Clone, Debug, PartialEq, Eq)]
pub struct MapEntry {
    pub start: u64,
    pub end: u64,
    pub perms: String,
    pub path: String,
}

/// What a [`SoModule`] says.
pub struct Module {
    pub name: Seq<char>,
    pub path: Seq<char>,
    pub base: u64,
    pub end: u64,
}

impl View for SoModule {
    type V = Module;

    open spec fn view(&self) -> Module {
        Module { name: self.name@, path: self.path@, base: self.base, end: self.end }
    }
}

/// What a [`MapEntry`] says.
pub struct Mapping {
    pub start: u64,
    pub end: u64,
    pub perms: Seq<char>,
    pub path: Seq<char>,
}

impl View for MapEntry {
    type V = Mapping;

    open spec fn view(&self) -> Mapping {
        Mapping { start: self.start, end: self.end, perms: self.perms@, path: self.path@ }
    }
}

pub open spec fn module_views(mods: Seq<SoModule>) -> Seq<Module> {
    Seq::new(mods.len(), |i: int| mods[i]@)
}

pub open spec fn mapping_views(entries: Seq<MapEntry>) -> Seq<Mapping> {
    Seq::new(entries.len(), |i: int| entries[i]@)
}

/// Whether `s` ends, at `k`, in a dot and one or more decimal digits.
pub open spec fn version_group(s: Seq<char>, k: int) -> bool {
    &&& 0 <= k < s.len() - 1
    &&& s[k] == '.'
    &&& forall|j: int| k < j < s.len() ==> '0' <= #[trigger] s[j] <= '9'
}

/// Whether `s` ends in ".so" and `groups` version groups.
pub open spec fn so_tail(s: Seq<char>, groups: nat) -> bool
    decreases groups,
{
    if groups == 0 {
        text::ends_with(s, ".so"@)
    } else {
        exists|k: int| #[trigger]
            version_group(s, k) && so_tail(s.take(k), (groups - 1) as nat)
    }
}

/// Whether `s` matches the expression `\.so(\.[0-9]+)*$`.
pub open spec fn is_so_name(s: Seq<char>) -> bool {
    exists|groups: nat| so_tail(s, groups)
}

/// A name that ends in a version group is a library name exactly when the name
/// before that group is.
pub proof fn lemma_version_group(s: Seq<char>, k: int)
    requires
        version_group(s, k),
    ensures
        is_so_name(s) == is_so_name(s.take(k)),
{
    if is_so_name(s) {
        let groups = choose|groups: nat| so_tail(s, groups);
        if groups == 0 {
            reveal_strlit(".so");
            let tail = s.subrange(s.len() - 3, s.len() as int);
            assert(tail[2] == ".so"@[2]);
            assert(s[s.len() - 1] == 'o');
            assert(false);
        } else {
            let m = choose|m: int| #[trigger]
                version_group(s, m) && so_tail(s.take(m), (groups - 1) as nat);
            if m < k {
                assert(s[k] == '.');
            } else if k < m {
                assert(s[m] == '.');
            }
            assert(m == k);
            assert(so_tail(s.take(k), (groups - 1) as nat));
        }
    }
    if is_so_name(s.take(k)) {
        let groups = choose|groups: nat| so_tail(s.take(k), groups);
        assert(so_tail(s, groups + 1));
    }
}

/// Without a version group at the end, only ".so" itself can match.
pub proof fn lemma_no_version_group(s: Seq<char>)
    requires
        forall|k: int| !version_group(s, k),
    ensures
        is_so_name(s) == text::ends_with(s, ".so"@),
{
    if is_so_name(s) {
        let groups = choose|groups: nat| so_tail(s, groups);
        if groups > 0 {
            let m = choose|m: int| #[trigger]
                version_group(s, m) && so_tail(s.take(m), (groups - 1) as nat);
            assert(version_group(s, m));
        }
    }
    if text::ends_with(s, ".so"@) {
        assert(so_tail(s, 0));
    }
}

/// Position of the version group that `s` ends in.
fn find_version_group(s: &[char]) -> (r: Option<usize>)
    ensures
        match r {
            Some(k) => version_group(s@, k as int),
            None => forall|k: int| !version_group(s@, k),
        },
{
    let mut k: usize = s.len();
    while k > 0 && '0' <= s[k - 1] && s[k - 1] <= '9'
        invariant
            k <= s@.len(),
            s@.len() == s.len(),
            forall|j: int| k <= j < s@.len() ==> '0' <= #[trigger] s@[j] <= '9',
        decreases k,
    {
        k -= 1;
    }
    if k > 0 && k < s.len() && s[k - 1] == '.' {
        Some(k - 1)
    } else {
        proof {
            assert forall|m: int| !version_group(s@, m) by {
                if version_group(s@, m) {
                    if m >= k {
                        assert('0' <= s@[m] <= '9');
                    } else if m < k - 1 {
                        assert('0' <= s@[k - 1] <= '9');
                    }
                    if m == k - 1 && k == s@.len() {
                    }
                }
            }
        }
        None
    }
}

/// Matches bionic-style "libfoo.so" as well as glibc-style versioned sonames
/// like "libfoo.so.6" or "libfoo.so.1.2" (the expression `\.so(\.[0-9]+)*$`).
pub fn has_so_suffix(path: &str) -> (r: bool)
    ensures
        r == is_so_name(path@),
{
    let chars = chars_of(path);
    let so = chars_of(".so");
    let mut end: usize = chars.len();
    assert(chars@.take(end as int) =~= chars@);
    // Strip any trailing ".<digits>" groups, then check for a ".so" tail.
    loop
        invariant
            end <= chars@.len(),
            so@ == ".so"@,
            is_so_name(chars@.take(end as int)) == is_so_name(path@),
        decreases end,
    {
        let s = slice_subrange(chars.as_slice(), 0, end);
        assert(s@ =~= chars@.take(end as int));
        match find_version_group(s) {
            Some(k) => {
                proof {
                    lemma_version_group(s@, k as int);
                    assert(s@.take(k as int) =~= chars@.take(k as int));
                }
                end = k;
            },
            None => {
                proof {
                    lemma_no_version_group(s@);
                }
                return is_suffix(s, so.as_slice());
            },
        }
    }
}

/// Whether a path lies on one of the read-only firmware partitions, whose
/// libraries can be pulled straight off the device image.
pub open spec fn on_system_partition(path: Seq<char>) -> bool {
    ||| text::starts_with(path, "/system/"@)
    ||| text::starts_with(path, "/apex/"@)
    ||| text::starts_with(path, "/vendor/"@)
    ||| text::starts_with(path, "/system_ext/"@)
    ||| text::starts_with(path, "/product/"@)
    ||| text::starts_with(path, "/odm/"@)
}

fn path_starts_with(path: &Vec<char>, prefix: &str) -> (r: bool)
    ensures
        r == text::starts_with(path@, prefix@),
{
    let p = chars_of(prefix);
    is_prefix(path.as_slice(), p.as_slice())
}

/// Whether path lives on one of the firmware partitions.
pub fn is_system_lib_path(path: &str) -> (r: bool)
    ensures
        r == on_system_partition(path@),
{
    let p = chars_of(path);
    path_starts_with(&p, "/system/") || path_starts_with(&p, "/apex/") || path_starts_with(
        &p,
        "/vendor/",
    ) || path_starts_with(&p, "/system_ext/") || path_starts_with(&p, "/product/")
        || path_starts_with(&p, "/odm/")
}

/// Position right after the last slash of `path`, 0 without one.
pub open spec fn name_start(path: Seq<char>) -> int
    decreases path.len(),
{
    if path.len() == 0 || path.last() == '/' {
        path.len() as int
    } else {
        name_start(path.drop_last())
    }
}

/// What follows the last slash of `path`.
pub open spec fn file_name(path: Seq<char>) -> Seq<char> {
    path.skip(name_start(path))
}

pub proof fn lemma_name_start(path: Seq<char>)
    ensures
        0 <= name_start(path) <= path.len(),
    decreases path.len(),
{
    if path.len() > 0 && path.last() != '/' {
        lemma_name_start(path.drop_last());
    }
}

pub fn base_name(path: &str) -> (r: String)
    ensures
        r@ == file_name(path@),
{
    let p = chars_of(path);
    let mut i: usize = p.len();
    assert(p@.take(i as int) =~= p@);
    while i > 0 && p[i - 1] != '/'
        invariant
            i <= p@.len(),
            name_start(p@.take(i as int)) == name_start(p@),
        decreases i,
    {
        assert(p@.take(i as int).drop_last() =~= p@.take(i - 1));
        i -= 1;
    }
    string_of(slice_subrange(p.as_slice(), i, p.len()))
}

/// Whether a file name may hold `c` as it is.
pub open spec fn is_safe_char(c: char) -> bool {
    ||| 'a' <= c <= 'z'
    ||| 'A' <= c <= 'Z'
    ||| '0' <= c <= '9'
    ||| c == '.'
    ||| c == '_'
    ||| c == '-'
}

/// `name` without a ".so" suffix, every unsafe character replaced by '_'.
pub open spec fn sanitized(name: Seq<char>) -> Seq<char> {
    let t = text::without_suffix(name, ".so"@);
    Seq::new(
        t.len(),
        |i: int|
            if is_safe_char(t[i]) {
                t[i]
            } else {
                '_'
            },
    )
}

fn sanitize_chars(name: &[char]) -> (r: Vec<char>)
    ensures
        r@ == sanitized(name@),
{
    let so = chars_of(".so");
    let t = strip_suffix(name, so.as_slice());
    let mut r: Vec<char> = Vec::new();
    let mut i: usize = 0;
    while i < t.len()
        invariant
            i <= t.len(),
            t@ == text::without_suffix(name@, ".so"@),
            r@.len() == i,
            forall|j: int| 0 <= j < i ==> r@[j] == sanitized(name@)[j],
        decreases t.len() - i,
    {
        let c: char = t[i];
        let safe: bool = ('a' <= c && c <= 'z') || ('A' <= c && c <= 'Z') || ('0' <= c && c <= '9')
            || c == '.' || c == '_' || c == '-';
        r.push(
            if safe {
                c
            } else {
                '_'
            },
        );
        i += 1;
    }
    assert(r@ =~= sanitized(name@));
    r
}

pub fn sanitize_so_name(name: &str) -> (r: String)
    ensures
        r@ == sanitized(name@),
{
    let chars = chars_of(name);
    let r = sanitize_chars(chars.as_slice());
    string_of(r.as_slice())
}

/// The fields `f` with one space between neighbors.
pub open spec fn joined(f: Seq<Seq<char>>) -> Seq<char>
    decreases f.len(),
{
    if f.len() == 0 {
        Seq::empty()
    } else if f.len() == 1 {
        f[0]
    } else {
        joined(f.drop_last()).push(' ') + f.last()
    }
}

/// The first position from `i` on that holds a dash, or the length.
pub open spec fn dash_at(s: Seq<char>, i: int) -> int
    decreases s.len() - i,
{
    if i < s.len() && s[i] != '-' {
        dash_at(s, i + 1)
    } else {
        i
    }
}

/// The mapping that a line of /proc/<pid>/maps describes: an address range in
/// hex, permissions, offset, device, inode, and the path, if any.
pub open spec fn map_line(line: Seq<char>) -> Option<Mapping> {
    let f = text::fields(line);
    if f.len() < 5 {
        None
    } else {
        let range = f[0];
        let dash = dash_at(range, 0);
        if dash >= range.len() {
            None
        } else {
            match (
                text::parsed(range.take(dash), 16, u64::MAX as int),
                text::parsed(range.skip(dash + 1), 16, u64::MAX as int),
            ) {
                (Some(start), Some(end)) => Some(
                    Mapping { start, end, perms: f[1], path: joined(f.skip(5)) },
                ),
                _ => None,
            }
        }
    }
}

/// The fields from `from` on, joined by single spaces.
fn join_fields(f: &Vec<Vec<char>>, from: usize) -> (r: Vec<char>)
    requires
        from <= f@.len(),
    ensures
        r@ == joined(text::text_views(f@).skip(from as int)),
{
    let ghost all = text::text_views(f@).skip(from as int);
    let mut r: Vec<char> = Vec::new();
    let mut i: usize = from;
    assert(all.take(0) =~= Seq::<Seq<char>>::empty());
    while i < f.len()
        invariant
            from <= i <= f@.len(),
            all == text::text_views(f@).skip(from as int),
            r@ == joined(all.take(i - from)),
        decreases f.len() - i,
    {
        let ghost k = i - from;
        assert(all.take(k + 1).drop_last() =~= all.take(k));
        assert(all.take(k + 1).last() == f@[i as int]@);
        if i > from {
            r.push(' ');
        } else {
            assert(r@ + f@[i as int]@ =~= f@[i as int]@);
        }
        push_chars(&mut r, f[i].as_slice());
        i += 1;
    }
    assert(all.take(i - from) =~= all);
    r
}

fn parse_map_chars(line: &Vec<char>) -> (r: Option<MapEntry>)
    ensures
        match r {
            Some(e) => map_line(line@) == Some(e@),
            None => map_line(line@) is None,
        },
{
    let f = split_fields(line.as_slice());
    let ghost views = text::text_views(f@);
    if f.len() < 5 {
        return None;
    }
    let range = &f[0];
    assert(range@ == views[0]);
    let mut dash: usize = 0;
    while dash < range.len() && range[dash] != '-'
        invariant
            dash <= range@.len(),
            dash_at(range@, dash as int) == dash_at(range@, 0),
        decreases range.len() - dash,
    {
        dash += 1;
    }
    if dash >= range.len() {
        return None;
    }
    let low = slice_subrange(range.as_slice(), 0, dash);
    let high = slice_subrange(range.as_slice(), dash + 1, range.len());
    assert(low@ =~= range@.take(dash as int));
    assert(high@ =~= range@.skip(dash + 1));
    let start: u64 = match parse_number(low, 16, u64::MAX) {
        Some(v) => v,
        None => {
            return None;
        },
    };
    let end: u64 = match parse_number(high, 16, u64::MAX) {
        Some(v) => v,
        None => {
            return None;
        },
    };
    assert(f@[1]@ == views[1]);
    let perms = string_of(f[1].as_slice());
    let path = join_fields(&f, 5);
    Some(MapEntry { start, end, perms, path: string_of(path.as_slice()) })
}

pub fn parse_map_line(line: &str) -> (r: Option<MapEntry>)
    ensures
        match r {
            Some(e) => map_line(line@) == Some(e@),
            None => map_line(line@) is None,
        },
{
    let chars = chars_of(line);
    parse_map_chars(&chars)
}

/// The mappings of the first `n` lines; lines that describe none are left out.
pub open spec fn map_lines(lines: Seq<Seq<char>>, n: nat) -> Seq<Mapping>
    decreases n,
{
    if n == 0 {
        Seq::empty()
    } else {
        let before = map_lines(lines, (n - 1) as nat);
        match map_line(lines[n - 1]) {
            Some(m) => before.push(m),
            None => before,
        }
    }
}

/// The mappings that the text of /proc/<pid>/maps describes.
pub open spec fn map_entries(content: Seq<char>) -> Seq<Mapping> {
    map_lines(text::lines(content), text::lines(content).len())
}

pub fn parse_map_entries(content: &str) -> (r: Vec<MapEntry>)
    ensures
        mapping_views(r@) == map_entries(content@),
{
    let chars = chars_of(content);
    let lines = split_lines(chars.as_slice());
    let ghost views = text::text_views(lines@);
    let mut r: Vec<MapEntry> = Vec::new();
    let mut i: usize = 0;
    assert(mapping_views(r@) =~= Seq::<Mapping>::empty());
    while i < lines.len()
        invariant
            i <= lines@.len(),
            views == text::text_views(lines@),
            mapping_views(r@) == map_lines(views, i as nat),
        decreases lines.len() - i,
    {
        assert(views[i as int] == lines@[i as int]@);
        let ghost before = mapping_views(r@);
        if let Some(e) = parse_map_chars(&lines[i]) {
            r.push(e);
            assert(mapping_views(r@) =~= before.push(e@));
        }
        i += 1;
    }
    r
}

/// Whether `e` belongs to a file-backed library that is to be dumped: its path
/// ends like a library's and contains the filter; without a filter, it is not on
/// a firmware partition, unless those are included.
pub open spec fn is_wanted(
    e: Mapping,
    lib_filter: Option<Seq<char>>,
    include_system: bool,
) -> bool {
    &&& e.path.len() > 0
    &&& is_so_name(e.path)
    &&& match lib_filter {
        Some(f) => text::contains(e.path, f),
        None => include_system || !on_system_partition(e.path),
    }
}

/// The first module from `from` on with this path, else the number of modules.
pub open spec fn module_at(mods: Seq<Module>, path: Seq<char>, from: int) -> int
    decreases mods.len() - from,
{
    if from >= mods.len() || mods[from].path == path {
        from
    } else {
        module_at(mods, path, from + 1)
    }
}

/// `mods` with `e` merged into the module of its path, or as a new module.
pub open spec fn merge_mapping(mods: Seq<Module>, e: Mapping) -> Seq<Module> {
    let i = module_at(mods, e.path, 0);
    if i < mods.len() {
        mods.update(
            i,
            Module {
                base: if e.start < mods[i].base {
                    e.start
                } else {
                    mods[i].base
                },
                end: if e.end > mods[i].end {
                    e.end
                } else {
                    mods[i].end
                },
                ..mods[i]
            },
        )
    } else {
        mods.push(
            Module { name: file_name(e.path), path: e.path, base: e.start, end: e.end },
        )
    }
}

/// The file-backed modules of the first `n` mappings.
pub open spec fn file_modules(
    entries: Seq<Mapping>,
    n: nat,
    lib_filter: Option<Seq<char>>,
    include_system: bool,
) -> Seq<Module>
    decreases n,
{
    if n == 0 {
        Seq::empty()
    } else {
        let before = file_modules(entries, (n - 1) as nat, lib_filter, include_system);
        if is_wanted(entries[n - 1], lib_filter, include_system) {
            merge_mapping(before, entries[n - 1])
        } else {
            before
        }
    }
}

/// The text of an optional string.
pub open spec fn option_text(s: Option<&str>) -> Option<Seq<char>> {
    match s {
        Some(t) => Some(t@),
        None => None,
    }
}

/// Whether a filter leaves out any path at all.
pub open spec fn narrows(lib_filter: Option<Seq<char>>) -> bool {
    match lib_filter {
        Some(f) => f.len() > 0,
        None => false,
    }
}

fn wanted(e: &MapEntry, lib_filter: Option<&str>, include_system: bool) -> (r: bool)
    ensures
        r == is_wanted(e@, option_text(lib_filter), include_system),
{
    let path = e.path.as_str();
    if path.is_empty() || !has_so_suffix(path) {
        return false;
    }
    match lib_filter {
        Some(filter) => {
            let p = chars_of(path);
            let f = chars_of(filter);
            is_inside(p.as_slice(), f.as_slice())
        },
        None => include_system || !is_system_lib_path(path),
    }
}

fn merge_entry(mods: &mut Vec<SoModule>, e: &MapEntry)
    ensures
        module_views(final(mods)@) == merge_mapping(module_views(old(mods)@), e@),
{
    let ghost views = module_views(mods@);
    let mut i: usize = 0;
    while i < mods.len()
        invariant
            i <= mods@.len(),
            views == module_views(mods@),
            mods@ == old(mods)@,
            module_at(views, e.path@, i as int) == module_at(views, e.path@, 0),
        decreases mods.len() - i,
    {
        assert(views[i as int] == mods@[i as int]@);
        if mods[i].path == e.path {
            if e.start < mods[i].base {
                mods[i].base = e.start;
            }
            if e.end > mods[i].end {
                mods[i].end = e.end;
            }
            assert(module_views(mods@) =~= merge_mapping(views, e@));
            return ;
        }
        i += 1;
    }
    let m = SoModule {
        name: base_name(e.path.as_str()),
        path: e.path.clone(),
        base: e.start,
        end: e.end,
    };
    mods.push(m);
    assert(module_views(mods@) =~= views.push(m@));
}

/// Whether `e` may start an anonymous image: it has no path and is readable.
pub open spec fn is_candidate(e: Mapping) -> bool {
    e.path.len() == 0 && e.perms.contains('r')
}

/// The end of the run of path-less mappings that continues, at `j`, from `end`.
pub open spec fn run_end(entries: Seq<Mapping>, j: int, end: u64) -> int
    decreases entries.len() - j,
{
    if j < entries.len() && entries[j].path.len() == 0 && entries[j].start == end {
        run_end(entries, j + 1, entries[j].end)
    } else {
        j
    }
}

pub proof fn lemma_run_end(entries: Seq<Mapping>, j: int, end: u64)
    ensures
        j <= run_end(entries, j, end),
        j <= entries.len() ==> run_end(entries, j, end) <= entries.len(),
    decreases entries.len() - j,
{
    if j < entries.len() && entries[j].path.len() == 0 && entries[j].start == end {
        lemma_run_end(entries, j + 1, entries[j].end);
    }
}

/// The run that starts at mapping `i`: the position after its last mapping.
pub open spec fn anon_run(entries: Seq<Mapping>, i: int) -> int {
    run_end(entries, i + 1, entries[i].end)
}

/// The anonymous module whose run starts at mapping `i`.
pub open spec fn anon_module(entries: Seq<Mapping>, i: int) -> Module {
    Module {
        name: "anon_"@ + text::spelled(entries[i].start as int, 16),
        path: Seq::empty(),
        base: entries[i].start,
        end: entries[anon_run(entries, i) - 1].end,
    }
}

/// Whether `mods` are anonymous modules that a scan from mapping `i` on can
/// find: each candidate for which `magic` answers yes starts a module that
/// covers its whole run, and the scan goes on after the run.
pub open spec fn anon_scan<F: Fn(u64) -> bool>(
    magic: F,
    entries: Seq<Mapping>,
    i: int,
    mods: Seq<Module>,
) -> bool
    decreases entries.len() - i,
{
    if i >= entries.len() {
        mods.len() == 0
    } else if !is_candidate(entries[i]) {
        anon_scan(magic, entries, i + 1, mods)
    } else {
        proof {
            lemma_run_end(entries, i + 1, entries[i].end);
        }
        ||| call_ensures(magic, (entries[i].start,), false) && anon_scan(
            magic,
            entries,
            i + 1,
            mods,
        )
        ||| call_ensures(magic, (entries[i].start,), true) && mods.len() > 0 && mods[0]
            == anon_module(entries, i) && anon_scan(
            magic,
            entries,
            anon_run(entries, i),
            mods.drop_first(),
        )
    }
}

fn anon_name(start: u64) -> (r: String)
    ensures
        r@ == "anon_"@ + text::spelled(start as int, 16),
{
    let mut chars = chars_of("anon_");
    push_number(&mut chars, start, 16);
    string_of(chars.as_slice())
}

fn holds_char(s: &str, c: char) -> (r: bool)
    ensures
        r == s@.contains(c),
{
    let chars = chars_of(s);
    let mut i: usize = 0;
    while i < chars.len()
        invariant
            i <= chars@.len(),
            chars@ == s@,
            forall|j: int| 0 <= j < i ==> chars@[j] != c,
        decreases chars.len() - i,
    {
        if chars[i] == c {
            return true;
        }
        i += 1;
    }
    false
}

/// Whether `magic` can be called where each candidate starts.
pub open spec fn can_probe<F: Fn(u64) -> bool>(magic: F, entries: Seq<Mapping>) -> bool {
    forall|k: int|
        0 <= k < entries.len() && is_candidate(#[trigger] entries[k]) ==> call_requires(
            magic,
            (entries[k].start,),
        )
}

/// Finds the anonymous modules among the mappings.
fn find_anon<F: Fn(u64) -> bool>(entries: &[MapEntry], elf_magic_at: &F) -> (r: Vec<SoModule>)
    requires
        can_probe(*elf_magic_at, mapping_views(entries@)),
    ensures
        anon_scan(*elf_magic_at, mapping_views(entries@), 0, module_views(r@)),
{
    let ghost views = mapping_views(entries@);
    let mut r: Vec<SoModule> = Vec::new();
    let mut i: usize = 0;
    proof {
        assert forall|rest: Seq<Module>|
            anon_scan(*elf_magic_at, views, 0, rest) implies #[trigger] anon_scan(
            *elf_magic_at,
            views,
            0,
            module_views(r@) + rest,
        ) by {
            assert(module_views(r@) + rest =~= rest);
        }
    }
    while i < entries.len()
        invariant
            i <= entries@.len(),
            entries@.len() == entries.len(),
            views == mapping_views(entries@),
            can_probe(*elf_magic_at, views),
            forall|rest: Seq<Module>|
                anon_scan(*elf_magic_at, views, i as int, rest) ==> #[trigger] anon_scan(
                    *elf_magic_at,
                    views,
                    0,
                    module_views(r@) + rest,
                ),
        decreases entries.len() - i,
    {
        let e = &entries[i];
        assert(views[i as int] == e@);
        if !e.path.as_str().is_empty() || !holds_char(e.perms.as_str(), 'r') || !elf_magic_at(
            e.start,
        ) {
            proof {
                assert forall|rest: Seq<Module>|
                    anon_scan(*elf_magic_at, views, i + 1, rest) implies #[trigger] anon_scan(
                    *elf_magic_at,
                    views,
                    0,
                    module_views(r@) + rest,
                ) by {
                    assert(anon_scan(*elf_magic_at, views, i as int, rest));
                }
            }
            i += 1;
            continue ;
        }
        let start: u64 = e.start;
        let mut end: u64 = e.end;
        let mut j: usize = i + 1;
        while j < entries.len() && entries[j].path.as_str().is_empty() && entries[j].start == end
            invariant
                i < j <= entries@.len(),
                entries@.len() == entries.len(),
                views == mapping_views(entries@),
                end == views[j - 1].end,
                run_end(views, j as int, end) == anon_run(views, i as int),
            decreases entries.len() - j,
        {
            assert(views[j as int] == entries@[j as int]@);
            end = entries[j].end;
            j += 1;
        }
        assert(j < views.len() ==> views[j as int] == entries@[j as int]@);
        assert(j == anon_run(views, i as int));
        let m = SoModule { name: anon_name(start), path: String::new(), base: start, end };
        let ghost before = module_views(r@);
        r.push(m);
        proof {
            assert(m@ == anon_module(views, i as int));
            assert(module_views(r@) =~= before.push(m@));
            assert forall|rest: Seq<Module>|
                anon_scan(*elf_magic_at, views, j as int, rest) implies #[trigger] anon_scan(
                *elf_magic_at,
                views,
                0,
                module_views(r@) + rest,
            ) by {
                let more = seq![m@] + rest;
                assert(more.drop_first() =~= rest);
                assert(anon_scan(*elf_magic_at, views, i as int, more));
                assert(before + more =~= module_views(r@) + rest);
            }
        }
        i = j;
    }
    proof {
        let none = Seq::<Module>::empty();
        assert(anon_scan(*elf_magic_at, views, i as int, none));
        assert(module_views(r@) + none =~= module_views(r@));
    }
    r
}

/// Whether `mods` are the modules of the mappings `entries`: first the file-backed
/// ones, then, when they are asked for and no filter narrows the paths, anonymous
/// ones that `magic` confirms.
pub open spec fn is_grouping_of<F: Fn(u64) -> bool>(
    magic: F,
    entries: Seq<Mapping>,
    lib_filter: Option<Seq<char>>,
    include_anon: bool,
    include_system: bool,
    mods: Seq<Module>,
) -> bool {
    let files = file_modules(entries, entries.len(), lib_filter, include_system);
    &&& files.len() <= mods.len()
    &&& mods.take(files.len() as int) == files
    &&& if include_anon && !narrows(lib_filter) {
        anon_scan(magic, entries, 0, mods.skip(files.len() as int))
    } else {
        mods.len() == files.len()
    }
}

/// Turns raw /proc/<pid>/maps entries into dumpable modules:
///   - file-backed ".so" mappings are merged by path into one [minStart,maxEnd)
///     span (the loader maps each PT_LOAD segment separately but reserves the
///     whole span contiguously)
///   - when `include_anon` is set, runs of path-less VMAs whose first mapped
///     page starts with the ELF magic are merged the same way
///
/// A non-empty `lib_filter` narrows file-backed modules to matching paths and,
/// since it can't match an anonymous region by name, implicitly disables
/// anonymous scanning. Unless `include_system` is set, file-backed libraries on
/// the firmware partitions are skipped (a `lib_filter` overrides this).
///
/// `elf_magic_at` is called at the start of readable path-less mappings only, and
/// not at all unless anonymous scanning is on.
pub fn group_so_modules<F: Fn(u64) -> bool>(
    entries: &[MapEntry],
    lib_filter: Option<&str>,
    include_anon: bool,
    include_system: bool,
    elf_magic_at: &F,
) -> (r: Vec<SoModule>)
    requires
        include_anon && !narrows(option_text(lib_filter)) ==> can_probe(
            *elf_magic_at,
            mapping_views(entries@),
        ),
    ensures
        is_grouping_of(
            *elf_magic_at,
            mapping_views(entries@),
            option_text(lib_filter),
            include_anon,
            include_system,
            module_views(r@),
        ),
{
    let ghost views = mapping_views(entries@);
    let ghost filter = option_text(lib_filter);
    let mut mods: Vec<SoModule> = Vec::new();
    let mut i: usize = 0;
    assert(module_views(mods@) =~= Seq::<Module>::empty());
    while i < entries.len()
        invariant
            i <= entries@.len(),
            views == mapping_views(entries@),
            filter == option_text(lib_filter),
            module_views(mods@) == file_modules(views, i as nat, filter, include_system),
        decreases entries.len() - i,
    {
        let e = &entries[i];
        assert(views[i as int] == e@);
        if wanted(e, lib_filter, include_system) {
            merge_entry(&mut mods, e);
        }
        i += 1;
    }
    let ghost files = module_views(mods@);
    let narrowed: bool = match lib_filter {
        Some(f) => !f.is_empty(),
        None => false,
    };
    if include_anon && !narrowed {
        let mut anon = find_anon(entries, elf_magic_at);
        let ghost found = module_views(anon@);
        mods.append(&mut anon);
        assert(module_views(mods@) =~= files + found);
        assert(module_views(mods@).skip(files.len() as int) =~= found);
    }
    assert(module_views(mods@).take(files.len() as int) =~= files);
    mods
}

/// The dumpable modules of a process with this /proc/<pid>/maps text.
pub fn scan_so_modules<F: Fn(u64) -> bool>(
    content: &str,
    lib_filter: Option<&str>,
    include_anon: bool,
    include_system: bool,
    elf_magic_at: &F,
) -> (r: Vec<SoModule>)
    requires
        include_anon && !narrows(option_text(lib_filter)) ==> can_probe(
            *elf_magic_at,
            map_entries(content@),
        ),
    ensures
        is_grouping_of(
            *elf_magic_at,
            map_entries(content@),
            option_text(lib_filter),
            include_anon,
            include_system,
            module_views(r@),
        ),
{
    let entries = parse_map_entries(content);
    group_so_modules(entries.as_slice(), lib_filter, include_anon, include_system, elf_magic_at)
}

pub proof fn lemma_module_at(mods: Seq<Module>, path: Seq<char>, from: int)
    requires
        0 <= from <= mods.len(),
    ensures
        ({
            let i = module_at(mods, path, from);
            &&& from <= i <= mods.len()
            &&& i < mods.len() ==> mods[i].path == path
            &&& forall|j: int| from <= j < i ==> (#[trigger] mods[j]).path != path
        }),
    decreases mods.len() - from,
{
    if from < mods.len() && mods[from].path != path {
        lemma_module_at(mods, path, from + 1);
    }
}

/// Whether no two modules have the same path.
pub open spec fn have_distinct_paths(mods: Seq<Module>) -> bool {
    forall|i: int, j: int|
        0 <= i < j < mods.len() ==> (#[trigger] mods[i]).path != (#[trigger] mods[j]).path
}

/// Every path makes one module.
pub proof fn law_one_module_for_each_path(
    entries: Seq<Mapping>,
    n: nat,
    lib_filter: Option<Seq<char>>,
    include_system: bool,
)
    ensures
        have_distinct_paths(file_modules(entries, n, lib_filter, include_system)),
    decreases n,
{
    if n > 0 {
        let before = file_modules(entries, (n - 1) as nat, lib_filter, include_system);
        law_one_module_for_each_path(entries, (n - 1) as nat, lib_filter, include_system);
        lemma_module_at(before, entries[n - 1].path, 0);
    }
}

/// Whether module `m` has the path of mapping `e` and spans it.
pub open spec fn spans(m: Module, e: Mapping) -> bool {
    m.path == e.path && m.base <= e.start && e.end <= m.end
}

/// Every mapping that is to be dumped lies inside the module of its path.
pub proof fn law_wanted_mapping_is_spanned(
    entries: Seq<Mapping>,
    n: nat,
    lib_filter: Option<Seq<char>>,
    include_system: bool,
    k: int,
)
    requires
        0 <= k < n <= entries.len(),
        is_wanted(entries[k], lib_filter, include_system),
    ensures
        exists|i: int|
            0 <= i < file_modules(entries, n, lib_filter, include_system).len() && spans(
                #[trigger] file_modules(entries, n, lib_filter, include_system)[i],
                entries[k],
            ),
    decreases n,
{
    let before = file_modules(entries, (n - 1) as nat, lib_filter, include_system);
    let after = file_modules(entries, n, lib_filter, include_system);
    let e = entries[n - 1];
    lemma_module_at(before, e.path, 0);
    if k == n - 1 {
        assert(spans(after[module_at(before, e.path, 0)], e));
    } else {
        law_wanted_mapping_is_spanned(entries, (n - 1) as nat, lib_filter, include_system, k);
        let i = choose|i: int| 0 <= i < before.len() && spans(#[trigger] before[i], entries[k]);
        assert(spans(after[i], entries[k]));
    }
}

/// Whether mapping `k` of the first `n` is to be dumped as a part of module `m`.
pub open spec fn is_part(
    entries: Seq<Mapping>,
    n: nat,
    lib_filter: Option<Seq<char>>,
    include_system: bool,
    m: Module,
    k: int,
) -> bool {
    0 <= k < n && is_wanted(entries[k], lib_filter, include_system) && entries[k].path == m.path
}

/// A module reaches no further than its mappings: it starts with one of them and
/// ends with one of them. It is named after its file.
pub proof fn law_module_is_tight(
    entries: Seq<Mapping>,
    n: nat,
    lib_filter: Option<Seq<char>>,
    include_system: bool,
    i: int,
)
    requires
        n <= entries.len(),
        0 <= i < file_modules(entries, n, lib_filter, include_system).len(),
    ensures
        ({
            let m = file_modules(entries, n, lib_filter, include_system)[i];
            &&& m.name == file_name(m.path)
            &&& exists|a: int| #[trigger]
                is_part(entries, n, lib_filter, include_system, m, a) && entries[a].start == m.base
            &&& exists|b: int| #[trigger]
                is_part(entries, n, lib_filter, include_system, m, b) && entries[b].end == m.end
        }),
    decreases n,
{
    let p = (n - 1) as nat;
    let before = file_modules(entries, p, lib_filter, include_system);
    let after = file_modules(entries, n, lib_filter, include_system);
    let e = entries[n - 1];
    let m = after[i];
    lemma_module_at(before, e.path, 0);
    let at = module_at(before, e.path, 0);
    if i < before.len() {
        law_module_is_tight(entries, p, lib_filter, include_system, i);
        let old_m = before[i];
        let a = choose|a: int| #[trigger]
            is_part(entries, p, lib_filter, include_system, old_m, a) && entries[a].start
                == old_m.base;
        let b = choose|b: int| #[trigger]
            is_part(entries, p, lib_filter, include_system, old_m, b) && entries[b].end
                == old_m.end;
        assert(is_part(entries, n, lib_filter, include_system, m, a));
        assert(is_part(entries, n, lib_filter, include_system, m, b));
    }
    if is_wanted(e, lib_filter, include_system) && i == at {
        assert(is_part(entries, n, lib_filter, include_system, m, n - 1));
    }
}

/// The anonymous modules from mapping `i` on, when `magic` tells which addresses
/// hold the ELF magic.
pub open spec fn anon_modules(
    magic: spec_fn(u64) -> bool,
    entries: Seq<Mapping>,
    i: int,
) -> Seq<Module>
    decreases entries.len() - i,
{
    if i >= entries.len() {
        Seq::empty()
    } else if is_candidate(entries[i]) && magic(entries[i].start) {
        proof {
            lemma_run_end(entries, i + 1, entries[i].end);
        }
        seq![anon_module(entries, i)] + anon_modules(magic, entries, anon_run(entries, i))
    } else {
        anon_modules(magic, entries, i + 1)
    }
}

/// A probe whose answer depends on the address alone finds one list of anonymous
/// modules.
pub proof fn law_anonymous_scan_is_determined<F: Fn(u64) -> bool>(
    probe: F,
    magic: spec_fn(u64) -> bool,
    entries: Seq<Mapping>,
    i: int,
    mods: Seq<Module>,
)
    requires
        forall|a: u64, r: bool| #[trigger] call_ensures(probe, (a,), r) ==> r == magic(a),
        anon_scan(probe, entries, i, mods),
    ensures
        mods == anon_modules(magic, entries, i),
    decreases entries.len() - i,
{
    if i < entries.len() {
        if !is_candidate(entries[i]) {
            law_anonymous_scan_is_determined(probe, magic, entries, i + 1, mods);
        } else {
            lemma_run_end(entries, i + 1, entries[i].end);
            if magic(entries[i].start) {
                let rest = mods.drop_first();
                law_anonymous_scan_is_determined(
                    probe,
                    magic,
                    entries,
                    anon_run(entries, i),
                    rest,
                );
                assert(seq![mods[0]] + rest =~= mods);
            } else {
                law_anonymous_scan_is_determined(probe, magic, entries, i + 1, mods);
            }
        }
    }
}

/// Every file-backed module has a path, which contains the filter if there is one.
pub proof fn lemma_file_paths(
    entries: Seq<Mapping>,
    lib_filter: Option<Seq<char>>,
    include_system: bool,
)
    ensures
        ({
            let files = file_modules(entries, entries.len(), lib_filter, include_system);
            forall|i: int|
                0 <= i < files.len() ==> (#[trigger] files[i]).path.len() > 0 && (
                lib_filter matches Some(f) ==> text::contains(files[i].path, f))
        }),
{
    let n = entries.len();
    let files = file_modules(entries, n, lib_filter, include_system);
    assert forall|i: int| 0 <= i < files.len() implies (#[trigger] files[i]).path.len() > 0 && (
    lib_filter matches Some(f) ==> text::contains(files[i].path, f)) by {
        law_module_is_tight(entries, n, lib_filter, include_system, i);
        let a = choose|a: int| #[trigger]
            is_part(entries, n, lib_filter, include_system, files[i], a) && entries[a].start
                == files[i].base;
        assert(is_wanted(entries[a], lib_filter, include_system));
    }
}

/// A filter takes libraries of the firmware partitions as any other.
proof fn lemma_filter_overrides_system(entries: Seq<Mapping>, n: nat, filter: Seq<char>)
    ensures
        file_modules(entries, n, Some(filter), true) == file_modules(
            entries,
            n,
            Some(filter),
            false,
        ),
    decreases n,
{
    if n > 0 {
        lemma_filter_overrides_system(entries, (n - 1) as nat, filter);
    }
}

/// Under a non-empty filter the modules are the same whatever else is asked for
/// and whatever the probe says, and each has a path that contains the filter.
pub proof fn law_filter_decides_alone<F: Fn(u64) -> bool, G: Fn(u64) -> bool>(
    entries: Seq<Mapping>,
    filter: Seq<char>,
    magic: F,
    include_anon: bool,
    include_system: bool,
    mods: Seq<Module>,
    other_magic: G,
    other_anon: bool,
    other_system: bool,
    other_mods: Seq<Module>,
)
    requires
        filter.len() > 0,
        is_grouping_of(magic, entries, Some(filter), include_anon, include_system, mods),
        is_grouping_of(other_magic, entries, Some(filter), other_anon, other_system, other_mods),
    ensures
        mods == other_mods,
        forall|i: int|
            0 <= i < mods.len() ==> (#[trigger] mods[i]).path.len() > 0 && text::contains(
                mods[i].path,
                filter,
            ),
{
    let n = entries.len();
    lemma_filter_overrides_system(entries, n, filter);
    lemma_file_paths(entries, Some(filter), include_system);
    let files = file_modules(entries, n, Some(filter), include_system);
    assert(files == file_modules(entries, n, Some(filter), other_system));
    assert(mods.take(files.len() as int) =~= mods);
    assert(other_mods.take(files.len() as int) =~= other_mods);
}

pub proof fn lemma_anonymous_paths<F: Fn(u64) -> bool>(
    magic: F,
    entries: Seq<Mapping>,
    i: int,
    mods: Seq<Module>,
)
    requires
        anon_scan(magic, entries, i, mods),
    ensures
        forall|k: int| 0 <= k < mods.len() ==> (#[trigger] mods[k]).path.len() == 0,
    decreases entries.len() - i,
{
    if i < entries.len() {
        let rest = mods.drop_first();
        if !is_candidate(entries[i]) || anon_scan(magic, entries, i + 1, mods) {
            lemma_anonymous_paths(magic, entries, i + 1, mods);
        } else {
            lemma_run_end(entries, i + 1, entries[i].end);
            lemma_anonymous_paths(magic, entries, anon_run(entries, i), rest);
            assert forall|k: int| 0 <= k < mods.len() implies (#[trigger] mods[k]).path.len()
                == 0 by {
                if k > 0 {
                    assert(mods[k] == rest[k - 1]);
                }
            }
        }
    }
}

/// Asking for anonymous images adds modules behind the others, none of which has
/// a path.
pub proof fn law_anonymous_modules_follow<F: Fn(u64) -> bool, G: Fn(u64) -> bool>(
    entries: Seq<Mapping>,
    lib_filter: Option<Seq<char>>,
    include_system: bool,
    magic: F,
    without: Seq<Module>,
    other_magic: G,
    with_anon: Seq<Module>,
)
    requires
        is_grouping_of(magic, entries, lib_filter, false, include_system, without),
        is_grouping_of(other_magic, entries, lib_filter, true, include_system, with_anon),
    ensures
        without.len() <= with_anon.len(),
        with_anon.take(without.len() as int) == without,
        forall|i: int| 0 <= i < without.len() ==> (#[trigger] without[i]).path.len() > 0,
        forall|i: int|
            without.len() <= i < with_anon.len() ==> (#[trigger] with_anon[i]).path.len() == 0,
{
    lemma_file_paths(entries, lib_filter, include_system);
    assert(without.take(without.len() as int) =~= without);
    if !narrows(lib_filter) {
        let found = with_anon.skip(without.len() as int);
        lemma_anonymous_paths(other_magic, entries, 0, found);
        assert forall|i: int| without.len() <= i < with_anon.len() implies (
        #[trigger] with_anon[i]).path.len() == 0 by {
            assert(with_anon[i] == found[i - without.len()]);
        }
    }
}

/// The modules without a path.
pub open spec fn pathless(mods: Seq<Module>) -> Seq<Module> {
    mods.filter(|m: Module| m.path.len() == 0)
}

pub proof fn lemma_filter_all<A>(s: Seq<A>, p: spec_fn(A) -> bool)
    ensures
        (forall|i: int| 0 <= i < s.len() ==> p(#[trigger] s[i])) ==> s.filter(p) == s,
        (forall|i: int| 0 <= i < s.len() ==> !p(#[trigger] s[i])) ==> s.filter(p).len() == 0,
    decreases s.len(),
{
    reveal(Seq::filter);
    if s.len() > 0 {
        let t = s.drop_last();
        lemma_filter_all(t, p);
        assert(forall|i: int| 0 <= i < t.len() ==> t[i] == s[i]);
        assert(s.last() == s[s.len() - 1]);
        assert(t.push(s.last()) =~= s);
    } else {
        assert(s.filter(p) =~= s);
    }
}

/// The anonymous modules are those that the mappings and the probe give, whatever
/// file-backed libraries are asked for beside them.
pub proof fn law_anonymous_modules_stand_alone<F: Fn(u64) -> bool>(
    probe: F,
    magic: spec_fn(u64) -> bool,
    entries: Seq<Mapping>,
    lib_filter: Option<Seq<char>>,
    include_system: bool,
    mods: Seq<Module>,
)
    requires
        !narrows(lib_filter),
        forall|a: u64, r: bool| #[trigger] call_ensures(probe, (a,), r) ==> r == magic(a),
        is_grouping_of(probe, entries, lib_filter, true, include_system, mods),
    ensures
        pathless(mods) == anon_modules(magic, entries, 0),
{
    let files = file_modules(entries, entries.len(), lib_filter, include_system);
    let found = mods.skip(files.len() as int);
    let p = |m: Module| m.path.len() == 0;
    law_anonymous_scan_is_determined(probe, magic, entries, 0, found);
    lemma_file_paths(entries, lib_filter, include_system);
    lemma_anonymous_paths(probe, entries, 0, found);
    assert(mods =~= files + found);
    Seq::filter_distributes_over_add(files, found, p);
    lemma_filter_all(files, p);
    lemma_filter_all(found, p);
    assert(files.filter(p) + found.filter(p) =~= found);
}

/// A sanitized name holds safe characters only.
pub proof fn law_sanitized_is_safe(name: Seq<char>)
    ensures
        forall|i: int|
            0 <= i < sanitized(name).len() ==> is_safe_char(#[trigger] sanitized(name)[i]),
{
}

/// Sanitizing keeps a name of safe characters that has no ".so" suffix, and of
/// one that has the suffix what stands in front of it.
pub proof fn law_sanitize_keeps_safe_names(stem: Seq<char>)
    requires
        forall|i: int| 0 <= i < stem.len() ==> is_safe_char(#[trigger] stem[i]),
    ensures
        !text::ends_with(stem, ".so"@) ==> sanitized(stem) == stem,
        sanitized(stem + ".so"@) == stem,
{
    let name = stem + ".so"@;
    reveal_strlit(".so");
    assert(name.subrange(stem.len() as int, name.len() as int) =~= ".so"@);
    assert(name.take(stem.len() as int) =~= stem);
    assert(sanitized(name) =~= stem);
    if !text::ends_with(stem, ".so"@) {
        assert(sanitized(stem) =~= stem);
    }
}

pub proof fn lemma_dash_at(s: Seq<char>, i: int, d: int)
    requires
        0 <= i <= d < s.len(),
        s[d] == '-',
        forall|k: int| i <= k < d ==> #[trigger] s[k] != '-',
    ensures
        dash_at(s, i) == d,
    decreases d - i,
{
    if i < d {
        lemma_dash_at(s, i + 1, d);
    }
}

/// A line whose fields are an address range in hex, permissions, three more
/// fields and those of a path describes the mapping of that range, with the
/// fields of the path joined by single spaces.
pub proof fn law_map_line_reads_back(line: Seq<char>, start: u64, end: u64)
    requires
        text::fields(line).len() >= 5,
        text::fields(line)[0] == text::spelled(start as int, 16) + "-"@ + text::spelled(
            end as int,
            16,
        ),
    ensures
        map_line(line) == Some(
            Mapping {
                start,
                end,
                perms: text::fields(line)[1],
                path: joined(text::fields(line).skip(5)),
            },
        ),
{
    let low = text::spelled(start as int, 16);
    let high = text::spelled(end as int, 16);
    let range = low + "-"@ + high;
    reveal_strlit("-");
    text::law_number_spelled(start as int, 16);
    assert forall|k: int| 0 <= k < low.len() implies #[trigger] range[k] != '-' by {
        assert(range[k] == low[k]);
        assert(text::digit(low[k]) < 16);
    }
    assert(range[low.len() as int] == '-');
    lemma_dash_at(range, 0, low.len() as int);
    assert(range.take(low.len() as int) =~= low);
    assert(range.skip(low.len() as int + 1) =~= high);
    text::law_parse_spelled(start as int, 16, u64::MAX as int);
    text::law_parse_spelled(end as int, 16, u64::MAX as int);
}

proof fn lemma_run_members(entries: Seq<Mapping>, j: int, end: u64)
    requires
        1 <= j <= entries.len(),
        entries[j - 1].end == end,
    ensures
        ({
            let r = run_end(entries, j, end);
            &&& j <= r <= entries.len()
            &&& forall|k: int|
                j <= k < r ==> (#[trigger] entries[k]).path.len() == 0 && entries[k].start
                    == entries[k - 1].end
            &&& r < entries.len() ==> entries[r].path.len() > 0 || entries[r].start
                != entries[r - 1].end
        }),
    decreases entries.len() - j,
{
    if j < entries.len() && entries[j].path.len() == 0 && entries[j].start == end {
        lemma_run_members(entries, j + 1, entries[j].end);
    }
}

/// The run of an anonymous module consists of path-less mappings that adjoin each
/// other, and goes on as far as they do.
pub proof fn law_anonymous_run_is_contiguous(entries: Seq<Mapping>, i: int)
    requires
        0 <= i < entries.len(),
    ensures
        ({
            let r = anon_run(entries, i);
            &&& i < r <= entries.len()
            &&& forall|k: int|
                i < k < r ==> (#[trigger] entries[k]).path.len() == 0 && entries[k].start
                    == entries[k - 1].end
            &&& r < entries.len() ==> entries[r].path.len() > 0 || entries[r].start
                != entries[r - 1].end
        }),
{
    lemma_run_members(entries, i + 1, entries[i].end);
}

} // verus!
