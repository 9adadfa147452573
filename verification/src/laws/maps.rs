//! Libraries in a memory map: which mappings make a module, and what it spans.
use crate::laws::wording;
use crate::so;
use crate::so::{Mapping, Module};
use crate::text;
use vstd::prelude::*;

verus! {

/// Whether a text consists of decimal digits, at least one.
pub open spec fn is_decimal(d: Seq<char>) -> bool {
    d.len() > 0 && forall|i: int| 0 <= i < d.len() ==> 0x30 <= (#[trigger] d[i]) as int <= 0x39
}

/// A name that ends in ".so" is a library name, and a version behind a dot makes no
/// difference.
pub proof fn law_library_names(s: Seq<char>, d: Seq<char>)
    ensures
        so::is_so_name(s + ".so"@),
        is_decimal(d) ==> so::is_so_name(s + seq!['.'] + d) == so::is_so_name(s),
{
    wording::law_suffix(s, ".so"@);
    assert(so::so_tail(s + ".so"@, 0));
    if is_decimal(d) {
        let t = s + seq!['.'] + d;
        let k = s.len() as int;
        assert forall|j: int| k < j < t.len() implies '0' <= #[trigger] t[j] <= '9' by {
            assert(t[j] == d[j - k - 1]);
        }
        assert(so::version_group(t, k));
        so::lemma_version_group(t, k);
        assert(t.take(k) =~= s);
    }
}

/// Nothing else is a library name: it ends in ".so", or in a dot and decimal digits
/// behind a library name.
pub proof fn law_no_other_library_names(s: Seq<char>)
    requires
        so::is_so_name(s),
    ensures
        s.len() >= 3,
        s.skip(s.len() - 3) == ".so"@ || exists|k: int| #[trigger]
            is_decimal(s.skip(k + 1)) && 0 <= k < s.len() && s[k] == '.' && so::is_so_name(
                s.take(k),
            ),
    decreases s.len(),
{
    reveal_strlit(".so");
    if exists|k: int| so::version_group(s, k) {
        let k = choose|k: int| so::version_group(s, k);
        so::lemma_version_group(s, k);
        law_no_other_library_names(s.take(k));
        let d = s.skip(k + 1);
        assert forall|i: int| 0 <= i < d.len() implies 0x30 <= (#[trigger] d[i]) as int <= 0x39 by {
            assert(d[i] == s[k + 1 + i]);
        }
        assert(is_decimal(d));
    } else {
        so::lemma_no_version_group(s);
        assert(s.skip(s.len() - 3) =~= s.subrange(s.len() - 3, s.len() as int));
    }
}

/// The roots of the firmware partitions.
pub open spec fn partitions() -> Seq<Seq<char>> {
    seq!["/system/"@, "/apex/"@, "/vendor/"@, "/system_ext/"@, "/product/"@, "/odm/"@]
}

/// A path lies on a firmware partition when it leads there from one of the roots.
pub proof fn law_firmware_paths(path: Seq<char>, i: int, rest: Seq<char>)
    ensures
        0 <= i < 6 ==> so::on_system_partition(partitions()[i] + rest),
        so::on_system_partition(path) ==> exists|k: int|
            0 <= k < 6 && (#[trigger] partitions()[k]).len() <= path.len() && path.take(
                partitions()[k].len() as int,
            ) == partitions()[k],
{
    if 0 <= i < 6 {
        wording::law_prefix(rest, partitions()[i]);
    }
    if so::on_system_partition(path) {
        let roots = partitions();
        assert forall|k: int| 0 <= k < 6 && text::starts_with(path, #[trigger] roots[k]) implies
            roots[k].len() <= path.len() && path.take(roots[k].len() as int) == roots[k] by {
            assert(path.subrange(0, roots[k].len() as int) =~= path.take(roots[k].len() as int));
        }
        assert(roots[0] == "/system/"@ && roots[1] == "/apex/"@ && roots[2] == "/vendor/"@);
        assert(roots[3] == "/system_ext/"@ && roots[4] == "/product/"@ && roots[5] == "/odm/"@);
    }
}

/// A file is called by what follows the last slash of its path.
pub proof fn law_file_names(dir: Seq<char>, name: Seq<char>)
    requires
        !name.contains('/'),
    ensures
        so::file_name(dir + seq!['/'] + name) == name,
        so::file_name(name) == name,
{
    lemma_name_start(dir + seq!['/'], name);
    lemma_name_start(Seq::empty(), name);
    let front = dir + seq!['/'];
    assert(front.last() == '/');
    assert((front + name).skip(front.len() as int) =~= name);
    assert(Seq::<char>::empty() + name =~= name);
    assert(name.skip(0) =~= name);
}

proof fn lemma_name_start(front: Seq<char>, name: Seq<char>)
    requires
        !name.contains('/'),
        front.len() == 0 || front.last() == '/',
    ensures
        so::name_start(front + name) == front.len(),
    decreases name.len(),
{
    if name.len() == 0 {
        assert(front + name =~= front);
    } else {
        let t = name.drop_last();
        assert(name.contains(name.last()));
        assert((front + name).last() == name.last());
        assert((front + name).drop_last() =~= front + t);
        assert forall|i: int| 0 <= i < t.len() implies t[i] != '/' by {
            assert(name[i] == t[i]);
            assert(name.contains(name[i]));
        }
        lemma_name_start(front, t);
    }
}

/// What a file name keeps of a character: letters, digits, '.', '_' and '-' as they
/// are, and '_' in place of any other.
pub open spec fn kept(c: char) -> char {
    let n = c as int;
    if 0x61 <= n <= 0x7a || 0x41 <= n <= 0x5a || 0x30 <= n <= 0x39 || c == '.' || c == '_' || c
        == '-' {
        c
    } else {
        '_'
    }
}

/// Sanitizing drops one ".so" from the end of a name, and then keeps of each
/// character what a file name can hold.
pub proof fn law_sanitized_names(stem: Seq<char>)
    ensures
        so::sanitized(stem + ".so"@) == stem.map_values(|c: char| kept(c)),
        (forall|t: Seq<char>| #[trigger] (t + ".so"@) != stem) ==> so::sanitized(stem)
            == stem.map_values(|c: char| kept(c)),
{
    wording::law_suffix_is_taken_off(stem, ".so"@);
    assert(so::sanitized(stem + ".so"@) =~= stem.map_values(|c: char| kept(c)));
    if forall|t: Seq<char>| #[trigger] (t + ".so"@) != stem {
        assert(so::sanitized(stem) =~= stem.map_values(|c: char| kept(c)));
    }
}

/// The words of a path are joined by single spaces.
pub proof fn law_words_are_joined(words: Seq<Seq<char>>, w: Seq<char>)
    ensures
        so::joined(Seq::<Seq<char>>::empty()).len() == 0,
        so::joined(seq![w]) == w,
        words.len() > 0 ==> so::joined(words.push(w)) == so::joined(words) + seq![' '] + w,
{
    if words.len() > 0 {
        let all = words.push(w);
        assert(all.drop_last() =~= words);
        assert(so::joined(words).push(' ') + w =~= so::joined(words) + seq![' '] + w);
    }
}

/// A line of a memory map, as the kernel writes it.
pub open spec fn line_of(
    start: u64,
    end: u64,
    perms: Seq<char>,
    offset: Seq<char>,
    device: Seq<char>,
    inode: Seq<char>,
    rest: Seq<char>,
) -> Seq<char> {
    let range = text::spelled(start as int, 16) + seq!['-'] + text::spelled(end as int, 16);
    range + seq![' '] + (perms + seq![' '] + (offset + seq![' '] + (device + seq![' '] + (inode
        + seq![' '] + rest))))
}

/// A line of a memory map tells its range, its permissions, and the path that
/// follows the inode, if any.
pub proof fn law_map_lines_are_read(
    start: u64,
    end: u64,
    perms: Seq<char>,
    offset: Seq<char>,
    device: Seq<char>,
    inode: Seq<char>,
    rest: Seq<char>,
)
    requires
        wording::is_word(perms),
        wording::is_word(offset),
        wording::is_word(device),
        wording::is_word(inode),
    ensures
        so::map_line(line_of(start, end, perms, offset, device, inode, rest)) == Some(
            Mapping { start, end, perms, path: so::joined(text::fields(rest)) },
        ),
{
    let low = text::spelled(start as int, 16);
    let high = text::spelled(end as int, 16);
    let range = low + seq!['-'] + high;
    text::law_number_spelled(start as int, 16);
    text::law_number_spelled(end as int, 16);
    assert forall|k: int| 0 <= k < range.len() implies !text::is_white(#[trigger] range[k]) by {
        if k < low.len() {
            assert(range[k] == low[k]);
            assert(text::digit(low[k]) < 16);
        } else if k > low.len() {
            assert(range[k] == high[k - low.len() - 1]);
            assert(text::digit(high[k - low.len() - 1]) < 16);
        }
    }
    let e = inode + seq![' '] + rest;
    let d = device + seq![' '] + e;
    let c = offset + seq![' '] + d;
    let b = perms + seq![' '] + c;
    wording::law_word_is_a_field(range);
    wording::law_word_is_a_field(perms);
    wording::law_word_is_a_field(offset);
    wording::law_word_is_a_field(device);
    wording::law_word_is_a_field(inode);
    wording::law_white_space_parts_fields(inode, ' ', rest);
    wording::law_white_space_parts_fields(device, ' ', e);
    wording::law_white_space_parts_fields(offset, ' ', d);
    wording::law_white_space_parts_fields(perms, ' ', c);
    wording::law_white_space_parts_fields(range, ' ', b);
    let line = line_of(start, end, perms, offset, device, inode, rest);
    let f = text::fields(line);
    let tail = text::fields(rest);
    assert(f =~= seq![range, perms, offset, device, inode] + tail);
    assert(f.skip(5) =~= tail);
    reveal_strlit("-");
    assert("-"@ =~= seq!['-']);
    so::law_map_line_reads_back(line, start, end);
}

/// A line that has no range of hex numbers, or too few fields, tells of no mapping.
pub proof fn law_other_lines_map_nothing(line: Seq<char>, low: Seq<char>, high: Seq<char>)
    ensures
        ({
            let f = text::fields(line);
            &&& f.len() < 5 ==> so::map_line(line) is None
            &&& f.len() >= 5 && !f[0].contains('-') ==> so::map_line(line) is None
            &&& f.len() >= 5 && f[0] == low + seq!['-'] + high && !low.contains('-') && (
            text::parsed(low, 16, u64::MAX as int) is None || text::parsed(
                high,
                16,
                u64::MAX as int,
            ) is None) ==> so::map_line(line) is None
        }),
{
    let f = text::fields(line);
    if f.len() >= 5 {
        if !f[0].contains('-') {
            lemma_no_dash(f[0], 0);
        }
        if f[0] == low + seq!['-'] + high && !low.contains('-') {
            assert forall|k: int| 0 <= k < low.len() implies #[trigger] f[0][k] != '-' by {
                assert(f[0][k] == low[k]);
                assert(low.contains(low[k]));
            }
            so::lemma_dash_at(f[0], 0, low.len() as int);
            assert(f[0].take(low.len() as int) =~= low);
            assert(f[0].skip(low.len() as int + 1) =~= high);
        }
    }
}

proof fn lemma_no_dash(s: Seq<char>, i: int)
    requires
        !s.contains('-'),
        0 <= i <= s.len(),
    ensures
        so::dash_at(s, i) == s.len(),
    decreases s.len() - i,
{
    if i < s.len() {
        assert(s.contains(s[i]));
        lemma_no_dash(s, i + 1);
    }
}

/// The mapping of a line, if it tells of one.
pub open spec fn mapping_in(line: Seq<char>) -> Seq<Mapping> {
    match so::map_line(line) {
        Some(m) => seq![m],
        None => Seq::empty(),
    }
}

/// The mappings of a memory map are those of its lines, in order.
pub proof fn law_maps_are_read_line_by_line(line: Seq<char>, rest: Seq<char>)
    requires
        !line.contains('\n'),
    ensures
        so::map_entries(line + seq!['\n'] + rest) == mapping_in(
            if line.len() > 0 && line.last() == '\r' {
                line.drop_last()
            } else {
                line
            },
        ) + so::map_entries(rest),
        so::map_entries(Seq::<char>::empty()).len() == 0,
        line.len() > 0 ==> so::map_entries(line) == mapping_in(line),
{
    wording::law_line_feed_parts_lines(line, rest);
    wording::law_line_feed_parts_lines(Seq::empty(), rest);
    let first = if line.len() > 0 && line.last() == '\r' {
        line.drop_last()
    } else {
        line
    };
    let tail = text::lines(rest);
    lemma_map_lines(first, tail, tail.len());
    if line.len() > 0 {
        lemma_map_lines(line, Seq::empty(), 0);
        assert(seq![line] + Seq::<Seq<char>>::empty() =~= seq![line]);
        assert(mapping_in(line) + Seq::<Mapping>::empty() =~= mapping_in(line));
    }
}

proof fn lemma_map_lines(first: Seq<char>, tail: Seq<Seq<char>>, n: nat)
    requires
        n <= tail.len(),
    ensures
        so::map_lines(seq![first] + tail, n + 1) == mapping_in(first) + so::map_lines(tail, n),
    decreases n,
{
    let all = seq![first] + tail;
    if n == 0 {
        assert(all[0] == first);
        assert(so::map_lines(all, 0) =~= Seq::<Mapping>::empty());
        assert(so::map_lines(all, 1) =~= mapping_in(first) + so::map_lines(tail, 0));
    } else {
        lemma_map_lines(first, tail, (n - 1) as nat);
        assert(all[n as int] == tail[n - 1]);
        assert(so::map_lines(all, n + 1) =~= mapping_in(first) + so::map_lines(tail, n));
    }
}

/// Whether some module of `mods` has the path of mapping `e` and spans it.
pub open spec fn is_spanned(mods: Seq<Module>, e: Mapping) -> bool {
    exists|i: int|
        0 <= i < mods.len() && (#[trigger] mods[i]).path == e.path && mods[i].base <= e.start
            && e.end <= mods[i].end
}

proof fn lemma_wanted_is_spanned<F: Fn(u64) -> bool>(
    magic: F,
    entries: Seq<Mapping>,
    lib_filter: Option<Seq<char>>,
    include_anon: bool,
    include_system: bool,
    mods: Seq<Module>,
    k: int,
)
    requires
        so::is_grouping_of(magic, entries, lib_filter, include_anon, include_system, mods),
        0 <= k < entries.len(),
        so::is_wanted(entries[k], lib_filter, include_system),
    ensures
        is_spanned(mods, entries[k]),
{
    let n = entries.len();
    let files = so::file_modules(entries, n, lib_filter, include_system);
    so::law_wanted_mapping_is_spanned(entries, n, lib_filter, include_system, k);
    let i = choose|i: int| 0 <= i < files.len() && so::spans(#[trigger] files[i], entries[k]);
    assert(mods.take(files.len() as int)[i] == mods[i]);
    assert(mods[i].path == entries[k].path);
}

/// With a filter, every library whose path contains the filter, anywhere, is among
/// the modules, which span all of its mappings. It does not matter where it lies.
pub proof fn law_matching_library_is_dumped<F: Fn(u64) -> bool>(
    magic: F,
    entries: Seq<Mapping>,
    filter: Seq<char>,
    include_anon: bool,
    include_system: bool,
    mods: Seq<Module>,
    k: int,
    before: Seq<char>,
    after: Seq<char>,
)
    requires
        so::is_grouping_of(magic, entries, Some(filter), include_anon, include_system, mods),
        0 <= k < entries.len(),
        so::is_so_name(entries[k].path),
        entries[k].path == before + filter + after,
    ensures
        is_spanned(mods, entries[k]),
{
    law_no_other_library_names(entries[k].path);
    wording::law_inside(before, filter, after);
    lemma_wanted_is_spanned(
        magic,
        entries,
        Some(filter),
        include_anon,
        include_system,
        mods,
        k,
    );
}

/// Without a filter, every library is among the modules, unless it lies on a
/// firmware partition and those are left out.
pub proof fn law_library_is_dumped<F: Fn(u64) -> bool>(
    magic: F,
    entries: Seq<Mapping>,
    include_anon: bool,
    include_system: bool,
    mods: Seq<Module>,
    k: int,
)
    requires
        so::is_grouping_of(magic, entries, None, include_anon, include_system, mods),
        0 <= k < entries.len(),
        so::is_so_name(entries[k].path),
        include_system || !so::on_system_partition(entries[k].path),
    ensures
        is_spanned(mods, entries[k]),
{
    law_no_other_library_names(entries[k].path);
    lemma_wanted_is_spanned(magic, entries, None, include_anon, include_system, mods, k);
}

/// Whether the mappings `entries` hold one at `k` with this path.
pub open spec fn maps_path(entries: Seq<Mapping>, path: Seq<char>, k: int) -> bool {
    0 <= k < entries.len() && entries[k].path == path
}

proof fn lemma_module_parts<F: Fn(u64) -> bool>(
    magic: F,
    entries: Seq<Mapping>,
    lib_filter: Option<Seq<char>>,
    include_anon: bool,
    include_system: bool,
    mods: Seq<Module>,
    i: int,
)
    requires
        so::is_grouping_of(magic, entries, lib_filter, include_anon, include_system, mods),
        0 <= i < mods.len(),
        mods[i].path.len() > 0,
    ensures
        ({
            let files = so::file_modules(entries, entries.len(), lib_filter, include_system);
            i < files.len() && mods[i] == files[i]
        }),
{
    let files = so::file_modules(entries, entries.len(), lib_filter, include_system);
    let n = files.len() as int;
    if i >= n {
        let found = mods.skip(n);
        so::lemma_anonymous_paths(magic, entries, 0, found);
        assert(found[i - n] == mods[i]);
    } else {
        assert(mods.take(n)[i] == mods[i]);
    }
}

/// A module that has a path is a library of the map, and one that was asked for: its
/// path contains the filter, if there is one, and lies on no firmware partition that
/// is left out.
pub proof fn law_only_libraries_are_dumped<F: Fn(u64) -> bool>(
    magic: F,
    entries: Seq<Mapping>,
    lib_filter: Option<Seq<char>>,
    include_anon: bool,
    include_system: bool,
    mods: Seq<Module>,
    i: int,
) -> (around: (Seq<char>, Seq<char>))
    requires
        so::is_grouping_of(magic, entries, lib_filter, include_anon, include_system, mods),
        0 <= i < mods.len(),
        mods[i].path.len() > 0,
    ensures
        so::is_so_name(mods[i].path),
        lib_filter matches Some(f) ==> mods[i].path == around.0 + f + around.1,
        lib_filter is None ==> include_system || !so::on_system_partition(mods[i].path),
        exists|k: int| #[trigger] maps_path(entries, mods[i].path, k),
{
    let n = entries.len();
    let m = mods[i];
    lemma_module_parts(magic, entries, lib_filter, include_anon, include_system, mods, i);
    so::law_module_is_tight(entries, n, lib_filter, include_system, i);
    let k = choose|k: int| #[trigger]
        so::is_part(entries, n, lib_filter, include_system, m, k) && entries[k].start == m.base;
    assert(maps_path(entries, m.path, k));
    match lib_filter {
        Some(f) => wording::law_contained(m.path, f),
        None => (Seq::empty(), Seq::empty()),
    }
}

/// A module that has a path spans the mappings of that path and no more: it reaches
/// from the lowest start to the highest end. It is called by its file name, and no
/// other module has its path.
pub proof fn law_module_spans_its_mappings<F: Fn(u64) -> bool>(
    magic: F,
    entries: Seq<Mapping>,
    lib_filter: Option<Seq<char>>,
    include_anon: bool,
    include_system: bool,
    mods: Seq<Module>,
    i: int,
)
    requires
        so::is_grouping_of(magic, entries, lib_filter, include_anon, include_system, mods),
        0 <= i < mods.len(),
        mods[i].path.len() > 0,
    ensures
        ({
            let m = mods[i];
            &&& forall|k: int| #[trigger]
                maps_path(entries, m.path, k) ==> m.base <= entries[k].start && entries[k].end
                    <= m.end
            &&& exists|k: int| #[trigger]
                maps_path(entries, m.path, k) && entries[k].start == m.base
            &&& exists|k: int| #[trigger] maps_path(entries, m.path, k) && entries[k].end == m.end
            &&& m.name == so::file_name(m.path)
            &&& forall|j: int|
                0 <= j < mods.len() && j != i ==> (#[trigger] mods[j]).path != m.path
        }),
{
    let n = entries.len();
    let m = mods[i];
    let files = so::file_modules(entries, n, lib_filter, include_system);
    lemma_module_parts(magic, entries, lib_filter, include_anon, include_system, mods, i);
    so::law_module_is_tight(entries, n, lib_filter, include_system, i);
    so::law_one_module_for_each_path(entries, n, lib_filter, include_system);
    let a = choose|k: int| #[trigger]
        so::is_part(entries, n, lib_filter, include_system, m, k) && entries[k].start == m.base;
    let b = choose|k: int| #[trigger]
        so::is_part(entries, n, lib_filter, include_system, m, k) && entries[k].end == m.end;
    assert(maps_path(entries, m.path, a) && maps_path(entries, m.path, b));
    assert forall|j: int| 0 <= j < mods.len() && j != i implies (#[trigger] mods[j]).path
        != m.path by {
        if mods[j].path.len() > 0 {
            lemma_module_parts(magic, entries, lib_filter, include_anon, include_system, mods, j);
            assert(files[i].path != files[j].path);
        }
    }
    assert forall|k: int| #[trigger] maps_path(entries, m.path, k) implies m.base
        <= entries[k].start && entries[k].end <= m.end by {
        assert(so::is_wanted(entries[k], lib_filter, include_system)) by {
            assert(so::is_wanted(entries[a], lib_filter, include_system));
        }
        so::law_wanted_mapping_is_spanned(entries, n, lib_filter, include_system, k);
        let x = choose|x: int| 0 <= x < files.len() && so::spans(#[trigger] files[x], entries[k]);
        if x != i {
            assert(files[x].path == files[i].path);
        }
    }
}

/// Modules that have a path stand in the order in which their paths first appear in
/// the map.
pub proof fn law_modules_keep_the_order_of_the_map<F: Fn(u64) -> bool>(
    magic: F,
    entries: Seq<Mapping>,
    lib_filter: Option<Seq<char>>,
    include_anon: bool,
    include_system: bool,
    mods: Seq<Module>,
    i: int,
    j: int,
)
    requires
        so::is_grouping_of(magic, entries, lib_filter, include_anon, include_system, mods),
        0 <= i < j < mods.len(),
        mods[j].path.len() > 0,
    ensures
        mods[i].path.len() > 0,
        exists|k: int| #[trigger]
            maps_path(entries, mods[i].path, k) && forall|m: int| #[trigger]
                maps_path(entries, mods[j].path, m) ==> k < m,
{
    let n = entries.len();
    let files = so::file_modules(entries, n, lib_filter, include_system);
    lemma_module_parts(magic, entries, lib_filter, include_anon, include_system, mods, j);
    assert(mods.take(files.len() as int)[i] == mods[i]);
    so::lemma_file_paths(entries, lib_filter, include_system);
    let k = lemma_order(entries, n, lib_filter, include_system, i, j);
    assert(maps_path(entries, mods[i].path, k));
    assert forall|m: int| #[trigger] maps_path(entries, mods[j].path, m) implies k < m by {
        lemma_wanted_by_path(entries, lib_filter, include_system, j, m);
    }
}

/// A mapping with the path of a module is one that makes that module.
proof fn lemma_wanted_by_path(
    entries: Seq<Mapping>,
    lib_filter: Option<Seq<char>>,
    include_system: bool,
    j: int,
    m: int,
)
    requires
        0 <= j < so::file_modules(entries, entries.len(), lib_filter, include_system).len(),
        maps_path(
            entries,
            so::file_modules(entries, entries.len(), lib_filter, include_system)[j].path,
            m,
        ),
    ensures
        so::is_wanted(entries[m], lib_filter, include_system),
{
    let n = entries.len();
    so::law_module_is_tight(entries, n, lib_filter, include_system, j);
    let f = so::file_modules(entries, n, lib_filter, include_system)[j];
    let a = choose|k: int| #[trigger]
        so::is_part(entries, n, lib_filter, include_system, f, k) && entries[k].start == f.base;
    assert(so::is_wanted(entries[a], lib_filter, include_system));
}

proof fn lemma_order(
    entries: Seq<Mapping>,
    n: nat,
    lib_filter: Option<Seq<char>>,
    include_system: bool,
    i: int,
    j: int,
) -> (k: int)
    requires
        n <= entries.len(),
        0 <= i < j < so::file_modules(entries, n, lib_filter, include_system).len(),
    ensures
        0 <= k < n,
        entries[k].path == so::file_modules(entries, n, lib_filter, include_system)[i].path,
        forall|m: int|
            0 <= m < n && (#[trigger] entries[m]).path == so::file_modules(
                entries,
                n,
                lib_filter,
                include_system,
            )[j].path && so::is_wanted(entries[m], lib_filter, include_system) ==> k < m,
    decreases n,
{
    let p = (n - 1) as nat;
    let before = so::file_modules(entries, p, lib_filter, include_system);
    let all = so::file_modules(entries, n, lib_filter, include_system);
    let e = entries[n - 1];
    so::lemma_module_at(before, e.path, 0);
    if j < before.len() {
        lemma_order(entries, p, lib_filter, include_system, i, j)
    } else {
        so::law_module_is_tight(entries, p, lib_filter, include_system, i);
        let f = before[i];
        let a = choose|k: int| #[trigger]
            so::is_part(entries, p, lib_filter, include_system, f, k) && entries[k].start
                == f.base;
        assert forall|m: int|
            0 <= m < n && (#[trigger] entries[m]).path == all[j].path && so::is_wanted(
                entries[m],
                lib_filter,
                include_system,
            ) implies a < m by {
            if m < p {
                so::law_wanted_mapping_is_spanned(entries, p, lib_filter, include_system, m);
                let x = choose|x: int|
                    0 <= x < before.len() && so::spans(#[trigger] before[x], entries[m]);
                assert(before[x].path == e.path);
            }
        }
        a
    }
}

/// Whether mapping `k` has no path, can be read, and starts with the ELF magic, by
/// what `magic` says of its address.
pub open spec fn starts_image(magic: spec_fn(u64) -> bool, entries: Seq<Mapping>, k: int) -> bool {
    &&& 0 <= k < entries.len()
    &&& entries[k].path.len() == 0
    &&& entries[k].perms.contains('r')
    &&& magic(entries[k].start)
}

/// Whether `m` is the anonymous image that starts with mapping `i` and ends in front
/// of mapping `r`: its mappings have no path, each starts where the one before it
/// ends, and the next does not.
#[verifier::opaque]
pub open spec fn is_image(
    magic: spec_fn(u64) -> bool,
    entries: Seq<Mapping>,
    m: Module,
    i: int,
    r: int,
) -> bool {
    &&& starts_image(magic, entries, i)
    &&& i < r <= entries.len()
    &&& forall|p: int, k: int|
        i <= p && k == p + 1 && k < r ==> (#[trigger] entries[k]).path.len() == 0
            && entries[k].start == (#[trigger] entries[p]).end
    &&& r < entries.len() ==> entries[r].path.len() > 0 || entries[r].start != entries[r - 1].end
    &&& m.path.len() == 0
    &&& m.name == "anon_"@ + text::spelled(entries[i].start as int, 16)
    &&& m.base == entries[i].start
    &&& m.end == entries[r - 1].end
}

/// Whether `runs` are the ranges of mappings that the images `mods` are made of, one
/// behind the other, and hold every mapping from `from` on that can start an image.
pub open spec fn are_images(
    magic: spec_fn(u64) -> bool,
    entries: Seq<Mapping>,
    mods: Seq<Module>,
    runs: Seq<(int, int)>,
    from: int,
) -> bool {
    &&& runs.len() == mods.len()
    &&& forall|x: int|
        0 <= x < runs.len() ==> from <= (#[trigger] runs[x]).0 && is_image(
            magic,
            entries,
            mods[x],
            runs[x].0,
            runs[x].1,
        )
    &&& forall|x: int, y: int|
        0 <= x < y < runs.len() ==> (#[trigger] runs[x]).1 <= (#[trigger] runs[y]).0
    &&& forall|k: int|
        from <= k && #[trigger] starts_image(magic, entries, k) ==> exists|x: int|
            0 <= x < runs.len() && (#[trigger] runs[x]).0 <= k < runs[x].1
}

/// The anonymous modules are the images of the map, in order: every readable mapping
/// without a path that starts with the ELF magic starts one, unless it lies inside
/// one that starts earlier, and an image goes on as far as mappings without a path
/// adjoin.
pub proof fn law_anonymous_modules_are_the_images<F: Fn(u64) -> bool>(
    probe: F,
    magic: spec_fn(u64) -> bool,
    entries: Seq<Mapping>,
    lib_filter: Option<Seq<char>>,
    include_system: bool,
    mods: Seq<Module>,
) -> (runs: Seq<(int, int)>)
    requires
        lib_filter matches Some(f) ==> f.len() == 0,
        forall|a: u64, r: bool| #[trigger] call_ensures(probe, (a,), r) ==> r == magic(a),
        so::is_grouping_of(probe, entries, lib_filter, true, include_system, mods),
    ensures
        are_images(
            magic,
            entries,
            mods.filter(|m: Module| m.path.len() == 0),
            runs,
            0,
        ),
{
    so::law_anonymous_modules_stand_alone(
        probe,
        magic,
        entries,
        lib_filter,
        include_system,
        mods,
    );
    lemma_images(magic, entries, 0)
}

proof fn lemma_first_image(magic: spec_fn(u64) -> bool, entries: Seq<Mapping>, i: int)
    requires
        starts_image(magic, entries, i),
    ensures
        i < so::anon_run(entries, i) <= entries.len(),
        is_image(
            magic,
            entries,
            so::anon_module(entries, i),
            i,
            so::anon_run(entries, i),
        ),
{
    reveal(is_image);
    so::law_anonymous_run_is_contiguous(entries, i);
    let r = so::anon_run(entries, i);
    assert forall|p: int, k: int| i <= p && k == p + 1 && k < r implies (
    #[trigger] entries[k]).path.len() == 0 && entries[k].start == (#[trigger] entries[p]).end by {
        assert(entries[k].start == entries[k - 1].end);
    }
}

proof fn lemma_images(magic: spec_fn(u64) -> bool, entries: Seq<Mapping>, i: int) -> (runs: Seq<
    (int, int),
>)
    requires
        0 <= i,
    ensures
        are_images(magic, entries, so::anon_modules(magic, entries, i), runs, i),
    decreases entries.len() - i,
{
    if i >= entries.len() {
        Seq::empty()
    } else if starts_image(magic, entries, i) {
        let r = so::anon_run(entries, i);
        lemma_first_image(magic, entries, i);
        let rest = lemma_images(magic, entries, r);
        let runs = seq![(i, r)] + rest;
        let found = so::anon_modules(magic, entries, r);
        let all = so::anon_modules(magic, entries, i);
        assert(all =~= seq![so::anon_module(entries, i)] + found);
        assert(all[0] == so::anon_module(entries, i));
        assert forall|x: int| 0 <= x < runs.len() implies i <= (#[trigger] runs[x]).0 && is_image(
            magic,
            entries,
            all[x],
            runs[x].0,
            runs[x].1,
        ) by {
            if x > 0 {
                assert(runs[x] == rest[x - 1] && all[x] == found[x - 1]);
            }
        }
        assert forall|x: int, y: int| 0 <= x < y < runs.len() implies (#[trigger] runs[x]).1 <= (
        #[trigger] runs[y]).0 by {
            assert(runs[y] == rest[y - 1]);
            if x > 0 {
                assert(runs[x] == rest[x - 1]);
            }
        }
        assert forall|k: int| i <= k && #[trigger] starts_image(magic, entries, k) implies exists|
            x: int,
        |
            0 <= x < runs.len() && (#[trigger] runs[x]).0 <= k < runs[x].1 by {
            if k < r {
                assert(runs[0].0 <= k < runs[0].1);
            } else {
                let x = choose|x: int|
                    0 <= x < rest.len() && (#[trigger] rest[x]).0 <= k < rest[x].1;
                assert(runs[x + 1] == rest[x]);
            }
        }
        runs
    } else {
        lemma_images(magic, entries, i + 1)
    }
}

} // verus!
