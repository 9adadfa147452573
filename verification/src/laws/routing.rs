//! Symbol maps: what is read of them, and which files they are meant for.
use crate::capture;
use crate::laws::maps;
use crate::laws::wording;
use crate::so;
use crate::so_fix;
use crate::so_fix::SymbolLine;
use crate::text;
use vstd::prelude::*;

verus! {

/// Whether every character of a name is one that a file name keeps.
pub open spec fn is_safe(name: Seq<char>) -> bool {
    forall|i: int| 0 <= i < name.len() ==> maps::kept(#[trigger] name[i]) == name[i]
}

proof fn lemma_safe(name: Seq<char>)
    requires
        is_safe(name),
    ensures
        name.map_values(|c: char| maps::kept(c)) == name,
{
    assert(name.map_values(|c: char| maps::kept(c)) =~= name);
}

/// A file belongs to a module if its sanitized name is the module's, or ends in an
/// underscore and the module's; and only then.
pub proof fn law_files_of_a_module(file: Seq<char>, stem: Seq<char>, front: Seq<char>)
    ensures
        ({
            let base = so::sanitized(file);
            &&& base == stem ==> so_fix::names_module(file, stem)
            &&& base == front + seq!['_'] + stem ==> so_fix::names_module(file, stem)
            &&& so_fix::names_module(file, stem) ==> base == stem || (base.len() > stem.len()
                && base == base.take(base.len() - stem.len() - 1) + seq!['_'] + stem)
        }),
{
    let base = so::sanitized(file);
    let tail = "_"@ + stem;
    reveal_strlit("_");
    assert("_"@ =~= seq!['_']);
    wording::law_suffix(front, tail);
    wording::law_suffix(base, tail);
    assert(front + seq!['_'] + stem =~= front + tail);
    if text::ends_with(base, tail) {
        let a = base.take(base.len() - tail.len());
        assert(base =~= a + seq!['_'] + stem);
    }
}

/// A library under its own name belongs to the module of that name.
pub proof fn law_plain_library_matches(stem: Seq<char>)
    requires
        is_safe(stem),
    ensures
        so_fix::names_module(stem + ".so"@, stem),
{
    maps::law_sanitized_names(stem);
    lemma_safe(stem);
}

/// A dump takes no symbol map of another module: the dump of one library does not
/// match the name of another, as long as no underscore in them makes one end in the
/// other.
pub proof fn law_dump_matches_no_other_module(
    pid: u32,
    base: u64,
    size: u64,
    a: Seq<char>,
    b: Seq<char>,
)
    requires
        is_safe(a),
        !a.contains('_'),
        !b.contains('_'),
        a != b,
    ensures
        !so_fix::names_module(capture::dump_name(pid, base, size, a + ".so"@), b),
        !so_fix::names_module(a + ".so"@, b),
{
    maps::law_sanitized_names(a);
    lemma_safe(a);
    law_files_of_a_module(a + ".so"@, b, Seq::empty());
    if so_fix::names_module(a + ".so"@, b) {
        let x = a.take(a.len() - b.len() - 1);
        assert(a == x + seq!['_'] + b);
        assert(a[x.len() as int] == '_');
    }
    let file = capture::dump_name(pid, base, size, a + ".so"@);
    let stem = so_fix::lemma_dump_stem(pid, base, size, a + ".so"@);
    so::law_sanitize_keeps_safe_names(stem);
    reveal_strlit("_");
    assert("_"@ =~= seq!['_']);
    let tail = "_"@ + a;
    assert(so::sanitized(a + ".so"@) == a);
    wording::law_suffix(stem, tail);
    let front = stem.take(stem.len() - tail.len());
    assert(stem =~= front + seq!['_'] + a);
    law_files_of_a_module(file, b, Seq::empty());
    if so_fix::names_module(file, b) {
        assert(so::sanitized(file) == stem);
        if stem == b {
            assert(b[front.len() as int] == '_');
        } else {
            let y = stem.take(stem.len() - b.len() - 1);
            assert(stem == y + seq!['_'] + b);
            if front.len() < y.len() {
                assert(stem[y.len() as int] == '_');
                assert(stem[y.len() as int] == a[y.len() - front.len() - 1]);
            } else if y.len() < front.len() {
                assert(stem[front.len() as int] == '_');
                assert(stem[front.len() as int] == b[front.len() - y.len() - 1]);
            } else {
                assert(a =~= stem.skip(front.len() as int + 1));
                assert(b =~= stem.skip(y.len() as int + 1));
            }
        }
    }
}

/// The dump of a library matches the name of that library.
pub proof fn law_dump_matches_its_own_module(pid: u32, base: u64, size: u64, a: Seq<char>)
    requires
        is_safe(a),
    ensures
        so_fix::names_module(capture::dump_name(pid, base, size, a + ".so"@), a),
{
    maps::law_sanitized_names(a);
    lemma_safe(a);
    so_fix::law_dump_matches_its_module(pid, base, size, a + ".so"@);
}

/// Symbols of an unknown module are meant for every file, and those of a known one
/// for the files of that module alone.
pub proof fn law_symbols_go_to_their_module(target: Seq<char>, name: Seq<char>)
    ensures
        target.len() == 0 ==> so_fix::takes_symbols(target, name),
        target.len() > 0 ==> (so_fix::takes_symbols(target, name) <==> so_fix::names_module(
            name,
            target,
        )),
{
}

/// The files that were repaired are counted, each once.
pub proof fn law_repaired_files_are_counted(files: Seq<(String, bool)>)
    ensures
        so_fix::fixed_count(files, files.len()) == files.filter(|f: (String, bool)| f.1).len(),
    decreases files.len(),
{
    reveal(Seq::filter);
    if files.len() > 0 {
        let rest = files.drop_last();
        law_repaired_files_are_counted(rest);
        lemma_fixed_of_rest(files, rest, rest.len());
    }
}

proof fn lemma_fixed_of_rest(files: Seq<(String, bool)>, rest: Seq<(String, bool)>, n: nat)
    requires
        n <= rest.len() <= files.len(),
        forall|i: int| 0 <= i < rest.len() ==> files[i] == rest[i],
    ensures
        so_fix::fixed_count(files, n) == so_fix::fixed_count(rest, n),
    decreases n,
{
    if n > 0 {
        lemma_fixed_of_rest(files, rest, (n - 1) as nat);
    }
}

/// So are those among them that symbols are meant for.
pub proof fn law_files_with_symbols_are_counted(files: Seq<(String, bool)>, target: Seq<char>)
    ensures
        so_fix::matched_count(files, files.len(), target) == files.filter(
            |f: (String, bool)| f.1 && (target.len() == 0 || so_fix::names_module(f.0@, target)),
        ).len(),
    decreases files.len(),
{
    reveal(Seq::filter);
    if files.len() > 0 {
        let rest = files.drop_last();
        law_files_with_symbols_are_counted(rest, target);
        lemma_matched_of_rest(files, rest, rest.len(), target);
    }
}

proof fn lemma_matched_of_rest(
    files: Seq<(String, bool)>,
    rest: Seq<(String, bool)>,
    n: nat,
    target: Seq<char>,
)
    requires
        n <= rest.len() <= files.len(),
        forall|i: int| 0 <= i < rest.len() ==> files[i] == rest[i],
    ensures
        so_fix::matched_count(files, n, target) == so_fix::matched_count(rest, n, target),
    decreases n,
{
    if n > 0 {
        lemma_matched_of_rest(files, rest, (n - 1) as nat, target);
    }
}

/// A file is a library by its extension when its name is something and ".so". Its
/// repaired copy is called the same, with "_fix" in front of the extension.
pub proof fn law_names_of_repaired_files(stem: Seq<char>, name: Seq<char>)
    ensures
        stem.len() > 0 ==> so_fix::is_so_file(stem + ".so"@),
        so_fix::is_so_file(name) ==> name.len() > 3 && name == name.take(name.len() - 3) + ".so"@,
        so_fix::fixed_name(stem + ".so"@) == stem + "_fix.so"@,
        (forall|t: Seq<char>| #[trigger] (t + ".so"@) != name) ==> so_fix::fixed_name(name) == name
            + "_fix.so"@,
{
    reveal_strlit(".so");
    wording::law_suffix(stem, ".so"@);
    wording::law_suffix(name, ".so"@);
    wording::law_suffix_is_taken_off(stem, ".so"@);
    wording::law_suffix_is_taken_off(name, ".so"@);
}

/// Only a name of the form `jni_symbols_<stem>.txt` has a stem.
pub proof fn law_other_maps_have_no_stem(name: Seq<char>)
    requires
        so_fix::symbols_stem(name).len() > 0,
    ensures
        name == "jni_symbols_"@ + so_fix::symbols_stem(name) + ".txt"@,
{
    reveal_strlit("jni_symbols_");
    reveal_strlit(".txt");
    let rest = name.skip(12);
    wording::law_prefix(name, "jni_symbols_"@);
    wording::law_suffix(rest, ".txt"@);
    let stem = so_fix::symbols_stem(name);
    assert(name =~= "jni_symbols_"@ + stem + ".txt"@);
}

/// Whether a text consists of hex digits, at least one.
pub open spec fn is_hex(d: Seq<char>) -> bool {
    d.len() > 0 && forall|i: int| 0 <= i < d.len() ==> text::digit(#[trigger] d[i]) < 16
}

/// An offset is the number that its hex digits make, with or without "0x" or "0X" in
/// front, as long as that fits in 64 bits.
pub proof fn law_offsets_are_hex(d: Seq<char>)
    requires
        is_hex(d),
    ensures
        ({
            let v = text::number(d, 16);
            let r = if v <= 0xffff_ffff_ffff_ffff {
                Some(v as u64)
            } else {
                None
            };
            &&& so_fix::hex_offset(d) == r
            &&& so_fix::hex_offset(seq!['0', 'x'] + d) == r
            &&& so_fix::hex_offset(seq!['0', 'X'] + d) == r
        }),
{
    reveal_strlit("0x");
    reveal_strlit("0X");
    let lower = seq!['0', 'x'];
    let upper = seq!['0', 'X'];
    assert("0x"@ =~= lower && "0X"@ =~= upper);
    wording::law_digits_parse(d, 16, u64::MAX as int);
    wording::law_prefix(d, lower);
    wording::law_prefix(d, upper);
    wording::law_prefix(lower + d, upper);
    wording::law_prefix(d, "0x"@);
    assert((lower + d).skip(2) =~= d);
    assert((upper + d).skip(2) =~= d);
    if text::starts_with(d, lower) {
        assert(d[1] == 'x') by {
            assert(d.subrange(0, 2)[1] == d[1]);
        }
        assert(text::digit(d[1]) < 16);
    }
    if text::starts_with(d, upper) {
        assert(d[1] == 'X') by {
            assert(d.subrange(0, 2)[1] == d[1]);
        }
        assert(text::digit(d[1]) < 16);
    }
}

/// A word that is no hex number, whatever stands in front of it, is no offset.
pub proof fn law_other_words_are_no_offsets(w: Seq<char>)
    requires
        ({
            let d = if w.len() >= 2 && w[0] == '0' && (w[1] == 'x' || w[1] == 'X') {
                w.skip(2)
            } else {
                w
            };
            let e = if d.len() > 0 && d[0] == '+' {
                d.drop_first()
            } else {
                d
            };
            !is_hex(e)
        }),
    ensures
        so_fix::hex_offset(w) is None,
{
    reveal_strlit("0x");
    reveal_strlit("0X");
    if w.len() >= 2 {
        let h = w.subrange(0, 2);
        assert(h[0] == w[0] && h[1] == w[1]);
        if w[0] == '0' && w[1] == 'x' {
            assert(h =~= "0x"@);
        }
        if w[0] == '0' && w[1] == 'X' {
            assert(h =~= "0X"@);
        }
    }
    let d = if w.len() >= 2 && w[0] == '0' && (w[1] == 'x' || w[1] == 'X') {
        w.skip(2)
    } else {
        w
    };
    assert(text::starts_with(w, "0x"@) || text::starts_with(w, "0X"@) <==> (w.len() >= 2 && w[0]
        == '0' && (w[1] == 'x' || w[1] == 'X')));
    let e = text::without_plus(d);
    assert(!text::all_digits(e, 16) || e.len() == 0);
}

/// A line of a symbol map is read by its first two fields: a name behind an offset
/// makes a symbol, whatever follows. A line whose first field starts with '#', or
/// that has fewer fields, says nothing, and one whose first field is no offset is
/// bad.
pub proof fn law_symbol_lines(line: Seq<char>, offset: Seq<char>, name: Seq<char>)
    ensures
        ({
            let f = text::fields(line);
            &&& f.len() < 2 ==> so_fix::symbol_line(line) is Nothing
            &&& f.len() >= 2 && f[0] == offset && f[1] == name && offset.len() > 0 && offset[0]
                == '#' ==> so_fix::symbol_line(line) is Nothing
            &&& f.len() >= 2 && f[0] == offset && f[1] == name && offset.len() > 0 && offset[0]
                != '#' ==> match so_fix::hex_offset(offset) {
                Some(v) => so_fix::symbol_line(line) == SymbolLine::Symbol(name, v),
                None => so_fix::symbol_line(line) == SymbolLine::BadOffset(offset),
            }
        }),
{
    reveal_strlit("#");
    if offset.len() > 0 {
        let h = offset.subrange(0, 1);
        assert(h[0] == offset[0]);
        if offset[0] == '#' {
            assert(h =~= "#"@);
        } else {
            assert("#"@[0] == '#');
        }
    }
}

/// The symbols of the lines of a map.
pub open spec fn symbols(content: Seq<char>) -> Seq<(Seq<char>, u64)> {
    so_fix::symbols_in(text::lines(content), text::lines(content).len())
}

/// The bad offsets of the lines of a map, with their line numbers.
pub open spec fn bad_offsets(content: Seq<char>) -> Seq<(nat, Seq<char>)> {
    so_fix::bad_offsets_in(text::lines(content), text::lines(content).len())
}

/// A symbol map is read line by line: what its first line says comes first, and then
/// what the rest says. Lines are numbered from 1.
pub proof fn law_symbol_maps_are_read_line_by_line(line: Seq<char>, rest: Seq<char>)
    requires
        !line.contains('\n'),
        line.len() > 0 ==> line.last() != '\r',
    ensures
        symbols(line + seq!['\n'] + rest) == (match so_fix::symbol_line(line) {
            SymbolLine::Symbol(name, value) => seq![(name, value)],
            _ => Seq::empty(),
        }) + symbols(rest),
        bad_offsets(line + seq!['\n'] + rest) == (match so_fix::symbol_line(line) {
            SymbolLine::BadOffset(offset) => seq![(1nat, offset)],
            _ => Seq::empty(),
        }) + bad_offsets(rest).map_values(|b: (nat, Seq<char>)| (b.0 + 1, b.1)),
        symbols(Seq::empty()).len() == 0,
        bad_offsets(Seq::empty()).len() == 0,
{
    wording::law_line_feed_parts_lines(line, rest);
    wording::law_line_feed_parts_lines(Seq::empty(), rest);
    let tail = text::lines(rest);
    lemma_first_line(line, tail, tail.len());
}

proof fn lemma_first_line(line: Seq<char>, tail: Seq<Seq<char>>, n: nat)
    requires
        n <= tail.len(),
    ensures
        so_fix::symbols_in(seq![line] + tail, n + 1) == (match so_fix::symbol_line(line) {
            SymbolLine::Symbol(name, value) => seq![(name, value)],
            _ => Seq::empty(),
        }) + so_fix::symbols_in(tail, n),
        so_fix::bad_offsets_in(seq![line] + tail, n + 1) == (match so_fix::symbol_line(line) {
            SymbolLine::BadOffset(offset) => seq![(1nat, offset)],
            _ => Seq::empty(),
        }) + so_fix::bad_offsets_in(tail, n).map_values(
            |b: (nat, Seq<char>)| (b.0 + 1, b.1),
        ),
    decreases n,
{
    let all = seq![line] + tail;
    let first: Seq<(Seq<char>, u64)> = match so_fix::symbol_line(line) {
        SymbolLine::Symbol(name, value) => seq![(name, value)],
        _ => Seq::empty(),
    };
    let bad: Seq<(nat, Seq<char>)> = match so_fix::symbol_line(line) {
        SymbolLine::BadOffset(offset) => seq![(1nat, offset)],
        _ => Seq::empty(),
    };
    let next = |b: (nat, Seq<char>)| (b.0 + 1, b.1);
    if n == 0 {
        assert(all[0] == line);
        assert(so_fix::symbols_in(all, 0) =~= Seq::<(Seq<char>, u64)>::empty());
        assert(so_fix::bad_offsets_in(all, 0) =~= Seq::<(nat, Seq<char>)>::empty());
        assert(so_fix::symbols_in(all, 1) =~= first + so_fix::symbols_in(tail, 0));
        assert(so_fix::bad_offsets_in(all, 1) =~= bad + so_fix::bad_offsets_in(tail, 0).map_values(
            next,
        ));
    } else {
        let m = (n - 1) as nat;
        lemma_first_line(line, tail, m);
        assert(all[n as int] == tail[n - 1]);
        assert(so_fix::symbols_in(all, n + 1) =~= first + so_fix::symbols_in(tail, n));
        assert(so_fix::bad_offsets_in(all, n + 1) =~= bad + so_fix::bad_offsets_in(
            tail,
            n,
        ).map_values(next));
    }
}

} // verus!
