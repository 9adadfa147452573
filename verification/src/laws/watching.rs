//! Captures: which processes are looked at, what is read of them, and when a region
//! is captured again.
use crate::capture;
use crate::capture::{ModWatchState, RangeRead, ReadStep};
use crate::laws::maps;
use crate::laws::wording;
use crate::text;
use vstd::prelude::*;

verus! {

/// A new region is captured. A region that was captured before is captured again
/// whenever its fingerprint is any other than at its last capture, until it has been
/// captured three times; and only then.
pub proof fn law_changes_are_captured(prev: Option<ModWatchState>, fp: u64)
    ensures
        prev is None ==> capture::is_fresh(prev, fp) && !capture::is_settled(prev),
        prev matches Some(st) ==> {
            &&& st.dumps < 3 && fp != st.fp ==> capture::is_fresh(prev, fp)
            &&& st.dumps < 3 && fp == st.fp ==> !capture::is_fresh(prev, fp)
            &&& st.dumps >= 3 ==> !capture::is_fresh(prev, fp)
            &&& capture::is_settled(prev) <==> st.dumps >= 3
        },
{
}

/// A capture is counted, and its fingerprint is what the next is held against. What
/// is not captured leaves no trace.
pub proof fn law_captures_are_recorded(prev: Option<ModWatchState>, fp: u64)
    ensures
        !capture::is_fresh(prev, fp) ==> capture::history_after(prev, fp) == prev,
        prev is None ==> capture::history_after(prev, fp) == Some(ModWatchState { fp, dumps: 1 }),
        prev matches Some(st) ==> capture::is_fresh(prev, fp) && st.dumps < u32::MAX
            ==> (capture::history_after(prev, fp) matches Some(next) && next.fp == fp && next.dumps
            == st.dumps + 1),
{
}

/// How often the fingerprint of a region is another than the time before, counting
/// the first time.
pub open spec fn changes(fps: Seq<u64>) -> nat
    decreases fps.len(),
{
    if fps.len() == 0 {
        0
    } else if fps.len() == 1 {
        1
    } else {
        changes(fps.drop_last()) + if fps.last() != fps[fps.len() - 2] {
            1nat
        } else {
            0
        }
    }
}

/// The history of a region that was seen with the fingerprints `fps`.
pub open spec fn history_of(fps: Seq<u64>) -> Option<ModWatchState>
    decreases fps.len(),
{
    if fps.len() == 0 {
        None
    } else {
        capture::history_after(history_of(fps.drop_last()), fps.last())
    }
}

/// A watched region is captured when it is first seen and at each change, three times
/// at most.
pub proof fn law_each_change_is_one_capture(fps: Seq<u64>)
    requires
        fps.len() > 0,
    ensures
        history_of(fps) matches Some(st) && st.dumps == if changes(fps) < 3 {
            changes(fps)
        } else {
            3
        } && (changes(fps) < 3 ==> st.fp == fps.last()),
        changes(fps) >= 1,
    decreases fps.len(),
{
    let before = fps.drop_last();
    if fps.len() > 1 {
        law_each_change_is_one_capture(before);
        assert(before.last() == fps[fps.len() - 2]);
    } else {
        assert(history_of(before) is None);
    }
}

/// A page is 4096 bytes; the last one of a buffer may be shorter. A read that goes
/// page by page asks for them in turn.
pub proof fn law_pages_are_asked_for_in_turn(len: usize, results: Seq<isize>, n: nat)
    requires
        n <= results.len(),
    ensures
        ({
            let s = capture::after_pages(len, results, n);
            let from = n * 4096;
            &&& from >= len ==> (s.next_spec() matches ReadStep::Done(_))
            &&& from < len && from + 4096 <= len ==> s.next_spec() == ReadStep::Read(
                from as usize,
                (from + 4096) as usize,
            )
            &&& from < len && from + 4096 > len ==> s.next_spec() == ReadStep::Read(
                from as usize,
                len,
            )
        }),
{
    capture::law_unreadable_page_costs_itself(len, results, n);
}

/// A page that was read in full counts with all of its bytes, and one that was not
/// counts with none.
pub proof fn law_whole_pages_count(len: usize, results: Seq<isize>, n: nat)
    requires
        n < results.len(),
        n * 4096 < len,
    ensures
        ({
            let before = capture::after_pages(len, results, n).total;
            let after = capture::after_pages(len, results, n + 1).total;
            let size = if n * 4096 + 4096 <= len {
                4096
            } else {
                len - n * 4096
            };
            &&& results[n as int] == size ==> after == before + size
            &&& results[n as int] != size ==> after == before
        }),
{
    capture::law_unreadable_page_costs_itself(len, results, n);
    capture::law_unreadable_page_costs_itself(len, results, n + 1);
}

/// A read asks for all of its range first, and is done at once if there is nothing
/// to read.
pub proof fn law_reads_begin_with_the_whole(len: usize)
    ensures
        ({
            let s = RangeRead { len, whole: true, off: 0, total: 0 };
            s.next_spec() == if len == 0 {
                ReadStep::Done(0)
            } else {
                ReadStep::Read(0, len)
            }
        }),
{
}

/// A fingerprint goes by the windows that something was read of, in order.
pub proof fn law_fingerprint_goes_by_what_was_read(windows: Seq<Vec<u8>>, n: nat)
    requires
        n <= windows.len(),
    ensures
        capture::read_windows(windows, n) == Seq::new(n, |i: int| windows[i]@).filter(
            |w: Seq<u8>| w.len() > 0,
        ),
    decreases n,
{
    reveal(Seq::filter);
    let all = Seq::new(n, |i: int| windows[i]@);
    if n > 0 {
        let m = (n - 1) as nat;
        law_fingerprint_goes_by_what_was_read(windows, m);
        assert(all.drop_last() =~= Seq::new(m, |i: int| windows[i]@));
        assert(all.last() == windows[n - 1]@);
    } else {
        assert(all.filter(|w: Seq<u8>| w.len() > 0) =~= capture::read_windows(windows, n));
    }
}

/// The first line that starts with "Uid:" tells the user of a process, by its first
/// field; other lines do not matter.
pub proof fn law_first_uid_line_tells(
    lines: Seq<Seq<char>>,
    k: int,
    between: char,
    owner: u32,
    next: char,
    rest: Seq<char>,
    uid: u32,
)
    requires
        0 <= k < lines.len(),
        forall|j: int|
            0 <= j < k ==> (#[trigger] lines[j]).len() < 4 || lines[j].take(4) != "Uid:"@,
        text::is_white(between),
        text::is_white(next),
        lines[k] == "Uid:"@ + (seq![between] + text::spelled(owner as int, 10) + seq![next] + rest),
    ensures
        capture::status_names_uid(lines, 0, uid) <==> uid == owner,
{
    let w = text::spelled(owner as int, 10);
    let line = lines[k];
    let tail = seq![between] + w + seq![next] + rest;
    reveal_strlit("Uid:");
    lemma_uid_line(lines, 0, k, uid);
    wording::law_prefix(tail, "Uid:"@);
    assert(line.skip(4) =~= tail);
    text::law_number_spelled(owner as int, 10);
    text::law_parse_spelled(owner as int, 10, u32::MAX as int);
    assert forall|i: int| 0 <= i < w.len() implies !text::is_white(#[trigger] w[i]) by {
        assert(text::digit(w[i]) < 10);
    }
    wording::law_word_is_a_field(w);
    wording::law_word_is_a_field(Seq::empty());
    wording::law_white_space_parts_fields(Seq::empty(), between, w);
    wording::law_white_space_parts_fields(seq![between] + w, next, rest);
    assert(Seq::<char>::empty() + seq![between] + w =~= seq![between] + w);
    assert(text::fields(tail) == text::fields(seq![between] + w) + text::fields(rest));
    assert(text::fields(tail)[0] == w);
}

/// A process whose status has no line that starts with "Uid:", or nothing that is a
/// number behind the first, belongs to no user.
pub proof fn law_no_uid_line_tells_nothing(lines: Seq<Seq<char>>, k: int, uid: u32)
    requires
        0 <= k <= lines.len(),
        forall|j: int|
            0 <= j < k ==> (#[trigger] lines[j]).len() < 4 || lines[j].take(4) != "Uid:"@,
        k < lines.len() ==> lines[k].len() >= 4 && lines[k].take(4) == "Uid:"@ && (text::fields(
            lines[k].skip(4),
        ).len() == 0 || text::parsed(
            text::fields(lines[k].skip(4))[0],
            10,
            0xffff_ffff,
        ) is None),
    ensures
        !capture::status_names_uid(lines, 0, uid),
{
    reveal_strlit("Uid:");
    lemma_uid_line(lines, 0, k, uid);
    if k < lines.len() {
        assert(lines[k].subrange(0, 4) =~= lines[k].take(4));
    }
}

proof fn lemma_uid_line(lines: Seq<Seq<char>>, i: int, k: int, uid: u32)
    requires
        0 <= i <= k <= lines.len(),
        "Uid:"@.len() == 4,
        forall|j: int|
            0 <= j < k ==> (#[trigger] lines[j]).len() < 4 || lines[j].take(4) != "Uid:"@,
    ensures
        capture::status_names_uid(lines, i, uid) == capture::status_names_uid(lines, k, uid),
    decreases k - i,
{
    if i < k {
        let line = lines[i];
        if text::starts_with(line, "Uid:"@) {
            assert(line.subrange(0, 4) =~= line.take(4));
        }
        lemma_uid_line(lines, i + 1, k, uid);
    }
}

/// The processes of a user are all of those whose status names that user, in order.
pub proof fn law_processes_of_a_user(procs: Seq<(u32, String)>, uid: u32)
    ensures
        capture::pids_of_uid(procs, procs.len(), uid) == procs.filter(
            |p: (u32, String)| capture::status_names_uid(text::lines(p.1@), 0, uid),
        ).map_values(|p: (u32, String)| p.0),
    decreases procs.len(),
{
    reveal(Seq::filter);
    let named = |p: (u32, String)| capture::status_names_uid(text::lines(p.1@), 0, uid);
    let pid = |p: (u32, String)| p.0;
    if procs.len() > 0 {
        let rest = procs.drop_last();
        law_processes_of_a_user(rest, uid);
        lemma_pids_of_rest(procs, rest, rest.len(), uid);
        let found = rest.filter(named);
        if named(procs.last()) {
            assert(found.push(procs.last()).map_values(pid) =~= found.map_values(pid).push(
                procs.last().0,
            ));
        }
    } else {
        assert(procs.filter(named).map_values(pid) =~= Seq::<u32>::empty());
    }
}

proof fn lemma_pids_of_rest(
    procs: Seq<(u32, String)>,
    rest: Seq<(u32, String)>,
    n: nat,
    uid: u32,
)
    requires
        n <= rest.len() <= procs.len(),
        forall|i: int| 0 <= i < rest.len() ==> procs[i] == rest[i],
    ensures
        capture::pids_of_uid(procs, n, uid) == capture::pids_of_uid(rest, n, uid),
    decreases n,
{
    if n > 0 {
        lemma_pids_of_rest(procs, rest, (n - 1) as nat, uid);
    }
}

/// A dump is called `so_<pid>_<base>_<size>_<stem>.so`: the process in decimal, base
/// and size in hex, and of the module's name what a file name can hold, without its
/// ".so".
pub proof fn law_dumps_are_called_by_what_they_hold(
    pid: u32,
    base: u64,
    size: u64,
    stem: Seq<char>,
)
    ensures
        capture::dump_name(pid, base, size, stem + ".so"@) == seq!['s', 'o', '_'] + text::spelled(
            pid as int,
            10,
        ) + seq!['_'] + text::spelled(base as int, 16) + seq!['_'] + text::spelled(size as int, 16)
            + seq!['_'] + stem.map_values(|c: char| maps::kept(c)) + seq!['.', 's', 'o'],
{
    reveal_strlit("so_");
    reveal_strlit("_");
    reveal_strlit(".so");
    assert("so_"@ =~= seq!['s', 'o', '_']);
    assert("_"@ =~= seq!['_']);
    assert(".so"@ =~= seq!['.', 's', 'o']);
    maps::law_sanitized_names(stem);
}

/// A sleep goes in steps of at most a tenth of a second, and of no less unless that
/// ends it; it is over when all of its time has passed.
pub proof fn law_sleep_goes_in_short_steps(total: u128, slept: u128)
    ensures
        slept >= total <==> capture::sleep_step(total, slept) is None,
        capture::sleep_step(total, slept) matches Some(step) ==> {
            &&& 0 < step <= 100_000_000
            &&& slept + step <= total
            &&& step < 100_000_000 ==> slept + step == total
        },
{
}

} // verus!
