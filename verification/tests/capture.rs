use sofix::capture::{
    belongs_to_uid, dump_file_name, dump_step, find_pids_for_uid, is_fix_due, judge_capture,
    keeps_watching, module_fingerprint, next_sleep, next_watch_step, parse_pid, peek_is_elf, run,
    sample_offsets, Capture, DumpSoConfig, DumpStep, NoProcess, RangeRead, ReadStep, RunMode,
    UnsupportedHost, WatchEvent, WatchLog, WatchStep, MAX_SO_DUMP_SIZE, SLEEP_STEP_NANOS,
    SO_READ_CHUNK, WATCH_MAX_REDUMPS,
};
use sofix::so::SoModule;
use std::collections::hash_map::DefaultHasher;
use std::hash::Hasher;
use std::path::PathBuf;
use std::time::Duration;

fn config() -> DumpSoConfig {
    DumpSoConfig {
        uid: 10123,
        lib_filter: Some("libx".to_string()),
        out: PathBuf::from("/data/out"),
        include_anon: true,
        include_system: false,
        auto_fix: true,
        watch: false,
        watch_interval: Duration::from_secs(2),
        watch_timeout: Some(Duration::from_secs(30)),
    }
}

#[test]
fn a_config_clones_field_by_field() {
    let a = config();
    let b = a.clone();
    assert_eq!(format!("{a:?}"), format!("{b:?}"));
    assert_eq!(b.out, PathBuf::from("/data/out"));
}

#[test]
fn runs_need_a_supported_host() {
    let mut c = config();
    assert_eq!(run(&c, true), Ok(RunMode::Once));
    c.watch = true;
    assert_eq!(run(&c, true), Ok(RunMode::Watch));
    assert_eq!(run(&c, false), Err(UnsupportedHost));
    assert_eq!(
        UnsupportedHost.message(),
        "dumpso is only supported on Linux/Android targets"
    );
}

#[test]
fn dumps_are_fixed_when_asked_for_and_written() {
    let mut c = config();
    assert!(is_fix_due(&c, 1));
    assert!(!is_fix_due(&c, 0));
    c.auto_fix = false;
    assert!(!is_fix_due(&c, 1));
}

#[test]
fn pids_are_decimal_numbers() {
    assert_eq!(parse_pid("1"), Some(1));
    assert_eq!(parse_pid("+42"), Some(42));
    assert_eq!(parse_pid("4294967295"), Some(u32::MAX));
    assert_eq!(parse_pid("4294967296"), None);
    assert_eq!(parse_pid("self"), None);
    assert_eq!(parse_pid("1a"), None);
    assert_eq!(parse_pid(""), None);
    assert_eq!(parse_pid("+"), None);
}

#[test]
fn the_first_uid_line_decides() {
    assert!(belongs_to_uid("Name:\tx\nUid:\t10123\t0\t0\t0\n", 10123));
    assert!(!belongs_to_uid("Name:\tx\nUid:\t0\t10123\t0\t0\n", 10123));
    assert!(!belongs_to_uid("Uid:\nUid:\t10123\n", 10123));
    assert!(!belongs_to_uid("Uid:\tx\nUid:\t10123\n", 10123));
    assert!(!belongs_to_uid(" Uid:\t10123\n", 10123));
    assert!(belongs_to_uid("Uid:10123", 10123));
    assert!(!belongs_to_uid("", 0));
}

#[test]
fn processes_of_a_uid_are_found() {
    let status = |uid: u32| format!("Name:\tx\nUid:\t{uid}\t1\t2\t3\n");
    let procs = [(1, status(0)), (7, status(5)), (8, status(6)), (9, status(5))];
    assert_eq!(find_pids_for_uid(&procs, 5), Ok(vec![7, 9]));
    assert_eq!(find_pids_for_uid(&procs, 4), Err(NoProcess { uid: 4 }));
    assert_eq!(
        NoProcess { uid: 4 }.message(),
        "no running process found for uid 4"
    );
}

#[test]
fn an_elf_peek_needs_all_four_bytes() {
    assert!(peek_is_elf(4, b"\x7fELF"));
    assert!(!peek_is_elf(3, b"\x7fELF"));
    assert!(!peek_is_elf(-1, b"\x7fELF"));
    assert!(!peek_is_elf(4, b"\x7fELG"));
}

fn module(base: u64, end: u64) -> SoModule {
    SoModule {
        name: "libx.so".to_string(),
        path: String::new(),
        base,
        end,
    }
}

#[test]
fn modules_are_dumped_up_to_the_cap() {
    assert_eq!(MAX_SO_DUMP_SIZE, 512 * 1024 * 1024);
    assert_eq!(dump_step(&module(5, 5)), DumpStep::Skip);
    assert_eq!(dump_step(&module(5, 6)), DumpStep::Read(1));
    assert_eq!(
        dump_step(&module(1, 1 + MAX_SO_DUMP_SIZE)),
        DumpStep::Read(MAX_SO_DUMP_SIZE)
    );
    assert_eq!(
        dump_step(&module(0, 1 + MAX_SO_DUMP_SIZE)),
        DumpStep::TooLarge(MAX_SO_DUMP_SIZE + 1)
    );
}

#[test]
fn captures_are_judged_by_their_bytes() {
    assert_eq!(judge_capture(0, 10), Capture::Failed);
    assert_eq!(judge_capture(9, 10), Capture::Partial);
    assert_eq!(judge_capture(10, 10), Capture::Complete);
}

#[test]
fn dumps_are_named_after_process_range_and_module() {
    assert_eq!(
        dump_file_name(1234, 0x7f00, 0x2000, "libfoo.so"),
        "so_1234_7f00_2000_libfoo.so"
    );
    assert_eq!(
        dump_file_name(0, u64::MAX, 0, "a b"),
        "so_0_ffffffffffffffff_0_a_b.so"
    );
}

/// Runs a read of `len` bytes in which the pages of `bad` cannot be read.
fn read(len: usize, whole: bool, bad: &[usize]) -> (usize, usize) {
    let mut r = RangeRead::new(len);
    let mut steps = 0;
    loop {
        match r.next_step() {
            ReadStep::Done(total) => return (total, steps),
            ReadStep::Read(start, end) => {
                steps += 1;
                let ok = if end - start == len && steps == 1 {
                    whole
                } else {
                    !bad.contains(&(start / SO_READ_CHUNK))
                };
                r.record(if ok { (end - start) as isize } else { -1 });
            }
        }
    }
}

#[test]
fn a_whole_read_is_tried_first() {
    assert_eq!(read(0, true, &[]), (0, 0));
    assert_eq!(read(10_000, true, &[]), (10_000, 1));
    assert_eq!(RangeRead::new(10_000).next_step(), ReadStep::Read(0, 10_000));
}

#[test]
fn an_unreadable_page_only_costs_that_page() {
    assert_eq!(SO_READ_CHUNK, 4096);
    assert_eq!(read(10_000, false, &[]), (10_000, 4));
    assert_eq!(read(10_000, false, &[1]), (10_000 - 4096, 4));
    assert_eq!(read(10_000, false, &[2]), (8192, 4));
    assert_eq!(read(8192, false, &[0, 1]), (0, 3));
}

#[test]
fn a_short_read_counts_as_none() {
    let mut r = RangeRead::new(5000);
    r.record(4999);
    assert_eq!(r.next_step(), ReadStep::Read(0, 4096));
    r.record(4095);
    assert_eq!(r.next_step(), ReadStep::Read(4096, 5000));
    r.record(904);
    assert_eq!(r.next_step(), ReadStep::Done(904));
    r.record(1);
    assert_eq!(r.next_step(), ReadStep::Done(904));
}

#[test]
fn fingerprints_sample_four_windows() {
    assert_eq!(sample_offsets(0x1000), [0, 0x400, 0x800, 0xc00]);
    assert_eq!(sample_offsets(7), [0, 1, 3, 5]);
    assert_eq!(sample_offsets(0), [0, 0, 0, 0]);
}

#[test]
fn fingerprints_hash_what_could_be_read() {
    let windows = vec![vec![1u8, 2, 3], vec![], vec![4u8]];
    let mut h = DefaultHasher::new();
    h.write(&[1, 2, 3]);
    h.write(&[4]);
    assert_eq!(module_fingerprint(10, &windows), h.finish());
    assert_eq!(module_fingerprint(0, &windows), 0);
    assert_ne!(module_fingerprint(10, &windows[1..]), h.finish());
}

#[test]
fn changed_regions_are_captured_until_the_cap() {
    assert_eq!(WATCH_MAX_REDUMPS, 3);
    let mut log = WatchLog::new();
    assert!(!log.settled(1, 2, 3));
    assert!(log.observe(1, 2, 3, 10));
    assert!(!log.observe(1, 2, 3, 10));
    assert!(log.observe(1, 2, 3, 11));
    assert!(!log.settled(1, 2, 3));
    assert!(log.observe(1, 2, 3, 10));
    assert!(log.settled(1, 2, 3));
    assert!(!log.observe(1, 2, 3, 99));
    assert!(log.settled(1, 2, 3));
}

#[test]
fn regions_are_told_apart_by_process_and_range() {
    let mut log = WatchLog::new();
    assert!(log.observe(1, 2, 3, 10));
    assert!(log.observe(2, 2, 3, 10));
    assert!(log.observe(1, 3, 3, 10));
    assert!(log.observe(1, 2, 4, 10));
    assert!(!log.observe(1, 2, 3, 10));
}

#[test]
fn a_watch_ends_on_request_or_deadline() {
    assert!(keeps_watching(true, false));
    assert!(!keeps_watching(true, true));
    assert!(!keeps_watching(false, false));
    assert!(!keeps_watching(false, true));
}

#[test]
fn a_watch_scans_before_it_looks() {
    for (running, deadline) in [(true, true), (true, false), (false, true), (false, false)] {
        assert_eq!(
            next_watch_step(WatchEvent::Started, running, deadline),
            WatchStep::Scan
        );
    }
}

#[test]
fn a_watch_looks_at_the_deadline_after_a_scan_only() {
    let after_scan = |r, d| next_watch_step(WatchEvent::Scanned, r, d);
    assert_eq!(after_scan(true, false), WatchStep::Sleep);
    assert_eq!(after_scan(true, true), WatchStep::End);
    assert_eq!(after_scan(false, false), WatchStep::End);
    assert_eq!(after_scan(false, true), WatchStep::End);
    let after_sleep = |r, d| next_watch_step(WatchEvent::Slept, r, d);
    assert_eq!(after_sleep(true, false), WatchStep::Scan);
    assert_eq!(after_sleep(true, true), WatchStep::Scan);
    assert_eq!(after_sleep(false, false), WatchStep::End);
    assert_eq!(after_sleep(false, true), WatchStep::End);
}

#[test]
fn a_watch_scans_and_sleeps_in_turn() {
    // the deadline passes during the second sleep, and the third scan still runs
    let looks = [false, false, false, false, true, true];
    let mut last = WatchEvent::Started;
    let mut steps = Vec::new();
    for deadline in looks {
        let step = next_watch_step(last, true, deadline);
        steps.push(step);
        last = match step {
            WatchStep::Scan => WatchEvent::Scanned,
            WatchStep::Sleep => WatchEvent::Slept,
            WatchStep::End => break,
        };
    }
    assert_eq!(
        steps,
        vec![
            WatchStep::Scan,
            WatchStep::Sleep,
            WatchStep::Scan,
            WatchStep::Sleep,
            WatchStep::Scan,
            WatchStep::End,
        ]
    );
}

#[test]
fn only_a_watch_passes_over_faults() {
    assert!(RunMode::Watch.passes_over_faults());
    assert!(!RunMode::Once.passes_over_faults());
}

#[test]
fn sleeps_go_in_short_steps() {
    assert_eq!(SLEEP_STEP_NANOS, Duration::from_millis(100).as_nanos());
    let total = Duration::from_millis(250).as_nanos();
    let mut slept = 0;
    let mut steps = Vec::new();
    while let Some(step) = next_sleep(total, slept) {
        steps.push(step);
        slept += step;
    }
    assert_eq!(steps, vec![100_000_000, 100_000_000, 50_000_000]);
    assert_eq!(slept, total);
    assert_eq!(next_sleep(0, 0), None);
    assert_eq!(next_sleep(5, 9), None);
}
