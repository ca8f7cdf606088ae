use fav_retention::clock::current_cutoff;
use fav_retention::codec::parse_index;
use fav_retention::codec::persist_action;
use fav_retention::codec::serialize_index;
use fav_retention::codec::PersistAction;
use fav_retention::fetch::FetchAccumulator;
use fav_retention::index::FavoriteIndex;
use fav_retention::index::FavoriteRecord;
use fav_retention::reconcile::DeleteOutcome;
use fav_retention::reconcile::Reconciler;
use fav_retention::timestamp::is_well_formed;
use fav_retention::timestamp::leap_year;
use fav_retention::timestamp::month_length;
use fav_retention::timestamp::prev_day;
use fav_retention::timestamp::retention_cutoff;
use fav_retention::timestamp::ts_before;
use fav_retention::timestamp::Timestamp;

fn ts(year: u32, month: u8, day: u8, hour: u8, minute: u8, second: u8, nanos: u32) -> Timestamp {
    Timestamp { year, month, day, hour, minute, second, nanos }
}

fn rec(t: Timestamp, id: u64) -> FavoriteRecord {
    FavoriteRecord { ts: t, id }
}

fn index_of(records: &[FavoriteRecord]) -> FavoriteIndex {
    let mut idx = FavoriteIndex::new();
    for r in records {
        idx.insert(*r);
    }
    idx
}

fn entries_of(idx: &FavoriteIndex) -> Vec<FavoriteRecord> {
    let mut out = Vec::new();
    let mut i = 0;
    while i < idx.len() {
        out.push(idx.record_at(i));
        i += 1;
    }
    out
}

/// Drives a whole deletion pass, answering each target with the next
/// scripted outcome; returns the residual index and whether it aborted.
fn run_pass(idx: FavoriteIndex, cutoff: Timestamp, outcomes: &[DeleteOutcome]) -> (FavoriteIndex, bool, Vec<u64>) {
    let mut attempted = Vec::new();
    let mut pass = Reconciler::new(idx, cutoff);
    let mut k = 0;
    while !pass.done() {
        let target = pass.next_target().expect("a target while not done");
        attempted.push(target.id);
        pass.record_outcome(outcomes[k]);
        k += 1;
    }
    let aborted = pass.was_aborted();
    (pass.residual(), aborted, attempted)
}

#[test]
fn timestamp_order_is_chronological() {
    let a = ts(2023, 12, 31, 23, 59, 59, 999_999_999);
    let b = ts(2024, 1, 1, 0, 0, 0, 0);
    assert!(ts_before(&a, &b));
    assert!(!ts_before(&b, &a));
    assert!(!ts_before(&a, &a));
    let c = ts(2024, 1, 1, 0, 0, 0, 1);
    assert!(ts_before(&b, &c));
}

#[test]
fn calendar_facts() {
    assert!(leap_year(2000));
    assert!(!leap_year(1900));
    assert!(leap_year(2024));
    assert!(!leap_year(2023));
    assert_eq!(month_length(2024, 2), 29);
    assert_eq!(month_length(2023, 2), 28);
    assert_eq!(month_length(2024, 4), 30);
    assert_eq!(month_length(2024, 12), 31);
    assert!(is_well_formed(&ts(2024, 2, 29, 0, 0, 0, 0)));
    assert!(!is_well_formed(&ts(2023, 2, 29, 0, 0, 0, 0)));
    assert!(!is_well_formed(&ts(2024, 13, 1, 0, 0, 0, 0)));
    assert!(!is_well_formed(&ts(2024, 1, 1, 24, 0, 0, 0)));
    assert!(!is_well_formed(&ts(2024, 1, 1, 0, 0, 0, 1_000_000_000)));
}

#[test]
fn previous_day_crosses_months_and_years() {
    let d = prev_day(&ts(2024, 3, 1, 12, 0, 0, 0));
    assert_eq!((d.year, d.month, d.day, d.hour), (2024, 2, 29, 12));
    let d = prev_day(&ts(2023, 3, 1, 0, 0, 0, 0));
    assert_eq!((d.year, d.month, d.day), (2023, 2, 28));
    let d = prev_day(&ts(2024, 1, 1, 0, 0, 0, 0));
    assert_eq!((d.year, d.month, d.day), (2023, 12, 31));
}

#[test]
fn retention_cutoff_exact_values() {
    // 2024 is a leap year: 2024-01-01 plus 90 days is 2024-03-31.
    let c = retention_cutoff(&ts(2024, 3, 31, 6, 30, 15, 123));
    assert_eq!((c.year, c.month, c.day), (2024, 1, 1));
    assert_eq!((c.hour, c.minute, c.second, c.nanos), (6, 30, 15, 123));
    // 2023 is not: 2023-03-31 minus 90 days is 2022-12-31.
    let c = retention_cutoff(&ts(2023, 3, 31, 0, 0, 0, 0));
    assert_eq!((c.year, c.month, c.day), (2022, 12, 31));
}

#[test]
fn current_cutoff_is_well_formed() {
    let c = current_cutoff().expect("the system clock reads as a calendar date");
    assert!(is_well_formed(&c));
    assert!(c.year >= 2000);
}

#[test]
fn insert_keeps_ascending_order_and_overwrites_equal_keys() {
    let t1 = ts(2024, 1, 1, 0, 0, 0, 0);
    let t2 = ts(2024, 1, 2, 0, 0, 0, 0);
    let t3 = ts(2024, 1, 3, 0, 0, 0, 0);
    let idx = index_of(&[rec(t3, 3), rec(t1, 1), rec(t2, 2)]);
    let e = entries_of(&idx);
    assert_eq!(e.len(), 3);
    assert_eq!((e[0].id, e[1].id, e[2].id), (1, 2, 3));
    // The later insertion with an identical timestamp silently wins.
    let idx = index_of(&[rec(t1, 1), rec(t2, 2), rec(t1, 9)]);
    let e = entries_of(&idx);
    assert_eq!(e.len(), 2);
    assert_eq!(e[0].id, 9);
    assert_eq!(e[1].id, 2);
}

#[test]
fn cutoff_boundary_is_strict() {
    let cutoff = ts(2024, 1, 1, 0, 0, 0, 500);
    let at_cutoff = rec(cutoff, 10);
    let just_before = rec(ts(2024, 1, 1, 0, 0, 0, 499), 11);
    let idx = index_of(&[at_cutoff, just_before]);
    let (residual, aborted, attempted) =
        run_pass(idx, cutoff, &[DeleteOutcome::Succeeded]);
    assert!(!aborted);
    // One nanosecond before the cutoff: selected. Exactly at it: retained.
    assert_eq!(attempted, vec![11]);
    let e = entries_of(&residual);
    assert_eq!(e.len(), 1);
    assert_eq!(e[0].id, 10);
}

#[test]
fn noop_run_is_idempotent() {
    let cutoff = ts(2024, 1, 1, 0, 0, 0, 0);
    let recs = [
        rec(ts(2024, 2, 1, 0, 0, 0, 0), 1),
        rec(ts(2024, 3, 1, 0, 0, 0, 0), 2),
    ];
    let (res1, aborted1, attempted1) = run_pass(index_of(&recs), cutoff, &[]);
    assert!(!aborted1);
    assert!(attempted1.is_empty());
    // Second run over the same snapshot: same calls (none), same residual.
    let (res2, aborted2, attempted2) = run_pass(index_of(&recs), cutoff, &[]);
    assert!(!aborted2);
    assert_eq!(attempted1, attempted2);
    assert_eq!(entries_of(&res1), entries_of(&res2));
    assert_eq!(entries_of(&res1), entries_of(&index_of(&recs)));
}

#[test]
fn empty_residual_removes_the_file() {
    let cutoff = ts(2024, 6, 1, 0, 0, 0, 0);
    let recs = [
        rec(ts(2024, 1, 1, 0, 0, 0, 0), 1),
        rec(ts(2024, 2, 1, 0, 0, 0, 0), 2),
    ];
    let (residual, aborted, attempted) = run_pass(
        index_of(&recs),
        cutoff,
        &[DeleteOutcome::Succeeded, DeleteOutcome::Succeeded],
    );
    assert!(!aborted);
    assert_eq!(attempted, vec![1, 2]);
    assert!(residual.is_empty());
    match persist_action(&residual) {
        PersistAction::RemoveFile => {}
        PersistAction::WriteFile(_) => panic!("an empty residual must remove the file"),
    }
}

#[test]
fn already_gone_counts_as_handled() {
    let cutoff = ts(2024, 6, 1, 0, 0, 0, 0);
    let recs = [rec(ts(2024, 1, 1, 0, 0, 0, 0), 7)];
    let (residual, aborted, attempted) =
        run_pass(index_of(&recs), cutoff, &[DeleteOutcome::NotFound]);
    assert!(!aborted);
    assert_eq!(attempted, vec![7]);
    assert!(residual.is_empty());
    // Exactly as if the deletion had succeeded.
    let (residual2, aborted2, _) =
        run_pass(index_of(&recs), cutoff, &[DeleteOutcome::Succeeded]);
    assert!(!aborted2);
    assert_eq!(entries_of(&residual), entries_of(&residual2));
}

#[test]
fn fatal_error_aborts_with_partial_persistence() {
    let cutoff = ts(2024, 6, 1, 0, 0, 0, 0);
    let recs = [
        rec(ts(2024, 1, 1, 0, 0, 0, 0), 1),
        rec(ts(2024, 2, 1, 0, 0, 0, 0), 2),
        rec(ts(2024, 3, 1, 0, 0, 0, 0), 3),
    ];
    let (residual, aborted, attempted) = run_pass(
        index_of(&recs),
        cutoff,
        &[DeleteOutcome::Succeeded, DeleteOutcome::Failed],
    );
    assert!(aborted);
    // The third entry was never attempted.
    assert_eq!(attempted, vec![1, 2]);
    // The first entry is gone; the failing second and untouched third stay.
    let e = entries_of(&residual);
    assert_eq!(e.len(), 2);
    assert_eq!((e[0].id, e[1].id), (2, 3));
    // And that partial progress is what gets persisted.
    match persist_action(&residual) {
        PersistAction::WriteFile(bytes) => {
            let back = parse_index(&bytes).expect("own bytes parse");
            let b = entries_of(&back);
            assert_eq!(b.len(), 2);
            assert_eq!((b[0].id, b[1].id), (2, 3));
        }
        PersistAction::RemoveFile => panic!("two entries remain to persist"),
    }
}

#[test]
fn fetch_stops_on_first_empty_page() {
    let mut acc = FetchAccumulator::new();
    let page1 = vec![
        rec(ts(2024, 2, 1, 0, 0, 0, 0), 2),
        rec(ts(2024, 1, 1, 0, 0, 0, 0), 1),
    ];
    let page2 = vec![rec(ts(2024, 3, 1, 0, 0, 0, 0), 3)];
    assert!(acc.add_page(&page1));
    assert!(!acc.is_done());
    assert!(acc.add_page(&page2));
    assert!(!acc.is_done());
    let empty: Vec<FavoriteRecord> = Vec::new();
    assert!(!acc.add_page(&empty));
    assert!(acc.is_done());
    let idx = acc.into_index();
    let e = entries_of(&idx);
    assert_eq!(e.len(), 3);
    assert_eq!((e[0].id, e[1].id, e[2].id), (1, 2, 3));
}

#[test]
fn roundtrip_empty() {
    let idx = FavoriteIndex::new();
    let bytes = serialize_index(&idx);
    assert!(bytes.is_empty());
    let back = parse_index(&bytes).expect("empty file is a valid cache");
    assert!(back.is_empty());
}

#[test]
fn roundtrip_one() {
    let idx = index_of(&[rec(ts(2024, 2, 29, 23, 59, 59, 123_456_789), u64::MAX)]);
    let bytes = serialize_index(&idx);
    assert_eq!(bytes.len(), 52);
    let line = String::from_utf8(bytes.clone()).unwrap();
    assert_eq!(line, "2024-02-29T23:59:59.123456789Z 18446744073709551615\n");
    let back = parse_index(&bytes).expect("own bytes parse");
    assert_eq!(entries_of(&back), entries_of(&idx));
}

#[test]
fn roundtrip_hundred() {
    let mut recs = Vec::new();
    for i in 0..100u32 {
        let t = ts(
            2023,
            1 + (i % 12) as u8,
            1 + (i % 28) as u8,
            (i % 24) as u8,
            (i % 60) as u8,
            ((i * 7) % 60) as u8,
            i * 9_999_991,
        );
        recs.push(rec(t, 1_000_000 + i as u64));
    }
    let idx = index_of(&recs);
    let n = idx.len();
    let bytes = serialize_index(&idx);
    assert_eq!(bytes.len(), n * 52);
    let back = parse_index(&bytes).expect("own bytes parse");
    assert_eq!(entries_of(&back), entries_of(&idx));
}

#[test]
fn corrupt_cache_is_rejected() {
    // Truncated record.
    let idx = index_of(&[rec(ts(2024, 1, 1, 0, 0, 0, 0), 1)]);
    let mut bytes = serialize_index(&idx);
    bytes.pop();
    assert!(parse_index(&bytes).is_none());
    // A separator replaced.
    let mut bytes = serialize_index(&idx);
    bytes[4] = b'/';
    assert!(parse_index(&bytes).is_none());
    // A digit replaced by a letter.
    let mut bytes = serialize_index(&idx);
    bytes[0] = b'x';
    assert!(parse_index(&bytes).is_none());
    // An invalid calendar date (month 13).
    let mut bytes = serialize_index(&idx);
    bytes[5] = b'1';
    bytes[6] = b'3';
    assert!(parse_index(&bytes).is_none());
    // An id too large for 64 bits.
    let line = "2024-01-01T00:00:00.000000000Z 99999999999999999999\n";
    assert!(parse_index(&line.as_bytes().to_vec()).is_none());
    // Out-of-order records.
    let two = index_of(&[
        rec(ts(2024, 1, 1, 0, 0, 0, 0), 1),
        rec(ts(2024, 1, 2, 0, 0, 0, 0), 2),
    ]);
    let good = serialize_index(&two);
    let mut swapped: Vec<u8> = Vec::new();
    swapped.extend_from_slice(&good[52..]);
    swapped.extend_from_slice(&good[..52]);
    assert!(parse_index(&swapped).is_none());
    // Arbitrary junk.
    assert!(parse_index(&b"not a cache".to_vec()).is_none());
}
