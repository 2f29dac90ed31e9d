use fs_watch::debounce::{Debouncer, Ingest};
use fs_watch::kinds::{parse_kind_name, parse_kind_names, same_text, EventKind, KindSet};
use fs_watch::pipeline::{Pipeline, RunState, Termination, WatchConfig};
use fs_watch::record::{LogicalEvent, RawKind, RawRecord};

fn rec(kind: RawKind, path: &str) -> RawRecord {
    RawRecord { path: path.to_string(), kind, secondary_path: None, error: None }
}

fn pipeline(quiescence: u64, interested: KindSet) -> Pipeline {
    let config = WatchConfig { root: "/".to_string(), quiescence, interested };
    Pipeline::new(&config, 64)
}

fn feed(p: &mut Pipeline, r: RawRecord, now: u64) -> Vec<LogicalEvent> {
    let mut out = p.on_tick(now);
    let step = p.on_record(r, now);
    out.extend(step.events);
    out
}

fn is(e: &LogicalEvent, kind: EventKind, primary: &str, secondary: Option<&str>) -> bool {
    e.kind == kind && e.primary == primary && e.secondary.as_deref() == secondary
}

#[test]
fn create_then_writes_coalesce_into_one_write() {
    let mut p = pipeline(100, KindSet::all());
    assert!(feed(&mut p, rec(RawKind::Create, "/a"), 0).is_empty());
    assert!(feed(&mut p, rec(RawKind::Write, "/a"), 20).is_empty());
    assert!(feed(&mut p, rec(RawKind::Write, "/a"), 50).is_empty());
    assert_eq!(p.next_deadline(), Some(150));
    assert!(p.on_tick(149).is_empty());
    let out = p.on_tick(150);
    assert_eq!(out.len(), 1);
    assert!(is(&out[0], EventKind::Write, "/a", None));
    assert!(p.on_tick(1000).is_empty());
    assert_eq!(p.next_deadline(), None);
}

#[test]
fn burst_of_writes_gives_one_event() {
    let mut p = pipeline(100, KindSet::all());
    for t in [0u64, 10, 30, 60, 99] {
        assert!(feed(&mut p, rec(RawKind::Write, "/f"), t).is_empty());
    }
    assert!(p.on_tick(198).is_empty());
    let out = p.on_tick(199);
    assert_eq!(out.len(), 1);
    assert!(is(&out[0], EventKind::Write, "/f", None));
}

#[test]
fn spaced_records_give_separate_events() {
    let mut p = pipeline(100, KindSet::all());
    let mut all = Vec::new();
    all.extend(feed(&mut p, rec(RawKind::Write, "/f"), 0));
    all.extend(feed(&mut p, rec(RawKind::Chmod, "/f"), 100));
    all.extend(feed(&mut p, rec(RawKind::Write, "/f"), 250));
    all.extend(p.on_tick(350));
    assert_eq!(all.len(), 3);
    assert!(is(&all[0], EventKind::Write, "/f", None));
    assert!(is(&all[1], EventKind::Chmod, "/f", None));
    assert!(is(&all[2], EventKind::Write, "/f", None));
}

#[test]
fn rename_halves_pair_into_one_rename() {
    let mut p = pipeline(100, KindSet::all());
    assert!(feed(&mut p, rec(RawKind::RenameFrom, "/a"), 0).is_empty());
    assert!(feed(&mut p, rec(RawKind::RenameTo, "/b"), 10).is_empty());
    let out = p.on_tick(110);
    assert_eq!(out.len(), 1);
    assert!(is(&out[0], EventKind::Rename, "/a", Some("/b")));
    assert!(p.on_tick(10_000).is_empty());
}

#[test]
fn rename_source_with_destination_is_a_rename() {
    let mut p = pipeline(100, KindSet::all());
    let r = RawRecord {
        path: "/a".to_string(),
        kind: RawKind::RenameFrom,
        secondary_path: Some("/b".to_string()),
        error: None,
    };
    assert!(feed(&mut p, r, 0).is_empty());
    let out = p.on_tick(100);
    assert_eq!(out.len(), 1);
    assert!(is(&out[0], EventKind::Rename, "/a", Some("/b")));
}

#[test]
fn lone_rename_source_becomes_remove() {
    let mut p = pipeline(100, KindSet::all());
    assert!(feed(&mut p, rec(RawKind::RenameFrom, "/a"), 0).is_empty());
    let out = p.on_tick(100);
    assert_eq!(out.len(), 1);
    assert!(is(&out[0], EventKind::Remove, "/a", None));
}

#[test]
fn lone_rename_destination_becomes_create() {
    let mut p = pipeline(100, KindSet::all());
    assert!(feed(&mut p, rec(RawKind::RenameTo, "/b"), 0).is_empty());
    let out = p.on_tick(100);
    assert_eq!(out.len(), 1);
    assert!(is(&out[0], EventKind::Create, "/b", None));
}

#[test]
fn rename_destination_after_window_does_not_pair() {
    let mut p = pipeline(100, KindSet::all());
    let mut all = Vec::new();
    all.extend(feed(&mut p, rec(RawKind::RenameFrom, "/a"), 0));
    all.extend(feed(&mut p, rec(RawKind::RenameTo, "/b"), 100));
    all.extend(p.on_tick(200));
    assert_eq!(all.len(), 2);
    assert!(is(&all[0], EventKind::Remove, "/a", None));
    assert!(is(&all[1], EventKind::Create, "/b", None));
}

#[test]
fn rescan_resets_rename_correlation() {
    let mut p = pipeline(100, KindSet::all());
    assert!(feed(&mut p, rec(RawKind::RenameFrom, "/a"), 0).is_empty());
    let step = p.on_record(rec(RawKind::Rescan, ""), 1);
    assert!(step.events.is_empty() && step.error.is_none());
    assert!(feed(&mut p, rec(RawKind::RenameTo, "/b"), 2).is_empty());
    let out = p.on_tick(102);
    assert_eq!(out.len(), 2);
    assert!(is(&out[0], EventKind::Remove, "/a", None));
    assert!(is(&out[1], EventKind::Create, "/b", None));
}

#[test]
fn notices_alone_give_nothing() {
    let mut p = pipeline(100, KindSet::all());
    assert!(feed(&mut p, rec(RawKind::NoticeWrite, "/a"), 0).is_empty());
    assert!(feed(&mut p, rec(RawKind::NoticeRemove, "/b"), 0).is_empty());
    assert_eq!(p.next_deadline(), Some(100));
    assert!(p.on_tick(100).is_empty());
}

#[test]
fn notice_refreshes_deadline_but_keeps_kind() {
    let mut p = pipeline(100, KindSet::all());
    assert!(feed(&mut p, rec(RawKind::Write, "/a"), 0).is_empty());
    assert!(feed(&mut p, rec(RawKind::NoticeRemove, "/a"), 50).is_empty());
    assert!(p.on_tick(100).is_empty());
    let out = p.on_tick(150);
    assert_eq!(out.len(), 1);
    assert!(is(&out[0], EventKind::Write, "/a", None));
}

#[test]
fn later_kind_wins() {
    let mut p = pipeline(100, KindSet::all());
    feed(&mut p, rec(RawKind::Create, "/a"), 0);
    feed(&mut p, rec(RawKind::Chmod, "/a"), 1);
    feed(&mut p, rec(RawKind::Remove, "/a"), 2);
    let out = p.on_tick(102);
    assert_eq!(out.len(), 1);
    assert!(is(&out[0], EventKind::Remove, "/a", None));
}

#[test]
fn error_record_goes_to_side_channel() {
    let mut p = pipeline(100, KindSet::all());
    let r = RawRecord {
        path: "/x".to_string(),
        kind: RawKind::Error,
        secondary_path: None,
        error: Some("disk full".to_string()),
    };
    let step = p.on_record(r, 0);
    assert!(step.events.is_empty());
    let e = step.error.unwrap();
    assert_eq!(e.message, "disk full");
    assert_eq!(e.path.as_deref(), Some("/x"));
    assert_eq!(p.next_deadline(), None);
    assert!(p.on_tick(1000).is_empty());
    assert_eq!(p.state(), RunState::Running);
}

#[test]
fn error_record_without_path() {
    let mut p = pipeline(100, KindSet::all());
    let r = RawRecord { path: String::new(), kind: RawKind::Error, secondary_path: None, error: Some("boom".to_string()) };
    let e = p.on_record(r, 0).error.unwrap();
    assert_eq!(e.message, "boom");
    assert!(e.path.is_none());
}

#[test]
fn closed_source_is_fatal() {
    let mut p = pipeline(100, KindSet::all());
    feed(&mut p, rec(RawKind::Write, "/a"), 0);
    let t = p.on_source_closed();
    assert_eq!(t, Termination::Fatal);
    assert_eq!(t.exit_code(), 1);
    assert_eq!(p.state(), RunState::Terminated(Termination::Fatal));
    assert!(p.on_tick(1000).is_empty());
    let step = p.on_record(rec(RawKind::Write, "/a"), 1000);
    assert!(step.events.is_empty() && step.error.is_none());
}

#[test]
fn interrupt_drops_pending_entries() {
    let mut p = pipeline(100, KindSet::all());
    feed(&mut p, rec(RawKind::Write, "/a"), 0);
    let t = p.on_interrupt();
    assert_eq!(t, Termination::UserRequested);
    assert_eq!(t.exit_code(), 0);
    assert_eq!(p.next_deadline(), None);
    assert!(p.on_tick(1000).is_empty());
}

#[test]
fn write_only_filter() {
    let mut p = pipeline(10, KindSet::single(EventKind::Write));
    feed(&mut p, rec(RawKind::Create, "/c"), 0);
    feed(&mut p, rec(RawKind::Write, "/w"), 0);
    feed(&mut p, rec(RawKind::Chmod, "/m"), 0);
    feed(&mut p, rec(RawKind::Remove, "/r"), 0);
    feed(&mut p, rec(RawKind::RenameFrom, "/from"), 0);
    feed(&mut p, rec(RawKind::RenameTo, "/to"), 0);
    let out = p.on_tick(10);
    assert_eq!(out.len(), 1);
    assert!(is(&out[0], EventKind::Write, "/w", None));
}

fn sample_events() -> Vec<LogicalEvent> {
    let kinds = [EventKind::Create, EventKind::Write, EventKind::Chmod, EventKind::Remove, EventKind::Write];
    let mut v: Vec<LogicalEvent> =
        kinds.iter().map(|k| LogicalEvent { kind: *k, primary: format!("/{:?}", k), secondary: None }).collect();
    v.push(LogicalEvent { kind: EventKind::Rename, primary: "/a".to_string(), secondary: Some("/b".to_string()) });
    v
}

#[test]
fn filter_events_write_only() {
    let events = sample_events();
    let out = KindSet::single(EventKind::Write).filter_events(&events);
    assert_eq!(out.len(), 2);
    assert!(out.iter().all(|e| e.kind == EventKind::Write && e.primary == "/Write"));
    let kept = KindSet::single(EventKind::Write).keep_event(events[1].duplicate()).unwrap();
    assert!(is(&kept, EventKind::Write, "/Write", None));
    assert!(KindSet::single(EventKind::Write).keep_event(events[5].duplicate()).is_none());
}

#[test]
fn all_kinds_pass_everything() {
    let events = sample_events();
    let out = KindSet::all().filter_events(&events);
    assert_eq!(out.len(), events.len());
    for (a, b) in out.iter().zip(events.iter()) {
        assert!(a.kind == b.kind && a.primary == b.primary && a.secondary == b.secondary);
    }
    assert!(KindSet::empty().filter_events(&events).is_empty());
}

#[test]
fn kind_names() {
    assert_eq!(parse_kind_name("all"), Some(KindSet::all()));
    assert_eq!(parse_kind_name("create"), Some(KindSet::single(EventKind::Create)));
    assert_eq!(parse_kind_name("rename"), Some(KindSet::single(EventKind::Rename)));
    assert_eq!(parse_kind_name("Write"), None);
    assert_eq!(parse_kind_name(""), None);
    let names = vec!["write".to_string(), "chmod".to_string()];
    let k = parse_kind_names(&names).unwrap();
    assert!(k.contains(EventKind::Write) && k.contains(EventKind::Chmod));
    assert!(!k.contains(EventKind::Create) && !k.contains(EventKind::Remove) && !k.contains(EventKind::Rename));
    let bad = vec!["write".to_string(), "delete".to_string()];
    assert_eq!(parse_kind_names(&bad), None);
    assert_eq!(parse_kind_names(&vec!["all".to_string()]), Some(KindSet::all()));
}

#[test]
fn kind_set_insert() {
    let mut k = KindSet::empty();
    assert!(!k.contains(EventKind::Remove));
    k.insert(EventKind::Remove);
    assert!(k.contains(EventKind::Remove));
    assert!(!k.contains(EventKind::Write));
    assert_eq!(k.union_with(KindSet::single(EventKind::Write)), {
        let mut j = k;
        j.insert(EventKind::Write);
        j
    });
}

#[test]
fn text_comparison() {
    assert!(same_text("abc", "abc"));
    assert!(!same_text("abc", "abd"));
    assert!(!same_text("abc", "ab"));
    assert!(same_text("", ""));
}

#[test]
fn full_table_forces_out_earliest() {
    let mut d = Debouncer::new(100, 2);
    assert!(matches!(d.ingest(rec(RawKind::Write, "/a"), 0), Ingest::Held));
    assert!(matches!(d.ingest(rec(RawKind::Write, "/b"), 5), Ingest::Held));
    assert!(matches!(d.ingest(rec(RawKind::Write, "/a"), 10), Ingest::Held));
    match d.ingest(rec(RawKind::Create, "/c"), 20) {
        Ingest::Flushed(e) => {
            assert_eq!(e.path, "/b");
            assert_eq!(e.kind, RawKind::Write);
            assert_eq!(e.deadline, 105);
        }
        _ => panic!("expected a forced flush"),
    }
    assert_eq!(d.len(), 2);
}

#[test]
fn pipeline_reports_forced_out_entry() {
    let config = WatchConfig { root: "/".to_string(), quiescence: 100, interested: KindSet::all() };
    let mut p = Pipeline::new(&config, 1);
    assert!(p.on_record(rec(RawKind::Chmod, "/a"), 0).events.is_empty());
    let step = p.on_record(rec(RawKind::Write, "/b"), 1);
    assert_eq!(step.events.len(), 1);
    assert!(is(&step.events[0], EventKind::Chmod, "/a", None));
}

#[test]
fn deadline_saturates() {
    let mut d = Debouncer::new(100, 4);
    d.ingest(rec(RawKind::Write, "/a"), u64::MAX - 10);
    assert_eq!(d.next_deadline(), Some(u64::MAX));
    let due = d.sweep(u64::MAX);
    assert_eq!(due.len(), 1);
    assert_eq!(d.len(), 0);
}

#[test]
fn zero_capacity_is_one() {
    let mut d = Debouncer::new(10, 0);
    d.ingest(rec(RawKind::Write, "/a"), 0);
    assert!(matches!(d.ingest(rec(RawKind::Write, "/b"), 0), Ingest::Flushed(_)));
}
