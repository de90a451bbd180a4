use uptime::config::{check_entries, deser_duration, Config, ConfigError, Entry, PollInterval};
use uptime::poll::{
    classify_status, StatusClass, poll_statuses_once, status_code_of, tick_observations, Poller, PollerAction, PollerEvent,
    PollerPhase, ProbeOutcome, ProbeResult, PROBE_FAILED,
};
use uptime::store::{
    init_statuses, probe_target_of, stale_entries, EntryKey, Observation, Store, StoreError,
    StoredEntry,
};

fn entry(name: &str, public_url: &str, polling_url: Option<&str>) -> Entry {
    Entry {
        name: name.to_string(),
        public_url: public_url.to_string(),
        polling_url: polling_url.map(|u| u.to_string()),
    }
}

fn find<'a>(store: &'a Store, name: &str) -> &'a StoredEntry {
    store
        .entries()
        .iter()
        .find(|e| e.name == name)
        .expect("entry missing")
}

fn id_of(store: &Store, name: &str) -> i64 {
    find(store, name).id
}

fn names(store: &Store) -> Vec<String> {
    let mut n: Vec<String> = store.entries().iter().map(|e| e.name.clone()).collect();
    n.sort();
    n
}

fn probe_all(store: &Store, outcome: impl Fn(&str) -> ProbeOutcome) -> Vec<ProbeResult> {
    store
        .probe_targets()
        .iter()
        .map(|t| ProbeResult { entry_id: t.entry_id, outcome: outcome(&t.url) })
        .collect()
}

#[test]
fn test_poll_interval_parsing() {
    let parsed = deser_duration(Some("1 hour")).expect("Failed to parse config");
    assert_eq!(parsed, Some(PollInterval { secs: 3600, nanos: 0 }));
    let absent = deser_duration(None).expect("Failed to parse config");
    assert!(absent.is_none());
}

#[test]
fn poll_interval_with_subsecond_part() {
    let parsed = deser_duration(Some("1.5s")).unwrap();
    assert_eq!(parsed, Some(PollInterval { secs: 1, nanos: 500_000_000 }));
}

#[test]
fn poll_interval_rejects_text_without_value() {
    match deser_duration(Some("soon")) {
        Err(ConfigError::InvalidPollInterval(t)) => assert_eq!(t, "soon"),
        _ => panic!("expected an invalid interval"),
    }
}

#[test]
fn poll_interval_defaults_to_thirty_seconds() {
    let config = Config { poll_interval: None, entries: vec![] };
    assert_eq!(config.poll_interval_or_default(), PollInterval { secs: 30, nanos: 0 });
    let config = Config { poll_interval: Some(PollInterval { secs: 5, nanos: 0 }), entries: vec![] };
    assert_eq!(config.poll_interval_or_default(), PollInterval { secs: 5, nanos: 0 });
}

#[test]
fn duplicate_names_are_rejected() {
    let entries = vec![
        entry("a", "http://a.example", None),
        entry("b", "http://b.example", None),
        entry("a", "http://other.example", None),
    ];
    match check_entries(&entries) {
        Err(ConfigError::DuplicateName(n)) => assert_eq!(n, "a"),
        _ => panic!("expected a duplicate name"),
    }
    assert!(check_entries(&entries[..2].to_vec()).is_ok());
    assert!(check_entries(&vec![]).is_ok());
}

#[test]
fn reconcile_is_idempotent() {
    let mut store = Store::new();
    let cfg = vec![entry("a", "http://a.example", None), entry("b", "http://b.example", Some("http://internal-b"))];
    init_statuses(&mut store, &cfg).unwrap();
    let before: Vec<(i64, String, String, Option<String>)> = store
        .entries()
        .iter()
        .map(|e| (e.id, e.name.clone(), e.public_url.clone(), e.polling_url.clone()))
        .collect();
    init_statuses(&mut store, &cfg).unwrap();
    let after: Vec<(i64, String, String, Option<String>)> = store
        .entries()
        .iter()
        .map(|e| (e.id, e.name.clone(), e.public_url.clone(), e.polling_url.clone()))
        .collect();
    assert_eq!(before, after);
}

#[test]
fn upsert_preserves_identity_and_history() {
    let mut store = Store::new();
    init_statuses(&mut store, &vec![entry("a", "http://a.example", None)]).unwrap();
    let id = id_of(&store, "a");
    let results = probe_all(&store, |_| ProbeOutcome::Response(200));
    poll_statuses_once(&mut store, &results, 100).unwrap();
    init_statuses(&mut store, &vec![entry("a", "http://a2.example", None)]).unwrap();
    assert_eq!(id_of(&store, "a"), id);
    assert_eq!(find(&store, "a").public_url, "http://a2.example");
    let details = store.get_status_details(id).unwrap();
    assert_eq!(details.history.len(), 1);
    assert_eq!(details.history[0].status, 200);
    assert_eq!(details.history[0].poll_time, 100);
}

#[test]
fn deletion_cascades_to_history() {
    let mut store = Store::new();
    init_statuses(&mut store, &vec![entry("a", "http://a.example", None), entry("b", "http://b.example", None)])
        .unwrap();
    let old_id = id_of(&store, "b");
    let results = probe_all(&store, |_| ProbeOutcome::Response(200));
    poll_statuses_once(&mut store, &results, 1).unwrap();
    assert_eq!(store.history().len(), 2);
    init_statuses(&mut store, &vec![entry("a", "http://a.example", None)]).unwrap();
    assert_eq!(names(&store), vec!["a".to_string()]);
    assert!(store.get_status_details(old_id).is_none());
    assert!(store.history().iter().all(|h| h.entry_id != old_id));
    assert_eq!(store.history().len(), 1);
}

#[test]
fn empty_configuration_removes_everything() {
    let mut store = Store::new();
    init_statuses(&mut store, &vec![entry("a", "http://a.example", None), entry("b", "http://b.example", None)])
        .unwrap();
    let results = probe_all(&store, |_| ProbeOutcome::Response(204));
    poll_statuses_once(&mut store, &results, 1).unwrap();
    init_statuses(&mut store, &vec![]).unwrap();
    assert!(store.entries().is_empty());
    assert!(store.history().is_empty());
}

#[test]
fn insertion_is_additive() {
    let mut store = Store::new();
    let mut cfg = vec![entry("a", "http://a.example", None), entry("b", "http://b.example", None)];
    init_statuses(&mut store, &cfg).unwrap();
    let results = probe_all(&store, |_| ProbeOutcome::Response(200));
    poll_statuses_once(&mut store, &results, 7).unwrap();
    let (a, b) = (id_of(&store, "a"), id_of(&store, "b"));
    let history_before = store.history().clone();
    cfg.push(entry("c", "http://c.example", None));
    init_statuses(&mut store, &cfg).unwrap();
    assert_eq!(store.entries().len(), 3);
    assert_eq!((id_of(&store, "a"), id_of(&store, "b")), (a, b));
    let c = id_of(&store, "c");
    assert!(c != a && c != b);
    assert_eq!(store.history(), &history_before);
}

#[test]
fn probe_failure_is_isolated() {
    let mut store = Store::new();
    init_statuses(
        &mut store,
        &vec![
            entry("a", "http://a.example", None),
            entry("b", "http://b.example", None),
            entry("down", "http://unreachable.invalid", None),
        ],
    )
    .unwrap();
    let results = probe_all(&store, |url| {
        if url == "http://unreachable.invalid" {
            ProbeOutcome::Failed
        } else if url == "http://a.example" {
            ProbeOutcome::Response(200)
        } else {
            ProbeOutcome::Response(404)
        }
    });
    poll_statuses_once(&mut store, &results, 50).unwrap();
    assert_eq!(store.history().len(), 3);
    let status = |name: &str| {
        let id = id_of(&store, name);
        store.history().iter().find(|h| h.entry_id == id).unwrap().status_code
    };
    assert_eq!(status("a"), 200);
    assert_eq!(status("b"), 404);
    assert_eq!(status("down"), PROBE_FAILED);
    assert!(store.history().iter().all(|h| h.observed_at == 50));
}

#[test]
fn failed_tick_commit_leaves_no_record() {
    let mut store = Store::new();
    init_statuses(&mut store, &vec![entry("a", "http://a.example", None), entry("b", "http://b.example", None)])
        .unwrap();
    let results = probe_all(&store, |_| ProbeOutcome::Response(200));
    let b = id_of(&store, "b");
    // b is removed while the tick runs
    init_statuses(&mut store, &vec![entry("a", "http://a.example", None)]).unwrap();
    assert_eq!(poll_statuses_once(&mut store, &results, 3), Err(StoreError::MissingEntry(b)));
    assert!(store.history().is_empty());
}

#[test]
fn end_to_end_scenario() {
    let mut store = Store::new();
    init_statuses(
        &mut store,
        &vec![entry("a", "http://a.example", None), entry("b", "http://b.example", Some("http://internal-b"))],
    )
    .unwrap();
    assert_eq!(names(&store), vec!["a".to_string(), "b".to_string()]);
    let targets = store.probe_targets();
    let b = id_of(&store, "b");
    assert_eq!(targets.iter().find(|t| t.entry_id == b).unwrap().url, "http://internal-b");
    let results = probe_all(&store, |url| match url {
        "http://a.example" => ProbeOutcome::Response(200),
        "http://internal-b" => ProbeOutcome::Response(503),
        _ => ProbeOutcome::Failed,
    });
    poll_statuses_once(&mut store, &results, 10).unwrap();
    let mut rows: Vec<(String, i64)> = store
        .history()
        .iter()
        .map(|h| {
            let e = store.entries().iter().find(|e| e.id == h.entry_id).unwrap();
            (e.name.clone(), h.status_code)
        })
        .collect();
    rows.sort();
    assert_eq!(rows, vec![("a".to_string(), 200), ("b".to_string(), 503)]);
}

#[test]
fn status_details_are_newest_first() {
    let mut store = Store::new();
    init_statuses(&mut store, &vec![entry("a", "http://a.example", None)]).unwrap();
    let id = id_of(&store, "a");
    for (t, code) in [(1, 200), (2, 500), (3, 301)] {
        poll_statuses_once(&mut store, &vec![ProbeResult { entry_id: id, outcome: ProbeOutcome::Response(code) }], t)
            .unwrap();
    }
    let d = store.get_status_details(id).unwrap();
    assert_eq!(d.name, "a");
    assert_eq!(d.public_url, "http://a.example");
    let seen: Vec<(i64, i64)> = d.history.iter().map(|h| (h.status, h.poll_time)).collect();
    assert_eq!(seen, vec![(301, 3), (500, 2), (200, 1)]);
    assert!(store.get_status_details(id + 100).is_none());
}

#[test]
fn status_codes_of_outcomes() {
    assert_eq!(status_code_of(ProbeOutcome::Response(503)), 503);
    assert_eq!(status_code_of(ProbeOutcome::Response(200)), 200);
    assert_eq!(status_code_of(ProbeOutcome::Failed), -1);
    let obs = tick_observations(&vec![
        ProbeResult { entry_id: 4, outcome: ProbeOutcome::Failed },
        ProbeResult { entry_id: 9, outcome: ProbeOutcome::Response(302) },
    ]);
    assert_eq!(obs, vec![Observation { entry_id: 4, status_code: -1 }, Observation { entry_id: 9, status_code: 302 }]);
}

#[test]
fn commit_tick_appends_stamped_records() {
    let mut store = Store::new();
    init_statuses(&mut store, &vec![entry("a", "http://a.example", None)]).unwrap();
    let id = id_of(&store, "a");
    store.commit_tick(&vec![Observation { entry_id: id, status_code: 418 }], 99).unwrap();
    assert_eq!(store.history().len(), 1);
    assert_eq!(store.history()[0].status_code, 418);
    assert_eq!(store.history()[0].observed_at, 99);
    assert_eq!(store.commit_tick(&vec![Observation { entry_id: id + 1, status_code: 200 }], 100), Err(StoreError::MissingEntry(id + 1)));
    assert_eq!(store.history().len(), 1);
}

#[test]
fn probe_target_prefers_polling_url() {
    let e = StoredEntry {
        id: 3,
        name: "x".to_string(),
        public_url: "http://public".to_string(),
        polling_url: Some("http://internal".to_string()),
    };
    assert_eq!(probe_target_of(&e).url, "http://internal");
    let e = StoredEntry { polling_url: None, ..e };
    assert_eq!(probe_target_of(&e).url, "http://public");
    assert_eq!(probe_target_of(&e).entry_id, 3);
}

#[test]
fn stale_entries_are_the_unconfigured_ones() {
    let existing = vec![
        EntryKey { id: 1, name: "a".to_string() },
        EntryKey { id: 2, name: "gone".to_string() },
        EntryKey { id: 3, name: "b".to_string() },
        EntryKey { id: 4, name: "old".to_string() },
    ];
    let cfg = vec![entry("b", "http://b", None), entry("a", "http://a", None), entry("new", "http://n", None)];
    assert_eq!(stale_entries(&existing, &cfg), vec![2, 4]);
    assert_eq!(stale_entries(&existing, &vec![]), vec![1, 2, 3, 4]);
}

#[test]
fn new_ids_are_fresh_after_removal() {
    let mut store = Store::new();
    init_statuses(&mut store, &vec![entry("a", "http://a", None)]).unwrap();
    let a = id_of(&store, "a");
    init_statuses(&mut store, &vec![entry("b", "http://b", None)]).unwrap();
    assert!(id_of(&store, "b") != a);
}

#[test]
fn poller_runs_ticks_until_cancelled() {
    let interval = PollInterval { secs: 30, nanos: 0 };
    let mut p = Poller::new(interval);
    assert_eq!(p.phase, PollerPhase::Idle);
    assert_eq!(p.on_event(PollerEvent::Start), PollerAction::Poll);
    assert_eq!(p.on_event(PollerEvent::TickDone(true)), PollerAction::Sleep(interval));
    assert_eq!(p.on_event(PollerEvent::Woke), PollerAction::Poll);
    assert_eq!(p.on_event(PollerEvent::TickDone(false)), PollerAction::ReportAndSleep(interval));
    assert_eq!(p.phase, PollerPhase::Sleeping);
    assert_eq!(p.on_event(PollerEvent::Start), PollerAction::Ignore);
    assert_eq!(p.on_event(PollerEvent::Woke), PollerAction::Poll);
    assert_eq!(p.on_event(PollerEvent::Cancel), PollerAction::Stop);
    assert_eq!(p.on_event(PollerEvent::Woke), PollerAction::Stop);
    assert_eq!(p.phase, PollerPhase::Stopped);
}

#[test]
fn cancel_interrupts_sleep() {
    let interval = PollInterval { secs: 1, nanos: 250 };
    let mut p = Poller::new(interval);
    p.on_event(PollerEvent::Start);
    p.on_event(PollerEvent::TickDone(true));
    assert_eq!(p.on_event(PollerEvent::Cancel), PollerAction::Stop);
    assert_eq!(p.interval, interval);
}

#[test]
fn list_statuses_keeps_latest_per_entry() {
    let mut store = Store::new();
    init_statuses(&mut store, &vec![entry("a", "http://a.example", None), entry("b", "http://b.example", None), entry("quiet", "http://q", None)])
        .unwrap();
    let (a, b) = (id_of(&store, "a"), id_of(&store, "b"));
    for t in 1..=4 {
        let results = vec![
            ProbeResult { entry_id: a, outcome: ProbeOutcome::Response(200 + t as u16) },
            ProbeResult { entry_id: b, outcome: ProbeOutcome::Failed },
        ];
        poll_statuses_once(&mut store, &results, t).unwrap();
    }
    let rows = store.list_statuses(2);
    let of = |id: i64| -> Vec<(i64, i64)> {
        rows.iter().filter(|r| r.id == id).map(|r| (r.last_status, r.poll_time)).collect()
    };
    assert_eq!(of(a), vec![(204, 4), (203, 3)]);
    assert_eq!(of(b), vec![(-1, 4), (-1, 3)]);
    assert_eq!(rows.len(), 4);
    assert!(rows.iter().all(|r| r.name != "quiet"));
    assert!(rows.iter().filter(|r| r.id == a).all(|r| r.name == "a" && r.public_url == "http://a.example"));
    assert_eq!(store.list_statuses(10).len(), 8);
    assert!(store.list_statuses(0).is_empty());
}

#[test]
fn poll_interval_with_exponent_and_several_units() {
    assert_eq!(deser_duration(Some("1e3 seconds")).unwrap(), Some(PollInterval { secs: 1000, nanos: 0 }));
    assert_eq!(deser_duration(Some("2 minutes 30 seconds")).unwrap(), Some(PollInterval { secs: 150, nanos: 0 }));
    assert_eq!(deser_duration(Some("1e-00001 s")).unwrap(), Some(PollInterval { secs: 0, nanos: 100_000_000 }));
}

#[test]
fn status_classes() {
    assert_eq!(classify_status(200), StatusClass::Success);
    assert_eq!(classify_status(299), StatusClass::Success);
    assert_eq!(classify_status(301), StatusClass::Redirect);
    assert_eq!(classify_status(399), StatusClass::Redirect);
    assert_eq!(classify_status(199), StatusClass::Failure);
    assert_eq!(classify_status(404), StatusClass::Failure);
    assert_eq!(classify_status(503), StatusClass::Failure);
    assert_eq!(classify_status(PROBE_FAILED), StatusClass::Failure);
}

#[test]
fn insertion_in_the_middle_is_additive() {
    let mut store = Store::new();
    let mut cfg = vec![entry("a", "http://a.example", None), entry("b", "http://b.example", None)];
    init_statuses(&mut store, &cfg).unwrap();
    let results = probe_all(&store, |_| ProbeOutcome::Response(200));
    poll_statuses_once(&mut store, &results, 4).unwrap();
    let (a, b) = (id_of(&store, "a"), id_of(&store, "b"));
    let history_before = store.history().clone();
    cfg.insert(1, entry("m", "http://m.example", Some("http://internal-m")));
    init_statuses(&mut store, &cfg).unwrap();
    assert_eq!(store.entries().len(), 3);
    assert_eq!((id_of(&store, "a"), id_of(&store, "b")), (a, b));
    let m = find(&store, "m");
    assert!(m.id != a && m.id != b);
    assert_eq!(m.public_url, "http://m.example");
    assert_eq!(m.polling_url.as_deref(), Some("http://internal-m"));
    assert_eq!(store.history(), &history_before);
}

#[test]
fn last_stamp_follows_ticks() {
    let mut store = Store::new();
    assert_eq!(store.last_stamp(), None);
    init_statuses(&mut store, &vec![entry("a", "http://a.example", None)]).unwrap();
    let results = probe_all(&store, |_| ProbeOutcome::Response(200));
    poll_statuses_once(&mut store, &results, 5).unwrap();
    assert_eq!(store.last_stamp(), Some(5));
    let results = probe_all(&store, |_| ProbeOutcome::Failed);
    poll_statuses_once(&mut store, &results, 5).unwrap();
    assert_eq!(store.last_stamp(), Some(5));
}

#[test]
fn list_statuses_groups_rows_by_entry() {
    let mut store = Store::new();
    init_statuses(&mut store, &vec![entry("a", "http://a", None), entry("b", "http://b", None), entry("c", "http://c", None)])
        .unwrap();
    for t in 1..=3 {
        let results = probe_all(&store, |_| ProbeOutcome::Response(200));
        poll_statuses_once(&mut store, &results, t).unwrap();
    }
    let rows = store.list_statuses(10);
    assert_eq!(rows.len(), 9);
    for w in rows.windows(2) {
        if w[0].id == w[1].id {
            assert!(w[0].poll_time >= w[1].poll_time);
        }
    }
    let mut ids: Vec<i64> = rows.iter().map(|r| r.id).collect();
    ids.dedup();
    assert_eq!(ids.len(), 3);
}
