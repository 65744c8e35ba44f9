//! The journal: events, recovery, analyses and what is shown of them.

use collision_workbench::lines::{complete_len, complete_lines};
use collision_workbench::model::{
    norm_label, validate_config, Analysis, CommittedEntry, Dataset, GroupAction, GroupDecision,
    ImportedRecord, Plan, PlanStatus, Ruleset,
};
use collision_workbench::server::{
    analysis_summary, dataset_summary, open_app, plan_summary, route, ApiError, HttpServer,
    RecordFilter, Route,
};
use collision_workbench::store::{
    build_analysis_records, current_tables, validate_rule_config, Event, Journal, State, WalRecord,
    COMPACT_EVERY,
};
use collision_workbench::strmap::StringMap;
use collision_workbench::unicode::{table_versions, Normalization, RuleConfig};

fn rules(normalization: Normalization) -> RuleConfig {
    RuleConfig {
        case_fold: true,
        normalization,
        strip_default_ignorable: false,
        restrict_script: None,
    }
}

fn ruleset(id: u64, normalization: Normalization) -> Ruleset {
    Ruleset {
        id,
        label: "r".to_string(),
        revision: 1,
        config: rules(normalization),
        tables: current_tables(),
    }
}

fn dataset(id: u64, label: &str, records: &[(&str, &str)]) -> Dataset {
    Dataset {
        id,
        label: label.to_string(),
        records: records
            .iter()
            .map(|(no, text)| ImportedRecord {
                record_no: no.to_string(),
                raw: text.as_bytes().to_vec(),
            })
            .collect(),
    }
}

fn analysis(id: u64, dataset: &Dataset, ruleset: &Ruleset) -> Analysis {
    let (records, buckets) = build_analysis_records(dataset, ruleset);
    Analysis {
        id,
        dataset_id: dataset.id,
        ruleset_id: ruleset.id,
        ruleset_revision: ruleset.revision,
        tables: ruleset.tables.clone(),
        config: ruleset.config.clone(),
        records,
        buckets,
    }
}

fn plan(id: u64, analysis_id: u64) -> Plan {
    Plan {
        id,
        analysis_id,
        status: PlanStatus::Draft,
        decisions: StringMap::new(),
        mapping: Vec::new(),
        approved_ruleset_revision: None,
        approved_tables: None,
    }
}

/// A journal on a disk that loses nothing it was given.
#[derive(Default)]
struct Disk {
    snapshot: Option<State>,
    log: Vec<WalRecord>,
}

fn copy(record: &WalRecord) -> WalRecord {
    WalRecord { event_seq: record.event_seq, event: record.event.clone() }
}

fn commit(journal: &mut Journal, disk: &mut Disk, event: Event) {
    let record = journal.next_record(event);
    disk.log.push(copy(&record));
    assert!(journal.state.can_apply(&record.event));
    if journal.written(record.event) {
        disk.snapshot = Some(journal.state.clone());
        disk.log.clear();
        journal.compacted();
    }
}

#[test]
fn recovers_after_abnormal_exit() {
    let mut disk = Disk::default();
    let mut journal = Journal::from_snapshot(State::default());
    let rs_id = journal.state.take_id();
    commit(
        &mut journal,
        &mut disk,
        Event::RulesetCreated { ruleset: ruleset(rs_id, Normalization::Nfkc) },
    );
    for n in 0..70u32 {
        let id = journal.state.take_id();
        let value = format!("Value {n}");
        let event = Event::DatasetImported {
            dataset: dataset(id, &format!("d{n}"), &[("1", value.as_str())]),
            idempotency_key: Some(format!("k{n}")),
            response_body: Some(format!("{{\"id\":{id}}}")),
        };
        commit(&mut journal, &mut disk, event);
    }
    assert_eq!(
        journal.state.idempotency.entries.get("k0"),
        Some(&(201, "{\"id\":1}".to_string())),
        "same idempotency result"
    );
    let next_id_before = journal.state.next_id;
    assert!(disk.snapshot.is_some());
    assert_eq!(disk.log.len() as u64, 71 - COMPACT_EVERY);

    let app = open_app(disk.snapshot.take(), &disk.log);
    let state = &app.journal.state;
    assert_eq!(state.next_id, next_id_before, "no id reuse/double replay");
    assert_eq!(state.datasets.len(), 70);
    assert_eq!(state.rulesets[&rs_id].config.normalization, Normalization::Nfkc);
    assert_eq!(state.version_of("dataset:1"), 1);
    assert_eq!(app.journal.since_compact, 71 - COMPACT_EVERY);

    let mut recovered = app.journal;
    assert!(recovered.state.take_id() >= next_id_before);
}

#[test]
fn a_crash_before_the_log_is_truncated_repeats_nothing() {
    let mut disk = Disk::default();
    let mut journal = Journal::from_snapshot(State::default());
    for id in 0..3 {
        let event = Event::RulesetCreated { ruleset: ruleset(id, Normalization::Nfc) };
        commit(&mut journal, &mut disk, event);
    }
    // The snapshot was written, and the log still holds what it contains.
    let snapshot = journal.state.clone();
    let app = open_app(Some(snapshot), &disk.log);
    assert_eq!(app.journal.since_compact, 0);
    assert_eq!(app.journal.state.event_seq, 3);
    assert_eq!(app.journal.state.version_of("ruleset:0"), 1);
    assert_eq!(app.journal.state.rulesets.len(), 3);
    assert_eq!(app.journal.state.active_ruleset_id, Some(0));
}

#[test]
fn invalid_ruleset_scripts_are_rejected() {
    let mut config = rules(Normalization::Nfc);
    config.restrict_script = Some("WXYZ".to_string());
    let message = "unknown ISO-15924 script code: WXYZ";
    assert_eq!(validate_rule_config(&config), Err(message.to_string()));
    assert_eq!(validate_config(&config), Err(message.to_string()));
    config.restrict_script = Some("Latn".to_string());
    assert_eq!(validate_rule_config(&config), Ok(()));
    config.restrict_script = None;
    assert_eq!(config.validate(), Ok(()));
}

#[test]
fn visual_lookalikes_do_not_collapse() {
    let ds = dataset(1, "d", &[("1", "a"), ("2", "\u{0430}")]);
    let rs = ruleset(2, Normalization::Nfc);
    let an = analysis(3, &ds, &rs);
    assert_eq!(an.buckets.iter().filter(|b| b.record_nos.len() == 1).count(), 2);
    let log = vec![WalRecord { event_seq: 1, event: Event::AnalysisBuilt { analysis: an } }];
    let server = HttpServer::new(open_app(None, &log));
    let filter = RecordFilter { stage: None, issue_only: false, record: None };
    let page = server.app.analysis_page(3, &filter).unwrap();
    assert_eq!(page.records.len(), 2);
    assert!(page.records.iter().any(|r| r.scripts.iter().any(|s| s == "Cyrl")));
    assert_eq!(page.records[0].raw_hex, "61");
    assert_eq!(page.records[1].raw_hex, "d0b0");
}

#[test]
fn buckets_gather_equal_values_in_order() {
    let ds = dataset(1, "d", &[("2", "b"), ("9", "A"), ("1", "a"), ("3", "B"), ("4", "b")]);
    let rs = ruleset(2, Normalization::Nfc);
    let (records, buckets) = build_analysis_records(&ds, &rs);
    assert_eq!(records.len(), 5);
    assert_eq!(records[1].trace.canonical, "a");
    assert_eq!(buckets.len(), 2);
    assert_eq!(buckets[0].bucket_hex, "61");
    assert_eq!(buckets[0].record_nos, ["1", "9"]);
    assert!(!buckets[0].identical_originals);
    assert_eq!(buckets[1].record_nos, ["2", "3", "4"]);
    assert_eq!(buckets[1].canonical_cps, [0x62]);
    let summary = analysis_summary(&analysis(3, &ds, &rs));
    assert_eq!((summary.buckets, summary.conflict_buckets), (2, 2));
    let same = dataset(1, "d", &[("1", "x"), ("2", "x")]);
    let summary = analysis_summary(&analysis(3, &same, &rs));
    assert_eq!((summary.buckets, summary.conflict_buckets), (1, 0));
    assert_eq!(dataset_summary(&ds).count, 5);
}

#[test]
fn filters_choose_records_and_stages() {
    let mut ds = dataset(1, "d", &[("1", "A"), ("2", "b")]);
    ds.records[1].raw.push(0xff);
    let an = analysis(3, &ds, &ruleset(2, Normalization::Nfc));
    let log = vec![WalRecord { event_seq: 1, event: Event::AnalysisBuilt { analysis: an } }];
    let app = open_app(None, &log);
    let show = |query: &str| match route("GET", "/api/analyses/3", query).unwrap() {
        Route::GetAnalysis { id, filter } => app.analysis_page(id, &filter).unwrap().records,
        other => panic!("unexpected route: {other:?}"),
    };
    assert_eq!(show("").len(), 2);
    let with_issues = show("issue=1");
    assert_eq!(with_issues.len(), 1);
    assert_eq!(with_issues[0].record_no, "2");
    let first = show("record=1&stage=case_fold");
    assert_eq!(first.len(), 1);
    assert_eq!(first[0].stages.len(), 1);
    assert_eq!(first[0].stages[0].name, "case_fold");
    assert_eq!(show("record=nobody").len(), 0);
    let filter = RecordFilter { stage: None, issue_only: false, record: None };
    assert_eq!(
        app.analysis_page(4, &filter).unwrap_err(),
        ApiError::NotFound { message: "analysis not found".to_string() }
    );
}

#[test]
fn plan_pages_show_versions_and_buckets() {
    let ds = dataset(1, "d", &[("1", "A"), ("2", "a")]);
    let an = analysis(3, &ds, &ruleset(2, Normalization::Nfc));
    let mut decisions = StringMap::new();
    decisions.insert(
        "61".to_string(),
        GroupDecision {
            action: GroupAction::Rename,
            new_value: "b".to_string(),
            keep_old_aliases: true,
        },
    );
    let events = vec![
        Event::AnalysisBuilt { analysis: an },
        Event::PlanCreated { plan: plan(4, 3) },
        Event::PlanCreated { plan: plan(5, 99) },
        Event::PlanDecisionsSet { plan_id: 4, decisions },
    ];
    let log: Vec<WalRecord> = events
        .into_iter()
        .enumerate()
        .map(|(i, event)| WalRecord { event_seq: i as u64 + 1, event })
        .collect();
    let app = open_app(None, &log);
    let page = app.plan_page(4).unwrap();
    assert_eq!(page.version, 2);
    assert_eq!(page.buckets.unwrap()[0].record_nos, ["1", "2"]);
    assert!(page.config.is_some());
    assert_eq!(plan_summary(&page.plan).decisions, 1);
    let lonely = app.plan_page(5).unwrap();
    assert_eq!(lonely.version, 1);
    assert!(lonely.buckets.is_none() && lonely.config.is_none());
    assert_eq!(app.plan_page(6).unwrap_err().status(), 404);

    // Both sides of a stale write: the version now, and what came after the base.
    let (current, changes) = app.journal.state.changes_since("plan:4", 1);
    assert_eq!(current, 2);
    assert_eq!(changes.len(), 1);
    assert_eq!(changes[0].label, "decisions");
    assert_eq!(changes[0].summary, "1 group decisions set");
    assert_eq!(app.journal.state.changes_since("plan:4", 9).1.len(), 0);
    assert_eq!(app.journal.state.changes_since("plan:77", 0), (0, vec![]));
}

#[test]
fn approval_freezes_a_plan_and_extends_the_baseline() {
    let mut state = State::default();
    state.apply(Event::PlanCreated { plan: plan(1, 0) });
    state.apply(Event::PlanApproved {
        plan_id: 1,
        mapping: Vec::new(),
        committed: vec![CommittedEntry {
            plan_id: 1,
            record_no: "1".to_string(),
            new_canonical: "x".to_string(),
            aliases: vec![],
        }],
        approved_ruleset_revision: 7,
        approved_tables: current_tables(),
    });
    assert_eq!(state.plans[&1].status, PlanStatus::Approved);
    assert_eq!(state.plans[&1].approved_ruleset_revision, Some(7));
    assert_eq!(state.committed.len(), 1);
    state.apply(Event::TableUpgraded {
        new_ruleset: ruleset(9, Normalization::Nfc),
        note: "n".to_string(),
    });
    assert_eq!(state.active_ruleset_id, Some(9));
    assert_eq!(state.plans[&1].approved_ruleset_revision, Some(7));
    assert_eq!(state.next_id, 10);
    assert_eq!(state.version_of("tables"), 1);
}

#[test]
fn events_with_the_last_number_do_not_fit() {
    let state = State::default();
    assert!(!state.can_apply(&Event::PlanCreated { plan: plan(u64::MAX, 0) }));
    assert!(state.can_apply(&Event::PlanCreated { plan: plan(u64::MAX - 1, 0) }));
}

#[test]
fn labels_and_tables_are_named() {
    assert_eq!(norm_label(Normalization::Nfc), "NFC");
    assert_eq!(norm_label(Normalization::Nfkc), "NFKC");
    let tables = table_versions();
    assert_eq!(tables.unicode_normalization, "18.0.0");
    assert_eq!(tables.unicode_casefold, "16.0.0");
    assert_eq!(tables.unicode_general_category, "16.0.0");
    assert_eq!(tables.unicode_script, "18.0.0");
    assert_eq!(GroupDecision::default().action, GroupAction::Undecided);
}

#[test]
fn torn_lines_are_left_out() {
    assert_eq!(complete_lines("one\ntwo\nthr"), ["one", "two"]);
    assert_eq!(complete_lines("one\n\ntwo\n"), ["one", "", "two"]);
    assert!(complete_lines("one").is_empty());
    assert!(complete_lines("").is_empty());
    assert_eq!(complete_len(b"one\ntwo\nthr\xc3"), 8);
    assert_eq!(complete_len(b"one\n"), 4);
    assert_eq!(complete_len(b"one"), 0);
    assert_eq!(complete_len(b""), 0);
}
