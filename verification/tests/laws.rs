//! What holds of all inputs, on some.

use collision_workbench::base64::{base64_decode, base64_encode};
use collision_workbench::decode::{permissive_decode, Unit};
use collision_workbench::engine::{
    analyze_records, analyze_text, EngineInput, RuleConfig, UnicodeTable,
};
use collision_workbench::hex_bytes::{from_hex, to_hex};
use collision_workbench::ledger::{PlanStatus, Response, State};
use collision_workbench::model::{Dataset, ImportedRecord, Plan, Ruleset};
use collision_workbench::requests::{CreateDataset, ImportRecord, ServiceError, Step};
use collision_workbench::service::create_dataset;
use collision_workbench::source::{decode_utf8_strict, encode_wtf8_codepoints};
use collision_workbench::store;
use collision_workbench::store::{build_analysis_records, current_tables, Journal, WalRecord};
use collision_workbench::strmap::{StringMap, StringSet};
use collision_workbench::unicode::{analyze, Issue, Normalization};
use collision_workbench::urls::url_decode;

const SAMPLES: [&[u8]; 9] = [
    b"",
    b"a",
    b"ab\xff",
    b"\xed\xa0\x80",
    b"\xc3\xa9",
    b"\xc3",
    b"\xf0\x9f\x98\x80",
    b"\xef\xbf\xbf",
    b"\xf4\x90\x80\x80",
];

fn bytes_of(unit: &Unit) -> Vec<u8> {
    match unit {
        Unit::Scalar(c) => c.to_string().into_bytes(),
        Unit::Surrogate(cp) => encode_wtf8_codepoints(&[*cp]),
        Unit::InvalidByte(b) => vec![*b],
    }
}

#[test]
fn decoding_loses_nothing() {
    for sample in SAMPLES {
        let units = permissive_decode(sample);
        let back: Vec<u8> = units.iter().flat_map(bytes_of).collect();
        assert_eq!(back, sample);
        let scalars_only = units.iter().all(|u| matches!(u, Unit::Scalar(_)));
        assert_eq!(scalars_only, std::str::from_utf8(sample).is_ok());
        assert_eq!(decode_utf8_strict(sample).valid_utf8, std::str::from_utf8(sample).is_ok());
    }
}

#[test]
fn codecs_read_back_and_tell_apart() {
    for a in SAMPLES {
        assert_eq!(base64_decode(&base64_encode(a)), Ok(a.to_vec()));
        assert_eq!(from_hex(&to_hex(a)), Ok(a.to_vec()));
        for b in SAMPLES {
            assert_eq!(base64_encode(a) == base64_encode(b), a == b);
            assert_eq!(to_hex(a) < to_hex(b), a < b);
        }
    }
    assert_eq!(url_decode("plain-_.~text"), "plain-_.~text");
    assert_eq!(String::from_utf8(encode_wtf8_codepoints(&[0x61, 0x20ac])).unwrap(), "a€");
}

#[test]
fn only_characters_take_part() {
    let cfg = collision_workbench::unicode::RuleConfig {
        case_fold: true,
        normalization: Normalization::Nfc,
        strip_default_ignorable: false,
        restrict_script: None,
    };
    let clean = analyze(b"Ab", &cfg);
    let broken = analyze(b"A\xff\xed\xa0\x80b", &cfg);
    assert_eq!(clean.canonical, broken.canonical);
    assert!(clean.issues.is_empty());
    assert_eq!(
        broken.issues,
        [
            Issue::InvalidUtf8 { index: 1, byte: 0xff },
            Issue::LoneSurrogate { index: 2, cp: 0xd800 },
        ]
    );
    for stage in &broken.stages {
        assert_eq!(stage.units.len(), stage.provenance.len());
    }
    assert_eq!(broken.stages[1].provenance, [0, 3]);
}

fn input<'a>(id: &'a str, bytes: &'a [u8]) -> EngineInput<'a> {
    EngineInput {
        record_id: id,
        source_version: 1,
        original_text: None,
        original_bytes: bytes,
        codepoint_source: false,
    }
}

#[test]
fn buckets_divide_the_eligible() {
    let rules = RuleConfig::default();
    let analysis =
        analyze_records(&rules, &[input("c", b"x"), input("a", b"y"), input("b", b"x"), input("d", b"\xff")])
            .unwrap();
    let ids: Vec<&[String]> = analysis.buckets.iter().map(|b| b.record_ids.as_slice()).collect();
    assert_eq!(ids, [&["c".to_string(), "b".to_string()][..], &["a".to_string()][..]]);
    let eligible: Vec<bool> = analysis.records.iter().map(|r| r.eligible).collect();
    assert_eq!(eligible, [true, true, true, false]);
    let resolved = analyze_records(&rules.clone().resolved(), &[input("c", b"x")]).unwrap();
    assert_eq!(resolved, analyze_records(&rules, &[input("c", b"x")]).unwrap());
}

#[test]
fn unknown_scripts_alone_are_refused() {
    for table in [UnicodeTable::U15_1, UnicodeTable::U16_0] {
        let mut rules = RuleConfig { unicode_table: Some(table), ..RuleConfig::default() };
        let mut scripts = StringSet::new();
        scripts.insert("Greek".to_string());
        rules.allowed_scripts = scripts;
        assert!(analyze_text(&rules, "a").is_ok());
        rules.allowed_scripts.insert("Klingonese".to_string());
        assert_eq!(analyze_text(&rules, "a"), Err("unknown script `Klingonese`".to_string()));
    }
}

fn ruleset(id: u64) -> Ruleset {
    Ruleset {
        id,
        label: format!("r{id}"),
        revision: 1,
        config: collision_workbench::unicode::RuleConfig {
            case_fold: false,
            normalization: Normalization::Nfc,
            strip_default_ignorable: false,
            restrict_script: None,
        },
        tables: current_tables(),
    }
}

fn events() -> Vec<store::Event> {
    let plan = Plan {
        id: 2,
        analysis_id: 1,
        status: collision_workbench::model::PlanStatus::Draft,
        decisions: StringMap::new(),
        mapping: vec![],
        approved_ruleset_revision: None,
        approved_tables: None,
    };
    vec![
        store::Event::RulesetCreated { ruleset: ruleset(0) },
        store::Event::DatasetImported {
            dataset: Dataset { id: 1, label: "d".to_string(), records: vec![] },
            idempotency_key: Some("k".to_string()),
            response_body: Some("{}".to_string()),
        },
        store::Event::PlanCreated { plan },
        store::Event::PlanDecisionsSet { plan_id: 2, decisions: StringMap::new() },
        store::Event::TableUpgraded { new_ruleset: ruleset(3), note: "n".to_string() },
    ]
}

#[test]
fn every_snapshot_recovers_the_same_state() {
    let log: Vec<WalRecord> = events()
        .into_iter()
        .enumerate()
        .map(|(i, event)| WalRecord { event_seq: i as u64 + 1, event })
        .collect();
    let replay = |journal: &mut Journal, from: usize, to: usize| {
        for record in &log[from..to] {
            journal.replay(WalRecord { event_seq: record.event_seq, event: record.event.clone() });
        }
    };
    let mut whole = Journal::from_snapshot(store::State::default());
    replay(&mut whole, 0, log.len());
    for k in 0..=log.len() {
        let mut early = Journal::from_snapshot(store::State::default());
        replay(&mut early, 0, k);
        let mut recovered = Journal::from_snapshot(early.state);
        replay(&mut recovered, 0, log.len());
        assert_eq!(format!("{:?}", recovered.state), format!("{:?}", whole.state));
        assert_eq!(recovered.since_compact, (log.len() - k) as u64);
    }
    assert_eq!(whole.state.next_id, 4);
    assert_eq!(whole.state.idempotency.entries.get("k"), Some(&(201, "{}".to_string())));
    assert_eq!(whole.state.changes_since("plan:2", 0).1.len(), 2);
}

#[test]
fn stored_records_are_in_exactly_one_bucket() {
    let dataset = Dataset {
        id: 1,
        label: "d".to_string(),
        records: ["b", "a", "b"]
            .iter()
            .enumerate()
            .map(|(i, text)| ImportedRecord {
                record_no: i.to_string(),
                raw: text.as_bytes().to_vec(),
            })
            .collect(),
    };
    let (_, buckets) = build_analysis_records(&dataset, &ruleset(0));
    let held: Vec<&str> =
        buckets.iter().flat_map(|b| b.record_nos.iter().map(String::as_str)).collect();
    assert_eq!(held, ["1", "0", "2"]);
    assert!(buckets[0].bucket_hex < buckets[1].bucket_hex);
}

fn import(name: &str) -> CreateDataset {
    CreateDataset {
        name: name.to_string(),
        records: vec![ImportRecord {
            id: "1".to_string(),
            text: Some("x".to_string()),
            raw_base64: None,
            codepoints: None,
        }],
    }
}

#[test]
fn keys_stand_for_one_request() {
    let mut state = State::default();
    let key = || Some("key".to_string());
    let first = state.accept(create_dataset(&state.clone(), import("a"), key()).unwrap());
    // The same import is answered as before, with the key or with another.
    for again in [key(), Some("other".to_string())] {
        match create_dataset(&state, import("a"), again).unwrap() {
            Step::Reply { response } => {
                assert_eq!(format!("{response:?}"), format!("{first:?}"));
            }
            other => panic!("stored twice: {other:?}"),
        }
    }
    let error: ServiceError = create_dataset(&state, import("b"), key()).unwrap_err();
    assert_eq!((error.status, error.code.as_str()), (409, "conflict"));
    // Other events leave the receipt alone.
    let step = create_dataset(&state, import("c"), None).unwrap();
    assert!(matches!(state.accept(step), Response::Dataset { .. }));
    assert!(state.commands.contains_key("key"));
    assert_eq!(state.datasets.len(), 2);
}

#[test]
fn statuses_have_names() {
    assert_eq!(PlanStatus::Draft.as_str(), "Draft");
    assert_eq!(PlanStatus::Approved.as_str(), "Approved");
    assert_eq!(PlanStatus::Rejected.as_str(), "Rejected");
    assert_eq!(PlanStatus::Applied.as_str(), "Applied");
}
