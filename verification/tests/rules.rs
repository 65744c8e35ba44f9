//! The engine of the ledger under both sets of tables, and imports.

use collision_workbench::engine::{
    analyze_one, analyze_records, analyze_text, validate_config, EngineInput, NormalizationForm,
    RuleConfig, ScriptPolicy, UnicodeTable,
};
use collision_workbench::import::{analysis_for, convert_records, record_payload};
use collision_workbench::ledger::{Dataset, StoredRecordKind};
use collision_workbench::mappings::canonical_text;
use collision_workbench::requests::{ErrorDetails, ImportRecord, ServiceError};
use collision_workbench::service::analyze_query;
use collision_workbench::shapes::{rules_string, shape_of_plan, shape_of_records, snapshot_string};
use collision_workbench::strmap::StringMap;

const TABLES: [UnicodeTable; 2] = [UnicodeTable::U15_1, UnicodeTable::U16_0];

fn rules(table: UnicodeTable, form: NormalizationForm) -> RuleConfig {
    RuleConfig {
        unicode_table: Some(table),
        case_fold: true,
        normalization: Some(form),
        strip_default_ignorable: true,
        script_policy: ScriptPolicy::Off,
        allowed_scripts: Default::default(),
    }
}

fn message(error: ServiceError) -> String {
    match error.details {
        ErrorDetails::Message { message } => message,
        other => panic!("no message: {other:?}"),
    }
}

fn import(id: &str) -> ImportRecord {
    ImportRecord { id: id.to_string(), text: None, raw_base64: None, codepoints: None }
}

#[test]
fn both_tables_fold_strip_and_compose() {
    for table in TABLES {
        let nfc = analyze_text(&rules(table, NormalizationForm::Nfc), "A\u{030a}ß\u{200b}²").unwrap();
        assert_eq!(nfc.records[0].canonical, "åss²");
        assert!(nfc.records[0].eligible);
        let nfkc = analyze_text(&rules(table, NormalizationForm::Nfkc), "²A\u{030a}").unwrap();
        assert_eq!(nfkc.records[0].canonical, "2å");
        assert_eq!(nfkc.records[0].scripts.len(), 1);
        assert_eq!(nfkc.records[0].scripts.at(0), "Latin");
    }
}

#[test]
fn script_policies_report_and_bar() {
    for table in TABLES {
        let mut config = rules(table, NormalizationForm::Nfc);
        config.script_policy = ScriptPolicy::Single;
        let mixed = analyze_text(&config, "a\u{0430}").unwrap();
        assert!(mixed.records[0].mixed_script);
        assert!(!mixed.records[0].issues.is_empty());
        config.script_policy = ScriptPolicy::Allowed;
        // The older tables take a script by its long name only.
        let latin = if table == UnicodeTable::U15_1 { "Latin" } else { "Latn" };
        config.allowed_scripts.insert(latin.to_string());
        assert!(analyze_text(&config, "abc").unwrap().records[0].issues.is_empty());
        assert!(!analyze_text(&config, "\u{0430}").unwrap().records[0].issues.is_empty());
        config.allowed_scripts.insert("Nope".to_string());
        let error = analyze_text(&config, "abc").unwrap_err();
        assert!(error.contains("Nope"), "{error}");
        assert!(validate_config(&config).is_err());
        assert_eq!(analyze_query("abc".to_string(), config).unwrap_err().status, 400);
    }
}

#[test]
fn rules_are_resolved_and_shown() {
    let resolved = RuleConfig::default().resolved();
    assert_eq!(resolved.unicode_table, Some(UnicodeTable::U16_0));
    assert_eq!(resolved.normalization, Some(NormalizationForm::Nfc));
    assert_eq!(validate_config(&RuleConfig::default()), Ok(resolved));
    let old = rules(UnicodeTable::U15_1, NormalizationForm::Nfkc).snapshot();
    assert_eq!(old.unicode_version, "15.1.0");
    assert_eq!((old.icu_casemap.as_str(), old.icu_normalizer.as_str()), ("1.5.1", "1.5.0"));
    assert_eq!(
        rules_string(&RuleConfig::default()),
        "{\"unicode_table\":null,\"case_fold\":false,\"normalization\":null,\
         \"strip_default_ignorable\":false,\"script_policy\":\"off\",\"allowed_scripts\":[]}"
    );
    assert_eq!(
        snapshot_string(&old),
        "{\"unicode_version\":\"15.1.0\",\"case_fold\":true,\"normalization\":\"NFKC\",\
         \"strip_default_ignorable\":true,\"script_policy\":\"off\",\"allowed_scripts\":[],\
         \"icu_casemap\":\"1.5.1\",\"icu_normalizer\":\"1.5.0\",\"icu_properties\":\"1.5.1\"}"
    );
    let shape = shape_of_plan("d\"\n", 3, &RuleConfig::default(), &RuleConfig::default());
    assert!(shape.starts_with("[\"d\\\"\\n\",3,{"), "{shape}");
}

#[test]
fn imports_keep_their_source() {
    let mut text = import("t");
    text.text = Some("ab".to_string());
    let mut raw = import("r");
    raw.raw_base64 = Some("/w==".to_string());
    let mut points = import("c");
    points.codepoints = Some(vec![0x61, 0xd800]);
    let records = convert_records(&vec![text, raw, points], 4).unwrap();
    assert_eq!(records[0].kind, StoredRecordKind::Text);
    assert_eq!(records[0].original_bytes_base64, "YWI=");
    assert_eq!(record_payload(&records[0]).unwrap(), b"ab");
    assert_eq!(records[1].kind, StoredRecordKind::RawBase64);
    assert_eq!(record_payload(&records[1]).unwrap(), [0xff]);
    assert_eq!(records[2].original_bytes_base64, "[97,55296]");
    assert_eq!(record_payload(&records[2]).unwrap(), b"[97,55296]");
    assert_eq!(records[2].source_version, 4);
    assert_eq!(shape_of_records(&records), "t:YWI=|r:/w==|c:[97,55296]");
    let mut by_id = StringMap::new();
    for record in records {
        by_id.insert(record.id.clone(), record);
    }
    let dataset =
        Dataset { id: "d".to_string(), name: "n".to_string(), version: 4, records: by_id };
    let analysis = analysis_for(&dataset, &RuleConfig::default()).unwrap();
    let eligible: Vec<bool> = analysis.records.iter().map(|r| r.eligible).collect();
    assert_eq!(eligible, [false, false, true]);
    assert_eq!(analysis.buckets.len(), 1);
}

#[test]
fn imports_are_checked() {
    let with_text = |id: &str| {
        let mut record = import(id);
        record.text = Some("x".to_string());
        record
    };
    let refused = |records: Vec<ImportRecord>| {
        let error = convert_records(&records, 1).unwrap_err();
        assert_eq!(error.status, 400);
        message(error)
    };
    let ids = "record id must be non-empty and unique";
    assert_eq!(refused(vec![with_text(" \t")]), ids);
    assert_eq!(refused(vec![with_text("a"), with_text("a")]), ids);
    let form = "each record requires exactly one source form";
    assert_eq!(refused(vec![import("a")]), form);
    let mut both = with_text("a");
    both.raw_base64 = Some(String::new());
    assert_eq!(refused(vec![both]), form);
    let mut far = import("a");
    far.codepoints = Some(vec![0x110000]);
    assert_eq!(refused(vec![far]), "codepoint outside Unicode codespace");
    let mut broken = import("a");
    broken.raw_base64 = Some("*".to_string());
    refused(vec![broken]);
}

#[test]
fn lists_of_code_points_are_read() {
    let config = rules(UnicodeTable::U16_0, NormalizationForm::Nfc);
    let input = |bytes: &'static [u8]| EngineInput {
        record_id: "x",
        source_version: 1,
        original_text: None,
        original_bytes: bytes,
        codepoint_source: true,
    };
    let fine = analyze_one(&config, input(b"[65, 66]"));
    assert!(fine.eligible);
    assert_eq!(fine.canonical, "ab");
    let broken = analyze_one(&config, input(b"[65,"));
    assert_eq!(broken.canonical, "");
    assert!(broken.stages[0].codepoints.is_empty());
    let analysis = analyze_records(&config, &[input(b"[65]"), input(b"[97]")]).unwrap();
    assert_eq!(analysis.buckets.len(), 1);
    assert_eq!(analysis.buckets[0].canonical_hex, ["U+0061"]);
}

#[test]
fn replacements_are_canonical() {
    let config = rules(UnicodeTable::U16_0, NormalizationForm::Nfc);
    assert_eq!(canonical_text(&config, "ABC"), Ok("abc".to_string()));
    let barred = Err("replacement is not eligible under target rules".to_string());
    assert_eq!(canonical_text(&config, "\u{ffff}"), barred);
    assert_eq!(canonical_text(&config, "\u{200b}"), barred);
}
