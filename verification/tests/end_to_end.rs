//! Whole stories: requests in, events stored, answers out.

use collision_workbench::engine::{NormalizationForm, RuleConfig, ScriptPolicy, UnicodeTable};
use collision_workbench::exports::{document, sealed_document};
use collision_workbench::hex_bytes::to_hex;
use collision_workbench::ledger::{
    stable_id, Event, GroupDecision, Plan, PlanStatus, Response, State,
};
use collision_workbench::requests::{
    AppendRecordsReq, ApplyPlanReq, CreateDataset, CreatePlan, ErrorDetails, GroupDecisionReq,
    ImportRecord, ServiceError, Step, UpdatePlanReq,
};
use collision_workbench::service::{
    append_records, apply_plan, complete_mappings, create_dataset, create_plan, export_plan,
    get_dataset, get_plan, list_plans, plan_data, update_plan,
};
use collision_workbench::shapes::snapshot_string;
use collision_workbench::strmap::StringMap;
use serde_json::Value;
use sha2::{Digest, Sha256};

#[derive(Default)]
struct Server {
    state: State,
    log: Vec<Event>,
}

impl Server {
    fn take(&mut self, outcome: Result<Step, ServiceError>) -> Result<Response, ServiceError> {
        let step = outcome?;
        if let Step::Commit { event, .. } = &step {
            self.log.push(event.clone());
        }
        Ok(self.state.accept(step))
    }

    fn create(&mut self, request: CreateDataset, key: Option<&str>) -> Result<Response, ServiceError> {
        let outcome = create_dataset(&self.state, request, key.map(|k| k.to_string()));
        self.take(outcome)
    }

    fn append(&mut self, id: &str, request: AppendRecordsReq) -> Result<Response, ServiceError> {
        let outcome = append_records(&self.state, id, request, None);
        self.take(outcome)
    }

    fn plan(&mut self, dataset: &str) -> Plan {
        let request = CreatePlan {
            dataset_id: dataset.to_string(),
            expected_dataset_version: 1,
            from_rules: Some(old_rules()),
            rules: rules(),
        };
        let outcome = create_plan(&self.state, request, None);
        plan_of(self.take(outcome).unwrap())
    }

    fn update(&mut self, id: &str, request: UpdatePlanReq) -> Result<Response, ServiceError> {
        let outcome = update_plan(&self.state, id, request, None);
        self.take(outcome)
    }

    fn apply(&mut self, id: &str, expected_version: u64) -> Result<Response, ServiceError> {
        let outcome = apply_plan(&self.state, id, ApplyPlanReq { expected_version }, None);
        self.take(outcome)
    }
}

fn plan_of(response: Response) -> Plan {
    match response {
        Response::PlanView { plan, .. } => plan,
        Response::Plan { plan } => plan,
        other => panic!("no plan: {other:?}"),
    }
}

fn rules() -> RuleConfig {
    RuleConfig {
        unicode_table: Some(UnicodeTable::U16_0),
        case_fold: true,
        normalization: Some(NormalizationForm::Nfc),
        strip_default_ignorable: false,
        script_policy: ScriptPolicy::Off,
        allowed_scripts: Default::default(),
    }
}

fn old_rules() -> RuleConfig {
    RuleConfig { unicode_table: Some(UnicodeTable::U15_1), ..RuleConfig::default() }
}

fn text_record(id: &str, text: &str) -> ImportRecord {
    ImportRecord {
        id: id.to_string(),
        text: Some(text.to_string()),
        raw_base64: None,
        codepoints: None,
    }
}

fn demo() -> CreateDataset {
    CreateDataset {
        name: "demo".to_string(),
        records: vec![
            text_record("r1", "Foo"),
            text_record("r2", "FOO"),
            text_record("r3", "Straße"),
            text_record("r4", "STRASSE"),
        ],
    }
}

fn dataset_id(response: Response) -> String {
    match response {
        Response::Dataset { id, .. } => id,
        other => panic!("no data set: {other:?}"),
    }
}

fn create_demo(server: &mut Server) -> String {
    dataset_id(server.create(demo(), Some("demo-key")).unwrap())
}

fn map_of<V>(entries: Vec<(&str, V)>) -> StringMap<V> {
    let mut map = StringMap::new();
    for (key, value) in entries {
        map.insert(key.to_string(), value);
    }
    map
}

fn approval(expected_version: u64, decisions: StringMap<GroupDecisionReq>) -> UpdatePlanReq {
    UpdatePlanReq { expected_version, status: Some("approved".to_string()), decisions }
}

#[test]
fn duplicate_import_request_is_idempotent() {
    let mut server = Server::default();
    let first_id = create_demo(&mut server);
    let second_id = create_demo(&mut server);
    assert_eq!(first_id, second_id);
    assert_eq!(server.state.datasets.len(), 1);
    assert_eq!(get_dataset(&server.state, &first_id).unwrap().records.len(), 4);
    assert_eq!(server.log.len(), 1);

    let mut other = demo();
    other.name = "another".to_string();
    let error = server.create(other, Some("demo-key")).unwrap_err();
    assert_eq!(error.status, 409);
}

#[test]
fn rejects_illegal_plan_state_transition() {
    let mut server = Server::default();
    let dataset = create_demo(&mut server);
    let plan = server.plan(&dataset);
    let error = server.apply(&plan.id, 1).unwrap_err();
    assert_eq!(error.status, 409);
    assert_eq!(error.code, "illegal-state-transition");
    assert!(matches!(
        error.details,
        ErrorDetails::IllegalTransition { from: PlanStatus::Draft, .. }
    ));
}

#[test]
fn recovers_events_after_hard_exit() {
    let mut server = Server::default();
    let dataset = create_demo(&mut server);
    let mut restarted = Server::default();
    for event in server.log {
        restarted.state.apply(event);
    }
    assert_eq!(get_dataset(&restarted.state, &dataset).unwrap().version, 1);
    let replay = dataset_id(restarted.create(demo(), Some("demo-key")).unwrap());
    assert_eq!(replay, dataset);
    assert!(restarted.log.is_empty());
}

#[test]
fn deterministic_export_contains_snapshot_mappings_and_decisions() {
    let mut server = Server::default();
    let dataset = create_demo(&mut server);
    let plan = server.plan(&dataset);
    let mut decisions = StringMap::new();
    for g in 0..plan.groups.len() {
        let bucket = plan.groups.key_at(g).clone();
        let mut replacements = StringMap::new();
        for (i, id) in plan.groups.value_at(g).iter().enumerate() {
            replacements.insert(id.clone(), format!("renamed-{i}-{bucket}"));
        }
        decisions.insert(
            bucket,
            GroupDecisionReq {
                action: "rename".to_string(),
                primary_record_id: None,
                replacements,
                keep_old_alias: false,
            },
        );
    }
    let updated = plan_of(server.update(&plan.id, approval(1, decisions)).unwrap());
    assert_eq!(updated.status, PlanStatus::Approved);
    let first = export_plan(&server.state, &plan.id).unwrap();
    let second = export_plan(&server.state, &plan.id).unwrap();
    assert_eq!(first.text, second.text);
    assert_eq!(first.file_name, format!("plan-{}.json", plan.id));
    let mut value: Value = serde_json::from_str(&first.text).unwrap();
    assert_eq!(first.text, serde_json::to_string_pretty(&value).unwrap());
    assert!(first.text.starts_with("{\n  \"export_hash_fnv1a_64\": \""));
    assert_eq!(value["rule_snapshot"]["unicode_version"], "16.0.0");
    assert_eq!(value["source_rule_snapshot"]["unicode_version"], "15.1.0");
    assert!(value["mappings"].is_array());
    assert!(value["export_hash_fnv1a_64"].is_string());
    assert_eq!(value["sha256"].as_str().unwrap().len(), 64);
    assert_eq!(updated.rule_snapshot_json, snapshot_string(&rules().snapshot()));
    let mappings: Vec<(&str, &str, &str)> = value["mappings"]
        .as_array()
        .unwrap()
        .iter()
        .map(|m| {
            let text = |name: &str| m[name].as_str().unwrap();
            (text("record_id"), text("old_canonical"), text("new_canonical"))
        })
        .collect();
    assert_eq!(
        mappings,
        [
            ("r1", "Foo", "renamed-0-foo"),
            ("r2", "FOO", "renamed-1-foo"),
            ("r3", "Straße", "renamed-0-strasse"),
            ("r4", "STRASSE", "renamed-1-strasse"),
        ]
    );
    assert_eq!(value["plan"]["decisions"].as_object().unwrap().len(), 2);
    assert_eq!(value["plan"]["status"], "approved");
    assert_eq!(value["plan"]["version"], 2);

    // The hashes are those of the text without them.
    let hash = value.as_object_mut().unwrap().remove("export_hash_fnv1a_64").unwrap();
    let digest = value.as_object_mut().unwrap().remove("sha256").unwrap();
    let bare = serde_json::to_string(&value).unwrap();
    assert_eq!(hash.as_str().unwrap(), stable_id("sha256placeholder", &vec![bare.clone()]));
    assert_eq!(digest.as_str().unwrap(), to_hex(&Sha256::digest(bare.as_bytes())));
    let details = plan_data(&server.state, &updated).unwrap();
    assert_eq!(document(&updated, &details), bare);
}

#[test]
fn new_collision_makes_apply_all_or_nothing() {
    let mut server = Server::default();
    let dataset = create_demo(&mut server);
    let plan = server.plan(&dataset);
    let mut decisions = StringMap::new();
    for g in 0..plan.groups.len() {
        decisions.insert(
            plan.groups.key_at(g).clone(),
            GroupDecisionReq {
                action: "keep-alias".to_string(),
                primary_record_id: Some(plan.groups.value_at(g)[0].clone()),
                replacements: StringMap::new(),
                keep_old_alias: false,
            },
        );
    }
    server.update(&plan.id, approval(1, decisions)).unwrap();
    let appended = server.append(
        &dataset,
        AppendRecordsReq { expected_version: 1, records: vec![text_record("new", "foo")] },
    );
    assert!(matches!(appended.unwrap(), Response::Dataset { version: 2, record_count: 5, .. }));
    let failure = server.apply(&plan.id, 2).unwrap_err();
    assert_eq!(failure.status, 409);
    assert_eq!(failure.code, "simulation-failed");
    match failure.details {
        ErrorDetails::SimulationFailed { current_dataset_version, collisions, added_records, .. } => {
            assert_eq!(current_dataset_version, 2);
            assert!(!collisions.is_empty());
            assert_eq!(added_records.len(), 1);
            assert_eq!(added_records[0].id, "new");
        }
        other => panic!("unexpected details: {other:?}"),
    }
    let check = plan_of(get_plan(&server.state, &plan.id).unwrap());
    assert_eq!(check.status, PlanStatus::Approved);
    assert!(server.state.migrations.is_empty());
}

#[test]
fn stale_concurrent_write_returns_both_differences() {
    let mut server = Server::default();
    let dataset = create_demo(&mut server);
    let first = AppendRecordsReq { expected_version: 1, records: vec![text_record("new-a", "A")] };
    let second = AppendRecordsReq { expected_version: 1, records: vec![text_record("new-b", "B")] };
    server.append(&dataset, first).unwrap();
    let error = server.append(&dataset, second).unwrap_err();
    assert_eq!(error.status, 409);
    assert_eq!(error.code, "version-conflict");
    match error.details {
        ErrorDetails::DatasetConflict {
            current_version,
            supplied_version,
            server_records,
            incoming_records,
        } => {
            assert_eq!(current_version, 2);
            assert_eq!(supplied_version, 1);
            assert!(server_records.iter().any(|id| id == "new-a"));
            assert_eq!(incoming_records, ["new-b"]);
        }
        other => panic!("unexpected details: {other:?}"),
    }
}

#[test]
fn approved_plan_without_conflicts_applies_atomically() {
    let mut server = Server::default();
    let request = CreateDataset {
        name: "unique".to_string(),
        records: vec![text_record("a", "alpha"), text_record("b", "beta")],
    };
    let dataset = dataset_id(server.create(request, Some("unique-key")).unwrap());
    let plan = server.plan(&dataset);
    server.update(&plan.id, approval(1, StringMap::new())).unwrap();
    let applied = server.apply(&plan.id, 2).unwrap();
    match applied {
        Response::Applied { migration } => {
            assert_eq!(migration.plan_id, plan.id);
            assert_eq!(migration.mappings.len(), 2);
            assert_eq!(migration.mappings[0].new_canonical, "alpha");
        }
        other => panic!("not applied: {other:?}"),
    }
    let again = server.apply(&plan.id, 2).unwrap();
    assert!(matches!(again, Response::AlreadyApplied { migration: Some(_), .. }));
    assert_eq!(list_plans(&server.state).len(), 1);
    assert_eq!(list_plans(&server.state)[0].status, PlanStatus::Applied);
}

#[test]
fn alias_cycle_is_rejected_on_approval() {
    let mut server = Server::default();
    let dataset = create_demo(&mut server);
    let plan = server.plan(&dataset);
    let rename = |replacements| GroupDecisionReq {
        action: "rename".to_string(),
        primary_record_id: None,
        replacements,
        keep_old_alias: true,
    };
    let strings = |entries: Vec<(&str, &str)>| {
        map_of(entries.into_iter().map(|(k, v)| (k, v.to_string())).collect())
    };
    let decisions = map_of(vec![
        ("foo", rename(strings(vec![("r1", "strasse"), ("r2", "x-foo")]))),
        ("strasse", rename(strings(vec![("r3", "foo"), ("r4", "x-strasse")]))),
    ]);
    let error = server.update(&plan.id, approval(1, decisions)).unwrap_err();
    assert_eq!(error.status, 422);
    assert_eq!(error.code, "alias-cycle");
    assert!(matches!(error.details, ErrorDetails::AliasCycle { ref cycle } if !cycle.is_empty()));
}

#[test]
fn renames_onto_other_values_block_approval() {
    let mut server = Server::default();
    let request = CreateDataset {
        name: "d".to_string(),
        records: vec![text_record("a", "X"), text_record("b", "x"), text_record("c", "beta")],
    };
    let dataset = dataset_id(server.create(request, None).unwrap());
    let plan = server.plan(&dataset);
    let rename = |first: &str, second: &str| {
        map_of(vec![(
            "x",
            GroupDecisionReq {
                action: "rename".to_string(),
                primary_record_id: None,
                replacements: map_of(vec![("a", first.to_string()), ("b", second.to_string())]),
                keep_old_alias: false,
            },
        )])
    };
    let message = |error: ServiceError| match error.details {
        ErrorDetails::Message { message } => message,
        other => panic!("no message: {other:?}"),
    };
    let taken = server.update(&plan.id, approval(1, rename("x1", "BETA"))).unwrap_err();
    assert_eq!(message(taken), "rename target `beta` collides with an existing value");
    let shared = server.update(&plan.id, approval(1, rename("x1", "X1"))).unwrap_err();
    assert_eq!(message(shared), "rename targets collide at `x1`");
    // The value of the bucket itself is free to be kept by one of its records.
    let kept = server.update(&plan.id, approval(1, rename("x", "x2"))).unwrap();
    assert_eq!(plan_of(kept).baseline_mappings.len(), 3);
}

#[test]
fn exports_are_not_moved_by_later_records() {
    let mut server = Server::default();
    let request = CreateDataset {
        name: "d".to_string(),
        records: vec![text_record("a", "alpha")],
    };
    let dataset = dataset_id(server.create(request, None).unwrap());
    let plan = server.plan(&dataset);
    server.update(&plan.id, approval(1, StringMap::new())).unwrap();
    let before = format!("{:?}", export_plan(&server.state, &plan.id).unwrap());
    let more = AppendRecordsReq { expected_version: 1, records: vec![text_record("b", "Alpha")] };
    server.append(&dataset, more).unwrap();
    assert_eq!(format!("{:?}", export_plan(&server.state, &plan.id).unwrap()), before);
}

#[test]
fn undecided_groups_block_approval() {
    let mut server = Server::default();
    let dataset = create_demo(&mut server);
    let plan = server.plan(&dataset);
    assert_eq!(plan.groups.len(), 2);
    assert_eq!(plan.groups.key_at(0), "foo");
    let error = server.update(&plan.id, approval(1, StringMap::new())).unwrap_err();
    assert!(error.status >= 400);
    let check = plan_of(get_plan(&server.state, &plan.id).unwrap());
    assert_eq!(check.status, PlanStatus::Draft);
    assert_eq!(check.version, 1);
}

#[test]
fn stale_plan_write_shows_the_stored_plan() {
    let mut server = Server::default();
    let dataset = create_demo(&mut server);
    let plan = server.plan(&dataset);
    let error = server.update(&plan.id, approval(7, StringMap::new())).unwrap_err();
    assert_eq!(error.status, 409);
    assert!(matches!(
        error.details,
        ErrorDetails::PlanConflict { current_version: 1, supplied_version: 7, .. }
    ));
}

#[test]
fn missing_things_are_not_found() {
    let mut server = Server::default();
    assert_eq!(get_dataset(&server.state, "x").unwrap_err().status, 404);
    assert_eq!(get_plan(&server.state, "x").unwrap_err().status, 404);
    assert_eq!(export_plan(&server.state, "x").unwrap_err().status, 404);
    assert_eq!(server.apply("x", 1).unwrap_err().status, 404);
}

#[test]
fn stable_ids_are_fnv_hashes() {
    // The hash of no bytes at all is the offset of the hash.
    assert_eq!(stable_id("x", &vec![]), "x-cbf29ce484222325");
    let a = stable_id("x", &vec!["ab".to_string(), "c".to_string()]);
    let b = stable_id("x", &vec!["a".to_string(), "bc".to_string()]);
    assert_ne!(a, b);
}

fn decision(action: &str) -> GroupDecisionReq {
    GroupDecisionReq {
        action: action.to_string(),
        primary_record_id: None,
        replacements: StringMap::new(),
        keep_old_alias: false,
    }
}

#[test]
fn repeated_keys_get_the_first_answer() {
    let mut server = Server::default();
    let answer = server.create(demo(), Some("demo-key")).unwrap();
    let first = format!("{answer:?}");
    let dataset = dataset_id(answer);
    let more = AppendRecordsReq { expected_version: 1, records: vec![text_record("r5", "x")] };
    server.append(&dataset, more).unwrap();
    let again = format!("{:?}", server.create(demo(), Some("demo-key")).unwrap());
    assert_eq!(again, first);
    // With another key the data set is shown as it stands now.
    let now = server.create(demo(), Some("other-key")).unwrap();
    assert!(matches!(now, Response::Dataset { version: 2, record_count: 5, .. }));
    assert_eq!(server.log.len(), 2);
}

#[test]
fn duplicate_request_returns_same_result() {
    let mut server = Server::default();
    let request = || CreateDataset {
        name: "dup".to_string(),
        records: vec![text_record("a", "A"), text_record("b", "B")],
    };
    let r1 = server.create(request(), Some("idem-77")).unwrap();
    let r2 = server.create(request(), Some("idem-77")).unwrap();
    assert_eq!(format!("{r1:?}"), format!("{r2:?}"));
    // Without the key, a second import of the same body creates a new data set, and so does a third.
    let r3 = server.create(request(), None).unwrap();
    let r4 = server.create(request(), None).unwrap();
    let ids = [dataset_id(r1), dataset_id(r3), dataset_id(r4)];
    assert_eq!(ids[1], format!("{}-1", ids[0]));
    assert_eq!(ids[2], format!("{}-2", ids[0]));
    assert_eq!(server.state.datasets.len(), 3);
    for id in &ids {
        assert_eq!(get_dataset(&server.state, id).unwrap().records.len(), 2);
    }
}

#[test]
fn stale_write_returns_both_sides_diff() {
    let mut server = Server::default();
    let dataset = create_demo(&mut server);
    let plan = server.plan(&dataset);
    let v0 = plan.version;
    let edit = |decisions| UpdatePlanReq { expected_version: v0, status: None, decisions };
    // Writer A updates at v0.
    server.update(&plan.id, edit(map_of(vec![("foo", decision("reject"))]))).unwrap();
    // Writer B, still holding v0, must get 409 with diffs, not silent overwrite.
    let before = format!("{:?}", server.state);
    let error = server.update(&plan.id, edit(StringMap::new())).unwrap_err();
    assert_eq!(error.status, 409);
    match error.details {
        ErrorDetails::PlanConflict { base_version, current_version, changes_since_base, .. } => {
            assert_eq!(base_version, v0);
            assert_eq!(current_version, v0 + 1);
            assert_eq!(changes_since_base.len(), 1);
            assert_eq!(changes_since_base[0].version, v0 + 1);
            assert_eq!(changes_since_base[0].status, PlanStatus::Draft);
            assert_eq!(changes_since_base[0].decisions.get("foo").unwrap().action, "reject");
        }
        other => panic!("unexpected details: {other:?}"),
    }
    assert_eq!(format!("{:?}", server.state), before);
    // One more write, and a reader of nothing sees all three versions.
    let next = UpdatePlanReq { expected_version: 2, status: None, decisions: StringMap::new() };
    server.update(&plan.id, next).unwrap();
    let error = server.apply(&plan.id, 0).unwrap_err();
    match error.details {
        ErrorDetails::PlanConflict { changes_since_base, .. } => {
            let versions: Vec<u64> = changes_since_base.iter().map(|c| c.version).collect();
            assert_eq!(versions, [1, 2, 3]);
        }
        other => panic!("unexpected details: {other:?}"),
    }
}

#[test]
fn draft_cannot_be_exported() {
    let mut server = Server::default();
    let dataset = create_demo(&mut server);
    let plan = server.plan(&dataset);
    assert_eq!(export_plan(&server.state, &plan.id).unwrap_err().status, 400);
    // Nor one that has nothing to decide on.
    let request = CreateDataset { name: "one".to_string(), records: vec![text_record("a", "x")] };
    let dataset = dataset_id(server.create(request, None).unwrap());
    let plan = server.plan(&dataset);
    assert_eq!(plan.groups.len(), 0);
    assert_eq!(export_plan(&server.state, &plan.id).unwrap_err().status, 400);
    server.update(&plan.id, approval(1, StringMap::new())).unwrap();
    assert!(export_plan(&server.state, &plan.id).is_ok());
}

#[test]
fn duplicate_import_record_numbers_rejected() {
    let mut server = Server::default();
    let request = CreateDataset {
        name: "d".to_string(),
        records: vec![text_record("a", "A"), text_record("a", "B")],
    };
    assert_eq!(server.create(request, None).unwrap_err().status, 400);
    assert!(server.state.datasets.is_empty());
}

#[test]
fn added_records_are_counted_with_a_key_too() {
    let mut server = Server::default();
    let dataset = create_demo(&mut server);
    let more = AppendRecordsReq { expected_version: 1, records: vec![text_record("r5", "x")] };
    let key = Some("more-key".to_string());
    let outcome = append_records(&server.state, &dataset, more, key);
    let answer = server.take(outcome).unwrap();
    assert!(matches!(answer, Response::Dataset { version: 2, record_count: 5, .. }));
}

#[test]
fn records_are_not_renamed_onto_a_value_that_is_kept() {
    let renamed = |first: &str, second: &str| GroupDecisionReq {
        replacements: map_of(vec![("r3", first.to_string()), ("r4", second.to_string())]),
        ..decision("rename")
    };
    let kept = GroupDecisionReq {
        primary_record_id: Some("r1".to_string()),
        ..decision("keep-alias")
    };
    for other in [kept, decision("reject")] {
        let mut server = Server::default();
        let dataset = create_demo(&mut server);
        let plan = server.plan(&dataset);
        let decisions = map_of(vec![("foo", other), ("strasse", renamed("FOO", "second"))]);
        let error = server.update(&plan.id, approval(1, decisions)).unwrap_err();
        match error.details {
            ErrorDetails::Message { message } => {
                assert_eq!(message, "rename target `foo` collides with an existing value");
            }
            other => panic!("unexpected details: {other:?}"),
        }
    }
    // A value that its records leave is free.
    let mut server = Server::default();
    let dataset = create_demo(&mut server);
    let plan = server.plan(&dataset);
    let left = GroupDecisionReq {
        replacements: map_of(vec![("r1", "one".to_string()), ("r2", "two".to_string())]),
        ..decision("rename")
    };
    let decisions = map_of(vec![("foo", left), ("strasse", renamed("foo", "second"))]);
    let approved = plan_of(server.update(&plan.id, approval(1, decisions)).unwrap());
    assert_eq!(approved.baseline_mappings.len(), 4);
}

#[test]
fn used_keys_store_nothing() {
    let mut server = Server::default();
    let dataset = create_demo(&mut server);
    let key = || Some("demo-key".to_string());
    let before = format!("{:?}", server.state);
    let append = AppendRecordsReq { expected_version: 1, records: vec![text_record("r5", "x")] };
    let request = CreatePlan {
        dataset_id: dataset.clone(),
        expected_dataset_version: 1,
        from_rules: Some(old_rules()),
        rules: rules(),
    };
    let outcomes = [
        append_records(&server.state, &dataset, append, key()),
        create_plan(&server.state, request, key()),
    ];
    for outcome in outcomes {
        assert_eq!(server.take(outcome).unwrap_err().status, 409);
    }
    let plan = server.plan(&dataset);
    let after = format!("{:?}", server.state);
    assert_ne!(before, after);
    let change = update_plan(
        &server.state,
        &plan.id,
        UpdatePlanReq { expected_version: 1, status: None, decisions: StringMap::new() },
        key(),
    );
    assert_eq!(server.take(change).unwrap_err().status, 409);
    assert_eq!(format!("{:?}", server.state), after);
}

#[test]
fn approved_plans_are_frozen() {
    let mut server = Server::default();
    let request = CreateDataset {
        name: "unique".to_string(),
        records: vec![text_record("a", "alpha"), text_record("b", "beta")],
    };
    let dataset = dataset_id(server.create(request, None).unwrap());
    let plan = server.plan(&dataset);
    server.update(&plan.id, approval(1, StringMap::new())).unwrap();
    for applied in [false, true] {
        if applied {
            server.apply(&plan.id, 2).unwrap();
        }
        let before = format!("{:?}", server.state);
        let edit = UpdatePlanReq { expected_version: 2, status: None, decisions: StringMap::new() };
        let stale = UpdatePlanReq { expected_version: 1, status: None, decisions: StringMap::new() };
        let again = approval(2, StringMap::new());
        let requests = [(edit, "decisions"), (stale, "decisions"), (again, "approved")];
        for (request, asked) in requests {
            let error = server.update(&plan.id, request).unwrap_err();
            assert_eq!((error.status, error.code.as_str()), (400, "illegal-state-transition"));
            match error.details {
                ErrorDetails::IllegalTransition { from, requested } => {
                    assert_eq!(from == PlanStatus::Applied, applied);
                    assert_eq!(requested, asked);
                }
                other => panic!("unexpected details: {other:?}"),
            }
        }
        assert_eq!(format!("{:?}", server.state), before);
    }
}

#[test]
fn rejected_records_stay_out_of_the_baseline() {
    let mut server = Server::default();
    let request = CreateDataset {
        name: "some".to_string(),
        records: vec![text_record("r1", "Foo"), text_record("r2", "FOO"), text_record("r3", "bar")],
    };
    let dataset = dataset_id(server.create(request, None).unwrap());
    let plan = server.plan(&dataset);
    let decisions = map_of(vec![("foo", decision("reject"))]);
    let approved = plan_of(server.update(&plan.id, approval(1, decisions)).unwrap());
    let mapped: Vec<(&str, &str, &str, &str)> = approved
        .baseline_mappings
        .iter()
        .map(|m| {
            let (old, new) = (m.old_canonical.as_str(), m.new_canonical.as_str());
            (m.record_id.as_str(), old, new, m.action.as_str())
        })
        .collect();
    assert_eq!(mapped, [("r3", "bar", "bar", "auto")]);
    match server.apply(&plan.id, 2).unwrap() {
        Response::Applied { migration } => assert_eq!(migration.mappings.len(), 1),
        other => panic!("not applied: {other:?}"),
    }
}

#[test]
fn mappings_are_completed_without_rejected_records() {
    let mut server = Server::default();
    let dataset = create_demo(&mut server);
    let mut plan = server.plan(&dataset);
    let of = |entries: Vec<(&str, &str)>| {
        map_of(entries.into_iter().map(|(id, value)| (id, value.to_string())).collect())
    };
    plan.groups = map_of(vec![("foo", vec!["r1".to_string(), "r2".to_string()])]);
    plan.decisions = map_of(vec![(
        "foo",
        GroupDecision {
            action: "reject".to_string(),
            primary_record_id: None,
            replacements: StringMap::new(),
            keep_old_alias: false,
        },
    )]);
    let source = of(vec![("r1", "Foo"), ("r2", "FOO"), ("r3", "bar")]);
    let target = of(vec![("r1", "foo"), ("r2", "foo"), ("r3", "bar")]);
    let mappings = complete_mappings(&plan, &source, &target).unwrap();
    assert_eq!(mappings.len(), 1);
    assert_eq!(mappings[0].record_id, "r3");
    assert_eq!(mappings[0].old_canonical, "bar");
    assert_eq!(mappings[0].new_canonical, "bar");
    assert_eq!(mappings[0].action, "auto");
}

#[test]
fn a_record_that_joins_a_rejected_bucket_stops_the_plan() {
    let mut server = Server::default();
    let request = CreateDataset {
        name: "some".to_string(),
        records: vec![text_record("r1", "Foo"), text_record("r2", "FOO"), text_record("r3", "bar")],
    };
    let dataset = dataset_id(server.create(request, None).unwrap());
    let plan = server.plan(&dataset);
    let decisions = map_of(vec![("foo", decision("reject"))]);
    server.update(&plan.id, approval(1, decisions)).unwrap();
    let more = AppendRecordsReq { expected_version: 1, records: vec![text_record("r4", "foo")] };
    server.append(&dataset, more).unwrap();
    assert_eq!(server.apply(&plan.id, 2).unwrap_err().code, "simulation-failed");
}

#[test]
fn exports_show_issues_and_code_points() {
    let mut server = Server::default();
    let request = CreateDataset {
        name: "odd".to_string(),
        records: vec![
            ImportRecord {
                id: "lone".to_string(),
                text: None,
                raw_base64: None,
                codepoints: Some(vec![0x61, 0xd800]),
            },
            ImportRecord {
                id: "raw".to_string(),
                text: None,
                raw_base64: Some("Yf8=".to_string()),
                codepoints: None,
            },
            text_record("q", "a\"\\\n\u{1}é"),
        ],
    };
    let dataset = dataset_id(server.create(request, None).unwrap());
    let plan = server.plan(&dataset);
    let details = plan_data(&server.state, &plan).unwrap();
    let text = document(&plan, &details);
    let value: Value = serde_json::from_str(&text).unwrap();
    assert_eq!(serde_json::to_string(&value).unwrap(), text);
    assert_eq!(value["format"], "unicode-collision-workbench/export/v1");
    assert_eq!(value["plan"]["status"], "draft");
    let records = value["records"].as_array().unwrap();
    assert_eq!(records[0]["record_id"], "lone");
    assert_eq!(records[0]["eligible"], false);
    assert!(records[0]["issues"].as_array().unwrap().iter().any(|i| i["codepoint"] == "U+D800"));
    let points = records[0]["stages"][0]["codepoints"].as_array().unwrap();
    assert_eq!(points[0]["character"], "a");
    assert_eq!(points[1]["surrogate"], true);
    assert_eq!(points[1]["value"], 0xd800);
    assert!(points[1].get("character").is_none());
    assert_eq!(records[1]["original_text"], "a\"\\\n\u{1}é");
    assert_eq!(records[2]["original_text"], Value::Null);
    let sealed = sealed_document(&plan, &details, &[0x00, 0xff]);
    let value: Value = serde_json::from_str(&sealed).unwrap();
    assert_eq!(value["sha256"], "00ff");
}
