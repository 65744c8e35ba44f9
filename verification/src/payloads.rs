//! What is written of rules and requests, read as JSON: rules of a plan, and requests that are told
//! apart by it.

use vstd::prelude::*;

use crate::engine::{NormalizationForm, RuleConfigModel, RuleSnapshotModel, UnicodeTable};
use crate::deposits;
use crate::exported;
use crate::import;
use crate::json;
use crate::ledger;
use crate::ledger::{ResponseModel, StateModel, StoredRecordModel};
use crate::order;
use crate::readings;
use crate::readings::Json;
use crate::requests::{
    AppendRecordsReqModel, ApplyPlanReqModel, CreateDatasetModel,
    GroupDecisionReqModel, ImportRecordModel, UpdatePlanReqModel,
};
use crate::service;
use crate::shapes;
use crate::text;

verus! {

/// The name of a generation of tables.
pub open spec fn table(x: UnicodeTable) -> Seq<char> {
    match x {
        UnicodeTable::U15_1 => "u15-1"@,
        UnicodeTable::U16_0 => "u16-0"@,
    }
}

/// The name of a generation of tables, if one is named.
pub open spec fn table_named(x: Option<UnicodeTable>) -> Option<Seq<char>> {
    match x {
        Some(x) => Some(table(x)),
        None => None,
    }
}

/// The name of a normalization form, if one is named.
pub open spec fn form_named(x: Option<NormalizationForm>) -> Option<Seq<char>> {
    match x {
        Some(x) => Some(exported::form(x)),
        None => None,
    }
}

/// Rules, as they are told apart.
pub open spec fn rules(x: RuleConfigModel) -> Json {
    Json::Object(
        seq![
            ("unicode_table"@, readings::optional(table_named(x.unicode_table))),
            ("case_fold"@, Json::Bool(x.case_fold)),
            ("normalization"@, readings::optional(form_named(x.normalization))),
            ("strip_default_ignorable"@, Json::Bool(x.strip_default_ignorable)),
            ("script_policy"@, Json::Text(exported::policy(x.script_policy))),
            ("allowed_scripts"@, exported::strings(order::in_order(x.allowed_scripts))),
        ],
    )
}

proof fn lemma_rules(x: RuleConfigModel)
    ensures
        readings::says(shapes::rules_text(x), rules(x)),
{
    readings::lemma_optional_says(table_named(x.unicode_table));
    readings::lemma_bool_says(x.case_fold);
    readings::lemma_optional_says(form_named(x.normalization));
    readings::lemma_bool_says(x.strip_default_ignorable);
    readings::lemma_text_says(exported::policy(x.script_policy));
    exported::lemma_strings(order::in_order(x.allowed_scripts));
    let keys = seq!["unicode_table"@, "case_fold"@, "normalization"@, "strip_default_ignorable"@, "script_policy"@, "allowed_scripts"@];
    let texts = seq![
        json::optional_text(table_named(x.unicode_table)),
        json::bool_text(x.case_fold),
        json::optional_text(form_named(x.normalization)),
        json::bool_text(x.strip_default_ignorable),
        json::quoted(shapes::policy_name(x.script_policy)),
        shapes::set_text(x.allowed_scripts),
    ];
    let values = seq![
        readings::optional(table_named(x.unicode_table)),
        Json::Bool(x.case_fold),
        readings::optional(form_named(x.normalization)),
        Json::Bool(x.strip_default_ignorable),
        Json::Text(exported::policy(x.script_policy)),
        exported::strings(order::in_order(x.allowed_scripts)),
    ];
    assert forall|i: int| 0 <= i < keys.len() implies readings::says(#[trigger] texts[i], values[i]) by {}
    readings::lemma_object_says(keys, texts, values);
    assert(readings::member_values(keys, values) =~= seq![
        ("unicode_table"@, readings::optional(table_named(x.unicode_table))),
        ("case_fold"@, Json::Bool(x.case_fold)),
        ("normalization"@, readings::optional(form_named(x.normalization))),
        ("strip_default_ignorable"@, Json::Bool(x.strip_default_ignorable)),
        ("script_policy"@, Json::Text(exported::policy(x.script_policy))),
        ("allowed_scripts"@, exported::strings(order::in_order(x.allowed_scripts))),
    ]);
    assert(exported::policy(x.script_policy) == shapes::policy_name(x.script_policy));
    let shown = seq![
        json::member(
            "unicode_table"@,
            json::optional_text(
                match x.unicode_table {
                    Some(table) => Some(shapes::table_name(table)),
                    None => None,
                },
            ),
        ),
        json::member("case_fold"@, json::bool_text(x.case_fold)),
        json::member(
            "normalization"@,
            json::optional_text(
                match x.normalization {
                    Some(form) => Some(shapes::form_name(form)),
                    None => None,
                },
            ),
        ),
        json::member("strip_default_ignorable"@, json::bool_text(x.strip_default_ignorable)),
        json::member("script_policy"@, json::quoted(shapes::policy_name(x.script_policy))),
        json::member("allowed_scripts"@, shapes::set_text(x.allowed_scripts)),
    ];
    assert(shown =~= readings::member_texts(keys, texts));
    assert(shapes::rules_text(x) == json::object_text(shown));
    assert(rules(x) == Json::Object(readings::member_values(keys, values)));
}

/// Rules with the versions of their tables, as a plan keeps them.
pub open spec fn snapshot(x: RuleSnapshotModel) -> Json {
    Json::Object(
        seq![
            ("unicode_version"@, Json::Text(x.unicode_version)),
            ("case_fold"@, Json::Bool(x.case_fold)),
            ("normalization"@, Json::Text(exported::form(x.normalization))),
            ("strip_default_ignorable"@, Json::Bool(x.strip_default_ignorable)),
            ("script_policy"@, Json::Text(exported::policy(x.script_policy))),
            ("allowed_scripts"@, exported::strings(order::in_order(x.allowed_scripts))),
            ("icu_casemap"@, Json::Text(x.icu_casemap)),
            ("icu_normalizer"@, Json::Text(x.icu_normalizer)),
            ("icu_properties"@, Json::Text(x.icu_properties)),
        ],
    )
}

/// Rules that a plan keeps are read back.
pub proof fn lemma_snapshot(x: RuleSnapshotModel)
    ensures
        readings::says(shapes::snapshot_text(x), snapshot(x)),
{
    readings::lemma_text_says(x.unicode_version);
    readings::lemma_bool_says(x.case_fold);
    readings::lemma_text_says(exported::form(x.normalization));
    readings::lemma_bool_says(x.strip_default_ignorable);
    readings::lemma_text_says(exported::policy(x.script_policy));
    exported::lemma_strings(order::in_order(x.allowed_scripts));
    readings::lemma_text_says(x.icu_casemap);
    readings::lemma_text_says(x.icu_normalizer);
    readings::lemma_text_says(x.icu_properties);
    let keys = seq!["unicode_version"@, "case_fold"@, "normalization"@, "strip_default_ignorable"@, "script_policy"@, "allowed_scripts"@, "icu_casemap"@, "icu_normalizer"@, "icu_properties"@];
    let texts = seq![
        json::quoted(x.unicode_version),
        json::bool_text(x.case_fold),
        json::quoted(shapes::form_name(x.normalization)),
        json::bool_text(x.strip_default_ignorable),
        json::quoted(shapes::policy_name(x.script_policy)),
        shapes::set_text(x.allowed_scripts),
        json::quoted(x.icu_casemap),
        json::quoted(x.icu_normalizer),
        json::quoted(x.icu_properties),
    ];
    let values = seq![
        Json::Text(x.unicode_version),
        Json::Bool(x.case_fold),
        Json::Text(exported::form(x.normalization)),
        Json::Bool(x.strip_default_ignorable),
        Json::Text(exported::policy(x.script_policy)),
        exported::strings(order::in_order(x.allowed_scripts)),
        Json::Text(x.icu_casemap),
        Json::Text(x.icu_normalizer),
        Json::Text(x.icu_properties),
    ];
    assert forall|i: int| 0 <= i < keys.len() implies readings::says(#[trigger] texts[i], values[i]) by {}
    readings::lemma_object_says(keys, texts, values);
    assert(readings::member_texts(keys, texts) =~= seq![
        json::member("unicode_version"@, json::quoted(x.unicode_version)),
        json::member("case_fold"@, json::bool_text(x.case_fold)),
        json::member("normalization"@, json::quoted(shapes::form_name(x.normalization))),
        json::member("strip_default_ignorable"@, json::bool_text(x.strip_default_ignorable)),
        json::member("script_policy"@, json::quoted(shapes::policy_name(x.script_policy))),
        json::member("allowed_scripts"@, shapes::set_text(x.allowed_scripts)),
        json::member("icu_casemap"@, json::quoted(x.icu_casemap)),
        json::member("icu_normalizer"@, json::quoted(x.icu_normalizer)),
        json::member("icu_properties"@, json::quoted(x.icu_properties)),
    ]);
    assert(readings::member_values(keys, values) =~= seq![
        ("unicode_version"@, Json::Text(x.unicode_version)),
        ("case_fold"@, Json::Bool(x.case_fold)),
        ("normalization"@, Json::Text(exported::form(x.normalization))),
        ("strip_default_ignorable"@, Json::Bool(x.strip_default_ignorable)),
        ("script_policy"@, Json::Text(exported::policy(x.script_policy))),
        ("allowed_scripts"@, exported::strings(order::in_order(x.allowed_scripts))),
        ("icu_casemap"@, Json::Text(x.icu_casemap)),
        ("icu_normalizer"@, Json::Text(x.icu_normalizer)),
        ("icu_properties"@, Json::Text(x.icu_properties)),
    ]);
}

/// The shape of a plan: its data set with the version, the rules that it starts from and those that it
/// leads to.
pub open spec fn shape(id: Seq<char>, version: u64, from_rules: RuleConfigModel, to: RuleConfigModel) -> Json {
    Json::List(
        seq![Json::Text(id), Json::Number(version as nat), rules(from_rules), rules(to)],
    )
}

/// The shape of a plan is read back.
pub proof fn lemma_shape(id: Seq<char>, version: u64, from_rules: RuleConfigModel, to: RuleConfigModel)
    ensures
        readings::says(
            shapes::plan_shape(id, version, from_rules, to),
            shape(id, version, from_rules, to),
        ),
{
    readings::lemma_text_says(id);
    readings::lemma_number_says(version as nat);
    lemma_rules(from_rules);
    lemma_rules(to);
    let parts = seq![
        json::quoted(id),
        text::decimal_text(version as nat),
        shapes::rules_text(from_rules),
        shapes::rules_text(to),
    ];
    let values = seq![Json::Text(id), Json::Number(version as nat), rules(from_rules), rules(to)];
    assert forall|i: int| 0 <= i < parts.len() implies readings::says(#[trigger] parts[i], values[i]) by {}
    readings::lemma_list_says(parts, values);
}

/// A request for a data set, by its name and the shape of its records.
pub open spec fn importing(name: Seq<char>, shape: Seq<char>) -> Json {
    Json::Object(
        seq![
            ("name"@, Json::Text(name)),
            ("shape"@, Json::Text(shape)),
        ],
    )
}

proof fn lemma_importing(name: Seq<char>, shape: Seq<char>)
    ensures
        readings::says(shapes::dataset_payload(name, shape), importing(name, shape)),
{
    readings::lemma_text_says(name);
    readings::lemma_text_says(shape);
    let keys = seq!["name"@, "shape"@];
    let texts = seq![
        json::quoted(name),
        json::quoted(shape),
    ];
    let values = seq![
        Json::Text(name),
        Json::Text(shape),
    ];
    assert forall|i: int| 0 <= i < keys.len() implies readings::says(#[trigger] texts[i], values[i]) by {}
    readings::lemma_object_says(keys, texts, values);
    assert(readings::member_texts(keys, texts) =~= seq![
        json::member("name"@, json::quoted(name)),
        json::member("shape"@, json::quoted(shape)),
    ]);
    assert(readings::member_values(keys, values) =~= seq![
        ("name"@, Json::Text(name)),
        ("shape"@, Json::Text(shape)),
    ]);
}

/// A request to add records, by the data set, its version and the ids of the records.
pub open spec fn addition(id: Seq<char>, version: u64, ids: Seq<Seq<char>>) -> Json {
    Json::Object(
        seq![
            ("dataset_id"@, Json::Text(id)),
            ("expected_version"@, Json::Number(version as nat)),
            ("record_ids"@, exported::strings(ids)),
        ],
    )
}

proof fn lemma_addition(id: Seq<char>, version: u64, ids: Seq<Seq<char>>)
    ensures
        readings::says(shapes::append_payload(id, version, ids), addition(id, version, ids)),
{
    readings::lemma_text_says(id);
    readings::lemma_number_says(version as nat);
    exported::lemma_strings(ids);
    let keys = seq!["dataset_id"@, "expected_version"@, "record_ids"@];
    let texts = seq![
        json::quoted(id),
        text::decimal_text(version as nat),
        json::list_text(json::quoted_all(ids)),
    ];
    let values = seq![
        Json::Text(id),
        Json::Number(version as nat),
        exported::strings(ids),
    ];
    assert forall|i: int| 0 <= i < keys.len() implies readings::says(#[trigger] texts[i], values[i]) by {}
    readings::lemma_object_says(keys, texts, values);
    assert(readings::member_texts(keys, texts) =~= seq![
        json::member("dataset_id"@, json::quoted(id)),
        json::member("expected_version"@, text::decimal_text(version as nat)),
        json::member("record_ids"@, json::list_text(json::quoted_all(ids))),
    ]);
    assert(readings::member_values(keys, values) =~= seq![
        ("dataset_id"@, Json::Text(id)),
        ("expected_version"@, Json::Number(version as nat)),
        ("record_ids"@, exported::strings(ids)),
    ]);
}

/// A request for a plan, by its shape.
pub open spec fn planning(shape: Seq<char>) -> Json {
    Json::Object(
        seq![
            ("shape"@, Json::Text(shape)),
        ],
    )
}

proof fn lemma_planning(shape: Seq<char>)
    ensures
        readings::says(shapes::plan_payload(shape), planning(shape)),
{
    readings::lemma_text_says(shape);
    let keys = seq!["shape"@];
    let texts = seq![
        json::quoted(shape),
    ];
    let values = seq![
        Json::Text(shape),
    ];
    assert forall|i: int| 0 <= i < keys.len() implies readings::says(#[trigger] texts[i], values[i]) by {}
    readings::lemma_object_says(keys, texts, values);
    assert(readings::member_texts(keys, texts) =~= seq![
        json::member("shape"@, json::quoted(shape)),
    ]);
    assert(readings::member_values(keys, values) =~= seq![
        ("shape"@, Json::Text(shape)),
    ]);
}

/// A request to carry a plan out.
pub open spec fn application(id: Seq<char>, version: u64) -> Json {
    Json::Object(
        seq![
            ("expected_version"@, Json::Number(version as nat)),
            ("plan_id"@, Json::Text(id)),
        ],
    )
}

proof fn lemma_application(id: Seq<char>, version: u64)
    ensures
        readings::says(shapes::apply_payload(id, version), application(id, version)),
{
    readings::lemma_number_says(version as nat);
    readings::lemma_text_says(id);
    let keys = seq!["expected_version"@, "plan_id"@];
    let texts = seq![
        text::decimal_text(version as nat),
        json::quoted(id),
    ];
    let values = seq![
        Json::Number(version as nat),
        Json::Text(id),
    ];
    assert forall|i: int| 0 <= i < keys.len() implies readings::says(#[trigger] texts[i], values[i]) by {}
    readings::lemma_object_says(keys, texts, values);
    assert(readings::member_texts(keys, texts) =~= seq![
        json::member("expected_version"@, text::decimal_text(version as nat)),
        json::member("plan_id"@, json::quoted(id)),
    ]);
    assert(readings::member_values(keys, values) =~= seq![
        ("expected_version"@, Json::Number(version as nat)),
        ("plan_id"@, Json::Text(id)),
    ]);
}

/// A decision that is asked for.
pub open spec fn decision(x: GroupDecisionReqModel) -> Json {
    Json::Object(
        seq![
            ("action"@, Json::Text(x.action)),
            ("keep_old_alias"@, Json::Bool(x.keep_old_alias)),
            ("primary_record_id"@, readings::optional(x.primary_record_id)),
            ("replacements"@, exported::replacements(x.replacements)),
        ],
    )
}

proof fn lemma_decision(x: GroupDecisionReqModel)
    ensures
        readings::says(shapes::decision_text(x), decision(x)),
{
    readings::lemma_text_says(x.action);
    readings::lemma_bool_says(x.keep_old_alias);
    readings::lemma_optional_says(x.primary_record_id);
    exported::lemma_replacements(x.replacements);
    let keys = seq!["action"@, "keep_old_alias"@, "primary_record_id"@, "replacements"@];
    let texts = seq![
        json::quoted(x.action),
        json::bool_text(x.keep_old_alias),
        json::optional_text(x.primary_record_id),
        shapes::map_text(x.replacements),
    ];
    let values = seq![
        Json::Text(x.action),
        Json::Bool(x.keep_old_alias),
        readings::optional(x.primary_record_id),
        exported::replacements(x.replacements),
    ];
    assert forall|i: int| 0 <= i < keys.len() implies readings::says(#[trigger] texts[i], values[i]) by {}
    readings::lemma_object_says(keys, texts, values);
    assert(readings::member_texts(keys, texts) =~= seq![
        json::member("action"@, json::quoted(x.action)),
        json::member("keep_old_alias"@, json::bool_text(x.keep_old_alias)),
        json::member("primary_record_id"@, json::optional_text(x.primary_record_id)),
        json::member("replacements"@, shapes::map_text(x.replacements)),
    ]);
    assert(readings::member_values(keys, values) =~= seq![
        ("action"@, Json::Text(x.action)),
        ("keep_old_alias"@, Json::Bool(x.keep_old_alias)),
        ("primary_record_id"@, readings::optional(x.primary_record_id)),
        ("replacements"@, exported::replacements(x.replacements)),
    ]);
}

/// Decisions that are asked for, in ascending order of the buckets.
pub open spec fn decisions(m: Map<Seq<char>, GroupDecisionReqModel>) -> Json {
    let keys = order::in_order(m.dom());
    Json::Object(Seq::new(keys.len(), |i: int| (keys[i], decision(m[keys[i]]))))
}

proof fn lemma_decisions(m: Map<Seq<char>, GroupDecisionReqModel>)
    ensures
        readings::says(shapes::decisions_text(m), decisions(m)),
{
    let keys = order::in_order(m.dom());
    let texts = Seq::new(keys.len(), |i: int| shapes::decision_text(m[keys[i]]));
    let values = Seq::new(keys.len(), |i: int| decision(m[keys[i]]));
    assert forall|i: int| 0 <= i < keys.len() implies readings::says(#[trigger] texts[i], values[i]) by {
        lemma_decision(m[keys[i]]);
    }
    readings::lemma_object_says(keys, texts, values);
    assert(readings::member_texts(keys, texts) =~= Seq::new(
        keys.len(),
        |i: int| json::member(keys[i], shapes::decision_text(m[keys[i]])),
    ));
    assert(readings::member_values(keys, values) =~= Seq::new(
        keys.len(),
        |i: int| (keys[i], decision(m[keys[i]])),
    ));
}

/// A request to change a plan.
pub open spec fn update(x: UpdatePlanReqModel) -> Json {
    Json::Object(
        seq![
            ("decisions"@, decisions(x.decisions)),
            ("expected_version"@, Json::Number(x.expected_version as nat)),
            ("status"@, readings::optional(x.status)),
        ],
    )
}

proof fn lemma_update(x: UpdatePlanReqModel)
    ensures
        readings::says(shapes::update_payload(x), update(x)),
{
    lemma_decisions(x.decisions);
    readings::lemma_number_says(x.expected_version as nat);
    readings::lemma_optional_says(x.status);
    let keys = seq!["decisions"@, "expected_version"@, "status"@];
    let texts = seq![
        shapes::decisions_text(x.decisions),
        text::decimal_text(x.expected_version as nat),
        json::optional_text(x.status),
    ];
    let values = seq![
        decisions(x.decisions),
        Json::Number(x.expected_version as nat),
        readings::optional(x.status),
    ];
    assert forall|i: int| 0 <= i < keys.len() implies readings::says(#[trigger] texts[i], values[i]) by {}
    readings::lemma_object_says(keys, texts, values);
    assert(readings::member_texts(keys, texts) =~= seq![
        json::member("decisions"@, shapes::decisions_text(x.decisions)),
        json::member("expected_version"@, text::decimal_text(x.expected_version as nat)),
        json::member("status"@, json::optional_text(x.status)),
    ]);
    assert(readings::member_values(keys, values) =~= seq![
        ("decisions"@, decisions(x.decisions)),
        ("expected_version"@, Json::Number(x.expected_version as nat)),
        ("status"@, readings::optional(x.status)),
    ]);
}

/// A receipt stands for a request: its hash is that of a text that reads as the request.
pub open spec fn stands_for(hash: Seq<char>, written: Seq<char>, request: Json) -> bool {
    readings::read(written) == Some(request) && hash == shapes::hash_text(written)
}

/// A change of a plan with a key leaves a receipt that stands for the request: its decisions, the
/// version that it is based on and its status.
pub proof fn receipts_stand_for_changes(
    s: StateModel,
    id: Seq<char>,
    request: UpdatePlanReqModel,
    key: Seq<char>,
)
    requires
        service::plan_change(s, id, request, Some(key)) matches Ok(step) && step is Commit,
    ensures
        ({
            let step = service::plan_change(s, id, request, Some(key))->Ok_0;
            let t = ledger::applied(s, step->Commit_event);
            &&& t.commands.contains_key(key)
            &&& exists|written: Seq<char>| #[trigger]
                stands_for(t.commands[key].request_hash, written, update(request))
        }),
{
    lemma_update(request);
    readings::lemma_read(shapes::update_payload(request), update(request));
    let step = service::plan_change(s, id, request, Some(key))->Ok_0;
    let t = ledger::applied(s, step->Commit_event);
    assert(stands_for(t.commands[key].request_hash, shapes::update_payload(request), update(request)));
}

/// A change of a plan is answered from a receipt only if that stands for the same request, and then as
/// the receipt says.
pub proof fn receipts_answer_changes(
    s: StateModel,
    id: Seq<char>,
    request: UpdatePlanReqModel,
    key: Option<Seq<char>>,
    response: ResponseModel,
)
    requires
        service::plan_change(s, id, request, key) matches Ok(step) && step is Reply
            && step->Reply_response == response,
    ensures
        key matches Some(key) && s.commands.contains_key(key) && s.commands[key].response == response
            && exists|written: Seq<char>| #[trigger]
            stands_for(s.commands[key].request_hash, written, update(request)),
{
    lemma_update(request);
    readings::lemma_read(shapes::update_payload(request), update(request));
    assert(stands_for(
        s.commands[key->0].request_hash,
        shapes::update_payload(request),
        update(request),
    ));
}

/// Records that are added with a key leave a receipt that stands for the request: the data set, the
/// version that it is based on and the ids of the records, in order.
pub proof fn receipts_stand_for_additions(
    s: StateModel,
    id: Seq<char>,
    request: AppendRecordsReqModel,
    key: Seq<char>,
)
    requires
        service::records_addition(s, id, request, Some(key)) matches Ok(step) && step is Commit,
    ensures
        ({
            let step = service::records_addition(s, id, request, Some(key))->Ok_0;
            let t = ledger::applied(s, step->Commit_event);
            let ids = Seq::new(request.records.len(), |i: int| request.records[i].id);
            &&& t.commands.contains_key(key)
            &&& exists|written: Seq<char>| #[trigger]
                stands_for(
                    t.commands[key].request_hash,
                    written,
                    addition(id, request.expected_version, ids),
                )
        }),
{
    let version = (s.datasets[id].version + 1) as u64;
    let done = import::stored_all(request.records, version)->Ok_0;
    let ids = Seq::new(request.records.len(), |i: int| request.records[i].id);
    deposits::lemma_stored_all(request.records, version);
    assert forall|i: int| 0 <= i < ids.len() implies ids[i] == service::stored_ids(done)[i] by {
        assert(deposits::kept(request.records[i], version, done[i]));
    }
    assert(service::stored_ids(done) =~= ids);
    lemma_addition(id, request.expected_version, ids);
    let written = shapes::append_payload(id, request.expected_version, ids);
    readings::lemma_read(written, addition(id, request.expected_version, ids));
    let step = service::records_addition(s, id, request, Some(key))->Ok_0;
    let t = ledger::applied(s, step->Commit_event);
    assert(stands_for(
        t.commands[key].request_hash,
        written,
        addition(id, request.expected_version, ids),
    ));
}

/// A plan that is carried out with a key leaves a receipt that stands for the request: the plan and the
/// version that it is based on.
pub proof fn receipts_stand_for_applications(
    s: StateModel,
    id: Seq<char>,
    request: ApplyPlanReqModel,
    key: Seq<char>,
)
    requires
        service::plan_application(s, id, request, Some(key)) matches Ok(step) && step is Commit,
    ensures
        ({
            let step = service::plan_application(s, id, request, Some(key))->Ok_0;
            let t = ledger::applied(s, step->Commit_event);
            &&& t.commands.contains_key(key)
            &&& exists|written: Seq<char>| #[trigger]
                stands_for(
                    t.commands[key].request_hash,
                    written,
                    application(id, request.expected_version),
                )
        }),
{
    lemma_application(id, request.expected_version);
    let written = shapes::apply_payload(id, request.expected_version);
    readings::lemma_read(written, application(id, request.expected_version));
    let step = service::plan_application(s, id, request, Some(key))->Ok_0;
    let t = ledger::applied(s, step->Commit_event);
    assert(stands_for(
        t.commands[key].request_hash,
        written,
        application(id, request.expected_version),
    ));
}

/// A text that reads as the records of a data set by their ids and what is kept of their sources.
pub open spec fn tells_records(shape: Seq<char>, dataset: ledger::DatasetModel, ids: Seq<Seq<char>>) -> bool {
    shape == text::joined(
        Seq::new(
            ids.len(),
            |i: int| ids[i] + ":"@ + dataset.records[ids[i]].original_bytes_base64,
        ),
        "|"@,
    )
}

/// An import with a key leaves a receipt that stands for the request: its name, and the ids and sources
/// of its records in order. Its id stands for the same.
pub proof fn receipts_stand_for_imports(s: StateModel, request: CreateDatasetModel, key: Seq<char>)
    requires
        s.datasets.dom().finite(),
        service::dataset_creation(s, request, Some(key)) matches Ok(step) && step is Commit,
    ensures
        ({
            let step = service::dataset_creation(s, request, Some(key))->Ok_0;
            let t = ledger::applied(s, step->Commit_event);
            let ids = Seq::new(request.records.len(), |i: int| request.records[i].id);
            &&& t.commands.contains_key(key)
            &&& exists|written: Seq<char>, shape: Seq<char>, id: Seq<char>| #[trigger]
                stands_for(t.commands[key].request_hash, written, importing(request.name, shape))
                    && id == ledger::stable_id_text("ds"@, seq![request.name, shape])
                    && #[trigger] deposits::deposited(
                    s,
                    t,
                    id,
                    request,
                    step->Commit_response,
                ) && tells_records(shape, t.datasets[id], ids)
        }),
{
    let step = service::dataset_creation(s, request, Some(key))->Ok_0;
    let t = ledger::applied(s, step->Commit_event);
    let done = import::stored_all(request.records, 1)->Ok_0;
    let ids = Seq::new(request.records.len(), |i: int| request.records[i].id);
    let shape = shapes::records_shape(done);
    let id = service::dataset_id(request.name, shape);
    let written = shapes::dataset_payload(request.name, shape);
    lemma_importing(request.name, shape);
    readings::lemma_read(written, importing(request.name, shape));
    deposits::new_data_sets_hold_what_was_sent(s, request, Some(key));
    let found = choose|id: Seq<char>| #[trigger]
        deposits::deposited(s, t, id, request, step->Commit_response);
    assert(found == id);
    deposits::lemma_stored_all(request.records, 1);
    lemma_records_by_id(request.records, done);
    assert(Seq::new(done.len(), |i: int| done[i].id + ":"@ + done[i].original_bytes_base64)
        =~= Seq::new(
        ids.len(),
        |i: int| ids[i] + ":"@ + t.datasets[id].records[ids[i]].original_bytes_base64,
    ));
    assert(tells_records(shape, t.datasets[id], ids));
    assert(stands_for(t.commands[key].request_hash, written, importing(request.name, shape)));
}

proof fn lemma_records_by_id(records: Seq<ImportRecordModel>, done: Seq<StoredRecordModel>)
    requires
        deposits::acceptable(records),
        done.len() == records.len(),
        forall|i: int| 0 <= i < records.len() ==> deposits::kept(#[trigger] records[i], 1, done[i]),
    ensures
        forall|i: int|
            0 <= i < done.len() ==> #[trigger] done[i].id == records[i].id && ledger::with_records(
                Map::empty(),
                done,
            )[done[i].id] == done[i],
{
    assert forall|i: int| 0 <= i < done.len() implies #[trigger] done[i].id == records[i].id
        && ledger::with_records(Map::empty(), done)[done[i].id] == done[i] by {
        assert(deposits::kept(records[i], 1, done[i]));
        lemma_found_by_id(records, done, done.len() as int, i);
        assert(done.take(done.len() as int) =~= done);
    }
}

proof fn lemma_found_by_id(
    records: Seq<ImportRecordModel>,
    done: Seq<StoredRecordModel>,
    n: int,
    i: int,
)
    requires
        deposits::acceptable(records),
        done.len() == records.len(),
        forall|k: int| 0 <= k < records.len() ==> deposits::kept(#[trigger] records[k], 1, done[k]),
        0 <= i < n <= done.len(),
    ensures
        ledger::with_records(Map::empty(), done.take(n))[done[i].id] == done[i],
    decreases n,
{
    assert(done.take(n).drop_last() =~= done.take(n - 1));
    assert(done.take(n).last() == done[n - 1]);
    if i < n - 1 {
        lemma_found_by_id(records, done, n - 1, i);
        assert(deposits::kept(records[i], 1, done[i]));
        assert(deposits::kept(records[n - 1], 1, done[n - 1]));
        assert(records[i].id != records[n - 1].id);
    }
}

} // verus!
