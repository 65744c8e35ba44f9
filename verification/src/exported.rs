//! What an exported plan says, read as JSON.

use vstd::prelude::*;
use vstd::utf8::*;

use crate::consistency;
use crate::engine::{
    AnalysisModel, NormalizationForm, RecordModel, RuleSnapshotModel, ScriptPolicy, StageModel,
};
use crate::exports;
use crate::hex_bytes;
use crate::json;
use crate::ledger;
use crate::ledger::{
    GroupDecisionModel, PlanDetailsModel, PlanModel, PlanStatus, StateModel, StoredMappingModel,
};
use crate::mappings;
use crate::order;
use crate::outcomes;
use crate::readings;
use crate::readings::Json;
use crate::service;
use crate::shapes;
use crate::source::{CodePointModel, IssueModel};
use crate::text;

verus! {

/// Strings in a list.
pub open spec fn strings(all: Seq<Seq<char>>) -> Json {
    Json::List(Seq::new(all.len(), |i: int| Json::Text(all[i])))
}

/// A list of strings is read back.
pub proof fn lemma_strings(all: Seq<Seq<char>>)
    ensures
        readings::says(json::list_text(json::quoted_all(all)), strings(all)),
{
    let parts = json::quoted_all(all);
    let values = Seq::new(all.len(), |i: int| Json::Text(all[i]));
    assert forall|i: int| 0 <= i < parts.len() implies readings::says(#[trigger] parts[i], values[i]) by {
        readings::lemma_text_says(all[i]);
    }
    readings::lemma_list_says(parts, values);
}

/// The name of a normalization form.
pub open spec fn form(x: NormalizationForm) -> Seq<char> {
    match x {
        NormalizationForm::Nfc => "NFC"@,
        NormalizationForm::Nfkc => "NFKC"@,
    }
}

/// The name of a script policy.
pub open spec fn policy(x: ScriptPolicy) -> Seq<char> {
    match x {
        ScriptPolicy::Off => "off"@,
        ScriptPolicy::Single => "single"@,
        ScriptPolicy::Allowed => "allowed"@,
    }
}

/// The name of a status.
pub open spec fn status(x: PlanStatus) -> Seq<char> {
    match x {
        PlanStatus::Draft => "draft"@,
        PlanStatus::Approved => "approved"@,
        PlanStatus::Rejected => "rejected"@,
        PlanStatus::Applied => "applied"@,
    }
}

proof fn lemma_six(
    k0: Seq<char>,
    k1: Seq<char>,
    k2: Seq<char>,
    k3: Seq<char>,
    k4: Seq<char>,
    k5: Seq<char>,
    t0: Seq<char>,
    t1: Seq<char>,
    t2: Seq<char>,
    t3: Seq<char>,
    t4: Seq<char>,
    t5: Seq<char>,
    v0: Json,
    v1: Json,
    v2: Json,
    v3: Json,
    v4: Json,
    v5: Json,
)
    requires
        readings::says(t0, v0),
        readings::says(t1, v1),
        readings::says(t2, v2),
        readings::says(t3, v3),
        readings::says(t4, v4),
        readings::says(t5, v5),
    ensures
        readings::says(
            json::object_text(
                seq![
                    json::member(k0, t0),
                    json::member(k1, t1),
                    json::member(k2, t2),
                    json::member(k3, t3),
                    json::member(k4, t4),
                    json::member(k5, t5),
                ],
            ),
            Json::Object(
                seq![
                    (k0, v0),
                    (k1, v1),
                    (k2, v2),
                    (k3, v3),
                    (k4, v4),
                    (k5, v5),
                ],
            ),
        ),
{
    let keys = seq![k0, k1, k2, k3, k4, k5];
    let texts = seq![t0, t1, t2, t3, t4, t5];
    let values = seq![v0, v1, v2, v3, v4, v5];
    assert forall|i: int| 0 <= i < keys.len() implies readings::says(#[trigger] texts[i], values[i]) by {}
    readings::lemma_object_says(keys, texts, values);
    assert(readings::member_texts(keys, texts) =~= seq![
        json::member(k0, t0),
        json::member(k1, t1),
        json::member(k2, t2),
        json::member(k3, t3),
        json::member(k4, t4),
        json::member(k5, t5),
    ]);
    assert(readings::member_values(keys, values) =~= seq![
        (k0, v0),
        (k1, v1),
        (k2, v2),
        (k3, v3),
        (k4, v4),
        (k5, v5),
    ]);
}

proof fn lemma_eight(
    k0: Seq<char>,
    k1: Seq<char>,
    k2: Seq<char>,
    k3: Seq<char>,
    k4: Seq<char>,
    k5: Seq<char>,
    k6: Seq<char>,
    k7: Seq<char>,
    t0: Seq<char>,
    t1: Seq<char>,
    t2: Seq<char>,
    t3: Seq<char>,
    t4: Seq<char>,
    t5: Seq<char>,
    t6: Seq<char>,
    t7: Seq<char>,
    v0: Json,
    v1: Json,
    v2: Json,
    v3: Json,
    v4: Json,
    v5: Json,
    v6: Json,
    v7: Json,
)
    requires
        readings::says(t0, v0),
        readings::says(t1, v1),
        readings::says(t2, v2),
        readings::says(t3, v3),
        readings::says(t4, v4),
        readings::says(t5, v5),
        readings::says(t6, v6),
        readings::says(t7, v7),
    ensures
        readings::says(
            json::object_text(
                seq![
                    json::member(k0, t0),
                    json::member(k1, t1),
                    json::member(k2, t2),
                    json::member(k3, t3),
                    json::member(k4, t4),
                    json::member(k5, t5),
                    json::member(k6, t6),
                    json::member(k7, t7),
                ],
            ),
            Json::Object(
                seq![
                    (k0, v0),
                    (k1, v1),
                    (k2, v2),
                    (k3, v3),
                    (k4, v4),
                    (k5, v5),
                    (k6, v6),
                    (k7, v7),
                ],
            ),
        ),
{
    let keys = seq![k0, k1, k2, k3, k4, k5, k6, k7];
    let texts = seq![t0, t1, t2, t3, t4, t5, t6, t7];
    let values = seq![v0, v1, v2, v3, v4, v5, v6, v7];
    assert forall|i: int| 0 <= i < keys.len() implies readings::says(#[trigger] texts[i], values[i]) by {}
    readings::lemma_object_says(keys, texts, values);
    assert(readings::member_texts(keys, texts) =~= seq![
        json::member(k0, t0),
        json::member(k1, t1),
        json::member(k2, t2),
        json::member(k3, t3),
        json::member(k4, t4),
        json::member(k5, t5),
        json::member(k6, t6),
        json::member(k7, t7),
    ]);
    assert(readings::member_values(keys, values) =~= seq![
        (k0, v0),
        (k1, v1),
        (k2, v2),
        (k3, v3),
        (k4, v4),
        (k5, v5),
        (k6, v6),
        (k7, v7),
    ]);
}

proof fn lemma_ten(
    keys: Seq<Seq<char>>,
    t0: Seq<char>,
    t1: Seq<char>,
    t2: Seq<char>,
    t3: Seq<char>,
    t4: Seq<char>,
    t5: Seq<char>,
    t6: Seq<char>,
    t7: Seq<char>,
    t8: Seq<char>,
    t9: Seq<char>,
    v0: Json,
    v1: Json,
    v2: Json,
    v3: Json,
    v4: Json,
    v5: Json,
    v6: Json,
    v7: Json,
    v8: Json,
    v9: Json,
)
    requires
        keys.len() == 10,
        readings::says(t0, v0),
        readings::says(t1, v1),
        readings::says(t2, v2),
        readings::says(t3, v3),
        readings::says(t4, v4),
        readings::says(t5, v5),
        readings::says(t6, v6),
        readings::says(t7, v7),
        readings::says(t8, v8),
        readings::says(t9, v9),
    ensures
        readings::says(
            json::object_text(
                seq![
                    json::member(keys[0], t0),
                    json::member(keys[1], t1),
                    json::member(keys[2], t2),
                    json::member(keys[3], t3),
                    json::member(keys[4], t4),
                    json::member(keys[5], t5),
                    json::member(keys[6], t6),
                    json::member(keys[7], t7),
                    json::member(keys[8], t8),
                    json::member(keys[9], t9),
                ],
            ),
            Json::Object(
                seq![
                    (keys[0], v0),
                    (keys[1], v1),
                    (keys[2], v2),
                    (keys[3], v3),
                    (keys[4], v4),
                    (keys[5], v5),
                    (keys[6], v6),
                    (keys[7], v7),
                    (keys[8], v8),
                    (keys[9], v9),
                ],
            ),
        ),
{
    let texts = seq![t0, t1, t2, t3, t4, t5, t6, t7, t8, t9];
    let values = seq![v0, v1, v2, v3, v4, v5, v6, v7, v8, v9];
    assert forall|i: int| 0 <= i < keys.len() implies readings::says(#[trigger] texts[i], values[i]) by {}
    readings::lemma_object_says(keys, texts, values);
    assert(readings::member_texts(keys, texts) =~= seq![
        json::member(keys[0], t0),
        json::member(keys[1], t1),
        json::member(keys[2], t2),
        json::member(keys[3], t3),
        json::member(keys[4], t4),
        json::member(keys[5], t5),
        json::member(keys[6], t6),
        json::member(keys[7], t7),
        json::member(keys[8], t8),
        json::member(keys[9], t9),
    ]);
    assert(readings::member_values(keys, values) =~= seq![
        (keys[0], v0),
        (keys[1], v1),
        (keys[2], v2),
        (keys[3], v3),
        (keys[4], v4),
        (keys[5], v5),
        (keys[6], v6),
        (keys[7], v7),
        (keys[8], v8),
        (keys[9], v9),
    ]);
}

/// A code point in an exported plan. The character is left out where the number stands for none.
pub open spec fn point(x: CodePointModel) -> Json {
    match x.character {
        Some(c) => Json::Object(
            seq![
                ("character"@, Json::Text(seq![c])),
                ("hex"@, Json::Text(x.hex)),
                ("surrogate"@, Json::Bool(x.surrogate)),
                ("value"@, Json::Number(x.value as nat)),
            ],
        ),
        None => Json::Object(
            seq![
                ("hex"@, Json::Text(x.hex)),
                ("surrogate"@, Json::Bool(x.surrogate)),
                ("value"@, Json::Number(x.value as nat)),
            ],
        ),
    }
}

proof fn lemma_point(x: CodePointModel)
    ensures
        readings::says(exports::code_point_text(x), point(x)),
{
    readings::lemma_text_says(x.hex);
    readings::lemma_bool_says(x.surrogate);
    readings::lemma_number_says(x.value as nat);
    match x.character {
        Some(c) => {
            readings::lemma_text_says(seq![c]);
            let keys = seq!["character"@, "hex"@, "surrogate"@, "value"@];
            let texts = seq![
                json::quoted(seq![c]),
                json::quoted(x.hex),
                json::bool_text(x.surrogate),
                text::decimal_text(x.value as nat),
            ];
            let values = seq![
                Json::Text(seq![c]),
                Json::Text(x.hex),
                Json::Bool(x.surrogate),
                Json::Number(x.value as nat),
            ];
            assert forall|i: int| 0 <= i < keys.len() implies readings::says(#[trigger] texts[i], values[i]) by {}
            readings::lemma_object_says(keys, texts, values);
            let others = seq![
                json::member("hex"@, json::quoted(x.hex)),
                json::member("surrogate"@, json::bool_text(x.surrogate)),
                json::member("value"@, text::decimal_text(x.value as nat)),
            ];
            assert(readings::member_texts(keys, texts) =~= seq![
                json::member("character"@, json::quoted(seq![c])),
            ] + others);
            assert(readings::member_values(keys, values) =~= seq![
                ("character"@, Json::Text(seq![c])),
                ("hex"@, Json::Text(x.hex)),
                ("surrogate"@, Json::Bool(x.surrogate)),
                ("value"@, Json::Number(x.value as nat)),
            ]);
        },
        None => {
            let keys = seq!["hex"@, "surrogate"@, "value"@];
            let texts = seq![
                json::quoted(x.hex),
                json::bool_text(x.surrogate),
                text::decimal_text(x.value as nat),
            ];
            let values = seq![
                Json::Text(x.hex),
                Json::Bool(x.surrogate),
                Json::Number(x.value as nat),
            ];
            assert forall|i: int| 0 <= i < keys.len() implies readings::says(#[trigger] texts[i], values[i]) by {}
            readings::lemma_object_says(keys, texts, values);
            assert(readings::member_texts(keys, texts) =~= seq![
                json::member("hex"@, json::quoted(x.hex)),
                json::member("surrogate"@, json::bool_text(x.surrogate)),
                json::member("value"@, text::decimal_text(x.value as nat)),
            ]);
            assert(readings::member_values(keys, values) =~= seq![
                ("hex"@, Json::Text(x.hex)),
                ("surrogate"@, Json::Bool(x.surrogate)),
                ("value"@, Json::Number(x.value as nat)),
            ]);
        },
    }
}

/// Code points in an exported plan.
pub open spec fn points(all: Seq<CodePointModel>) -> Json {
    Json::List(Seq::new(all.len(), |i: int| point(all[i])))
}

proof fn lemma_points(all: Seq<CodePointModel>)
    ensures
        readings::says(exports::code_points_text(all), points(all)),
{
    let parts = Seq::new(all.len(), |i: int| exports::code_point_text(all[i]));
    let values = Seq::new(all.len(), |i: int| point(all[i]));
    assert forall|i: int| 0 <= i < parts.len() implies readings::says(#[trigger] parts[i], values[i]) by {
        lemma_point(all[i]);
    }
    readings::lemma_list_says(parts, values);
}

/// A stage of a record in an exported plan.
pub open spec fn stage(x: StageModel) -> Json {
    Json::Object(
        seq![
            ("codepoints"@, points(x.codepoints)),
            ("name"@, Json::Text(x.name)),
            ("rule_version"@, Json::Text(x.rule_version)),
            ("text"@, readings::optional(x.text)),
        ],
    )
}

proof fn lemma_stage(x: StageModel)
    ensures
        readings::says(exports::stage_text(x), stage(x)),
{
    lemma_points(x.codepoints);
    readings::lemma_text_says(x.name);
    readings::lemma_text_says(x.rule_version);
    readings::lemma_optional_says(x.text);
    let keys = seq!["codepoints"@, "name"@, "rule_version"@, "text"@];
    let texts = seq![
        exports::code_points_text(x.codepoints),
        json::quoted(x.name),
        json::quoted(x.rule_version),
        json::optional_text(x.text),
    ];
    let values = seq![
        points(x.codepoints),
        Json::Text(x.name),
        Json::Text(x.rule_version),
        readings::optional(x.text),
    ];
    assert forall|i: int| 0 <= i < keys.len() implies readings::says(#[trigger] texts[i], values[i]) by {}
    readings::lemma_object_says(keys, texts, values);
    assert(readings::member_texts(keys, texts) =~= seq![
        json::member("codepoints"@, exports::code_points_text(x.codepoints)),
        json::member("name"@, json::quoted(x.name)),
        json::member("rule_version"@, json::quoted(x.rule_version)),
        json::member("text"@, json::optional_text(x.text)),
    ]);
    assert(readings::member_values(keys, values) =~= seq![
        ("codepoints"@, points(x.codepoints)),
        ("name"@, Json::Text(x.name)),
        ("rule_version"@, Json::Text(x.rule_version)),
        ("text"@, readings::optional(x.text)),
    ]);
}

/// Stages in an exported plan.
pub open spec fn stages(all: Seq<StageModel>) -> Json {
    Json::List(Seq::new(all.len(), |i: int| stage(all[i])))
}

proof fn lemma_stages(all: Seq<StageModel>)
    ensures
        readings::says(exports::stages_text(all), stages(all)),
{
    let parts = Seq::new(all.len(), |i: int| exports::stage_text(all[i]));
    let values = Seq::new(all.len(), |i: int| stage(all[i]));
    assert forall|i: int| 0 <= i < parts.len() implies readings::says(#[trigger] parts[i], values[i]) by {
        lemma_stage(all[i]);
    }
    readings::lemma_list_says(parts, values);
}

/// An issue in an exported plan.
pub open spec fn issue(x: IssueModel) -> Json {
    Json::Object(
        seq![
            ("bytes"@, strings(x.bytes)),
            ("codepoint"@, readings::optional(x.codepoint)),
            ("kind"@, Json::Text(x.kind)),
            ("message"@, Json::Text(x.message)),
            ("offset"@, Json::Number(x.offset as nat)),
            ("script"@, readings::optional(x.script)),
        ],
    )
}

proof fn lemma_issue(x: IssueModel)
    ensures
        readings::says(exports::issue_text(x), issue(x)),
{
    lemma_strings(x.bytes);
    readings::lemma_optional_says(x.codepoint);
    readings::lemma_text_says(x.kind);
    readings::lemma_text_says(x.message);
    readings::lemma_number_says(x.offset as nat);
    readings::lemma_optional_says(x.script);
    let keys = seq!["bytes"@, "codepoint"@, "kind"@, "message"@, "offset"@, "script"@];
    let texts = seq![
        json::list_text(json::quoted_all(x.bytes)),
        json::optional_text(x.codepoint),
        json::quoted(x.kind),
        json::quoted(x.message),
        text::decimal_text(x.offset as nat),
        json::optional_text(x.script),
    ];
    let values = seq![
        strings(x.bytes),
        readings::optional(x.codepoint),
        Json::Text(x.kind),
        Json::Text(x.message),
        Json::Number(x.offset as nat),
        readings::optional(x.script),
    ];
    assert forall|i: int| 0 <= i < keys.len() implies readings::says(#[trigger] texts[i], values[i]) by {}
    readings::lemma_object_says(keys, texts, values);
    assert(readings::member_texts(keys, texts) =~= seq![
        json::member("bytes"@, json::list_text(json::quoted_all(x.bytes))),
        json::member("codepoint"@, json::optional_text(x.codepoint)),
        json::member("kind"@, json::quoted(x.kind)),
        json::member("message"@, json::quoted(x.message)),
        json::member("offset"@, text::decimal_text(x.offset as nat)),
        json::member("script"@, json::optional_text(x.script)),
    ]);
    assert(readings::member_values(keys, values) =~= seq![
        ("bytes"@, strings(x.bytes)),
        ("codepoint"@, readings::optional(x.codepoint)),
        ("kind"@, Json::Text(x.kind)),
        ("message"@, Json::Text(x.message)),
        ("offset"@, Json::Number(x.offset as nat)),
        ("script"@, readings::optional(x.script)),
    ]);
}

/// Issues in an exported plan.
pub open spec fn issues(all: Seq<IssueModel>) -> Json {
    Json::List(Seq::new(all.len(), |i: int| issue(all[i])))
}

proof fn lemma_issues(all: Seq<IssueModel>)
    ensures
        readings::says(exports::issues_text(all), issues(all)),
{
    let parts = Seq::new(all.len(), |i: int| exports::issue_text(all[i]));
    let values = Seq::new(all.len(), |i: int| issue(all[i]));
    assert forall|i: int| 0 <= i < parts.len() implies readings::says(#[trigger] parts[i], values[i]) by {
        lemma_issue(all[i]);
    }
    readings::lemma_list_says(parts, values);
}

/// What is said of a record in an exported plan.
pub open spec fn record(x: RecordModel) -> Json {
    Json::Object(
        seq![
            ("canonical"@, Json::Text(x.canonical)),
            ("eligible"@, Json::Bool(x.eligible)),
            ("issues"@, issues(x.issues)),
            ("mixed_script"@, Json::Bool(x.mixed_script)),
            ("original_base64"@, Json::Text(x.original_base64)),
            ("original_text"@, readings::optional(x.original_text)),
            ("record_id"@, Json::Text(x.record_id)),
            ("scripts"@, strings(order::in_order(x.scripts))),
            ("source_version"@, Json::Number(x.source_version as nat)),
            ("stages"@, stages(x.stages)),
        ],
    )
}

proof fn lemma_record(x: RecordModel)
    ensures
        readings::says(exports::record_text(x), record(x)),
{
    readings::lemma_text_says(x.canonical);
    readings::lemma_bool_says(x.eligible);
    lemma_issues(x.issues);
    readings::lemma_bool_says(x.mixed_script);
    readings::lemma_text_says(x.original_base64);
    readings::lemma_optional_says(x.original_text);
    readings::lemma_text_says(x.record_id);
    lemma_strings(order::in_order(x.scripts));
    readings::lemma_number_says(x.source_version as nat);
    lemma_stages(x.stages);
    let keys = seq!["canonical"@, "eligible"@, "issues"@, "mixed_script"@, "original_base64"@, "original_text"@, "record_id"@, "scripts"@, "source_version"@, "stages"@];
    lemma_ten(
        keys,
        json::quoted(x.canonical),
        json::bool_text(x.eligible),
        exports::issues_text(x.issues),
        json::bool_text(x.mixed_script),
        json::quoted(x.original_base64),
        json::optional_text(x.original_text),
        json::quoted(x.record_id),
        shapes::set_text(x.scripts),
        text::decimal_text(x.source_version as nat),
        exports::stages_text(x.stages),
        Json::Text(x.canonical),
        Json::Bool(x.eligible),
        issues(x.issues),
        Json::Bool(x.mixed_script),
        Json::Text(x.original_base64),
        readings::optional(x.original_text),
        Json::Text(x.record_id),
        strings(order::in_order(x.scripts)),
        Json::Number(x.source_version as nat),
        stages(x.stages),
    );
}

/// Records in an exported plan.
pub open spec fn records(all: Seq<RecordModel>) -> Json {
    Json::List(Seq::new(all.len(), |i: int| record(all[i])))
}

proof fn lemma_records(all: Seq<RecordModel>)
    ensures
        readings::says(exports::records_text(all), records(all)),
{
    let parts = Seq::new(all.len(), |i: int| exports::record_text(all[i]));
    let values = Seq::new(all.len(), |i: int| record(all[i]));
    assert forall|i: int| 0 <= i < parts.len() implies readings::says(#[trigger] parts[i], values[i]) by {
        lemma_record(all[i]);
    }
    readings::lemma_list_says(parts, values);
}

/// A mapping in an exported plan.
pub open spec fn mapping(x: StoredMappingModel) -> Json {
    Json::Object(
        seq![
            ("action"@, Json::Text(x.action)),
            ("new_canonical"@, Json::Text(x.new_canonical)),
            ("old_canonical"@, Json::Text(x.old_canonical)),
            ("record_id"@, Json::Text(x.record_id)),
        ],
    )
}

proof fn lemma_mapping(x: StoredMappingModel)
    ensures
        readings::says(exports::mapping_text(x), mapping(x)),
{
    readings::lemma_text_says(x.action);
    readings::lemma_text_says(x.new_canonical);
    readings::lemma_text_says(x.old_canonical);
    readings::lemma_text_says(x.record_id);
    let keys = seq!["action"@, "new_canonical"@, "old_canonical"@, "record_id"@];
    let texts = seq![
        json::quoted(x.action),
        json::quoted(x.new_canonical),
        json::quoted(x.old_canonical),
        json::quoted(x.record_id),
    ];
    let values = seq![
        Json::Text(x.action),
        Json::Text(x.new_canonical),
        Json::Text(x.old_canonical),
        Json::Text(x.record_id),
    ];
    assert forall|i: int| 0 <= i < keys.len() implies readings::says(#[trigger] texts[i], values[i]) by {}
    readings::lemma_object_says(keys, texts, values);
    assert(readings::member_texts(keys, texts) =~= seq![
        json::member("action"@, json::quoted(x.action)),
        json::member("new_canonical"@, json::quoted(x.new_canonical)),
        json::member("old_canonical"@, json::quoted(x.old_canonical)),
        json::member("record_id"@, json::quoted(x.record_id)),
    ]);
    assert(readings::member_values(keys, values) =~= seq![
        ("action"@, Json::Text(x.action)),
        ("new_canonical"@, Json::Text(x.new_canonical)),
        ("old_canonical"@, Json::Text(x.old_canonical)),
        ("record_id"@, Json::Text(x.record_id)),
    ]);
}

/// Mappings in an exported plan.
pub open spec fn all_mappings(all: Seq<StoredMappingModel>) -> Json {
    Json::List(Seq::new(all.len(), |i: int| mapping(all[i])))
}

proof fn lemma_all_mappings(all: Seq<StoredMappingModel>)
    ensures
        readings::says(exports::mappings_text(all), all_mappings(all)),
{
    let parts = Seq::new(all.len(), |i: int| exports::mapping_text(all[i]));
    let values = Seq::new(all.len(), |i: int| mapping(all[i]));
    assert forall|i: int| 0 <= i < parts.len() implies readings::says(#[trigger] parts[i], values[i]) by {
        lemma_mapping(all[i]);
    }
    readings::lemma_list_says(parts, values);
}

/// Rules in an exported plan.
pub open spec fn snapshot(x: RuleSnapshotModel) -> Json {
    Json::Object(
        seq![
            ("allowed_scripts"@, strings(order::in_order(x.allowed_scripts))),
            ("case_fold"@, Json::Bool(x.case_fold)),
            ("icu_casemap"@, Json::Text(x.icu_casemap)),
            ("icu_normalizer"@, Json::Text(x.icu_normalizer)),
            ("icu_properties"@, Json::Text(x.icu_properties)),
            ("normalization"@, Json::Text(form(x.normalization))),
            ("script_policy"@, Json::Text(policy(x.script_policy))),
            ("strip_default_ignorable"@, Json::Bool(x.strip_default_ignorable)),
            ("unicode_version"@, Json::Text(x.unicode_version)),
        ],
    )
}

proof fn lemma_snapshot(x: RuleSnapshotModel)
    ensures
        readings::says(exports::rules_text(x), snapshot(x)),
{
    lemma_strings(order::in_order(x.allowed_scripts));
    readings::lemma_bool_says(x.case_fold);
    readings::lemma_text_says(x.icu_casemap);
    readings::lemma_text_says(x.icu_normalizer);
    readings::lemma_text_says(x.icu_properties);
    readings::lemma_text_says(form(x.normalization));
    readings::lemma_text_says(policy(x.script_policy));
    readings::lemma_bool_says(x.strip_default_ignorable);
    readings::lemma_text_says(x.unicode_version);
    let keys = seq!["allowed_scripts"@, "case_fold"@, "icu_casemap"@, "icu_normalizer"@, "icu_properties"@, "normalization"@, "script_policy"@, "strip_default_ignorable"@, "unicode_version"@];
    let texts = seq![
        shapes::set_text(x.allowed_scripts),
        json::bool_text(x.case_fold),
        json::quoted(x.icu_casemap),
        json::quoted(x.icu_normalizer),
        json::quoted(x.icu_properties),
        json::quoted(shapes::form_name(x.normalization)),
        json::quoted(shapes::policy_name(x.script_policy)),
        json::bool_text(x.strip_default_ignorable),
        json::quoted(x.unicode_version),
    ];
    let values = seq![
        strings(order::in_order(x.allowed_scripts)),
        Json::Bool(x.case_fold),
        Json::Text(x.icu_casemap),
        Json::Text(x.icu_normalizer),
        Json::Text(x.icu_properties),
        Json::Text(form(x.normalization)),
        Json::Text(policy(x.script_policy)),
        Json::Bool(x.strip_default_ignorable),
        Json::Text(x.unicode_version),
    ];
    assert forall|i: int| 0 <= i < keys.len() implies readings::says(#[trigger] texts[i], values[i]) by {}
    readings::lemma_object_says(keys, texts, values);
    assert(readings::member_texts(keys, texts) =~= seq![
        json::member("allowed_scripts"@, shapes::set_text(x.allowed_scripts)),
        json::member("case_fold"@, json::bool_text(x.case_fold)),
        json::member("icu_casemap"@, json::quoted(x.icu_casemap)),
        json::member("icu_normalizer"@, json::quoted(x.icu_normalizer)),
        json::member("icu_properties"@, json::quoted(x.icu_properties)),
        json::member("normalization"@, json::quoted(shapes::form_name(x.normalization))),
        json::member("script_policy"@, json::quoted(shapes::policy_name(x.script_policy))),
        json::member("strip_default_ignorable"@, json::bool_text(x.strip_default_ignorable)),
        json::member("unicode_version"@, json::quoted(x.unicode_version)),
    ]);
    assert(readings::member_values(keys, values) =~= seq![
        ("allowed_scripts"@, strings(order::in_order(x.allowed_scripts))),
        ("case_fold"@, Json::Bool(x.case_fold)),
        ("icu_casemap"@, Json::Text(x.icu_casemap)),
        ("icu_normalizer"@, Json::Text(x.icu_normalizer)),
        ("icu_properties"@, Json::Text(x.icu_properties)),
        ("normalization"@, Json::Text(form(x.normalization))),
        ("script_policy"@, Json::Text(policy(x.script_policy))),
        ("strip_default_ignorable"@, Json::Bool(x.strip_default_ignorable)),
        ("unicode_version"@, Json::Text(x.unicode_version)),
    ]);
}

/// Replacements in an exported plan, in ascending order of the records.
pub open spec fn replacements(m: Map<Seq<char>, Seq<char>>) -> Json {
    let keys = order::in_order(m.dom());
    Json::Object(Seq::new(keys.len(), |i: int| (keys[i], Json::Text(m[keys[i]]))))
}

/// Replacements are read back.
pub proof fn lemma_replacements(m: Map<Seq<char>, Seq<char>>)
    ensures
        readings::says(shapes::map_text(m), replacements(m)),
{
    let keys = order::in_order(m.dom());
    let texts = Seq::new(keys.len(), |i: int| json::quoted(m[keys[i]]));
    let values = Seq::new(keys.len(), |i: int| Json::Text(m[keys[i]]));
    assert forall|i: int| 0 <= i < keys.len() implies readings::says(#[trigger] texts[i], values[i]) by {
        readings::lemma_text_says(m[keys[i]]);
    }
    readings::lemma_object_says(keys, texts, values);
    assert(readings::member_texts(keys, texts) =~= Seq::new(
        keys.len(),
        |i: int| json::member(keys[i], json::quoted(m[keys[i]])),
    ));
    assert(readings::member_values(keys, values) =~= Seq::new(
        keys.len(),
        |i: int| (keys[i], Json::Text(m[keys[i]])),
    ));
}

/// A decision in an exported plan.
pub open spec fn decision(x: GroupDecisionModel) -> Json {
    Json::Object(
        seq![
            ("action"@, Json::Text(x.action)),
            ("keep_old_alias"@, Json::Bool(x.keep_old_alias)),
            ("primary_record_id"@, readings::optional(x.primary_record_id)),
            ("replacements"@, replacements(x.replacements)),
        ],
    )
}

proof fn lemma_decision(x: GroupDecisionModel)
    ensures
        readings::says(exports::decision_text(x), decision(x)),
{
    readings::lemma_text_says(x.action);
    readings::lemma_bool_says(x.keep_old_alias);
    readings::lemma_optional_says(x.primary_record_id);
    lemma_replacements(x.replacements);
    let keys = seq!["action"@, "keep_old_alias"@, "primary_record_id"@, "replacements"@];
    let texts = seq![
        json::quoted(x.action),
        json::bool_text(x.keep_old_alias),
        json::optional_text(x.primary_record_id),
        shapes::map_text(x.replacements),
    ];
    let values = seq![
        Json::Text(x.action),
        Json::Bool(x.keep_old_alias),
        readings::optional(x.primary_record_id),
        replacements(x.replacements),
    ];
    assert forall|i: int| 0 <= i < keys.len() implies readings::says(#[trigger] texts[i], values[i]) by {}
    readings::lemma_object_says(keys, texts, values);
    assert(readings::member_texts(keys, texts) =~= seq![
        json::member("action"@, json::quoted(x.action)),
        json::member("keep_old_alias"@, json::bool_text(x.keep_old_alias)),
        json::member("primary_record_id"@, json::optional_text(x.primary_record_id)),
        json::member("replacements"@, shapes::map_text(x.replacements)),
    ]);
    assert(readings::member_values(keys, values) =~= seq![
        ("action"@, Json::Text(x.action)),
        ("keep_old_alias"@, Json::Bool(x.keep_old_alias)),
        ("primary_record_id"@, readings::optional(x.primary_record_id)),
        ("replacements"@, replacements(x.replacements)),
    ]);
}

/// Decisions in an exported plan, in ascending order of the buckets.
pub open spec fn decisions(m: Map<Seq<char>, GroupDecisionModel>) -> Json {
    let keys = order::in_order(m.dom());
    Json::Object(Seq::new(keys.len(), |i: int| (keys[i], decision(m[keys[i]]))))
}

proof fn lemma_decisions(m: Map<Seq<char>, GroupDecisionModel>)
    ensures
        readings::says(exports::decisions_text(m), decisions(m)),
{
    let keys = order::in_order(m.dom());
    let texts = Seq::new(keys.len(), |i: int| exports::decision_text(m[keys[i]]));
    let values = Seq::new(keys.len(), |i: int| decision(m[keys[i]]));
    assert forall|i: int| 0 <= i < keys.len() implies readings::says(#[trigger] texts[i], values[i]) by {
        lemma_decision(m[keys[i]]);
    }
    readings::lemma_object_says(keys, texts, values);
    assert(readings::member_texts(keys, texts) =~= Seq::new(
        keys.len(),
        |i: int| json::member(keys[i], exports::decision_text(m[keys[i]])),
    ));
    assert(readings::member_values(keys, values) =~= Seq::new(
        keys.len(),
        |i: int| (keys[i], decision(m[keys[i]])),
    ));
}

/// A plan in an exported plan: what identifies it, and its decisions.
pub open spec fn plan(x: PlanModel) -> Json {
    Json::Object(
        seq![
            ("dataset_id"@, Json::Text(x.dataset_id)),
            ("dataset_version"@, Json::Number(x.dataset_version as nat)),
            ("decisions"@, decisions(x.decisions)),
            ("id"@, Json::Text(x.id)),
            ("status"@, Json::Text(status(x.status))),
            ("version"@, Json::Number(x.version as nat)),
        ],
    )
}

proof fn lemma_plan(x: PlanModel)
    ensures
        readings::says(exports::plan_text(x), plan(x)),
{
    readings::lemma_text_says(x.dataset_id);
    readings::lemma_number_says(x.dataset_version as nat);
    lemma_decisions(x.decisions);
    readings::lemma_text_says(x.id);
    readings::lemma_text_says(status(x.status));
    readings::lemma_number_says(x.version as nat);
    let keys = seq!["dataset_id"@, "dataset_version"@, "decisions"@, "id"@, "status"@, "version"@];
    let texts = seq![
        json::quoted(x.dataset_id),
        text::decimal_text(x.dataset_version as nat),
        exports::decisions_text(x.decisions),
        json::quoted(x.id),
        json::quoted(exports::status_text(x.status)),
        text::decimal_text(x.version as nat),
    ];
    let values = seq![
        Json::Text(x.dataset_id),
        Json::Number(x.dataset_version as nat),
        decisions(x.decisions),
        Json::Text(x.id),
        Json::Text(status(x.status)),
        Json::Number(x.version as nat),
    ];
    assert forall|i: int| 0 <= i < keys.len() implies readings::says(#[trigger] texts[i], values[i]) by {}
    readings::lemma_object_says(keys, texts, values);
    assert(readings::member_texts(keys, texts) =~= seq![
        json::member("dataset_id"@, json::quoted(x.dataset_id)),
        json::member("dataset_version"@, text::decimal_text(x.dataset_version as nat)),
        json::member("decisions"@, exports::decisions_text(x.decisions)),
        json::member("id"@, json::quoted(x.id)),
        json::member("status"@, json::quoted(exports::status_text(x.status))),
        json::member("version"@, text::decimal_text(x.version as nat)),
    ]);
    assert(readings::member_values(keys, values) =~= seq![
        ("dataset_id"@, Json::Text(x.dataset_id)),
        ("dataset_version"@, Json::Number(x.dataset_version as nat)),
        ("decisions"@, decisions(x.decisions)),
        ("id"@, Json::Text(x.id)),
        ("status"@, Json::Text(status(x.status))),
        ("version"@, Json::Number(x.version as nat)),
    ]);
}

/// What is exported of a plan, by what it comes to: its mappings, the analysis under the rules that it
/// leads to with these rules, and the rules that it starts from.
pub open spec fn document(
    x: PlanModel,
    mapped: Seq<StoredMappingModel>,
    source: AnalysisModel,
    target: AnalysisModel,
) -> Json {
    Json::Object(
        seq![
            ("format"@, Json::Text("unicode-collision-workbench/export/v1"@)),
            ("mappings"@, all_mappings(mapped)),
            ("plan"@, plan(x)),
            ("records"@, records(target.records)),
            ("rule_snapshot"@, snapshot(target.rules)),
            ("source_rule_snapshot"@, snapshot(source.rules)),
        ],
    )
}

/// What is exported of a plan with a hash and a digest.
pub open spec fn sealed(
    x: PlanModel,
    mapped: Seq<StoredMappingModel>,
    source: AnalysisModel,
    target: AnalysisModel,
    hash: Seq<char>,
    digest: Seq<char>,
) -> Json {
    Json::Object(
        seq![
            ("export_hash_fnv1a_64"@, Json::Text(hash)),
            ("format"@, Json::Text("unicode-collision-workbench/export/v1"@)),
            ("mappings"@, all_mappings(mapped)),
            ("plan"@, plan(x)),
            ("records"@, records(target.records)),
            ("rule_snapshot"@, snapshot(target.rules)),
            ("sha256"@, Json::Text(digest)),
            ("source_rule_snapshot"@, snapshot(source.rules)),
        ],
    )
}

proof fn lemma_parts(x: PlanModel, details: PlanDetailsModel)
    ensures
        readings::says(
            json::quoted("unicode-collision-workbench/export/v1"@),
            Json::Text("unicode-collision-workbench/export/v1"@),
        ),
        readings::says(exports::mappings_text(details.mappings), all_mappings(details.mappings)),
        readings::says(exports::plan_text(x), plan(x)),
        readings::says(
            exports::records_text(details.target_analysis.records),
            records(details.target_analysis.records),
        ),
        readings::says(
            exports::rules_text(details.target_analysis.rules),
            snapshot(details.target_analysis.rules),
        ),
        readings::says(
            exports::rules_text(details.source_analysis.rules),
            snapshot(details.source_analysis.rules),
        ),
{
    readings::lemma_text_says("unicode-collision-workbench/export/v1"@);
    lemma_all_mappings(details.mappings);
    lemma_plan(x);
    lemma_records(details.target_analysis.records);
    lemma_snapshot(details.target_analysis.rules);
    lemma_snapshot(details.source_analysis.rules);
}

proof fn lemma_pushed(
    a: Seq<char>,
    b: Seq<char>,
    c: Seq<char>,
    d: Seq<char>,
    e: Seq<char>,
    f: Seq<char>,
)
    ensures
        seq![a, b, c, d, e].push(f) == seq![a, b, c, d, e, f],
{
    assert(seq![a, b, c, d, e].push(f) =~= seq![a, b, c, d, e, f]);
}

proof fn lemma_wrapped(
    h: Seq<char>,
    a: Seq<char>,
    b: Seq<char>,
    c: Seq<char>,
    d: Seq<char>,
    e: Seq<char>,
    g: Seq<char>,
    f: Seq<char>,
)
    ensures
        seq![h] + seq![a, b, c, d, e] + seq![g, f] == seq![h, a, b, c, d, e, g, f],
{
    assert(seq![h] + seq![a, b, c, d, e] + seq![g, f] =~= seq![h, a, b, c, d, e, g, f]);
}

proof fn lemma_document_shape(
    t0: Seq<char>,
    t1: Seq<char>,
    t2: Seq<char>,
    t3: Seq<char>,
    t4: Seq<char>,
    t5: Seq<char>,
    v0: Json,
    v1: Json,
    v2: Json,
    v3: Json,
    v4: Json,
    v5: Json,
)
    requires
        readings::says(t0, v0),
        readings::says(t1, v1),
        readings::says(t2, v2),
        readings::says(t3, v3),
        readings::says(t4, v4),
        readings::says(t5, v5),
    ensures
        readings::says(
            json::object_text(
                seq![
                    json::member("format"@, t0),
                    json::member("mappings"@, t1),
                    json::member("plan"@, t2),
                    json::member("records"@, t3),
                    json::member("rule_snapshot"@, t4),
                ].push(json::member("source_rule_snapshot"@, t5)),
            ),
            Json::Object(
                seq![
                    ("format"@, v0),
                    ("mappings"@, v1),
                    ("plan"@, v2),
                    ("records"@, v3),
                    ("rule_snapshot"@, v4),
                    ("source_rule_snapshot"@, v5),
                ],
            ),
        ),
{
    lemma_six(
        "format"@,
        "mappings"@,
        "plan"@,
        "records"@,
        "rule_snapshot"@,
        "source_rule_snapshot"@,
        t0,
        t1,
        t2,
        t3,
        t4,
        t5,
        v0,
        v1,
        v2,
        v3,
        v4,
        v5,
    );
    lemma_pushed(
        json::member("format"@, t0),
        json::member("mappings"@, t1),
        json::member("plan"@, t2),
        json::member("records"@, t3),
        json::member("rule_snapshot"@, t4),
        json::member("source_rule_snapshot"@, t5),
    );
}

#[verifier::rlimit(80)]
proof fn lemma_document(x: PlanModel, details: PlanDetailsModel)
    ensures
        readings::says(
            exports::document_text(x, details),
            document(x, details.mappings, details.source_analysis, details.target_analysis),
        ),
{
    lemma_parts(x, details);
    lemma_document_shape(
        json::quoted("unicode-collision-workbench/export/v1"@),
        exports::mappings_text(details.mappings),
        exports::plan_text(x),
        exports::records_text(details.target_analysis.records),
        exports::rules_text(details.target_analysis.rules),
        exports::rules_text(details.source_analysis.rules),
        Json::Text("unicode-collision-workbench/export/v1"@),
        all_mappings(details.mappings),
        plan(x),
        records(details.target_analysis.records),
        snapshot(details.target_analysis.rules),
        snapshot(details.source_analysis.rules),
    );
}

/// An exported plan reads as what the plan is and comes to: every mapping with its four parts, the
/// plan with its decisions, all that is said of every record under the rules that the plan leads to,
/// these rules, and those that it starts from.
pub proof fn documents_read_back(x: PlanModel, details: PlanDetailsModel)
    ensures
        readings::read(exports::document_text(x, details)) == Some(
            document(x, details.mappings, details.source_analysis, details.target_analysis),
        ),
{
    lemma_document(x, details);
    readings::lemma_read(
        exports::document_text(x, details),
        document(x, details.mappings, details.source_analysis, details.target_analysis),
    );
}

proof fn lemma_sealed_shape(
    hash: Seq<char>,
    digest: Seq<char>,
    t0: Seq<char>,
    t1: Seq<char>,
    t2: Seq<char>,
    t3: Seq<char>,
    t4: Seq<char>,
    t5: Seq<char>,
    v0: Json,
    v1: Json,
    v2: Json,
    v3: Json,
    v4: Json,
    v5: Json,
)
    requires
        readings::says(t0, v0),
        readings::says(t1, v1),
        readings::says(t2, v2),
        readings::says(t3, v3),
        readings::says(t4, v4),
        readings::says(t5, v5),
    ensures
        readings::says(
            json::object_text(
                seq![json::member("export_hash_fnv1a_64"@, json::quoted(hash))] + seq![
                    json::member("format"@, t0),
                    json::member("mappings"@, t1),
                    json::member("plan"@, t2),
                    json::member("records"@, t3),
                    json::member("rule_snapshot"@, t4),
                ] + seq![
                    json::member("sha256"@, json::quoted(digest)),
                    json::member("source_rule_snapshot"@, t5),
                ],
            ),
            Json::Object(
                seq![
                    ("export_hash_fnv1a_64"@, Json::Text(hash)),
                    ("format"@, v0),
                    ("mappings"@, v1),
                    ("plan"@, v2),
                    ("records"@, v3),
                    ("rule_snapshot"@, v4),
                    ("sha256"@, Json::Text(digest)),
                    ("source_rule_snapshot"@, v5),
                ],
            ),
        ),
{
    readings::lemma_text_says(hash);
    readings::lemma_text_says(digest);
    lemma_eight(
        "export_hash_fnv1a_64"@,
        "format"@,
        "mappings"@,
        "plan"@,
        "records"@,
        "rule_snapshot"@,
        "sha256"@,
        "source_rule_snapshot"@,
        json::quoted(hash),
        t0,
        t1,
        t2,
        t3,
        t4,
        json::quoted(digest),
        t5,
        Json::Text(hash),
        v0,
        v1,
        v2,
        v3,
        v4,
        Json::Text(digest),
        v5,
    );
    lemma_wrapped(
        json::member("export_hash_fnv1a_64"@, json::quoted(hash)),
        json::member("format"@, t0),
        json::member("mappings"@, t1),
        json::member("plan"@, t2),
        json::member("records"@, t3),
        json::member("rule_snapshot"@, t4),
        json::member("sha256"@, json::quoted(digest)),
        json::member("source_rule_snapshot"@, t5),
    );
}

#[verifier::rlimit(80)]
proof fn lemma_sealed_document(x: PlanModel, details: PlanDetailsModel, bytes: Seq<u8>)
    ensures
        readings::says(
            exports::sealed_text(x, details, bytes),
            sealed(
                x,
                details.mappings,
                details.source_analysis,
                details.target_analysis,
                ledger::stable_id_text(
                    "sha256placeholder"@,
                    seq![exports::document_text(x, details)],
                ),
                hex_bytes::hex_text(bytes),
            ),
        ),
{
    lemma_parts(x, details);
    lemma_sealed_shape(
        ledger::stable_id_text("sha256placeholder"@, seq![exports::document_text(x, details)]),
        hex_bytes::hex_text(bytes),
        json::quoted("unicode-collision-workbench/export/v1"@),
        exports::mappings_text(details.mappings),
        exports::plan_text(x),
        exports::records_text(details.target_analysis.records),
        exports::rules_text(details.target_analysis.rules),
        exports::rules_text(details.source_analysis.rules),
        Json::Text("unicode-collision-workbench/export/v1"@),
        all_mappings(details.mappings),
        plan(x),
        records(details.target_analysis.records),
        snapshot(details.target_analysis.rules),
        snapshot(details.source_analysis.rules),
    );
}

/// The seal adds a hash and a digest to an exported plan, and takes nothing away.
pub proof fn sealed_documents_read_back(x: PlanModel, details: PlanDetailsModel, bytes: Seq<u8>)
    ensures
        readings::read(exports::sealed_text(x, details, bytes)) == Some(
            sealed(
                x,
                details.mappings,
                details.source_analysis,
                details.target_analysis,
                ledger::stable_id_text(
                    "sha256placeholder"@,
                    seq![exports::document_text(x, details)],
                ),
                hex_bytes::hex_text(bytes),
            ),
        ),
{
    lemma_sealed_document(x, details, bytes);
    readings::lemma_read(
        exports::sealed_text(x, details, bytes),
        sealed(
            x,
            details.mappings,
            details.source_analysis,
            details.target_analysis,
            ledger::stable_id_text("sha256placeholder"@, seq![exports::document_text(x, details)]),
            hex_bytes::hex_text(bytes),
        ),
    );
}

/// What is written of a plan that is exported: a text that reads as the plan, its mappings and the
/// analysis of every record of its data set at its version under the rules that it leads to, sealed
/// with the digest of the same text without the seal.
pub open spec fn exported(
    s: StateModel,
    id: Seq<char>,
    written: Seq<char>,
    bare: Seq<char>,
    source: AnalysisModel,
    target: AnalysisModel,
) -> bool {
    let x = s.plans[id];
    let mapped = mappings::plan_outcome(s, x)->Ok_0.mappings;
    &&& outcomes::analyzes(source, x.from_rules, s.datasets[x.dataset_id], x.dataset_version)
    &&& outcomes::analyzes(target, x.rules, s.datasets[x.dataset_id], x.dataset_version)
    &&& readings::read(bare) == Some(document(x, mapped, source, target))
    &&& exists|digest: Seq<char>|
        hex_bytes::hex_read(encode_utf8(digest)) == Some(exports::sha256_of(encode_utf8(bare)))
            && readings::read(written) == Some(
            #[trigger] sealed(
                x,
                mapped,
                source,
                target,
                ledger::stable_id_text("sha256placeholder"@, seq![bare]),
                digest,
            ),
        )
}

/// A plan that is exported is written as what it is and comes to.
pub proof fn exports_say_what_plans_come_to(s: StateModel, id: Seq<char>)
    requires
        consistency::consistent(s),
        service::export_outcome(s, id) is Ok,
    ensures
        s.plans.contains_key(id),
        s.plans[id].status != PlanStatus::Draft,
        s.datasets.contains_key(s.plans[id].dataset_id),
        mappings::plan_outcome(s, s.plans[id]) is Ok,
        service::export_outcome(s, id)->Ok_0.0 == "plan-"@ + id + ".json"@,
        exists|
            written: Seq<char>,
            bare: Seq<char>,
            source: AnalysisModel,
            target: AnalysisModel,
        | #[trigger]
            exported(s, id, written, bare, source, target) && json::pretty_json(written) == Ok::<
                Seq<char>,
                Seq<char>,
            >(service::export_outcome(s, id)->Ok_0.1),
{
    let x = s.plans[id];
    let details = mappings::plan_outcome(s, x)->Ok_0;
    let bare = exports::document_text(x, details);
    let written = exports::export_text(x, details);
    let bytes = exports::digest_of(x, details);
    let digest = hex_bytes::hex_text(bytes);
    outcomes::outcomes_analyze_the_planned_version(s, x);
    documents_read_back(x, details);
    sealed_documents_read_back(x, details, bytes);
    hex_bytes::hex_reads_back(bytes);
    assert(hex_bytes::hex_read(encode_utf8(digest)) == Some(exports::sha256_of(encode_utf8(bare))));
    assert(exported(s, id, written, bare, details.source_analysis, details.target_analysis));
}

} // verus!
