//! The texts by which requests and their results are identified.

use vstd::prelude::*;

use crate::engine::{
    NormalizationForm, RuleConfig, RuleConfigModel, RuleSnapshot, RuleSnapshotModel, ScriptPolicy,
    UnicodeTable,
};
use crate::json;
use crate::json::{
    bool_str, braced, bracketed, json_member, number, optional_string, quote, quoted_list,
};
use crate::ledger;
use crate::ledger::{stable_id, StoredRecord, StoredRecordModel};
use crate::order;
use crate::requests::{
    GroupDecisionReq, GroupDecisionReqModel, UpdatePlanReq, UpdatePlanReqModel,
};
use crate::strmap::{StringMap, StringSet};
use crate::text;
use crate::text::join;

verus! {

/// The name of a generation of tables.
pub open spec fn table_name(table: UnicodeTable) -> Seq<char> {
    match table {
        UnicodeTable::U15_1 => "u15-1"@,
        UnicodeTable::U16_0 => "u16-0"@,
    }
}

/// The name of a normalization form.
pub open spec fn form_name(form: NormalizationForm) -> Seq<char> {
    match form {
        NormalizationForm::Nfc => "NFC"@,
        NormalizationForm::Nfkc => "NFKC"@,
    }
}

/// The name of a script policy.
pub open spec fn policy_name(policy: ScriptPolicy) -> Seq<char> {
    match policy {
        ScriptPolicy::Off => "off"@,
        ScriptPolicy::Single => "single"@,
        ScriptPolicy::Allowed => "allowed"@,
    }
}

/// A set of strings as a JSON list, in ascending order.
pub open spec fn set_text(set: Set<Seq<char>>) -> Seq<char> {
    json::list_text(json::quoted_all(order::in_order(set)))
}

/// Rules as a JSON object.
pub open spec fn rules_text(rules: RuleConfigModel) -> Seq<char> {
    json::object_text(
        seq![
            json::member(
                "unicode_table"@,
                json::optional_text(
                    match rules.unicode_table {
                        Some(table) => Some(table_name(table)),
                        None => None,
                    },
                ),
            ),
            json::member("case_fold"@, json::bool_text(rules.case_fold)),
            json::member(
                "normalization"@,
                json::optional_text(
                    match rules.normalization {
                        Some(form) => Some(form_name(form)),
                        None => None,
                    },
                ),
            ),
            json::member(
                "strip_default_ignorable"@,
                json::bool_text(rules.strip_default_ignorable),
            ),
            json::member("script_policy"@, json::quoted(policy_name(rules.script_policy))),
            json::member("allowed_scripts"@, set_text(rules.allowed_scripts)),
        ],
    )
}

/// Rules with the versions of their tables as a JSON object.
pub open spec fn snapshot_text(rules: RuleSnapshotModel) -> Seq<char> {
    json::object_text(
        seq![
            json::member("unicode_version"@, json::quoted(rules.unicode_version)),
            json::member("case_fold"@, json::bool_text(rules.case_fold)),
            json::member("normalization"@, json::quoted(form_name(rules.normalization))),
            json::member(
                "strip_default_ignorable"@,
                json::bool_text(rules.strip_default_ignorable),
            ),
            json::member("script_policy"@, json::quoted(policy_name(rules.script_policy))),
            json::member("allowed_scripts"@, set_text(rules.allowed_scripts)),
            json::member("icu_casemap"@, json::quoted(rules.icu_casemap)),
            json::member("icu_normalizer"@, json::quoted(rules.icu_normalizer)),
            json::member("icu_properties"@, json::quoted(rules.icu_properties)),
        ],
    )
}

/// The shape of records: their ids and sources.
pub open spec fn records_shape(records: Seq<StoredRecordModel>) -> Seq<char> {
    text::joined(
        Seq::new(
            records.len(),
            |i: int| records[i].id + ":"@ + records[i].original_bytes_base64,
        ),
        "|"@,
    )
}

/// The shape of a plan: its data set and rules.
pub open spec fn plan_shape(
    dataset_id: Seq<char>,
    version: u64,
    from_rules: RuleConfigModel,
    rules: RuleConfigModel,
) -> Seq<char> {
    json::list_text(
        seq![
            json::quoted(dataset_id),
            text::decimal_text(version as nat),
            rules_text(from_rules),
            rules_text(rules),
        ],
    )
}

/// What is hashed of a request for a data set.
pub open spec fn dataset_payload(name: Seq<char>, shape: Seq<char>) -> Seq<char> {
    json::object_text(
        seq![
            json::member("name"@, json::quoted(name)),
            json::member("shape"@, json::quoted(shape)),
        ],
    )
}

/// What is hashed of a request to add records.
pub open spec fn append_payload(
    dataset_id: Seq<char>,
    expected_version: u64,
    ids: Seq<Seq<char>>,
) -> Seq<char> {
    json::object_text(
        seq![
            json::member("dataset_id"@, json::quoted(dataset_id)),
            json::member("expected_version"@, text::decimal_text(expected_version as nat)),
            json::member("record_ids"@, json::list_text(json::quoted_all(ids))),
        ],
    )
}

/// What is hashed of a request for a plan.
pub open spec fn plan_payload(shape: Seq<char>) -> Seq<char> {
    json::object_text(seq![json::member("shape"@, json::quoted(shape))])
}

/// What is hashed of a request to carry a plan out.
pub open spec fn apply_payload(plan_id: Seq<char>, version: u64) -> Seq<char> {
    json::object_text(
        seq![
            json::member("expected_version"@, text::decimal_text(version as nat)),
            json::member("plan_id"@, json::quoted(plan_id)),
        ],
    )
}

/// Strings by strings as a JSON object, in ascending order of the keys.
pub open spec fn map_text(m: Map<Seq<char>, Seq<char>>) -> Seq<char> {
    let keys = order::in_order(m.dom());
    json::object_text(
        Seq::new(keys.len(), |i: int| json::member(keys[i], json::quoted(m[keys[i]]))),
    )
}

/// A decision as a JSON object.
pub open spec fn decision_text(decision: GroupDecisionReqModel) -> Seq<char> {
    json::object_text(
        seq![
            json::member("action"@, json::quoted(decision.action)),
            json::member("keep_old_alias"@, json::bool_text(decision.keep_old_alias)),
            json::member("primary_record_id"@, json::optional_text(decision.primary_record_id)),
            json::member("replacements"@, map_text(decision.replacements)),
        ],
    )
}

/// Decisions by bucket as a JSON object, in ascending order of the buckets.
pub open spec fn decisions_text(m: Map<Seq<char>, GroupDecisionReqModel>) -> Seq<char> {
    let keys = order::in_order(m.dom());
    json::object_text(
        Seq::new(keys.len(), |i: int| json::member(keys[i], decision_text(m[keys[i]]))),
    )
}

/// What is hashed of a request to change a plan.
pub open spec fn update_payload(request: UpdatePlanReqModel) -> Seq<char> {
    json::object_text(
        seq![
            json::member("decisions"@, decisions_text(request.decisions)),
            json::member("expected_version"@, text::decimal_text(request.expected_version as nat)),
            json::member("status"@, json::optional_text(request.status)),
        ],
    )
}

/// The hash of a request.
pub open spec fn hash_text(payload: Seq<char>) -> Seq<char> {
    ledger::stable_id_text("req"@, seq![payload])
}

fn table_str(table: UnicodeTable) -> (r: &'static str)
    ensures
        r@ == table_name(table),
{
    match table {
        UnicodeTable::U15_1 => "u15-1",
        UnicodeTable::U16_0 => "u16-0",
    }
}

/// The name of a normalization form.
pub fn form_str(form: NormalizationForm) -> (r: &'static str)
    ensures
        r@ == form_name(form),
{
    match form {
        NormalizationForm::Nfc => "NFC",
        NormalizationForm::Nfkc => "NFKC",
    }
}

/// The name of a script policy.
pub fn policy_str(policy: ScriptPolicy) -> (r: &'static str)
    ensures
        r@ == policy_name(policy),
{
    match policy {
        ScriptPolicy::Off => "off",
        ScriptPolicy::Single => "single",
        ScriptPolicy::Allowed => "allowed",
    }
}

/// A set of strings as a JSON list, in ascending order.
pub fn set_string(set: &StringSet) -> (r: String)
    ensures
        r@ == set_text(set@),
{
    let n = set.len();
    let ghost items = set.items();
    let mut out: Vec<String> = Vec::new();
    let mut i: usize = 0;
    while i < n
        invariant
            n == items.len(),
            items == set.items(),
            i <= n,
            out@.len() == i,
            forall|k: int| 0 <= k < i ==> (#[trigger] out@[k])@ == items[k],
        decreases n - i,
    {
        out.push(set.at(i).clone());
        i += 1;
    }
    proof {
        assert(out.deep_view() =~= items);
    }
    quoted_list(&out)
}

/// Rules as a JSON object.
pub fn rules_string(rules: &RuleConfig) -> (r: String)
    ensures
        r@ == rules_text(rules.deep_view()),
{
    let table: Option<String> = match rules.unicode_table {
        Some(table) => Some(table_str(table).to_owned()),
        None => None,
    };
    let form: Option<String> = match rules.normalization {
        Some(form) => Some(form_str(form).to_owned()),
        None => None,
    };
    let mut out: Vec<String> = Vec::new();
    out.push(json_member("unicode_table", optional_string(&table).as_str()));
    out.push(json_member("case_fold", bool_str(rules.case_fold)));
    out.push(json_member("normalization", optional_string(&form).as_str()));
    out.push(json_member("strip_default_ignorable", bool_str(rules.strip_default_ignorable)));
    out.push(json_member("script_policy", quote(policy_str(rules.script_policy)).as_str()));
    out.push(json_member("allowed_scripts", set_string(&rules.allowed_scripts).as_str()));
    let r = braced(&out);
    proof {
        let m = rules.deep_view();
        let want = seq![
            json::member(
                "unicode_table"@,
                json::optional_text(
                    match m.unicode_table {
                        Some(table) => Some(table_name(table)),
                        None => None,
                    },
                ),
            ),
            json::member("case_fold"@, json::bool_text(m.case_fold)),
            json::member(
                "normalization"@,
                json::optional_text(
                    match m.normalization {
                        Some(form) => Some(form_name(form)),
                        None => None,
                    },
                ),
            ),
            json::member(
                "strip_default_ignorable"@,
                json::bool_text(m.strip_default_ignorable),
            ),
            json::member("script_policy"@, json::quoted(policy_name(m.script_policy))),
            json::member("allowed_scripts"@, set_text(m.allowed_scripts)),
        ];
        assert(out.deep_view() =~= want);
    }
    r
}

/// Rules with the versions of their tables as a JSON object.
pub fn snapshot_string(rules: &RuleSnapshot) -> (r: String)
    ensures
        r@ == snapshot_text(rules.deep_view()),
{
    let mut out: Vec<String> = Vec::new();
    out.push(json_member("unicode_version", quote(rules.unicode_version.as_str()).as_str()));
    out.push(json_member("case_fold", bool_str(rules.case_fold)));
    out.push(json_member("normalization", quote(form_str(rules.normalization)).as_str()));
    out.push(json_member("strip_default_ignorable", bool_str(rules.strip_default_ignorable)));
    out.push(json_member("script_policy", quote(policy_str(rules.script_policy)).as_str()));
    out.push(json_member("allowed_scripts", set_string(&rules.allowed_scripts).as_str()));
    out.push(json_member("icu_casemap", quote(rules.icu_casemap.as_str()).as_str()));
    out.push(json_member("icu_normalizer", quote(rules.icu_normalizer.as_str()).as_str()));
    out.push(json_member("icu_properties", quote(rules.icu_properties.as_str()).as_str()));
    let r = braced(&out);
    proof {
        let m = rules.deep_view();
        let want = seq![
            json::member("unicode_version"@, json::quoted(m.unicode_version)),
            json::member("case_fold"@, json::bool_text(m.case_fold)),
            json::member("normalization"@, json::quoted(form_name(m.normalization))),
            json::member(
                "strip_default_ignorable"@,
                json::bool_text(m.strip_default_ignorable),
            ),
            json::member("script_policy"@, json::quoted(policy_name(m.script_policy))),
            json::member("allowed_scripts"@, set_text(m.allowed_scripts)),
            json::member("icu_casemap"@, json::quoted(m.icu_casemap)),
            json::member("icu_normalizer"@, json::quoted(m.icu_normalizer)),
            json::member("icu_properties"@, json::quoted(m.icu_properties)),
        ];
        assert(out.deep_view() =~= want);
    }
    r
}

/// The shape of records: their ids and sources.
pub fn shape_of_records(records: &Vec<StoredRecord>) -> (r: String)
    ensures
        r@ == records_shape(records.deep_view()),
{
    let ghost model = records.deep_view();
    let mut out: Vec<String> = Vec::new();
    for i in 0..records.len()
        invariant
            model == records.deep_view(),
            out@.len() == i,
            forall|k: int|
                0 <= k < i ==> (#[trigger] out@[k])@ == model[k].id + ":"@
                    + model[k].original_bytes_base64,
    {
        let mut part = records[i].id.clone();
        part.push_str(":");
        part.push_str(records[i].original_bytes_base64.as_str());
        out.push(part);
    }
    proof {
        assert(out.deep_view() =~= Seq::new(
            model.len(),
            |i: int| model[i].id + ":"@ + model[i].original_bytes_base64,
        ));
    }
    join(&out, "|")
}

/// The shape of a plan: its data set and rules.
pub fn shape_of_plan(
    dataset_id: &str,
    version: u64,
    from_rules: &RuleConfig,
    rules: &RuleConfig,
) -> (r: String)
    ensures
        r@ == plan_shape(dataset_id@, version, from_rules.deep_view(), rules.deep_view()),
{
    let mut out: Vec<String> = Vec::new();
    out.push(quote(dataset_id));
    out.push(number(version));
    out.push(rules_string(from_rules));
    out.push(rules_string(rules));
    let r = bracketed(&out);
    proof {
        let want = seq![
            json::quoted(dataset_id@),
            text::decimal_text(version as nat),
            rules_text(from_rules.deep_view()),
            rules_text(rules.deep_view()),
        ];
        assert(out.deep_view() =~= want);
    }
    r
}

fn hash(payload: String) -> (r: String)
    ensures
        r@ == hash_text(payload@),
{
    let mut parts: Vec<String> = Vec::new();
    parts.push(payload);
    proof {
        assert(parts.deep_view() =~= seq![payload@]);
    }
    stable_id("req", &parts)
}

/// The hash of a request for a data set.
pub fn hash_dataset(name: &str, shape: &str) -> (r: String)
    ensures
        r@ == hash_text(dataset_payload(name@, shape@)),
{
    let mut out: Vec<String> = Vec::new();
    out.push(json_member("name", quote(name).as_str()));
    out.push(json_member("shape", quote(shape).as_str()));
    proof {
        let want = seq![
            json::member("name"@, json::quoted(name@)),
            json::member("shape"@, json::quoted(shape@)),
        ];
        assert(out.deep_view() =~= want);
    }
    hash(braced(&out))
}

/// The hash of a request to add records.
pub fn hash_append(dataset_id: &str, expected_version: u64, ids: &Vec<String>) -> (r: String)
    ensures
        r@ == hash_text(append_payload(dataset_id@, expected_version, ids.deep_view())),
{
    let mut out: Vec<String> = Vec::new();
    out.push(json_member("dataset_id", quote(dataset_id).as_str()));
    out.push(json_member("expected_version", number(expected_version).as_str()));
    out.push(json_member("record_ids", quoted_list(ids).as_str()));
    proof {
        let want = seq![
            json::member("dataset_id"@, json::quoted(dataset_id@)),
            json::member("expected_version"@, text::decimal_text(expected_version as nat)),
            json::member("record_ids"@, json::list_text(json::quoted_all(ids.deep_view()))),
        ];
        assert(out.deep_view() =~= want);
    }
    hash(braced(&out))
}

/// The hash of a request for a plan.
pub fn hash_plan(shape: &str) -> (r: String)
    ensures
        r@ == hash_text(plan_payload(shape@)),
{
    let mut out: Vec<String> = Vec::new();
    out.push(json_member("shape", quote(shape).as_str()));
    proof {
        let want = seq![json::member("shape"@, json::quoted(shape@))];
        assert(out.deep_view() =~= want);
    }
    hash(braced(&out))
}

/// The hash of a request to carry a plan out.
pub fn hash_apply(plan_id: &str, version: u64) -> (r: String)
    ensures
        r@ == hash_text(apply_payload(plan_id@, version)),
{
    let mut out: Vec<String> = Vec::new();
    out.push(json_member("expected_version", number(version).as_str()));
    out.push(json_member("plan_id", quote(plan_id).as_str()));
    proof {
        let want = seq![
            json::member("expected_version"@, text::decimal_text(version as nat)),
            json::member("plan_id"@, json::quoted(plan_id@)),
        ];
        assert(out.deep_view() =~= want);
    }
    hash(braced(&out))
}

/// Strings by strings as a JSON object, in ascending order of the keys.
pub fn map_string(m: &StringMap<String>) -> (r: String)
    ensures
        r@ == map_text(m.deep_view()),
{
    let n = m.len();
    let ghost keys = m.keys();
    let ghost model = m.deep_view();
    let mut out: Vec<String> = Vec::new();
    let mut i: usize = 0;
    while i < n
        invariant
            n == keys.len(),
            keys == m.keys(),
            model == m.deep_view(),
            i <= n,
            out@.len() == i,
            forall|k: int|
                0 <= k < i ==> (#[trigger] out@[k])@ == json::member(
                    keys[k],
                    json::quoted(model[keys[k]]),
                ),
        decreases n - i,
    {
        let value = quote(m.value_at(i).as_str());
        out.push(json_member(m.key_at(i).as_str(), value.as_str()));
        i += 1;
    }
    proof {
        assert(model.dom() =~= m@.dom());
        assert(out.deep_view() =~= Seq::new(
            keys.len(),
            |i: int| json::member(keys[i], json::quoted(model[keys[i]])),
        ));
    }
    braced(&out)
}

fn decision_string(decision: &GroupDecisionReq) -> (r: String)
    ensures
        r@ == decision_text(decision.deep_view()),
{
    let mut out: Vec<String> = Vec::new();
    out.push(json_member("action", quote(decision.action.as_str()).as_str()));
    out.push(json_member("keep_old_alias", bool_str(decision.keep_old_alias)));
    out.push(
        json_member("primary_record_id", optional_string(&decision.primary_record_id).as_str()),
    );
    out.push(json_member("replacements", map_string(&decision.replacements).as_str()));
    proof {
        let m = decision.deep_view();
        let want = seq![
            json::member("action"@, json::quoted(m.action)),
            json::member("keep_old_alias"@, json::bool_text(m.keep_old_alias)),
            json::member("primary_record_id"@, json::optional_text(m.primary_record_id)),
            json::member("replacements"@, map_text(m.replacements)),
        ];
        assert(out.deep_view() =~= want);
    }
    braced(&out)
}

fn decisions_string(m: &StringMap<GroupDecisionReq>) -> (r: String)
    ensures
        r@ == decisions_text(m.deep_view()),
{
    let n = m.len();
    let ghost keys = m.keys();
    let ghost model = m.deep_view();
    let mut out: Vec<String> = Vec::new();
    let mut i: usize = 0;
    while i < n
        invariant
            n == keys.len(),
            keys == m.keys(),
            model == m.deep_view(),
            i <= n,
            out@.len() == i,
            forall|k: int|
                0 <= k < i ==> (#[trigger] out@[k])@ == json::member(
                    keys[k],
                    decision_text(model[keys[k]]),
                ),
        decreases n - i,
    {
        let value = decision_string(m.value_at(i));
        out.push(json_member(m.key_at(i).as_str(), value.as_str()));
        i += 1;
    }
    proof {
        assert(model.dom() =~= m@.dom());
        assert(out.deep_view() =~= Seq::new(
            keys.len(),
            |i: int| json::member(keys[i], decision_text(model[keys[i]])),
        ));
    }
    braced(&out)
}

/// The hash of a request to change a plan.
pub fn hash_update(request: &UpdatePlanReq) -> (r: String)
    ensures
        r@ == hash_text(update_payload(request.deep_view())),
{
    let mut out: Vec<String> = Vec::new();
    out.push(json_member("decisions", decisions_string(&request.decisions).as_str()));
    out.push(json_member("expected_version", number(request.expected_version).as_str()));
    out.push(json_member("status", optional_string(&request.status).as_str()));
    proof {
        let m = request.deep_view();
        let want = seq![
            json::member("decisions"@, decisions_text(m.decisions)),
            json::member("expected_version"@, text::decimal_text(m.expected_version as nat)),
            json::member("status"@, json::optional_text(m.status)),
        ];
        assert(out.deep_view() =~= want);
    }
    hash(braced(&out))
}

} // verus!
