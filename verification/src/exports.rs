//! The text of an exported plan. The members of every object stand in ascending order of their names,
//! and nothing in the text depends on when or where it is written.

use vstd::prelude::*;
use vstd::utf8::*;

use crate::engine::{
    AnalyzedRecord, RecordModel, RuleSnapshot, RuleSnapshotModel, Stage, StageModel,
};
use crate::hex_bytes;
use crate::hex_bytes::to_hex;
use crate::json;
use crate::json::{
    bool_str, braced, bracketed, json_member, number, optional_string, quote, quoted_list,
};
use crate::ledger;
use crate::ledger::{
    stable_id, GroupDecision, GroupDecisionModel, Plan, PlanDetails, PlanDetailsModel, PlanModel,
    PlanStatus, StoredMapping, StoredMappingModel,
};
use crate::order;
use crate::shapes;
use crate::shapes::{form_str, map_string, policy_str, set_string};
use crate::source::{CodePoint, CodePointModel, Issue, IssueModel};
use crate::strmap::StringMap;
use crate::text;

verus! {

/// What `sha2` makes of bytes.
pub uninterp spec fn sha256_of(bytes: Seq<u8>) -> Seq<u8>;

/// `sha2::Sha256::digest`: the SHA-256 digest of bytes. It has 32 bytes and is fixed by the bytes.
#[verifier::external_body]
pub(crate) fn sha256(bytes: &[u8]) -> (r: Vec<u8>)
    ensures
        r@ == sha256_of(bytes@),
        r@.len() == 32,
{
    <sha2::Sha256 as sha2::Digest>::digest(bytes).to_vec()
}

/// A code point as a JSON object. It names the character, where it stands for one.
pub open spec fn code_point_text(p: CodePointModel) -> Seq<char> {
    let members = seq![
        json::member("hex"@, json::quoted(p.hex)),
        json::member("surrogate"@, json::bool_text(p.surrogate)),
        json::member("value"@, text::decimal_text(p.value as nat)),
    ];
    json::object_text(
        match p.character {
            Some(c) => seq![json::member("character"@, json::quoted(seq![c]))] + members,
            None => members,
        },
    )
}

/// Code points as a JSON list.
pub open spec fn code_points_text(points: Seq<CodePointModel>) -> Seq<char> {
    json::list_text(Seq::new(points.len(), |i: int| code_point_text(points[i])))
}

/// What one stage made of a record as a JSON object.
pub open spec fn stage_text(stage: StageModel) -> Seq<char> {
    json::object_text(
        seq![
            json::member("codepoints"@, code_points_text(stage.codepoints)),
            json::member("name"@, json::quoted(stage.name)),
            json::member("rule_version"@, json::quoted(stage.rule_version)),
            json::member("text"@, json::optional_text(stage.text)),
        ],
    )
}

/// Stages as a JSON list.
pub open spec fn stages_text(stages: Seq<StageModel>) -> Seq<char> {
    json::list_text(Seq::new(stages.len(), |i: int| stage_text(stages[i])))
}

/// An issue as a JSON object.
pub open spec fn issue_text(issue: IssueModel) -> Seq<char> {
    json::object_text(
        seq![
            json::member("bytes"@, json::list_text(json::quoted_all(issue.bytes))),
            json::member("codepoint"@, json::optional_text(issue.codepoint)),
            json::member("kind"@, json::quoted(issue.kind)),
            json::member("message"@, json::quoted(issue.message)),
            json::member("offset"@, text::decimal_text(issue.offset as nat)),
            json::member("script"@, json::optional_text(issue.script)),
        ],
    )
}

/// Issues as a JSON list.
pub open spec fn issues_text(issues: Seq<IssueModel>) -> Seq<char> {
    json::list_text(Seq::new(issues.len(), |i: int| issue_text(issues[i])))
}

/// What the analysis says of a record as a JSON object.
pub open spec fn record_text(record: RecordModel) -> Seq<char> {
    json::object_text(
        seq![
            json::member("canonical"@, json::quoted(record.canonical)),
            json::member("eligible"@, json::bool_text(record.eligible)),
            json::member("issues"@, issues_text(record.issues)),
            json::member("mixed_script"@, json::bool_text(record.mixed_script)),
            json::member("original_base64"@, json::quoted(record.original_base64)),
            json::member("original_text"@, json::optional_text(record.original_text)),
            json::member("record_id"@, json::quoted(record.record_id)),
            json::member("scripts"@, shapes::set_text(record.scripts)),
            json::member("source_version"@, text::decimal_text(record.source_version as nat)),
            json::member("stages"@, stages_text(record.stages)),
        ],
    )
}

/// Records as a JSON list.
pub open spec fn records_text(records: Seq<RecordModel>) -> Seq<char> {
    json::list_text(Seq::new(records.len(), |i: int| record_text(records[i])))
}

/// A mapping as a JSON object.
pub open spec fn mapping_text(mapping: StoredMappingModel) -> Seq<char> {
    json::object_text(
        seq![
            json::member("action"@, json::quoted(mapping.action)),
            json::member("new_canonical"@, json::quoted(mapping.new_canonical)),
            json::member("old_canonical"@, json::quoted(mapping.old_canonical)),
            json::member("record_id"@, json::quoted(mapping.record_id)),
        ],
    )
}

/// Mappings as a JSON list.
pub open spec fn mappings_text(mappings: Seq<StoredMappingModel>) -> Seq<char> {
    json::list_text(Seq::new(mappings.len(), |i: int| mapping_text(mappings[i])))
}

/// Rules with the versions of their tables as a JSON object.
pub open spec fn rules_text(rules: RuleSnapshotModel) -> Seq<char> {
    json::object_text(
        seq![
            json::member("allowed_scripts"@, shapes::set_text(rules.allowed_scripts)),
            json::member("case_fold"@, json::bool_text(rules.case_fold)),
            json::member("icu_casemap"@, json::quoted(rules.icu_casemap)),
            json::member("icu_normalizer"@, json::quoted(rules.icu_normalizer)),
            json::member("icu_properties"@, json::quoted(rules.icu_properties)),
            json::member("normalization"@, json::quoted(shapes::form_name(rules.normalization))),
            json::member("script_policy"@, json::quoted(shapes::policy_name(rules.script_policy))),
            json::member(
                "strip_default_ignorable"@,
                json::bool_text(rules.strip_default_ignorable),
            ),
            json::member("unicode_version"@, json::quoted(rules.unicode_version)),
        ],
    )
}

/// A decision as a JSON object.
pub open spec fn decision_text(decision: GroupDecisionModel) -> Seq<char> {
    json::object_text(
        seq![
            json::member("action"@, json::quoted(decision.action)),
            json::member("keep_old_alias"@, json::bool_text(decision.keep_old_alias)),
            json::member("primary_record_id"@, json::optional_text(decision.primary_record_id)),
            json::member("replacements"@, shapes::map_text(decision.replacements)),
        ],
    )
}

/// Decisions by bucket as a JSON object, in ascending order of the buckets.
pub open spec fn decisions_text(m: Map<Seq<char>, GroupDecisionModel>) -> Seq<char> {
    let keys = order::in_order(m.dom());
    json::object_text(
        Seq::new(keys.len(), |i: int| json::member(keys[i], decision_text(m[keys[i]]))),
    )
}

/// The name of a status.
pub open spec fn status_text(status: PlanStatus) -> Seq<char> {
    match status {
        PlanStatus::Draft => "draft"@,
        PlanStatus::Approved => "approved"@,
        PlanStatus::Rejected => "rejected"@,
        PlanStatus::Applied => "applied"@,
    }
}

/// What identifies a plan, and its decisions, as a JSON object.
pub open spec fn plan_text(plan: PlanModel) -> Seq<char> {
    json::object_text(
        seq![
            json::member("dataset_id"@, json::quoted(plan.dataset_id)),
            json::member("dataset_version"@, text::decimal_text(plan.dataset_version as nat)),
            json::member("decisions"@, decisions_text(plan.decisions)),
            json::member("id"@, json::quoted(plan.id)),
            json::member("status"@, json::quoted(status_text(plan.status))),
            json::member("version"@, text::decimal_text(plan.version as nat)),
        ],
    )
}

/// What is exported of a plan, up to the rules that it starts from.
pub open spec fn first_members(plan: PlanModel, details: PlanDetailsModel) -> Seq<Seq<char>> {
    seq![
        json::member("format"@, json::quoted("unicode-collision-workbench/export/v1"@)),
        json::member("mappings"@, mappings_text(details.mappings)),
        json::member("plan"@, plan_text(plan)),
        json::member("records"@, records_text(details.target_analysis.records)),
        json::member("rule_snapshot"@, rules_text(details.target_analysis.rules)),
    ]
}

/// The rules that an exported plan starts from.
pub open spec fn last_member(details: PlanDetailsModel) -> Seq<char> {
    json::member("source_rule_snapshot"@, rules_text(details.source_analysis.rules))
}

/// What is exported of a plan as a JSON object.
pub open spec fn document_text(plan: PlanModel, details: PlanDetailsModel) -> Seq<char> {
    json::object_text(first_members(plan, details).push(last_member(details)))
}

/// What is exported of a plan, with its hash and a digest of it.
pub open spec fn sealed_text(
    plan: PlanModel,
    details: PlanDetailsModel,
    digest: Seq<u8>,
) -> Seq<char> {
    let hash = ledger::stable_id_text("sha256placeholder"@, seq![document_text(plan, details)]);
    json::object_text(
        seq![json::member("export_hash_fnv1a_64"@, json::quoted(hash))] + first_members(
            plan,
            details,
        ) + seq![
            json::member("sha256"@, json::quoted(hex_bytes::hex_text(digest))),
            last_member(details),
        ],
    )
}

/// The SHA-256 digest of the UTF-8 bytes of what is exported of a plan.
pub open spec fn digest_of(plan: PlanModel, details: PlanDetailsModel) -> Seq<u8> {
    sha256_of(encode_utf8(document_text(plan, details)))
}

/// What is exported of a plan, sealed with its digest.
pub open spec fn export_text(plan: PlanModel, details: PlanDetailsModel) -> Seq<char> {
    sealed_text(plan, details, digest_of(plan, details))
}

fn code_point_string(p: &CodePoint) -> (r: String)
    ensures
        r@ == code_point_text(p.deep_view()),
{
    let mut out: Vec<String> = Vec::new();
    if let Some(c) = p.character {
        let mut shown = String::new();
        shown.push(c);
        proof {
            assert(shown@ =~= seq![c]);
        }
        out.push(json_member("character", quote(shown.as_str()).as_str()));
    }
    out.push(json_member("hex", quote(p.hex.as_str()).as_str()));
    out.push(json_member("surrogate", bool_str(p.surrogate)));
    out.push(json_member("value", number(p.value as u64).as_str()));
    proof {
        let m = p.deep_view();
        let members = seq![
            json::member("hex"@, json::quoted(m.hex)),
            json::member("surrogate"@, json::bool_text(m.surrogate)),
            json::member("value"@, text::decimal_text(m.value as nat)),
        ];
        let want = match m.character {
            Some(c) => seq![json::member("character"@, json::quoted(seq![c]))] + members,
            None => members,
        };
        assert(out.deep_view() =~= want);
    }
    braced(&out)
}

fn code_points_string(points: &Vec<CodePoint>) -> (r: String)
    ensures
        r@ == code_points_text(points.deep_view()),
{
    let mut out: Vec<String> = Vec::new();
    for i in 0..points.len()
        invariant
            out@.len() == i,
            forall|k: int|
                0 <= k < i ==> (#[trigger] out@[k])@ == code_point_text(points@[k].deep_view()),
    {
        out.push(code_point_string(&points[i]));
    }
    proof {
        let m = points.deep_view();
        assert(out.deep_view() =~= Seq::new(m.len(), |i: int| code_point_text(m[i])));
    }
    bracketed(&out)
}

fn stage_string(stage: &Stage) -> (r: String)
    ensures
        r@ == stage_text(stage.deep_view()),
{
    let mut out: Vec<String> = Vec::new();
    out.push(json_member("codepoints", code_points_string(&stage.codepoints).as_str()));
    out.push(json_member("name", quote(stage.name.as_str()).as_str()));
    out.push(json_member("rule_version", quote(stage.rule_version.as_str()).as_str()));
    out.push(json_member("text", optional_string(&stage.text).as_str()));
    proof {
        let m = stage.deep_view();
        let want = seq![
            json::member("codepoints"@, code_points_text(m.codepoints)),
            json::member("name"@, json::quoted(m.name)),
            json::member("rule_version"@, json::quoted(m.rule_version)),
            json::member("text"@, json::optional_text(m.text)),
        ];
        assert(out.deep_view() =~= want);
    }
    braced(&out)
}

fn stages_string(stages: &Vec<Stage>) -> (r: String)
    ensures
        r@ == stages_text(stages.deep_view()),
{
    let mut out: Vec<String> = Vec::new();
    for i in 0..stages.len()
        invariant
            out@.len() == i,
            forall|k: int|
                0 <= k < i ==> (#[trigger] out@[k])@ == stage_text(stages@[k].deep_view()),
    {
        out.push(stage_string(&stages[i]));
    }
    proof {
        let m = stages.deep_view();
        assert(out.deep_view() =~= Seq::new(m.len(), |i: int| stage_text(m[i])));
    }
    bracketed(&out)
}

fn issue_string(issue: &Issue) -> (r: String)
    ensures
        r@ == issue_text(issue.deep_view()),
{
    let mut out: Vec<String> = Vec::new();
    out.push(json_member("bytes", quoted_list(&issue.bytes).as_str()));
    out.push(json_member("codepoint", optional_string(&issue.codepoint).as_str()));
    out.push(json_member("kind", quote(issue.kind.as_str()).as_str()));
    out.push(json_member("message", quote(issue.message.as_str()).as_str()));
    out.push(json_member("offset", number(issue.offset as u64).as_str()));
    out.push(json_member("script", optional_string(&issue.script).as_str()));
    proof {
        let m = issue.deep_view();
        let want = seq![
            json::member("bytes"@, json::list_text(json::quoted_all(m.bytes))),
            json::member("codepoint"@, json::optional_text(m.codepoint)),
            json::member("kind"@, json::quoted(m.kind)),
            json::member("message"@, json::quoted(m.message)),
            json::member("offset"@, text::decimal_text(m.offset as nat)),
            json::member("script"@, json::optional_text(m.script)),
        ];
        assert(out.deep_view() =~= want);
    }
    braced(&out)
}

fn issues_string(issues: &Vec<Issue>) -> (r: String)
    ensures
        r@ == issues_text(issues.deep_view()),
{
    let mut out: Vec<String> = Vec::new();
    for i in 0..issues.len()
        invariant
            out@.len() == i,
            forall|k: int|
                0 <= k < i ==> (#[trigger] out@[k])@ == issue_text(issues@[k].deep_view()),
    {
        out.push(issue_string(&issues[i]));
    }
    proof {
        let m = issues.deep_view();
        assert(out.deep_view() =~= Seq::new(m.len(), |i: int| issue_text(m[i])));
    }
    bracketed(&out)
}

fn record_string(record: &AnalyzedRecord) -> (r: String)
    ensures
        r@ == record_text(record.deep_view()),
{
    let mut out: Vec<String> = Vec::new();
    out.push(json_member("canonical", quote(record.canonical.as_str()).as_str()));
    out.push(json_member("eligible", bool_str(record.eligible)));
    out.push(json_member("issues", issues_string(&record.issues).as_str()));
    out.push(json_member("mixed_script", bool_str(record.mixed_script)));
    out.push(json_member("original_base64", quote(record.original_base64.as_str()).as_str()));
    out.push(json_member("original_text", optional_string(&record.original_text).as_str()));
    out.push(json_member("record_id", quote(record.record_id.as_str()).as_str()));
    out.push(json_member("scripts", set_string(&record.scripts).as_str()));
    out.push(json_member("source_version", number(record.source_version).as_str()));
    out.push(json_member("stages", stages_string(&record.stages).as_str()));
    proof {
        let m = record.deep_view();
        let want = seq![
            json::member("canonical"@, json::quoted(m.canonical)),
            json::member("eligible"@, json::bool_text(m.eligible)),
            json::member("issues"@, issues_text(m.issues)),
            json::member("mixed_script"@, json::bool_text(m.mixed_script)),
            json::member("original_base64"@, json::quoted(m.original_base64)),
            json::member("original_text"@, json::optional_text(m.original_text)),
            json::member("record_id"@, json::quoted(m.record_id)),
            json::member("scripts"@, shapes::set_text(m.scripts)),
            json::member("source_version"@, text::decimal_text(m.source_version as nat)),
            json::member("stages"@, stages_text(m.stages)),
        ];
        assert(out.deep_view() =~= want);
    }
    braced(&out)
}

fn records_string(records: &Vec<AnalyzedRecord>) -> (r: String)
    ensures
        r@ == records_text(records.deep_view()),
{
    let mut out: Vec<String> = Vec::new();
    for i in 0..records.len()
        invariant
            out@.len() == i,
            forall|k: int|
                0 <= k < i ==> (#[trigger] out@[k])@ == record_text(records@[k].deep_view()),
    {
        out.push(record_string(&records[i]));
    }
    proof {
        let m = records.deep_view();
        assert(out.deep_view() =~= Seq::new(m.len(), |i: int| record_text(m[i])));
    }
    bracketed(&out)
}

fn mapping_string(mapping: &StoredMapping) -> (r: String)
    ensures
        r@ == mapping_text(mapping.deep_view()),
{
    let mut out: Vec<String> = Vec::new();
    out.push(json_member("action", quote(mapping.action.as_str()).as_str()));
    out.push(json_member("new_canonical", quote(mapping.new_canonical.as_str()).as_str()));
    out.push(json_member("old_canonical", quote(mapping.old_canonical.as_str()).as_str()));
    out.push(json_member("record_id", quote(mapping.record_id.as_str()).as_str()));
    proof {
        let m = mapping.deep_view();
        let want = seq![
            json::member("action"@, json::quoted(m.action)),
            json::member("new_canonical"@, json::quoted(m.new_canonical)),
            json::member("old_canonical"@, json::quoted(m.old_canonical)),
            json::member("record_id"@, json::quoted(m.record_id)),
        ];
        assert(out.deep_view() =~= want);
    }
    braced(&out)
}

fn mappings_string(mappings: &Vec<StoredMapping>) -> (r: String)
    ensures
        r@ == mappings_text(mappings.deep_view()),
{
    let mut out: Vec<String> = Vec::new();
    for i in 0..mappings.len()
        invariant
            out@.len() == i,
            forall|k: int|
                0 <= k < i ==> (#[trigger] out@[k])@ == mapping_text(mappings@[k].deep_view()),
    {
        out.push(mapping_string(&mappings[i]));
    }
    proof {
        let m = mappings.deep_view();
        assert(out.deep_view() =~= Seq::new(m.len(), |i: int| mapping_text(m[i])));
    }
    bracketed(&out)
}

fn rules_string(rules: &RuleSnapshot) -> (r: String)
    ensures
        r@ == rules_text(rules.deep_view()),
{
    let mut out: Vec<String> = Vec::new();
    out.push(json_member("allowed_scripts", set_string(&rules.allowed_scripts).as_str()));
    out.push(json_member("case_fold", bool_str(rules.case_fold)));
    out.push(json_member("icu_casemap", quote(rules.icu_casemap.as_str()).as_str()));
    out.push(json_member("icu_normalizer", quote(rules.icu_normalizer.as_str()).as_str()));
    out.push(json_member("icu_properties", quote(rules.icu_properties.as_str()).as_str()));
    out.push(json_member("normalization", quote(form_str(rules.normalization)).as_str()));
    out.push(json_member("script_policy", quote(policy_str(rules.script_policy)).as_str()));
    out.push(json_member("strip_default_ignorable", bool_str(rules.strip_default_ignorable)));
    out.push(json_member("unicode_version", quote(rules.unicode_version.as_str()).as_str()));
    proof {
        let m = rules.deep_view();
        let want = seq![
            json::member("allowed_scripts"@, shapes::set_text(m.allowed_scripts)),
            json::member("case_fold"@, json::bool_text(m.case_fold)),
            json::member("icu_casemap"@, json::quoted(m.icu_casemap)),
            json::member("icu_normalizer"@, json::quoted(m.icu_normalizer)),
            json::member("icu_properties"@, json::quoted(m.icu_properties)),
            json::member("normalization"@, json::quoted(shapes::form_name(m.normalization))),
            json::member("script_policy"@, json::quoted(shapes::policy_name(m.script_policy))),
            json::member(
                "strip_default_ignorable"@,
                json::bool_text(m.strip_default_ignorable),
            ),
            json::member("unicode_version"@, json::quoted(m.unicode_version)),
        ];
        assert(out.deep_view() =~= want);
    }
    braced(&out)
}

fn decision_string(decision: &GroupDecision) -> (r: String)
    ensures
        r@ == decision_text(decision.deep_view()),
{
    let mut out: Vec<String> = Vec::new();
    out.push(json_member("action", quote(decision.action.as_str()).as_str()));
    out.push(json_member("keep_old_alias", bool_str(decision.keep_old_alias)));
    out.push(
        json_member("primary_record_id", optional_string(&decision.primary_record_id).as_str()),
    );
    out.push(json_member("replacements", map_string(&decision.replacements).as_str()));
    proof {
        let m = decision.deep_view();
        let want = seq![
            json::member("action"@, json::quoted(m.action)),
            json::member("keep_old_alias"@, json::bool_text(m.keep_old_alias)),
            json::member("primary_record_id"@, json::optional_text(m.primary_record_id)),
            json::member("replacements"@, shapes::map_text(m.replacements)),
        ];
        assert(out.deep_view() =~= want);
    }
    braced(&out)
}

fn decisions_string(m: &StringMap<GroupDecision>) -> (r: String)
    ensures
        r@ == decisions_text(m.deep_view()),
{
    let n = m.len();
    let ghost keys = m.keys();
    let ghost model = m.deep_view();
    let mut out: Vec<String> = Vec::new();
    let mut i: usize = 0;
    while i < n
        invariant
            n == keys.len(),
            keys == m.keys(),
            model == m.deep_view(),
            i <= n,
            out@.len() == i,
            forall|k: int|
                0 <= k < i ==> (#[trigger] out@[k])@ == json::member(
                    keys[k],
                    decision_text(model[keys[k]]),
                ),
        decreases n - i,
    {
        let value = decision_string(m.value_at(i));
        out.push(json_member(m.key_at(i).as_str(), value.as_str()));
        i += 1;
    }
    proof {
        assert(model.dom() =~= m@.dom());
        assert(out.deep_view() =~= Seq::new(
            keys.len(),
            |i: int| json::member(keys[i], decision_text(model[keys[i]])),
        ));
    }
    braced(&out)
}

fn status_str(status: PlanStatus) -> (r: &'static str)
    ensures
        r@ == status_text(status),
{
    match status {
        PlanStatus::Draft => "draft",
        PlanStatus::Approved => "approved",
        PlanStatus::Rejected => "rejected",
        PlanStatus::Applied => "applied",
    }
}

fn plan_string(plan: &Plan) -> (r: String)
    ensures
        r@ == plan_text(plan.deep_view()),
{
    let mut out: Vec<String> = Vec::new();
    out.push(json_member("dataset_id", quote(plan.dataset_id.as_str()).as_str()));
    out.push(json_member("dataset_version", number(plan.dataset_version).as_str()));
    out.push(json_member("decisions", decisions_string(&plan.decisions).as_str()));
    out.push(json_member("id", quote(plan.id.as_str()).as_str()));
    out.push(json_member("status", quote(status_str(plan.status)).as_str()));
    out.push(json_member("version", number(plan.version).as_str()));
    proof {
        let m = plan.deep_view();
        let want = seq![
            json::member("dataset_id"@, json::quoted(m.dataset_id)),
            json::member("dataset_version"@, text::decimal_text(m.dataset_version as nat)),
            json::member("decisions"@, decisions_text(m.decisions)),
            json::member("id"@, json::quoted(m.id)),
            json::member("status"@, json::quoted(status_text(m.status))),
            json::member("version"@, text::decimal_text(m.version as nat)),
        ];
        assert(out.deep_view() =~= want);
    }
    braced(&out)
}

/// Adds what is exported of a plan, up to the rules that it starts from.
fn push_members(out: &mut Vec<String>, plan: &Plan, details: &PlanDetails)
    ensures
        final(out).deep_view() == old(out).deep_view() + first_members(
            plan.deep_view(),
            details.deep_view(),
        ),
{
    let ghost before = out.deep_view();
    out.push(json_member("format", quote("unicode-collision-workbench/export/v1").as_str()));
    out.push(json_member("mappings", mappings_string(&details.mappings).as_str()));
    out.push(json_member("plan", plan_string(plan).as_str()));
    let target = &details.target_analysis;
    out.push(json_member("records", records_string(&target.records).as_str()));
    out.push(json_member("rule_snapshot", rules_string(&target.rules).as_str()));
    proof {
        assert(out.deep_view() =~= before + first_members(plan.deep_view(), details.deep_view()));
    }
}

/// What is exported of a plan as a JSON object.
pub fn document(plan: &Plan, details: &PlanDetails) -> (r: String)
    ensures
        r@ == document_text(plan.deep_view(), details.deep_view()),
{
    let mut out: Vec<String> = Vec::new();
    push_members(&mut out, plan, details);
    let ghost first = out.deep_view();
    out.push(
        json_member("source_rule_snapshot", rules_string(&details.source_analysis.rules).as_str()),
    );
    proof {
        let (p, d) = (plan.deep_view(), details.deep_view());
        assert(first =~= first_members(p, d));
        assert(out.deep_view() =~= first_members(p, d).push(last_member(d)));
    }
    braced(&out)
}

fn push_text(out: &mut Vec<String>, item: String)
    ensures
        final(out).deep_view() == old(out).deep_view().push(item@),
{
    let ghost before = out.deep_view();
    out.push(item);
    proof {
        assert(out.deep_view() =~= before.push(item@));
    }
}

/// What is exported of a plan, with its hash and a digest of it.
pub fn sealed_document(plan: &Plan, details: &PlanDetails, digest: &[u8]) -> (r: String)
    ensures
        r@ == sealed_text(plan.deep_view(), details.deep_view(), digest@),
{
    let mut parts: Vec<String> = Vec::new();
    parts.push(document(plan, details));
    proof {
        assert(parts.deep_view() =~= seq![document_text(plan.deep_view(), details.deep_view())]);
    }
    let hash = stable_id("sha256placeholder", &parts);
    let mut out: Vec<String> = Vec::new();
    proof {
        assert(out.deep_view() =~= Seq::<Seq<char>>::empty());
    }
    push_text(&mut out, json_member("export_hash_fnv1a_64", quote(hash.as_str()).as_str()));
    push_members(&mut out, plan, details);
    push_text(&mut out, json_member("sha256", quote(to_hex(digest).as_str()).as_str()));
    let rules = rules_string(&details.source_analysis.rules);
    push_text(&mut out, json_member("source_rule_snapshot", rules.as_str()));
    proof {
        lemma_sealed(
            json::member("export_hash_fnv1a_64"@, json::quoted(hash@)),
            first_members(plan.deep_view(), details.deep_view()),
            json::member("sha256"@, json::quoted(hex_bytes::hex_text(digest@))),
            last_member(details.deep_view()),
        );
    }
    braced(&out)
}

proof fn lemma_sealed(hash: Seq<char>, first: Seq<Seq<char>>, digest: Seq<char>, last: Seq<char>)
    ensures
        (Seq::<Seq<char>>::empty().push(hash) + first).push(digest).push(last) == seq![hash] + first
            + seq![digest, last],
{
    assert((Seq::<Seq<char>>::empty().push(hash) + first).push(digest).push(last) =~= seq![hash]
        + first + seq![digest, last]);
}

/// What is exported of a plan, sealed with its digest of 64 hexadecimal digits.
pub fn export_string(plan: &Plan, details: &PlanDetails) -> (r: String)
    ensures
        r@ == export_text(plan.deep_view(), details.deep_view()),
        hex_bytes::hex_text(digest_of(plan.deep_view(), details.deep_view())).len() == 64,
{
    let text = document(plan, details);
    let digest = sha256(text.as_str().as_bytes());
    sealed_document(plan, details, digest.as_slice())
}

} // verus!
