//! What events change, and what is shown of what they brought.

use vstd::prelude::*;
use vstd::utf8::*;

use crate::hex_bytes;
use crate::model::{AnalyzedRecordModel, Id, ImportedRecordModel, PlanModel, PlanStatus};
use crate::order;
use crate::server;
use crate::server::RecordFilterModel;
use crate::sorting;
use crate::store;
use crate::store::{EventModel, StateModel, WalRecordModel};
use crate::text;
use crate::unicode;
use crate::unicode::{RuleConfigModel, StageModel};

verus! {

/// Two states agree on the rule sets and which of them is active.
pub open spec fn same_rules(s: StateModel, t: StateModel) -> bool {
    t.rulesets == s.rulesets && t.active_ruleset_id == s.active_ruleset_id
}

/// Two states agree on the data sets and the answers that are kept for keys.
pub open spec fn same_imports(s: StateModel, t: StateModel) -> bool {
    t.datasets == s.datasets && t.idempotency == s.idempotency
}

/// Two states agree on the plans and on what was approved.
pub open spec fn same_plans(s: StateModel, t: StateModel) -> bool {
    t.plans == s.plans && t.committed == s.committed
}

/// The change of a resource is counted and recorded, and no other.
pub open spec fn records_change(
    s: StateModel,
    t: StateModel,
    resource: Seq<char>,
    label: Seq<char>,
) -> bool {
    &&& t.versions == s.versions.insert(resource, t.versions[resource])
    &&& t.versions[resource] == (if s.versions.contains_key(resource) {
        s.versions[resource]
    } else {
        0
    }) + 1
    &&& t.history == s.history.insert(resource, t.history[resource])
    &&& t.history[resource].len() > 0
    &&& t.history[resource].last().label == label
    &&& t.history[resource].drop_last() == (if s.history.contains_key(resource) {
        s.history[resource]
    } else {
        seq![]
    })
}

/// What an event brings is stored under its number, its resource tells of the change, and everything
/// else stays as it is: a new rule set is active if none was, and a new revision of the tables always
/// is; an import keeps its answer for its key; decisions and an approval change their plan alone, and
/// an approval adds to what was approved.
pub proof fn events_change_what_they_bring(s: StateModel, e: EventModel)
    requires
        store::admits(s, e),
    ensures
        ({
            let t = store::applied(s, e);
            &&& t.event_seq == s.event_seq
            &&& t.next_id >= s.next_id
            &&& match e {
                EventModel::RulesetCreated { ruleset } => {
                    &&& t.rulesets == s.rulesets.insert(ruleset.id, ruleset)
                    &&& t.active_ruleset_id == (if s.active_ruleset_id is Some {
                        s.active_ruleset_id
                    } else {
                        Some(ruleset.id)
                    })
                    &&& t.next_id > ruleset.id
                    &&& same_imports(s, t) && same_plans(s, t) && t.analyses == s.analyses
                    &&& records_change(
                        s,
                        t,
                        "ruleset:"@ + text::decimal_text(ruleset.id as nat),
                        "create"@,
                    )
                },
                EventModel::DatasetImported { dataset, idempotency_key, response_body } => {
                    &&& t.datasets == s.datasets.insert(dataset.id, dataset)
                    &&& t.next_id > dataset.id
                    &&& same_rules(s, t) && same_plans(s, t) && t.analyses == s.analyses
                    &&& idempotency_key is Some && response_body is Some
                        ==> t.idempotency.entries == s.idempotency.entries.insert(
                        idempotency_key->0,
                        (201u16, response_body->0),
                    )
                    &&& idempotency_key is None || response_body is None ==> t.idempotency
                        == s.idempotency
                    &&& records_change(
                        s,
                        t,
                        "dataset:"@ + text::decimal_text(dataset.id as nat),
                        "import"@,
                    )
                },
                EventModel::AnalysisBuilt { analysis } => {
                    &&& t.analyses == s.analyses.insert(analysis.id, analysis)
                    &&& t.next_id > analysis.id
                    &&& same_rules(s, t) && same_imports(s, t) && same_plans(s, t)
                    &&& records_change(
                        s,
                        t,
                        "analysis:"@ + text::decimal_text(analysis.id as nat),
                        "build"@,
                    )
                },
                EventModel::TableUpgraded { new_ruleset, note } => {
                    &&& t.rulesets == s.rulesets.insert(new_ruleset.id, new_ruleset)
                    &&& t.active_ruleset_id == Some(new_ruleset.id)
                    &&& t.next_id > new_ruleset.id
                    &&& same_imports(s, t) && same_plans(s, t) && t.analyses == s.analyses
                    &&& records_change(s, t, "tables"@, "upgrade"@)
                },
                EventModel::PlanCreated { plan } => {
                    &&& t.plans == s.plans.insert(plan.id, plan)
                    &&& t.committed == s.committed
                    &&& t.next_id > plan.id
                    &&& same_rules(s, t) && same_imports(s, t) && t.analyses == s.analyses
                    &&& records_change(
                        s,
                        t,
                        "plan:"@ + text::decimal_text(plan.id as nat),
                        "create"@,
                    )
                },
                EventModel::PlanDecisionsSet { plan_id, decisions } => {
                    &&& s.plans.contains_key(plan_id) ==> t.plans == s.plans.insert(
                        plan_id,
                        PlanModel { decisions, ..s.plans[plan_id] },
                    )
                    &&& !s.plans.contains_key(plan_id) ==> t.plans == s.plans
                    &&& t.committed == s.committed
                    &&& t.next_id == s.next_id
                    &&& same_rules(s, t) && same_imports(s, t) && t.analyses == s.analyses
                    &&& records_change(
                        s,
                        t,
                        "plan:"@ + text::decimal_text(plan_id as nat),
                        "decisions"@,
                    )
                },
                EventModel::PlanApproved {
                    plan_id,
                    mapping,
                    committed,
                    approved_ruleset_revision,
                    approved_tables,
                } => {
                    &&& s.plans.contains_key(plan_id) ==> {
                        let plan = t.plans[plan_id];
                        &&& t.plans == s.plans.insert(plan_id, plan)
                        &&& plan.status == PlanStatus::Approved
                        &&& plan.mapping == mapping
                        &&& plan.approved_ruleset_revision == Some(approved_ruleset_revision)
                        &&& plan.approved_tables == Some(approved_tables)
                        &&& plan.decisions == s.plans[plan_id].decisions
                        &&& plan.id == s.plans[plan_id].id
                        &&& plan.analysis_id == s.plans[plan_id].analysis_id
                    }
                    &&& !s.plans.contains_key(plan_id) ==> t.plans == s.plans
                    &&& t.committed == s.committed + committed
                    &&& t.next_id == s.next_id
                    &&& same_rules(s, t) && same_imports(s, t) && t.analyses == s.analyses
                    &&& records_change(
                        s,
                        t,
                        "plan:"@ + text::decimal_text(plan_id as nat),
                        "approve"@,
                    )
                },
            }
        }),
{
    let t = store::applied(s, e);
    let r = store::event_resource(e);
    assert(t.history[r].drop_last() =~= s.history_of(r));
}

/// A log is read back record by record: a record that is newer than the state is applied and counted,
/// and any other changes nothing.
pub proof fn newer_records_are_applied(s: StateModel, log: Seq<WalRecordModel>, record: WalRecordModel)
    ensures
        ({
            let before = store::replayed(s, log);
            let after = store::replayed(s, log.push(record));
            &&& record.event_seq <= before.event_seq ==> after == before
            &&& record.event_seq > before.event_seq ==> after == store::applied(
                StateModel { event_seq: record.event_seq, ..before },
                record.event,
            ) && after.event_seq == record.event_seq
        }),
{
    assert(log.push(record).drop_last() =~= log);
}

/// The record has the canonical value.
pub open spec fn valued(record: AnalyzedRecordModel, value: Seq<char>) -> bool {
    record.trace.canonical == value
}

proof fn lemma_members(records: Seq<AnalyzedRecordModel>, value: Seq<char>)
    ensures
        store::members(records, value) == records.filter(
            |r: AnalyzedRecordModel| valued(r, value),
        ),
    decreases records.len(),
{
    reveal(Seq::filter);
    if records.len() == 0 {
        assert(store::members(records, value) =~= records.filter(
            |r: AnalyzedRecordModel| valued(r, value),
        ));
    } else {
        lemma_members(records.drop_last(), value);
    }
}

/// A bucket tells of exactly the records with its value: their numbers, each as often as it occurs and
/// in ascending order, whether all of them have the same bytes, and the value by its characters and
/// its bytes.
pub proof fn buckets_tell_of_their_records(records: Seq<AnalyzedRecordModel>, b: int)
    requires
        0 <= b < store::buckets_of(records).len(),
    ensures
        ({
            let bucket = store::buckets_of(records)[b];
            let found = records.filter(|r: AnalyzedRecordModel| valued(r, bucket.canonical));
            &&& found.len() > 0
            &&& bucket.record_nos.to_multiset() == found.map_values(
                |r: AnalyzedRecordModel| r.record_no,
            ).to_multiset()
            &&& sorting::keys_ascend::<String>(bucket.record_nos)
            &&& bucket.identical_originals <==> forall|i: int, j: int|
                0 <= i < found.len() && 0 <= j < found.len() ==> (#[trigger] found[i]).raw == (
                #[trigger] found[j]).raw
            &&& hex_bytes::hex_read(encode_utf8(bucket.bucket_hex)) == Some(
                encode_utf8(bucket.canonical),
            )
            &&& bucket.canonical_cps == found[0].trace.canonical_cps
        }),
{
    let values = order::in_order(store::canonical_values(records));
    let value = values[b];
    let found = records.filter(|r: AnalyzedRecordModel| valued(r, value));
    lemma_members(records, value);
    sorting::sorting_sorts::<String>(store::numbers(found));
    assert(store::numbers(found) =~= found.map_values(|r: AnalyzedRecordModel| r.record_no));
    hex_bytes::hex_reads_back(encode_utf8(value));
    store::lemma_values_listed(records);
    assert(values.contains(value));
    assert(store::canonical_values(records).contains(value));
    let i = choose|i: int|
        0 <= i < records.len() && (#[trigger] records[i]).trace.canonical == value;
    lemma_some_left(records, value, i);
    if store::same_originals(found) {
        assert forall|i: int, j: int|
            0 <= i < found.len() && 0 <= j < found.len() implies (#[trigger] found[i]).raw == (
        #[trigger] found[j]).raw by {
            assert(found[i].raw == found[0].raw && found[j].raw == found[0].raw);
        }
    }
}

proof fn lemma_some_left(records: Seq<AnalyzedRecordModel>, value: Seq<char>, i: int)
    requires
        0 <= i < records.len(),
        valued(records[i], value),
    ensures
        records.filter(|r: AnalyzedRecordModel| valued(r, value)).len() > 0,
    decreases records.len(),
{
    reveal(Seq::filter);
    if i < records.len() - 1 {
        lemma_some_left(records.drop_last(), value, i);
    }
}

/// A data set is analyzed record by record: each is there once, in order, with its number, its bytes
/// and what the rules make of them.
pub proof fn records_are_analyzed_in_order(
    records: Seq<ImportedRecordModel>,
    cfg: RuleConfigModel,
    i: int,
)
    requires
        0 <= i < records.len(),
    ensures
        ({
            let all = store::analyzed_records(records, cfg);
            &&& all.len() == records.len()
            &&& all[i].record_no == records[i].record_no
            &&& all[i].raw == records[i].raw
            &&& all[i].trace == unicode::trace_of(records[i].raw, cfg)
        }),
{
}

/// An analysis is shown with all of its records that are asked for, in order: those with the number, if
/// one is given, and with issues, if only these are wanted. Each is shown as it is, with the stages
/// that are asked for and its bytes in hexadecimal digits.
pub proof fn analyses_are_shown_as_asked_for(
    records: Seq<AnalyzedRecordModel>,
    filter: RecordFilterModel,
    k: int,
)
    requires
        0 <= k < server::record_views(records, filter).len(),
    ensures
        ({
            let wanted = records.filter(
                |r: AnalyzedRecordModel|
                    (filter.record is None || r.record_no == filter.record->0) && (
                    !filter.issue_only || r.trace.issues.len() > 0),
            );
            let shown = server::record_views(records, filter);
            &&& shown.len() == wanted.len()
            &&& shown[k].record_no == wanted[k].record_no
            &&& hex_bytes::hex_read(encode_utf8(shown[k].raw_hex)) == Some(wanted[k].raw)
            &&& shown[k].canonical == wanted[k].trace.canonical
            &&& shown[k].canonical_cps == wanted[k].trace.canonical_cps
            &&& shown[k].scripts == wanted[k].trace.scripts
            &&& shown[k].mixed_script == wanted[k].trace.mixed_script
            &&& shown[k].restriction_violated == wanted[k].trace.restriction_violated
            &&& shown[k].issues == wanted[k].trace.issues
            &&& filter.stage is None ==> shown[k].stages == wanted[k].trace.stages
            &&& filter.stage is Some ==> shown[k].stages == wanted[k].trace.stages.filter(
                |stage: StageModel| stage.name == filter.stage->0,
            )
        }),
{
    let wanted = records.filter(
        |r: AnalyzedRecordModel|
            (filter.record is None || r.record_no == filter.record->0) && (!filter.issue_only
                || r.trace.issues.len() > 0),
    );
    lemma_same_filter(
        records,
        |r: AnalyzedRecordModel| server::is_shown(r, filter),
        |r: AnalyzedRecordModel|
            (filter.record is None || r.record_no == filter.record->0) && (!filter.issue_only
                || r.trace.issues.len() > 0),
    );
    let all = wanted[k].trace.stages;
    hex_bytes::hex_reads_back(wanted[k].raw);
    if filter.stage is None {
        lemma_same_filter(
            all,
            |stage: StageModel| filter.stage matches Some(n) ==> stage.name == n,
            |stage: StageModel| true,
        );
        lemma_all_left(all);
    } else {
        lemma_same_filter(
            all,
            |stage: StageModel| filter.stage matches Some(n) ==> stage.name == n,
            |stage: StageModel| stage.name == filter.stage->0,
        );
    }
}

proof fn lemma_same_filter<T>(s: Seq<T>, f: spec_fn(T) -> bool, g: spec_fn(T) -> bool)
    requires
        forall|x: T| #[trigger] f(x) == g(x),
    ensures
        s.filter(f) == s.filter(g),
    decreases s.len(),
{
    reveal(Seq::filter);
    if s.len() > 0 {
        lemma_same_filter(s.drop_last(), f, g);
        assert(f(s.last()) == g(s.last()));
    }
}

proof fn lemma_all_left(s: Seq<StageModel>)
    ensures
        s.filter(|stage: StageModel| true) == s,
    decreases s.len(),
{
    reveal(Seq::filter);
    if s.len() > 0 {
        lemma_all_left(s.drop_last());
        assert(s.drop_last().push(s.last()) =~= s);
    } else {
        assert(s.filter(|stage: StageModel| true) =~= s);
    }
}

/// A plan is shown as it is, with its version and with the buckets and the rules of its analysis, if
/// that is there.
pub proof fn plans_are_shown_as_they_are(s: StateModel, id: Id)
    requires
        s.plans.contains_key(id),
    ensures
        ({
            let page = server::plan_page_of(s, s.plans[id], id);
            let resource = "plan:"@ + text::decimal_text(id as nat);
            let about = s.plans[id].analysis_id;
            &&& page.plan == s.plans[id]
            &&& page.version == (if s.versions.contains_key(resource) {
                s.versions[resource]
            } else {
                0
            })
            &&& s.analyses.contains_key(about) ==> page.buckets == Some(
                s.analyses[about].buckets,
            ) && page.config == Some(s.analyses[about].config)
            &&& !s.analyses.contains_key(about) ==> page.buckets is None && page.config is None
        }),
{
}

} // verus!
