//! What a plan starts as, told by the request for it and the records of its data set.

use vstd::prelude::*;

use crate::conflicts;
use crate::consistency;
use crate::engine;
use crate::engine::{
    AnalysisModel, InputModel, NormalizationForm, RecordModel, RuleConfigModel, ScriptPolicy,
    UnicodeTable,
};
use crate::guarantees;
use crate::icu_tables;
use crate::import;
use crate::ledger;
use crate::ledger::{
    GroupDecisionModel, PlanChangeModel, PlanModel, PlanStatus, ResponseModel, StateModel,
    StoredMappingModel,
};
use crate::mappings;
use crate::order;
use crate::outcomes;
use crate::payloads;
use crate::readings;
use crate::requests::CreatePlanModel;
use crate::service;
use crate::shapes;
use crate::text;

verus! {

/// The record is eligible and has the value.
pub open spec fn valued(record: RecordModel, value: Seq<char>) -> bool {
    record.eligible && record.canonical == value
}

proof fn lemma_ids_with(records: Seq<RecordModel>, value: Seq<char>)
    ensures
        engine::ids_with(records, value) == records.filter(
            |r: RecordModel| valued(r, value),
        ).map_values(|r: RecordModel| r.record_id),
    decreases records.len(),
{
    reveal(Seq::filter);
    let keep = |r: RecordModel| valued(r, value);
    let id = |r: RecordModel| r.record_id;
    if records.len() == 0 {
        assert(records.filter(keep).map_values(id) =~= seq![]);
    } else {
        let front = records.drop_last();
        lemma_ids_with(front, value);
        assert(front.filter(keep).push(records.last()).map_values(id) =~= front.filter(
            keep,
        ).map_values(id).push(records.last().record_id));
    }
}

/// A bucket lists the ids of the eligible records with its value, in the order of the records, and
/// shows its value character by character.
pub proof fn buckets_list_their_records(cfg: RuleConfigModel, inputs: Seq<InputModel>, b: int)
    requires
        0 <= b < engine::analysis_of(cfg, inputs).buckets.len(),
    ensures
        ({
            let analysis = engine::analysis_of(cfg, inputs);
            let bucket = analysis.buckets[b];
            &&& bucket.record_ids == analysis.records.filter(
                |r: RecordModel| valued(r, bucket.canonical),
            ).map_values(|r: RecordModel| r.record_id)
            &&& bucket.canonical_hex.len() == bucket.canonical.len()
            &&& forall|k: int|
                0 <= k < bucket.canonical.len() ==> #[trigger] bucket.canonical_hex[k]
                    == text::u_plus_text(bucket.canonical[k] as u32 as nat)
        }),
{
    let analysis = engine::analysis_of(cfg, inputs);
    lemma_ids_with(analysis.records, analysis.buckets[b].canonical);
}

/// Records in ascending order of their ids.
pub open spec fn ascending(records: Seq<RecordModel>) -> bool {
    forall|i: int, j: int|
        0 <= i < j < records.len() ==> order::text_less(
            (#[trigger] records[i]).record_id,
            (#[trigger] records[j]).record_id,
        )
}

/// Some eligible record with the value has the id.
pub open spec fn has_value(records: Seq<RecordModel>, id: Seq<char>, value: Seq<char>) -> bool {
    exists|i: int| 0 <= i < records.len() && valued(#[trigger] records[i], value) && records[i].record_id == id
}

proof fn lemma_ids_contained(records: Seq<RecordModel>, value: Seq<char>)
    requires
        ascending(records),
    ensures
        forall|id: Seq<char>| #[trigger]
            engine::ids_with(records, value).contains(id) <==> has_value(records, id, value),
        forall|a: int, b: int|
            0 <= a < b < engine::ids_with(records, value).len() ==> order::text_less(
                #[trigger] engine::ids_with(records, value)[a],
                #[trigger] engine::ids_with(records, value)[b],
            ),
    decreases records.len(),
{
    let ids = engine::ids_with(records, value);
    if records.len() > 0 {
        let front = records.drop_last();
        let last = records.len() - 1;
        let before = engine::ids_with(front, value);
        assert forall|i: int, j: int| 0 <= i < j < front.len() implies order::text_less(
            (#[trigger] front[i]).record_id,
            (#[trigger] front[j]).record_id,
        ) by {
            assert(order::text_less(records[i].record_id, records[j].record_id));
        }
        lemma_ids_contained(front, value);
        assert forall|id: Seq<char>| has_value(records, id, value) <==> has_value(front, id, value)
            || (valued(records.last(), value) && records.last().record_id == id) by {
            if has_value(front, id, value) {
                let i = choose|i: int|
                    0 <= i < front.len() && valued(#[trigger] front[i], value)
                        && front[i].record_id == id;
                assert(valued(records[i], value));
            }
            if valued(records.last(), value) && records.last().record_id == id {
                assert(valued(records[last], value));
            }
            if has_value(records, id, value) {
                let i = choose|i: int|
                    0 <= i < records.len() && valued(#[trigger] records[i], value)
                        && records[i].record_id == id;
                if i < last {
                    assert(valued(front[i], value));
                }
            }
        }
        assert forall|id: Seq<char>| #[trigger] ids.contains(id) <==> has_value(records, id, value) by {
            if before.contains(id) {
                let a = choose|a: int| 0 <= a < before.len() && before[a] == id;
                assert(ids[a] == id);
            }
            if valued(records.last(), value) {
                assert(ids[ids.len() - 1] == records.last().record_id);
            }
            if ids.contains(id) {
                let a = choose|a: int| 0 <= a < ids.len() && ids[a] == id;
                if a < before.len() {
                    assert(before[a] == id);
                }
            }
        }
        assert forall|a: int, b: int| 0 <= a < b < ids.len() implies order::text_less(
            #[trigger] ids[a],
            #[trigger] ids[b],
        ) by {
            assert(ids[a] == before[a]);
            if b < before.len() {
                assert(ids[b] == before[b]);
            } else {
                assert(before.contains(before[a]));
                assert(has_value(front, before[a], value));
                let i = choose|i: int|
                    0 <= i < front.len() && valued(#[trigger] front[i], value)
                        && front[i].record_id == before[a];
                assert(order::text_less(records[i].record_id, records[last].record_id));
            }
        }
    }
}

/// The conflicts among records: a value with two eligible records is a bucket, and no other; a bucket
/// lists exactly the ids of the eligible records with its value, in ascending order.
pub open spec fn conflicting(groups: Map<Seq<char>, Seq<Seq<char>>>, records: Seq<RecordModel>) -> bool {
    &&& forall|value: Seq<char>| #[trigger]
        groups.contains_key(value) <==> exists|a: Seq<char>, b: Seq<char>|
            a != b && #[trigger] has_value(records, a, value) && #[trigger] has_value(
                records,
                b,
                value,
            )
    &&& forall|value: Seq<char>, id: Seq<char>| #[trigger]
        groups.contains_key(value) ==> (#[trigger] groups[value].contains(id) <==> has_value(
            records,
            id,
            value,
        ))
    &&& forall|value: Seq<char>, a: int, b: int| #[trigger]
        groups.contains_key(value) && 0 <= a < b < groups[value].len() ==> order::text_less(
            #[trigger] groups[value][a],
            #[trigger] groups[value][b],
        )
}

proof fn lemma_group_ids(records: Seq<RecordModel>, value: Seq<char>)
    requires
        service::conflict_groups(engine::buckets_of(records)).contains_key(value),
    ensures
        service::conflict_groups(engine::buckets_of(records))[value] == engine::ids_with(
            records,
            value,
        ),
        engine::ids_with(records, value).len() > 1,
{
    let buckets = engine::buckets_of(records);
    conflicts::lemma_groups_are_conflicts(records);
    let b = choose|b: int|
        0 <= b < buckets.len() && (#[trigger] buckets[b]).canonical == value
            && buckets[b].record_ids.len() > 1;
    assert(buckets[b].record_ids == engine::ids_with(records, value));
}

proof fn lemma_conflicting(records: Seq<RecordModel>)
    requires
        ascending(records),
    ensures
        conflicting(service::conflict_groups(engine::buckets_of(records)), records),
{
    let buckets = engine::buckets_of(records);
    let groups = service::conflict_groups(buckets);
    assert forall|value: Seq<char>| #[trigger] groups.contains_key(value) <==> exists|
        a: Seq<char>,
        b: Seq<char>,
    |
        a != b && #[trigger] has_value(records, a, value) && #[trigger] has_value(
            records,
            b,
            value,
        ) by {
        let ids = engine::ids_with(records, value);
        lemma_ids_contained(records, value);
        if groups.contains_key(value) {
            lemma_group_ids(records, value);
            assert(order::text_less(ids[0], ids[1]));
            order::lemma_text_less_irreflexive(ids[0]);
            assert(ids.contains(ids[0]) && ids.contains(ids[1]));
            assert(has_value(records, ids[0], value) && has_value(records, ids[1], value));
        }
        if exists|a: Seq<char>, b: Seq<char>|
            a != b && #[trigger] has_value(records, a, value) && #[trigger] has_value(
                records,
                b,
                value,
            ) {
            let (a, b) = choose|a: Seq<char>, b: Seq<char>|
                a != b && #[trigger] has_value(records, a, value) && #[trigger] has_value(
                    records,
                    b,
                    value,
                );
            assert(ids.contains(a) && ids.contains(b));
            let i = choose|i: int| 0 <= i < ids.len() && ids[i] == a;
            let j = choose|j: int| 0 <= j < ids.len() && ids[j] == b;
            assert(i != j);
            let k = choose|k: int|
                0 <= k < records.len() && valued(#[trigger] records[k], value)
                    && records[k].record_id == a;
            engine::buckets_divide_eligible_records(records);
            let c = choose|c: int|
                0 <= c < buckets.len() && (#[trigger] buckets[c]).canonical == records[k].canonical
                    && buckets[c].record_ids.contains(records[k].record_id);
            assert(buckets[c].record_ids == ids);
            conflicts::lemma_groups_are_conflicts(records);
            assert(groups.contains_key(buckets[c].canonical));
        }
    }
    assert forall|value: Seq<char>, id: Seq<char>| #[trigger]
        groups.contains_key(value) implies (#[trigger] groups[value].contains(id) <==> has_value(
        records,
        id,
        value,
    )) by {
        lemma_ids_contained(records, value);
        lemma_group_ids(records, value);
    }
    assert forall|value: Seq<char>, a: int, b: int| #[trigger]
        groups.contains_key(value) && 0 <= a < b < groups[value].len() implies order::text_less(
        #[trigger] groups[value][a],
        #[trigger] groups[value][b],
    ) by {
        lemma_ids_contained(records, value);
        lemma_group_ids(records, value);
    }
}

/// The rules that a plan starts from: those that were given, or rules that change nothing but the form.
pub open spec fn starts_from(request: CreatePlanModel, rules: RuleConfigModel) -> bool {
    match request.from_rules {
        Some(given) => rules == given,
        None => {
            &&& rules.unicode_table is None
            &&& rules.normalization is None
            &&& !rules.case_fold
            &&& !rules.strip_default_ignorable
            &&& rules.script_policy == ScriptPolicy::Off
            &&& rules.allowed_scripts == Set::<Seq<char>>::empty()
        },
    }
}

/// The rules that a plan leads to: those that were given, with what they leave open filled in.
pub open spec fn leads_to(request: CreatePlanModel, rules: RuleConfigModel) -> bool {
    &&& rules.unicode_table == Some(
        match request.rules.unicode_table {
            Some(table) => table,
            None => UnicodeTable::U16_0,
        },
    )
    &&& rules.normalization == Some(
        match request.rules.normalization {
            Some(form) => form,
            None => NormalizationForm::Nfc,
        },
    )
    &&& rules.case_fold == request.rules.case_fold
    &&& rules.strip_default_ignorable == request.rules.strip_default_ignorable
    &&& rules.script_policy == request.rules.script_policy
    &&& rules.allowed_scripts == request.rules.allowed_scripts
}

/// A plan as it starts: an undecided draft of the first version for the current version of its data
/// set, with the conflicts among the records under the rules that it leads to.
pub open spec fn drafted(
    s: StateModel,
    plan: PlanModel,
    request: CreatePlanModel,
    source: AnalysisModel,
    target: AnalysisModel,
) -> bool {
    let dataset = s.datasets[request.dataset_id];
    &&& s.datasets.contains_key(request.dataset_id)
    &&& dataset.version == request.expected_dataset_version
    &&& plan.dataset_id == request.dataset_id
    &&& plan.dataset_version == dataset.version
    &&& starts_from(request, plan.from_rules)
    &&& leads_to(request, plan.rules)
    &&& plan.status == PlanStatus::Draft
    &&& plan.version == 1
    &&& plan.decisions == Map::<Seq<char>, GroupDecisionModel>::empty()
    &&& plan.baseline_mappings == Seq::<StoredMappingModel>::empty()
    &&& outcomes::analyzes(source, plan.from_rules, dataset, dataset.version)
    &&& outcomes::analyzes(target, plan.rules, dataset, dataset.version)
    &&& conflicting(plan.groups, target.records)
    &&& readings::read(plan.from_snapshot_json) == Some(payloads::snapshot(source.rules))
    &&& readings::read(plan.rule_snapshot_json) == Some(payloads::snapshot(target.rules))
}

/// The plan is stored under an id that was free and that stands for its data set and its rules, and its
/// start is told of; nothing else changed but the receipts.
pub open spec fn filed(s: StateModel, t: StateModel, plan: PlanModel, written: Seq<char>) -> bool {
    &&& !s.plans.contains_key(plan.id)
    &&& t.plans == s.plans.insert(plan.id, plan)
    &&& t.plan_changes == s.plan_changes.insert(plan.id, t.plan_changes[plan.id])
    &&& t.plan_changes[plan.id].len() > 0
    &&& t.plan_changes[plan.id].last() == (PlanChangeModel {
        version: plan.version,
        status: plan.status,
        decisions: plan.decisions,
    })
    &&& t.plan_changes[plan.id].drop_last() == ledger::changes_of(s, plan.id)
    &&& t.datasets == s.datasets
    &&& t.migrations == s.migrations
    &&& plan.id == ledger::stable_id_text("plan"@, seq![written])
    &&& readings::read(written) == Some(
        payloads::shape(plan.dataset_id, plan.dataset_version, plan.from_rules, plan.rules),
    )
}

proof fn lemma_current(s: StateModel, id: Seq<char>, rules: RuleConfigModel)
    requires
        consistency::consistent(s),
        s.datasets.contains_key(id),
        import::dataset_analysis(s.datasets[id], rules) is Ok,
    ensures
        outcomes::analyzes(
            import::dataset_analysis(s.datasets[id], rules)->Ok_0,
            rules,
            s.datasets[id],
            s.datasets[id].version,
        ),
{
    let dataset = s.datasets[id];
    assert(consistency::sound_dataset(id, dataset));
    let then = mappings::dataset_at(dataset, dataset.version);
    assert(then.records =~= dataset.records) by {
        assert forall|r: Seq<char>| #[trigger] dataset.records.contains_key(r) implies then.records.contains_key(
            r,
        ) by {}
    }
    assert(import::records_in_order(then) == import::records_in_order(dataset));
    outcomes::lemma_analyzes(id, dataset, dataset.version, rules);
}

/// A plan that is stored starts as it was asked for. The answer shows the plan, with what it comes to
/// where the request has no key.
pub proof fn plans_start_as_asked_for(
    s: StateModel,
    request: CreatePlanModel,
    key: Option<Seq<char>>,
)
    requires
        consistency::consistent(s),
        service::plan_creation(s, request, key) matches Ok(step) && step is Commit,
    ensures
        ({
            let step = service::plan_creation(s, request, key)->Ok_0;
            let t = ledger::applied(s, step->Commit_event);
            exists|
                plan: PlanModel,
                written: Seq<char>,
                source: AnalysisModel,
                target: AnalysisModel,
            |
                #![trigger drafted(s, plan, request, source, target), filed(s, t, plan, written)]
                drafted(s, plan, request, source, target) && filed(s, t, plan, written) && (
                match step->Commit_response {
                    ResponseModel::Plan { plan: shown } => key is Some && shown == plan,
                    ResponseModel::PlanView { plan: shown, details } => {
                        &&& key is None
                        &&& shown == plan
                        &&& match mappings::plan_outcome(s, plan) {
                            Ok(outcome) => details == Some(outcome),
                            Err(_) => details is None,
                        }
                    },
                    _ => false,
                })
        }),
{
    let step = service::plan_creation(s, request, key)->Ok_0;
    let t = ledger::applied(s, step->Commit_event);
    let plan = step->Commit_event.change->PlanCreated_plan;
    let dataset = s.datasets[request.dataset_id];
    let from_rules = service::starting_rules(request);
    let rules = request.rules.resolved();
    let source = import::dataset_analysis(dataset, from_rules)->Ok_0;
    let target = import::dataset_analysis(dataset, rules)->Ok_0;
    let written = shapes::plan_shape(dataset.id, dataset.version, from_rules, rules);
    assert(consistency::sound_dataset(request.dataset_id, dataset));
    lemma_current(s, request.dataset_id, from_rules);
    lemma_current(s, request.dataset_id, rules);
    assert(ascending(target.records));
    lemma_conflicting(target.records);
    payloads::lemma_shape(dataset.id, dataset.version, from_rules, rules);
    readings::lemma_read(written, payloads::shape(dataset.id, dataset.version, from_rules, rules));
    payloads::lemma_snapshot(source.rules);
    payloads::lemma_snapshot(target.rules);
    readings::lemma_read(plan.from_snapshot_json, payloads::snapshot(source.rules));
    readings::lemma_read(plan.rule_snapshot_json, payloads::snapshot(target.rules));
    assert(t.plan_changes[plan.id].drop_last() =~= ledger::changes_of(s, plan.id));
    assert(drafted(s, plan, request, source, target));
    assert(filed(s, t, plan, written));
}

/// The rules list a script that their tables do not know.
pub open spec fn lists_unknown(rules: RuleConfigModel) -> bool {
    exists|name: Seq<char>| #[trigger]
        rules.allowed_scripts.contains(name) && if rules.unicode_table == Some(
            UnicodeTable::U15_1,
        ) {
            icu_tables::older_script_named(name) is None
        } else {
            icu_tables::newer_script_named(name) is None
        }
}

/// Rules that list an unknown script are those that are refused.
pub proof fn lemma_lists_unknown(rules: RuleConfigModel)
    requires
        rules.allowed_scripts.finite(),
    ensures
        lists_unknown(rules) <==> engine::unknown_script(rules) is Some,
{
    engine::only_unknown_scripts_are_refused(rules);
    if lists_unknown(rules) {
        let name = choose|name: Seq<char>| #[trigger]
            rules.allowed_scripts.contains(name) && if rules.unicode_table == Some(
                UnicodeTable::U15_1,
            ) {
                icu_tables::older_script_named(name) is None
            } else {
                icu_tables::newer_script_named(name) is None
            };
        assert(!engine::script_known(rules.table(), name));
    }
}

/// A plan is refused exactly if its data set is not there, is of another version than the request is
/// based on, or one of the rules lists a script that its tables do not know; or its key stands for
/// another request.
pub proof fn plans_are_refused_for_a_reason(
    s: StateModel,
    request: CreatePlanModel,
    key: Option<Seq<char>>,
)
    requires
        consistency::consistent(s),
        request.rules.allowed_scripts.finite(),
        request.from_rules matches Some(rules) ==> rules.allowed_scripts.finite(),
    ensures
        ({
            let outcome = service::plan_creation(s, request, key);
            if !s.datasets.contains_key(request.dataset_id) {
                outcome is Err && outcome->Err_0.status == 404
            } else if s.datasets[request.dataset_id].version != request.expected_dataset_version {
                outcome is Err && outcome->Err_0.status == 409
            } else if lists_unknown(request.rules) || lists_unknown(
                service::starting_rules(request),
            ) {
                outcome is Err && outcome->Err_0.status == 400
            } else {
                (key matches Some(k) ==> !s.commands.contains_key(k)) ==> outcome is Ok
            }
        }),
{
    lemma_lists_unknown(request.rules);
    lemma_lists_unknown(service::starting_rules(request));
    if s.datasets.contains_key(request.dataset_id) && !lists_unknown(request.rules)
        && !lists_unknown(service::starting_rules(request)) {
        engine::resolving_changes_nothing(request.rules, seq![]);
        guarantees::stored_data_sets_can_be_analyzed(
            s,
            request.dataset_id,
            request.rules.resolved(),
        );
        guarantees::stored_data_sets_can_be_analyzed(
            s,
            request.dataset_id,
            service::starting_rules(request),
        );
    }
}

/// A data set is analyzed as it stands: every record of it, under the rules that were given.
pub proof fn data_sets_are_analyzed_as_they_stand(s: StateModel, id: Seq<char>, rules: RuleConfigModel)
    requires
        consistency::consistent(s),
        rules.allowed_scripts.finite(),
    ensures
        ({
            let outcome = service::analysis_outcome(s, id, rules);
            if !s.datasets.contains_key(id) {
                outcome is Err && outcome->Err_0.status == 404
            } else if lists_unknown(rules) {
                outcome is Err && outcome->Err_0.status == 400
            } else {
                outcome is Ok && outcomes::analyzes(
                    outcome->Ok_0,
                    rules,
                    s.datasets[id],
                    s.datasets[id].version,
                )
            }
        }),
{
    lemma_lists_unknown(rules);
    if s.datasets.contains_key(id) && !lists_unknown(rules) {
        guarantees::stored_data_sets_can_be_analyzed(s, id, rules);
        lemma_current(s, id, rules);
    }
}

/// All plans are listed, each once, in ascending order of their ids.
pub proof fn every_plan_is_listed(s: StateModel)
    requires
        consistency::consistent(s),
        s.plans.dom().finite(),
    ensures
        ({
            let all = service::plans_in_order(s);
            &&& forall|id: Seq<char>| #[trigger]
                s.plans.contains_key(id) ==> exists|i: int|
                    0 <= i < all.len() && #[trigger] all[i] == s.plans[id]
            &&& forall|i: int|
                0 <= i < all.len() ==> s.plans.contains_key((#[trigger] all[i]).id)
                    && s.plans[all[i].id] == all[i]
            &&& forall|i: int, j: int|
                0 <= i < j < all.len() ==> order::text_less(
                    (#[trigger] all[i]).id,
                    (#[trigger] all[j]).id,
                )
        }),
{
    let ids = order::in_order(s.plans.dom());
    let all = service::plans_in_order(s);
    order::lemma_finite_listed(s.plans.dom());
    assert forall|i: int| 0 <= i < all.len() implies s.plans.contains_key((#[trigger] all[i]).id)
        && s.plans[all[i].id] == all[i] && all[i].id == ids[i] by {
        assert(ids.contains(ids[i]));
        assert(s.plans.dom().contains(ids[i]));
        assert(s.plans.contains_key(ids[i]));
        assert(consistency::sound_plan(s, ids[i], s.plans[ids[i]]));
    }
    assert forall|id: Seq<char>| #[trigger] s.plans.contains_key(id) implies exists|i: int|
        0 <= i < all.len() && #[trigger] all[i] == s.plans[id] by {
        assert(s.plans.dom().contains(id));
        assert(ids.contains(id));
        let i = choose|i: int| 0 <= i < ids.len() && ids[i] == id;
        assert(all[i] == s.plans[id]);
    }
}

} // verus!
