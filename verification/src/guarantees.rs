//! What holds of the workbench as a whole, over any number of requests.

use vstd::prelude::*;

use crate::conflicts;
use crate::consistency;
use crate::engine;
use crate::engine::{AnalysisModel, BucketModel, RuleConfigModel};
use crate::import;
use crate::ledger;
use crate::ledger::{
    GroupDecisionModel, PlanChangeModel, PlanDetailsModel, PlanModel, PlanStatus, ResponseModel,
    StateModel, StoredMappingModel,
};
use crate::mappings;
use crate::order;
use crate::requests;
use crate::requests::{
    AppendRecordsReqModel, ApplyPlanReqModel, CreateDatasetModel, CreatePlanModel,
    ErrorDetailsModel, ServiceErrorModel, StepModel, UpdatePlanReqModel,
};
use crate::service;
use crate::shapes;

verus! {

/// There is nothing to store.
pub open spec fn stores_nothing(outcome: Result<StepModel, ServiceErrorModel>) -> bool {
    outcome matches Ok(step) ==> step is Reply
}

/// Where there is something to store, the receipts that are there stay as they are. A key was not
/// used before, and its receipt holds the answer that is given.
pub open spec fn keeps_receipts(
    s: StateModel,
    key: Option<Seq<char>>,
    outcome: Result<StepModel, ServiceErrorModel>,
) -> bool {
    outcome matches Ok(step) && step is Commit ==> {
        let after = ledger::applied(s, outcome->Ok_0->Commit_event);
        match key {
            Some(key) => {
                &&& !s.commands.contains_key(key)
                &&& after.commands == s.commands.insert(key, after.commands[key])
                &&& after.commands[key].response == outcome->Ok_0->Commit_response
            },
            None => after.commands == s.commands,
        }
    }
}

/// A key stands for one change: whatever is asked for with a key that was used before, there is
/// nothing to store.
pub proof fn used_keys_store_nothing(
    s: StateModel,
    dataset: Seq<char>,
    plan: Seq<char>,
    creation: CreateDatasetModel,
    append: AppendRecordsReqModel,
    planning: CreatePlanModel,
    update: UpdatePlanReqModel,
    apply: ApplyPlanReqModel,
    key: Seq<char>,
)
    requires
        s.commands.contains_key(key),
    ensures
        stores_nothing(service::dataset_creation(s, creation, Some(key))),
        stores_nothing(service::records_addition(s, dataset, append, Some(key))),
        stores_nothing(service::plan_creation(s, planning, Some(key))),
        stores_nothing(service::plan_change(s, plan, update, Some(key))),
        stores_nothing(service::plan_application(s, plan, apply, Some(key))),
{
}

/// Whatever is asked for, a change with a key leaves a receipt with the answer that is given, and no
/// change removes or replaces the receipt of another.
pub proof fn every_decision_keeps_receipts(
    s: StateModel,
    dataset: Seq<char>,
    plan: Seq<char>,
    creation: CreateDatasetModel,
    append: AppendRecordsReqModel,
    planning: CreatePlanModel,
    update: UpdatePlanReqModel,
    apply: ApplyPlanReqModel,
    key: Option<Seq<char>>,
)
    ensures
        keeps_receipts(s, key, service::dataset_creation(s, creation, key)),
        keeps_receipts(s, key, service::records_addition(s, dataset, append, key)),
        keeps_receipts(s, key, service::plan_creation(s, planning, key)),
        keeps_receipts(s, key, service::plan_change(s, plan, update, key)),
        keeps_receipts(s, key, service::plan_application(s, plan, apply, key)),
{
}

/// An import that is repeated with its key is answered as it was the first time, whatever happened
/// since: `now` is any state that still has the receipt.
pub proof fn repeated_keys_get_the_first_answer(
    s: StateModel,
    request: CreateDatasetModel,
    key: Seq<char>,
    now: StateModel,
)
    requires
        service::dataset_creation(s, request, Some(key)) matches Ok(step) && step is Commit,
        now.commands.contains_key(key),
        now.commands[key] == ledger::applied(
            s,
            service::dataset_creation(s, request, Some(key))->Ok_0->Commit_event,
        ).commands[key],
    ensures
        service::dataset_creation(now, request, Some(key)) == Ok::<StepModel, ServiceErrorModel>(
            StepModel::Reply {
                response: service::dataset_creation(
                    s,
                    request,
                    Some(key),
                )->Ok_0->Commit_response,
            },
        ),
{
}

/// A key that was used for another request does not lead to a new data set: the request is refused,
/// unless its data set is there already.
pub proof fn reused_keys_are_refused(s: StateModel, request: CreateDatasetModel, key: Seq<char>)
    requires
        s.commands.contains_key(key),
        import::stored_all(request.records, 1) is Ok,
        ({
            let records = import::stored_all(request.records, 1)->Ok_0;
            &&& s.commands[key].request_hash != shapes::hash_text(
                shapes::dataset_payload(request.name, shapes::records_shape(records)),
            )
            &&& !s.datasets.contains_key(
                service::dataset_id(request.name, shapes::records_shape(records)),
            )
        }),
    ensures
        service::dataset_creation(s, request, Some(key)) == Err::<StepModel, ServiceErrorModel>(
            requests::conflict("Idempotency-Key was reused with a different request"@),
        ),
{
}

/// A write on top of a version that is not the current one is refused with both sides, and nothing
/// is to be stored.
pub proof fn stale_writes_are_refused(
    s: StateModel,
    dataset: Seq<char>,
    plan: Seq<char>,
    append: AppendRecordsReqModel,
    update: UpdatePlanReqModel,
    apply: ApplyPlanReqModel,
    key: Option<Seq<char>>,
)
    ensures
        s.datasets.contains_key(dataset) && s.datasets[dataset].version != append.expected_version
            ==> service::records_addition(s, dataset, append, key) == Err::<StepModel, ServiceErrorModel>(
            ServiceErrorModel {
                status: 409,
                code: "version-conflict"@,
                details: ErrorDetailsModel::DatasetConflict {
                    current_version: s.datasets[dataset].version,
                    supplied_version: append.expected_version,
                    server_records: order::in_order(s.datasets[dataset].records.dom()),
                    incoming_records: service::import_ids(append.records),
                },
            },
        ),
        s.plans.contains_key(plan) && !service::is_frozen(s.plans[plan]) && s.plans[plan].version
            != update.expected_version ==> service::plan_change(s, plan, update, key) == Err::<
            StepModel,
            ServiceErrorModel,
        >(service::plan_conflict(s, plan, update.expected_version)),
        s.plans.contains_key(plan) && s.plans[plan].version != apply.expected_version
            ==> service::plan_application(s, plan, apply, key) == Err::<StepModel, ServiceErrorModel>(
            service::plan_conflict(s, plan, apply.expected_version),
        ),
{
}

/// Adding records never changes a record that is there, and raises the version by one.
pub proof fn additions_keep_every_record(
    s: StateModel,
    dataset: Seq<char>,
    request: AppendRecordsReqModel,
    key: Option<Seq<char>>,
    id: Seq<char>,
)
    requires
        s.datasets.contains_key(dataset),
        s.datasets[dataset].version < u64::MAX,
        s.datasets[dataset].records.contains_key(id),
        service::records_addition(s, dataset, request, key) matches Ok(step) && step is Commit,
    ensures
        ({
            let step = service::records_addition(s, dataset, request, key)->Ok_0;
            let after = ledger::applied(s, step->Commit_event).datasets[dataset];
            &&& after.version == s.datasets[dataset].version + 1
            &&& after.records.contains_key(id)
            &&& after.records[id] == s.datasets[dataset].records[id]
        }),
{
    let there = s.datasets[dataset];
    let records = import::stored_all(request.records, (there.version + 1) as u64)->Ok_0;
    consistency::lemma_records_kept(there.records, records, id);
}

/// Only an approved plan of the current version is carried out; it is then applied, its migration is
/// the one that was checked, and carrying it out again changes nothing.
pub proof fn plans_are_carried_out_once(
    s: StateModel,
    id: Seq<char>,
    request: ApplyPlanReqModel,
    key: Option<Seq<char>>,
    again: Option<Seq<char>>,
)
    requires
        service::plan_application(s, id, request, key) matches Ok(step) && step is Commit,
    ensures
        s.plans.contains_key(id),
        s.plans[id].status == PlanStatus::Approved,
        s.plans[id].version == request.expected_version,
        service::migration_of(s, id, s.plans[id]) is Ok,
        ({
            let event = service::plan_application(s, id, request, key)->Ok_0->Commit_event;
            let after = ledger::applied(s, event);
            let migration = service::migration_of(s, id, s.plans[id])->Ok_0;
            &&& after.plans[id] == (PlanModel { status: PlanStatus::Applied, ..s.plans[id] })
            &&& after.migrations == s.migrations.insert(id, migration)
            &&& after.datasets == s.datasets
            &&& service::plan_application(after, id, request, again) == Ok::<StepModel, ServiceErrorModel>(
                StepModel::Reply {
                    response: ResponseModel::AlreadyApplied {
                        plan_id: id,
                        migration: Some(migration),
                    },
                },
            )
        }),
{
}

/// A plan that was approved is not decided on again: every request to change it is refused, whatever
/// version it is based on, and there is nothing to store.
pub proof fn approved_plans_are_frozen(
    s: StateModel,
    id: Seq<char>,
    request: UpdatePlanReqModel,
    key: Option<Seq<char>>,
)
    requires
        s.plans.contains_key(id),
        s.plans[id].status == PlanStatus::Approved || s.plans[id].status == PlanStatus::Applied,
    ensures
        service::plan_change(s, id, request, key) == Err::<StepModel, ServiceErrorModel>(
            ServiceErrorModel {
                status: 400,
                code: "illegal-state-transition"@,
                details: ErrorDetailsModel::IllegalTransition {
                    from: s.plans[id].status,
                    requested: match request.status {
                        Some(status) => status,
                        None => "decisions"@,
                    },
                },
            },
        ),
{
}

/// A plan is carried out with the mappings that were approved; they are not computed again.
pub proof fn approved_mappings_are_carried_out(
    s: StateModel,
    id: Seq<char>,
    request: ApplyPlanReqModel,
    key: Option<Seq<char>>,
)
    requires
        service::plan_application(s, id, request, key) matches Ok(step) && step is Commit,
        s.plans[id].baseline_mappings.len() > 0,
    ensures
        ({
            let event = service::plan_application(s, id, request, key)->Ok_0->Commit_event;
            ledger::applied(s, event).migrations[id].mappings == s.plans[id].baseline_mappings
        }),
{
    reveal(service::migration_of);
}

proof fn lemma_records_collide(
    plan: PlanModel,
    targets: Map<Seq<char>, Seq<char>>,
    registry: Map<Seq<char>, Seq<char>>,
    baseline: Seq<StoredMappingModel>,
    ids: Seq<Seq<char>>,
    k: int,
)
    requires
        service::record_collisions(plan, targets, registry, baseline, ids).len() == 0,
        0 <= k < ids.len(),
    ensures
        mappings::known(plan, baseline, ids[k]) || (!service::value_registered(
            registry,
            targets[ids[k]],
        ) && !service::value_in_baseline(baseline, targets[ids[k]])),
    decreases ids.len(),
{
    if k < ids.len() - 1 {
        lemma_records_collide(plan, targets, registry, baseline, ids.drop_last(), k);
        assert(ids.drop_last()[k] == ids[k]);
    }
}

proof fn lemma_buckets_collide(
    plan: PlanModel,
    buckets: Seq<BucketModel>,
    baseline: Seq<StoredMappingModel>,
    k: int,
)
    requires
        service::bucket_collisions(plan, buckets, baseline).len() == 0,
        0 <= k < buckets.len(),
    ensures
        !service::bucket_collides(plan, buckets[k], baseline),
    decreases buckets.len(),
{
    if k < buckets.len() - 1 {
        lemma_buckets_collide(plan, buckets.drop_last(), baseline, k);
        assert(buckets.drop_last()[k] == buckets[k]);
    }
}

/// A plan is carried out as a whole or not at all: where an approved plan meets a collision, every
/// collision is named together with what came after the plan, and there is nothing to store.
pub proof fn collisions_stop_a_plan(
    s: StateModel,
    id: Seq<char>,
    request: ApplyPlanReqModel,
    key: Option<Seq<char>>,
    details: PlanDetailsModel,
    analysis: AnalysisModel,
)
    requires
        s.plans.contains_key(id),
        s.plans[id].version == request.expected_version,
        s.plans[id].status == PlanStatus::Approved,
        mappings::plan_outcome(s, s.plans[id]) == Ok::<PlanDetailsModel, ServiceErrorModel>(
            details,
        ),
        import::dataset_analysis(s.datasets[s.plans[id].dataset_id], s.plans[id].rules) == Ok::<
            AnalysisModel,
            Seq<char>,
        >(analysis),
    ensures
        ({
            let plan = s.plans[id];
            let dataset = s.datasets[plan.dataset_id];
            let baseline = service::baseline_of(plan, details);
            let collisions = service::collisions_of(s, plan, analysis, baseline);
            collisions.len() > 0 && service::first_conflict(service::registry(s), baseline) is None
                ==> service::plan_application(s, id, request, key) == Err::<
                StepModel,
                ServiceErrorModel,
            >(
                ServiceErrorModel {
                    status: 409,
                    code: "simulation-failed"@,
                    details: ErrorDetailsModel::SimulationFailed {
                        collisions,
                        dataset_version_at_plan: plan.dataset_version,
                        current_dataset_version: dataset.version,
                        added_records: service::added_after(
                            import::records_in_order(dataset),
                            plan.dataset_version,
                        ),
                    },
                },
            )
        }),
{
    reveal(service::migration_of);
}

/// Where a plan was carried out, no eligible record that is new to it has a value that this or an
/// earlier migration leads to, and no record that is new to it shares a bucket with another record.
/// No record that was migrated before is moved to another value.
pub proof fn carried_out_plans_leave_no_collision(
    s: StateModel,
    id: Seq<char>,
    request: ApplyPlanReqModel,
    key: Option<Seq<char>>,
    record: Seq<char>,
    bucket: int,
    m: int,
)
    requires
        service::plan_application(s, id, request, key) matches Ok(step) && step is Commit,
    ensures
        ({
            let plan = s.plans[id];
            let done = service::migration_of(s, id, plan)->Ok_0.mappings;
            let analysis = import::dataset_analysis(s.datasets[plan.dataset_id], plan.rules)->Ok_0;
            let values = mappings::canonical_by_id(analysis.records);
            &&& values.contains_key(record) && !mappings::known(plan, done, record) ==> !service::value_registered(
                service::registry(s),
                values[record],
            ) && !service::value_in_baseline(done, values[record])
            &&& 0 <= bucket < analysis.buckets.len() ==> !service::bucket_collides(
                plan,
                analysis.buckets[bucket],
                done,
            )
            &&& 0 <= m < done.len() && service::registry(s).contains_key(done[m].record_id)
                ==> service::registry(s)[done[m].record_id] == done[m].new_canonical
        }),
{
    reveal(service::migration_of);
    let plan = s.plans[id];
    let done = service::migration_of(s, id, plan)->Ok_0.mappings;
    let analysis = import::dataset_analysis(s.datasets[plan.dataset_id], plan.rules)->Ok_0;
    let values = mappings::canonical_by_id(analysis.records);
    let ids = order::in_order(values.dom());
    let buckets = service::bucket_collisions(plan, analysis.buckets, done);
    let records = service::record_collisions(plan, values, service::registry(s), done, ids);
    assert((buckets + records).len() == 0);
    assert(buckets.len() == 0 && records.len() == 0);
    conflicts::lemma_values_finite(analysis.records);
    order::lemma_finite_listed(values.dom());
    if values.dom().contains(record) {
        let k = choose|k: int| 0 <= k < ids.len() && ids[k] == record;
        lemma_records_collide(plan, values, service::registry(s), done, ids, k);
    }
    if 0 <= bucket < analysis.buckets.len() {
        lemma_buckets_collide(plan, analysis.buckets, done, bucket);
    }
    if 0 <= m < done.len() {
        lemma_no_conflict(service::registry(s), done, m);
    }
}

proof fn lemma_no_conflict(
    registry: Map<Seq<char>, Seq<char>>,
    baseline: Seq<StoredMappingModel>,
    m: int,
)
    requires
        service::first_conflict(registry, baseline) is None,
        0 <= m < baseline.len(),
    ensures
        registry.contains_key(baseline[m].record_id) ==> registry[baseline[m].record_id]
            == baseline[m].new_canonical,
    decreases baseline.len(),
{
    if m < baseline.len() - 1 {
        lemma_no_conflict(registry, baseline.drop_last(), m);
        assert(baseline.drop_last()[m] == baseline[m]);
    }
}

proof fn lemma_buckets_decided(
    plan: PlanModel,
    source: Map<Seq<char>, Seq<char>>,
    target: Map<Seq<char>, Seq<char>>,
    buckets: Seq<Seq<char>>,
    k: int,
)
    requires
        mappings::all_bucket_mappings(plan, source, target, buckets) is Ok,
        0 <= k < buckets.len(),
    ensures
        plan.decisions.contains_key(buckets[k]),
    decreases buckets.len(),
{
    if k < buckets.len() - 1 {
        lemma_buckets_decided(plan, source, target, buckets.drop_last(), k);
        assert(buckets.drop_last()[k] == buckets[k]);
    }
}

/// Only a draft is approved or rejected. A plan that is approved has a decision on every conflict,
/// and its mappings close no cycle with those of earlier migrations.
pub proof fn only_decided_drafts_are_approved(
    s: StateModel,
    id: Seq<char>,
    request: UpdatePlanReqModel,
    key: Option<Seq<char>>,
    bucket: Seq<char>,
)
    requires
        request.status is Some,
        service::plan_change(s, id, request, key) matches Ok(step) && step is Commit,
        s.plans[id].groups.dom().finite(),
    ensures
        s.plans[id].status == PlanStatus::Draft,
        request.status == Some("approved"@) || request.status == Some("rejected"@),
        request.status == Some("approved"@) ==> {
            let plan = service::plan_after(s, s.plans[id], request)->Ok_0;
            &&& plan.status == PlanStatus::Approved
            &&& mappings::closed_cycle(s, plan.baseline_mappings) is None
            &&& plan.groups.contains_key(bucket) ==> plan.decisions.contains_key(bucket)
        },
{
    if request.status == Some("approved"@) {
        let plan = service::plan_after(s, s.plans[id], request)->Ok_0;
        let buckets = order::in_order(plan.groups.dom());
        let decided = PlanModel { decisions: plan.decisions, ..s.plans[id] };
        let details = mappings::plan_outcome(s, decided)->Ok_0;
        let source = mappings::canonical_by_id(details.source_analysis.records);
        let target = mappings::canonical_by_id(details.target_analysis.records);
        assert(mappings::completed(decided, source, target) is Ok);
        assert(mappings::requested(decided, source, target) is Ok);
        order::lemma_finite_listed(plan.groups.dom());
        if plan.groups.dom().contains(bucket) {
            let k = choose|k: int| 0 <= k < buckets.len() && buckets[k] == bucket;
            lemma_buckets_decided(decided, source, target, buckets, k);
        }
    }
}

/// An import with a key that is repeated with the key, or with one that was not used before, changes
/// nothing and is answered as before.
pub proof fn repeated_imports_change_nothing(
    s: StateModel,
    request: CreateDatasetModel,
    key: Seq<char>,
    again: Seq<char>,
)
    requires
        service::dataset_creation(s, request, Some(key)) matches Ok(step) && step is Commit,
        !s.commands.contains_key(again),
    ensures
        ({
            let step = service::dataset_creation(s, request, Some(key))->Ok_0;
            let after = ledger::applied(s, step->Commit_event);
            service::dataset_creation(after, request, Some(again)) == Ok::<
                StepModel,
                ServiceErrorModel,
            >(StepModel::Reply { response: step->Commit_response })
        }),
{
    let records = import::stored_all(request.records, 1)->Ok_0;
    let shape = shapes::records_shape(records);
    let hash = shapes::hash_text(shapes::dataset_payload(request.name, shape));
    let id = service::dataset_id(request.name, shape);
    let dataset = service::new_dataset(id, request.name, records);
    let step = service::dataset_creation(s, request, Some(key))->Ok_0;
    let after = ledger::applied(s, step->Commit_event);
    assert(step->Commit_response == service::dataset_summary(dataset));
    assert(after.datasets.contains_key(id));
    assert(after.datasets[id] == dataset);
    assert(service::answered(after, Some(again), hash) matches Some(response) ==> response
        == service::dataset_summary(dataset));
}

/// An import without a key always makes a new data set: its id is not that of another, and every
/// data set that is there stays as it is.
pub proof fn imports_without_a_key_are_new(s: StateModel, request: CreateDatasetModel)
    requires
        s.datasets.dom().finite(),
        import::stored_all(request.records, 1) is Ok,
    ensures
        ({
            let records = import::stored_all(request.records, 1)->Ok_0;
            let id = service::free_id(
                s.datasets.dom(),
                service::dataset_id(request.name, shapes::records_shape(records)),
            );
            let dataset = service::new_dataset(id, request.name, records);
            let outcome = service::dataset_creation(s, request, None);
            &&& outcome is Ok && outcome->Ok_0 is Commit
            &&& !s.datasets.contains_key(id)
            &&& outcome->Ok_0->Commit_response == service::dataset_summary(dataset)
            &&& ledger::applied(s, outcome->Ok_0->Commit_event) == (StateModel {
                datasets: s.datasets.insert(id, dataset),
                ..s
            })
        }),
{
    let records = import::stored_all(request.records, 1)->Ok_0;
    service::free_ids_are_free(
        s.datasets.dom(),
        service::dataset_id(request.name, shapes::records_shape(records)),
    );
}

/// A plan that is asked for again is the same plan; nothing is stored twice.
pub proof fn repeated_plans_change_nothing(
    s: StateModel,
    request: CreatePlanModel,
    key: Option<Seq<char>>,
    again: Option<Seq<char>>,
)
    requires
        service::plan_creation(s, request, key) matches Ok(step) && step is Commit,
    ensures
        ({
            let event = service::plan_creation(s, request, key)->Ok_0->Commit_event;
            let after = ledger::applied(s, event);
            let plan = event.change->PlanCreated_plan;
            &&& event.change is PlanCreated
            &&& service::plan_creation(after, request, again) == Ok::<StepModel, ServiceErrorModel>(
                StepModel::Reply { response: service::plan_shown(after, plan) },
            )
        }),
{
}

/// What a plan comes to is not moved by records that are added later.
pub proof fn plans_stay_with_their_records(
    s: StateModel,
    dataset: Seq<char>,
    request: AppendRecordsReqModel,
    key: Option<Seq<char>>,
    plan: PlanModel,
)
    requires
        service::records_addition(s, dataset, request, key) matches Ok(step) && step is Commit,
        s.datasets[dataset].version < u64::MAX,
        plan.dataset_version <= s.datasets[dataset].version,
    ensures
        ({
            let step = service::records_addition(s, dataset, request, key)->Ok_0;
            let after = ledger::applied(s, step->Commit_event);
            mappings::plan_outcome(after, plan) == mappings::plan_outcome(s, plan)
        }),
{
    consistency::lemma_same_records_then(s, dataset, request, key, plan.dataset_version);
}

/// What is exported of a plan is fixed by the plan and by the records that its data set had when the
/// plan was made up: two states that agree on these export the same text.
pub proof fn exports_are_fixed_by_plan_and_records(s: StateModel, t: StateModel, id: Seq<char>)
    requires
        s.plans.contains_key(id),
        t.plans.contains_key(id),
        s.plans[id] == t.plans[id],
        s.datasets.contains_key(s.plans[id].dataset_id),
        t.datasets.contains_key(s.plans[id].dataset_id),
        ({
            let plan = s.plans[id];
            let old = mappings::dataset_at(s.datasets[plan.dataset_id], plan.dataset_version);
            let new = mappings::dataset_at(t.datasets[plan.dataset_id], plan.dataset_version);
            old.records == new.records
        }),
    ensures
        service::export_outcome(s, id) == service::export_outcome(t, id),
{
    let plan = s.plans[id];
    let old = mappings::dataset_at(s.datasets[plan.dataset_id], plan.dataset_version);
    let new = mappings::dataset_at(t.datasets[plan.dataset_id], plan.dataset_version);
    assert(import::records_in_order(old) == import::records_in_order(new));
}

/// What is exported of a plan is not moved by records that are added later.
pub proof fn exports_stay_with_their_records(
    s: StateModel,
    dataset: Seq<char>,
    request: AppendRecordsReqModel,
    key: Option<Seq<char>>,
    id: Seq<char>,
)
    requires
        service::records_addition(s, dataset, request, key) matches Ok(step) && step is Commit,
        s.datasets[dataset].version < u64::MAX,
        s.plans.contains_key(id),
        s.plans[id].dataset_version <= s.datasets[dataset].version,
    ensures
        ({
            let step = service::records_addition(s, dataset, request, key)->Ok_0;
            let after = ledger::applied(s, step->Commit_event);
            service::export_outcome(after, id) == service::export_outcome(s, id)
        }),
{
    plans_stay_with_their_records(s, dataset, request, key, s.plans[id]);
}

/// A draft is not exported.
pub proof fn drafts_are_not_exported(s: StateModel, id: Seq<char>)
    requires
        s.plans.contains_key(id),
        s.plans[id].status == PlanStatus::Draft,
    ensures
        service::export_outcome(s, id) matches Err(error) && error.status == 400,
{
}

/// Every data set that is stored can be analyzed under all rules that list no unknown script.
pub proof fn stored_data_sets_can_be_analyzed(s: StateModel, id: Seq<char>, rules: RuleConfigModel)
    requires
        consistency::consistent(s),
        s.datasets.contains_key(id),
        engine::unknown_script(rules) is None,
    ensures
        import::dataset_analysis(s.datasets[id], rules) == Ok::<AnalysisModel, Seq<char>>(
            engine::analysis_of(
                rules,
                import::record_inputs(import::records_in_order(s.datasets[id])),
            ),
        ),
{
    let dataset = s.datasets[id];
    let records = import::records_in_order(dataset);
    let ids = order::in_order(dataset.records.dom());
    assert(consistency::sound_dataset(id, dataset));
    order::lemma_finite_listed(dataset.records.dom());
    assert forall|i: int| 0 <= i < records.len() implies import::payload(
        #[trigger] records[i],
    ) is Some by {
        assert(ids.contains(ids[i]));
        assert(dataset.records.dom().contains(ids[i]));
        assert(dataset.records.contains_key(ids[i]));
    }
}

/// A plan that is asked for lists the conflicts among the records of its data set: where there is no
/// such plan and the rules list no unknown script, a draft without decisions is stored that has
/// every bucket of several records, and nothing else is changed. Asked for again, it is shown as it
/// is.
pub proof fn plans_list_every_conflict(s: StateModel, request: CreatePlanModel)
    requires
        consistency::consistent(s),
        s.datasets.contains_key(request.dataset_id),
        s.datasets[request.dataset_id].version == request.expected_dataset_version,
        engine::unknown_script(request.rules) is None,
        engine::unknown_script(service::starting_rules(request)) is None,
        !s.plans.contains_key(
            service::plan_id(
                shapes::plan_shape(
                    request.dataset_id,
                    request.expected_dataset_version,
                    service::starting_rules(request),
                    request.rules.resolved(),
                ),
            ),
        ),
    ensures
        ({
            let dataset = s.datasets[request.dataset_id];
            let analysis = import::dataset_analysis(dataset, request.rules.resolved())->Ok_0;
            let outcome = service::plan_creation(s, request, None);
            let plan = outcome->Ok_0->Commit_event.change->PlanCreated_plan;
            let after = ledger::applied(s, outcome->Ok_0->Commit_event);
            &&& outcome is Ok && outcome->Ok_0 is Commit
            &&& outcome->Ok_0->Commit_response == service::plan_shown(s, plan)
            &&& plan.dataset_id == request.dataset_id
            &&& plan.dataset_version == dataset.version
            &&& plan.status == PlanStatus::Draft
            &&& plan.version == 1
            &&& plan.decisions == Map::<Seq<char>, GroupDecisionModel>::empty()
            &&& import::dataset_analysis(dataset, request.rules.resolved()) is Ok
            &&& forall|b: int|
                0 <= b < analysis.buckets.len() && (#[trigger] analysis.buckets[b]).record_ids.len()
                    > 1 ==> plan.groups.contains_key(analysis.buckets[b].canonical)
                    && plan.groups[analysis.buckets[b].canonical] == analysis.buckets[b].record_ids
            &&& forall|value: Seq<char>| #[trigger]
                plan.groups.contains_key(value) ==> exists|b: int|
                    0 <= b < analysis.buckets.len() && (#[trigger] analysis.buckets[b]).canonical
                        == value && analysis.buckets[b].record_ids.len() > 1
            &&& after.datasets == s.datasets
            &&& after.plans == s.plans.insert(plan.id, plan)
            &&& after.migrations == s.migrations
            &&& service::plan_creation(after, request, None) == Ok::<StepModel, ServiceErrorModel>(
                StepModel::Reply { response: service::plan_shown(after, plan) },
            )
        }),
{
    let dataset = s.datasets[request.dataset_id];
    let rules = request.rules.resolved();
    assert(consistency::sound_dataset(request.dataset_id, dataset));
    engine::resolving_changes_nothing(request.rules, seq![]);
    stored_data_sets_can_be_analyzed(s, request.dataset_id, rules);
    stored_data_sets_can_be_analyzed(s, request.dataset_id, service::starting_rules(request));
    let analysis = import::dataset_analysis(dataset, rules)->Ok_0;
    conflicts::lemma_groups_are_conflicts(analysis.records);
    repeated_plans_change_nothing(s, request, None, None);
}

proof fn lemma_changes_since(changes: Seq<PlanChangeModel>, base: u64)
    requires
        forall|i: int| 0 <= i < changes.len() ==> (#[trigger] changes[i]).version == i + 1,
        base <= changes.len(),
    ensures
        service::changes_since(changes, base) == changes.skip(base as int),
    decreases changes.len(),
{
    if changes.len() > 0 {
        let front = changes.drop_last();
        let last = changes[changes.len() - 1];
        assert forall|i: int| 0 <= i < front.len() implies (#[trigger] front[i]).version == i
            + 1 by {
            assert(front[i] == changes[i]);
        }
        assert(last.version == changes.len());
        if base < changes.len() {
            lemma_changes_since(front, base);
            assert(front.skip(base as int).push(last) =~= changes.skip(base as int));
        } else {
            lemma_none_since(front, base);
            assert(changes.skip(base as int) =~= seq![]);
        }
    } else {
        assert(changes.skip(base as int) =~= seq![]);
    }
}

proof fn lemma_none_since(changes: Seq<PlanChangeModel>, base: u64)
    requires
        forall|i: int| 0 <= i < changes.len() ==> (#[trigger] changes[i]).version == i + 1,
        base >= changes.len(),
    ensures
        service::changes_since(changes, base) == Seq::<PlanChangeModel>::empty(),
    decreases changes.len(),
{
    if changes.len() > 0 {
        let front = changes.drop_last();
        assert forall|i: int| 0 <= i < front.len() implies (#[trigger] front[i]).version == i
            + 1 by {
            assert(front[i] == changes[i]);
        }
        assert(changes[changes.len() - 1].version == changes.len());
        lemma_none_since(front, base);
    }
}

/// A write on top of an earlier version of a plan that can still be changed is refused with
/// everything that was written since: one change for each later version, in order.
pub proof fn stale_plan_writes_show_what_changed(
    s: StateModel,
    id: Seq<char>,
    request: UpdatePlanReqModel,
    key: Option<Seq<char>>,
)
    requires
        consistency::consistent(s),
        s.plans.contains_key(id),
        !service::is_frozen(s.plans[id]),
        request.expected_version < s.plans[id].version,
    ensures
        ({
            let base = request.expected_version;
            let changes = ledger::changes_of(s, id).skip(base as int);
            &&& service::plan_change(s, id, request, key) == Err::<StepModel, ServiceErrorModel>(
                ServiceErrorModel {
                    status: 409,
                    code: "version-conflict"@,
                    details: ErrorDetailsModel::PlanConflict {
                        base_version: base,
                        current_version: s.plans[id].version,
                        supplied_version: base,
                        server_plan: s.plans[id],
                        changes_since_base: changes,
                    },
                },
            )
            &&& changes.len() == s.plans[id].version - base
            &&& forall|i: int|
                0 <= i < changes.len() ==> (#[trigger] changes[i]).version == base + 1 + i
        }),
{
    assert(consistency::sound_changes(s, id));
    lemma_changes_since(ledger::changes_of(s, id), request.expected_version);
}

/// Of two writes on top of the same version of a plan the second is refused, unless the first froze
/// the plan, and is told of the first.
pub proof fn the_second_writer_is_told_of_the_first(
    s: StateModel,
    id: Seq<char>,
    first: UpdatePlanReqModel,
    key: Option<Seq<char>>,
    second: UpdatePlanReqModel,
    other_key: Option<Seq<char>>,
)
    requires
        service::plan_change(s, id, first, key) matches Ok(step) && step is Commit,
        s.plans[id].id == id,
        s.plans[id].version < u64::MAX,
        second.expected_version == s.plans[id].version,
    ensures
        ({
            let base = s.plans[id].version;
            let t = ledger::applied(s, service::plan_change(s, id, first, key)->Ok_0->Commit_event);
            let changes = service::changes_since(ledger::changes_of(t, id), base);
            &&& t.plans[id].version == base + 1
            &&& changes.len() > 0
            &&& changes.last().version == base + 1
            &&& changes.last().status == t.plans[id].status
            &&& changes.last().decisions == t.plans[id].decisions
            &&& !service::is_frozen(t.plans[id]) ==> service::plan_change(t, id, second, other_key)
                == Err::<StepModel, ServiceErrorModel>(service::plan_conflict(t, id, base))
        }),
{
    let plan = service::plan_after(s, s.plans[id], first)->Ok_0;
    let t = ledger::applied(s, service::plan_change(s, id, first, key)->Ok_0->Commit_event);
    let before = ledger::changes_of(s, id);
    let after = ledger::changes_of(t, id);
    assert(plan.id == id);
    assert(after.drop_last() =~= before);
    assert(after.last().version == plan.version);
}

/// Whatever was carried out, two records that came out with one value are in one bucket of the plan,
/// whose decision keeps that value for them.
pub proof fn migrations_share_values_by_alias_alone(s: StateModel, id: Seq<char>, i: int, j: int)
    requires
        consistency::consistent(s),
        s.migrations.contains_key(id),
        0 <= i < s.migrations[id].mappings.len(),
        0 <= j < s.migrations[id].mappings.len(),
        s.migrations[id].mappings[i].new_canonical == s.migrations[id].mappings[j].new_canonical,
        s.migrations[id].mappings[i].record_id != s.migrations[id].mappings[j].record_id,
    ensures
        ({
            let done = s.migrations[id].mappings;
            let value = done[i].new_canonical;
            &&& mappings::aliased(s.plans[id], value, done[i].record_id)
            &&& mappings::aliased(s.plans[id], value, done[j].record_id)
        }),
{
    reveal(consistency::proper);
    assert(consistency::proper(s.plans[id], s.migrations[id].mappings));
}

/// Whatever was carried out, no record that the plan rejects is part of it.
pub proof fn migrations_leave_rejected_records_out(s: StateModel, id: Seq<char>, record: Seq<char>)
    requires
        consistency::consistent(s),
        s.migrations.contains_key(id),
        mappings::left_out(s.plans[id], record),
    ensures
        !mappings::handled(s.migrations[id].mappings, record),
{
    reveal(consistency::proper);
    assert(consistency::proper(s.plans[id], s.migrations[id].mappings));
}

} // verus!
