//! What holds of every state that requests lead to.

use vstd::prelude::*;
use vstd::utf8::*;

use crate::base64;
use crate::conflicts;
use crate::import;
use crate::ledger;
use crate::ledger::{
    DatasetModel, PlanModel, PlanStatus, StateModel, StoredMappingModel, StoredRecordModel,
};
use crate::mappings;
use crate::migrations;
use crate::order;
use crate::outcomes;
use crate::requests::{
    AppendRecordsReqModel, ApplyPlanReqModel, CreateDatasetModel, CreatePlanModel,
    ImportRecordModel, ServiceErrorModel, StepModel, UpdatePlanReqModel,
};
use crate::service;
use crate::shapes;

verus! {

/// Adding records whose ids are free keeps those that are there.
pub proof fn lemma_records_kept(
    records: Map<Seq<char>, StoredRecordModel>,
    added: Seq<StoredRecordModel>,
    id: Seq<char>,
)
    requires
        service::first_existing(records, added) is None,
        records.contains_key(id),
    ensures
        ledger::with_records(records, added).contains_key(id),
        ledger::with_records(records, added)[id] == records[id],
    decreases added.len(),
{
    if added.len() > 0 {
        lemma_records_kept(records, added.drop_last(), id);
    }
}

/// A record that was not there before is of the version that it was added with.
pub proof fn lemma_versions_of_added(
    records: Map<Seq<char>, StoredRecordModel>,
    added: Seq<StoredRecordModel>,
    id: Seq<char>,
    version: u64,
)
    requires
        service::first_existing(records, added) is None,
        forall|i: int| 0 <= i < added.len() ==> (#[trigger] added[i]).source_version == version,
    ensures
        ledger::with_records(records, added).contains_key(id) ==> records.contains_key(id)
            || ledger::with_records(records, added)[id].source_version == version,
    decreases added.len(),
{
    if added.len() > 0 {
        let front = added.drop_last();
        assert forall|i: int| 0 <= i < front.len() implies (#[trigger] front[i]).source_version
            == version by {
            assert(front[i] == added[i]);
        }
        lemma_versions_of_added(records, front, id, version);
        assert(added[added.len() - 1].source_version == version);
    }
}

/// An imported record is of the version that it came with, and its source can be read.
pub proof fn lemma_stored_sound(records: Seq<ImportRecordModel>, version: u64, i: int)
    requires
        import::stored_all(records, version) is Ok,
        0 <= i < import::stored_all(records, version)->Ok_0.len(),
    ensures
        import::stored_all(records, version)->Ok_0[i].source_version == version,
        import::payload(import::stored_all(records, version)->Ok_0[i]) is Some,
    decreases records.len(),
{
    reveal(import::stored);
    if records.len() > 0 {
        let front = records.drop_last();
        let done = import::stored_all(front, version)->Ok_0;
        if i < done.len() {
            lemma_stored_sound(front, version, i);
        } else if let Some(content) = records.last().text {
            base64::base64_reads_back(encode_utf8(content));
        }
    }
}

/// What a data set had at a version stays when records are added.
pub proof fn lemma_same_records_then(
    s: StateModel,
    dataset: Seq<char>,
    request: AppendRecordsReqModel,
    key: Option<Seq<char>>,
    version: u64,
)
    requires
        service::records_addition(s, dataset, request, key) matches Ok(step) && step is Commit,
        s.datasets[dataset].version < u64::MAX,
        version <= s.datasets[dataset].version,
    ensures
        ({
            let step = service::records_addition(s, dataset, request, key)->Ok_0;
            let after = ledger::applied(s, step->Commit_event);
            let old = mappings::dataset_at(s.datasets[dataset], version);
            let new = mappings::dataset_at(after.datasets[dataset], version);
            old.records == new.records && import::records_in_order(old) == import::records_in_order(
                new,
            )
        }),
{
    let step = service::records_addition(s, dataset, request, key)->Ok_0;
    let after = ledger::applied(s, step->Commit_event);
    let there = s.datasets[dataset];
    let next = (there.version + 1) as u64;
    let added = import::stored_all(request.records, next)->Ok_0;
    let old = mappings::dataset_at(there, version);
    let new = mappings::dataset_at(after.datasets[dataset], version);
    assert forall|i: int| 0 <= i < added.len() implies (#[trigger] added[i]).source_version
        == next by {
        lemma_stored_sound(request.records, next, i);
    }
    assert forall|id: Seq<char>| old.records.contains_key(id) == new.records.contains_key(id) by {
        lemma_versions_of_added(there.records, added, id, next);
        if there.records.contains_key(id) {
            lemma_records_kept(there.records, added, id);
        }
    }
    assert forall|id: Seq<char>| #[trigger] old.records.contains_key(id) implies old.records[id]
        == new.records[id] by {
        lemma_records_kept(there.records, added, id);
    }
    assert(old.records =~= new.records);
}

/// A data set is stored under its id, and every record under its own; no record is from a later
/// version than that of the data set, and the source of every record can be read.
pub open spec fn sound_dataset(id: Seq<char>, dataset: DatasetModel) -> bool {
    &&& dataset.id == id
    &&& dataset.version >= 1
    &&& dataset.records.dom().finite()
    &&& forall|r: Seq<char>| #[trigger]
        dataset.records.contains_key(r) ==> dataset.records[r].id == r && 1
            <= dataset.records[r].source_version <= dataset.version && import::payload(
            dataset.records[r],
        ) is Some
}

/// No record of a bucket that a plan rejects is among the mappings.
pub open spec fn without_rejected(plan: PlanModel, done: Seq<StoredMappingModel>) -> bool {
    forall|record: Seq<char>| #[trigger]
        mappings::left_out(plan, record) ==> !mappings::handled(done, record)
}

/// Records that come out with one value are in one bucket whose value the plan keeps.
pub open spec fn shares_by_alias(plan: PlanModel, done: Seq<StoredMappingModel>) -> bool {
    forall|i: int, j: int|
        0 <= i < done.len() && 0 <= j < done.len() && (#[trigger] done[i]).new_canonical == (
        #[trigger] done[j]).new_canonical && done[i].record_id != done[j].record_id
            ==> mappings::aliased(plan, done[i].new_canonical, done[i].record_id)
            && mappings::aliased(plan, done[i].new_canonical, done[j].record_id)
}

/// No record comes out with two values.
pub open spec fn one_value_each(done: Seq<StoredMappingModel>) -> bool {
    forall|r: Seq<char>, a: Seq<char>, b: Seq<char>| #[trigger]
        migrations::gives(done, r, a) && #[trigger] migrations::gives(done, r, b) ==> a == b
}

/// Mappings that keep to the decisions of a plan: they leave out what it rejects, bring records
/// together only where it keeps a value for them, and give no record two values.
#[verifier::opaque]
pub open spec fn proper(plan: PlanModel, done: Seq<StoredMappingModel>) -> bool {
    without_rejected(plan, done) && shares_by_alias(plan, done) && one_value_each(done)
}

/// The buckets of a plan are the conflicts among the records that its data set had when the plan was
/// made up.
#[verifier::opaque]
pub open spec fn fits_records(dataset: DatasetModel, plan: PlanModel) -> bool {
    let then = mappings::dataset_at(dataset, plan.dataset_version);
    import::dataset_analysis(then, plan.rules) matches Ok(analysis) && mappings::groups_fit(
        plan,
        mappings::canonical_by_id(analysis.records),
    )
}

/// What was written of a plan is there for each of its versions.
pub open spec fn sound_changes(s: StateModel, id: Seq<char>) -> bool {
    let changes = ledger::changes_of(s, id);
    &&& changes.len() == s.plans[id].version
    &&& forall|i: int| 0 <= i < changes.len() ==> (#[trigger] changes[i]).version == i + 1
}

/// A plan is stored under its id, for a version that its data set has reached. Its buckets are the
/// conflicts of that version, and what was approved of it keeps to its decisions.
pub open spec fn sound_plan(s: StateModel, id: Seq<char>, plan: PlanModel) -> bool {
    &&& plan.id == id
    &&& s.datasets.contains_key(plan.dataset_id)
    &&& 1 <= plan.dataset_version <= s.datasets[plan.dataset_id].version
    &&& plan.version >= 1
    &&& plan.groups.dom().finite()
    &&& fits_records(s.datasets[plan.dataset_id], plan)
    &&& plan.status == PlanStatus::Approved || plan.status == PlanStatus::Applied ==> proper(
        plan,
        plan.baseline_mappings,
    )
    &&& plan.status == PlanStatus::Applied <==> s.migrations.contains_key(id)
}

/// What is stored hangs together: data sets and plans are sound, every version of a plan is told of,
/// exactly the plans that were carried out have a migration, every migration keeps to the decisions
/// of its plan, and no migration moved a record that another had migrated.
pub open spec fn consistent(s: StateModel) -> bool {
    &&& s.datasets.dom().finite()
    &&& s.migrations.dom().finite()
    &&& migrations::agreed(s)
    &&& forall|id: Seq<char>| #[trigger]
        s.datasets.contains_key(id) ==> sound_dataset(id, s.datasets[id])
    &&& forall|id: Seq<char>| #[trigger]
        s.plans.contains_key(id) ==> sound_plan(s, id, s.plans[id]) && sound_changes(s, id)
    &&& forall|id: Seq<char>| #[trigger]
        s.plan_changes.contains_key(id) ==> s.plans.contains_key(id)
    &&& forall|id: Seq<char>| #[trigger]
        s.migrations.contains_key(id) ==> s.plans.contains_key(id) && s.migrations[id].plan_id == id
            && proper(s.plans[id], s.migrations[id].mappings)
}

/// A plan that was approved stays as it is; at most it is carried out.
pub open spec fn keeps_approved(s: StateModel, t: StateModel) -> bool {
    forall|p: Seq<char>| #[trigger]
        s.plans.contains_key(p) && (s.plans[p].status == PlanStatus::Approved || s.plans[p].status
            == PlanStatus::Applied) ==> t.plans.contains_key(p) && (t.plans[p] == s.plans[p]
            || t.plans[p] == (PlanModel { status: PlanStatus::Applied, ..s.plans[p] }))
}

/// A state before any event is consistent.
pub proof fn empty_ledgers_are_consistent(s: StateModel)
    requires
        s.datasets.dom() == Set::<Seq<char>>::empty(),
        s.plans.dom() == Set::<Seq<char>>::empty(),
        s.plan_changes.dom() == Set::<Seq<char>>::empty(),
        s.migrations.dom() == Set::<Seq<char>>::empty(),
    ensures
        consistent(s),
{
    reveal(migrations::agreed);
}

/// Every record, once it is there, is still there and unchanged.
pub open spec fn keeps_records(s: StateModel, t: StateModel) -> bool {
    forall|d: Seq<char>, r: Seq<char>|
        #![trigger s.datasets[d].records.contains_key(r)]
        s.datasets.contains_key(d) && s.datasets[d].records.contains_key(r)
            ==> t.datasets.contains_key(d) && t.datasets[d].records.contains_key(r)
            && t.datasets[d].records[r] == s.datasets[d].records[r]
}

/// No version is lower than it was.
pub open spec fn keeps_versions(s: StateModel, t: StateModel) -> bool {
    &&& forall|d: Seq<char>| #[trigger]
        s.datasets.contains_key(d) ==> t.datasets.contains_key(d) && t.datasets[d].version
            >= s.datasets[d].version
    &&& forall|p: Seq<char>| #[trigger]
        s.plans.contains_key(p) ==> t.plans.contains_key(p) && t.plans[p].version
            >= s.plans[p].version
}

/// A decision leaves the ledger consistent, changes no record that is there and no plan that was
/// approved, and lowers no version.
pub open spec fn sound_step(s: StateModel, outcome: Result<StepModel, ServiceErrorModel>) -> bool {
    outcome matches Ok(step) && step is Commit ==> {
        let t = ledger::applied(s, outcome->Ok_0->Commit_event);
        &&& consistent(t)
        &&& keeps_records(s, t)
        &&& keeps_versions(s, t)
        &&& keeps_approved(s, t)
    }
}

/// Whatever is asked for, a consistent ledger stays consistent, the sources of records and the plans
/// that were approved are never changed, and versions only grow.
pub proof fn every_decision_is_sound(
    s: StateModel,
    dataset: Seq<char>,
    plan: Seq<char>,
    creation: CreateDatasetModel,
    append: AppendRecordsReqModel,
    planning: CreatePlanModel,
    update: UpdatePlanReqModel,
    apply: ApplyPlanReqModel,
    key: Option<Seq<char>>,
)
    requires
        consistent(s),
        s.datasets.contains_key(dataset) ==> s.datasets[dataset].version < u64::MAX,
        s.plans.contains_key(plan) ==> s.plans[plan].version < u64::MAX,
    ensures
        sound_step(s, service::dataset_creation(s, creation, key)),
        sound_step(s, service::records_addition(s, dataset, append, key)),
        sound_step(s, service::plan_creation(s, planning, key)),
        sound_step(s, service::plan_change(s, plan, update, key)),
        sound_step(s, service::plan_application(s, plan, apply, key)),
{
    lemma_creation_is_sound(s, creation, key);
    lemma_addition_is_sound(s, dataset, append, key);
    lemma_planning_is_sound(s, planning, key);
    lemma_change_is_sound(s, plan, update, key);
    lemma_application_is_sound(s, plan, apply, key);
}

proof fn lemma_added_are_sound(
    records: Map<Seq<char>, StoredRecordModel>,
    added: Seq<StoredRecordModel>,
    id: Seq<char>,
    version: u64,
)
    requires
        forall|i: int|
            0 <= i < added.len() ==> (#[trigger] added[i]).source_version == version
                && import::payload(added[i]) is Some,
        records.contains_key(id) ==> records[id].id == id,
    ensures
        ({
            let all = ledger::with_records(records, added);
            all.contains_key(id) ==> all[id].id == id && ((all[id].source_version == version
                && import::payload(all[id]) is Some) || (records.contains_key(id) && all[id]
                == records[id]))
        }),
    decreases added.len(),
{
    if added.len() > 0 {
        let front = added.drop_last();
        assert forall|i: int| 0 <= i < front.len() implies (#[trigger] front[i]).source_version
            == version && import::payload(front[i]) is Some by {
            assert(front[i] == added[i]);
        }
        lemma_added_are_sound(records, front, id, version);
        assert(added[added.len() - 1].source_version == version);
    }
}

proof fn lemma_creation_is_sound(
    s: StateModel,
    request: CreateDatasetModel,
    key: Option<Seq<char>>,
)
    requires
        consistent(s),
    ensures
        sound_step(s, service::dataset_creation(s, request, key)),
{
    let outcome = service::dataset_creation(s, request, key);
    if outcome matches Ok(step) && step is Commit {
        let records = import::stored_all(request.records, 1)->Ok_0;
        let id = service::dataset_id(request.name, shapes::records_shape(records));
        let dataset = service::new_dataset(
            service::free_id(s.datasets.dom(), id),
            request.name,
            records,
        );
        service::free_ids_are_free(s.datasets.dom(), id);
        let t = ledger::applied(s, outcome->Ok_0->Commit_event);
        lemma_same_agreed(s, t);
        assert forall|i: int| 0 <= i < records.len() implies (#[trigger] records[i]).source_version
            == 1 && import::payload(records[i]) is Some by {
            lemma_stored_sound(request.records, 1, i);
        }
        assert(sound_dataset(dataset.id, dataset)) by {
            lemma_records_finite(Map::empty(), records);
            assert forall|r: Seq<char>| #[trigger]
                dataset.records.contains_key(r) implies dataset.records[r].id == r && 1
                <= dataset.records[r].source_version <= dataset.version && import::payload(
                dataset.records[r],
            ) is Some by {
                lemma_added_are_sound(Map::empty(), records, r, 1);
            }
        }
        assert forall|id: Seq<char>| #[trigger] t.plans.contains_key(id) implies sound_plan(
            t,
            id,
            t.plans[id],
        ) && sound_changes(t, id) by {
            assert(s.plans.contains_key(id));
            assert(sound_changes(s, id));
        }
    }
}

proof fn lemma_addition_is_sound(
    s: StateModel,
    id: Seq<char>,
    request: AppendRecordsReqModel,
    key: Option<Seq<char>>,
)
    requires
        consistent(s),
        s.datasets.contains_key(id) ==> s.datasets[id].version < u64::MAX,
    ensures
        sound_step(s, service::records_addition(s, id, request, key)),
{
    let outcome = service::records_addition(s, id, request, key);
    if outcome matches Ok(step) && step is Commit {
        let there = s.datasets[id];
        let next = (there.version + 1) as u64;
        let added = import::stored_all(request.records, next)->Ok_0;
        let t = ledger::applied(s, outcome->Ok_0->Commit_event);
        lemma_same_agreed(s, t);
        let now = t.datasets[id];
        assert(sound_dataset(id, there));
        assert forall|i: int| 0 <= i < added.len() implies (#[trigger] added[i]).source_version
            == next && import::payload(added[i]) is Some by {
            lemma_stored_sound(request.records, next, i);
        }
        assert(now.records == ledger::with_records(there.records, added));
        lemma_records_finite(there.records, added);
        assert forall|r: Seq<char>| #[trigger] now.records.contains_key(r) implies now.records[r].id
            == r && 1 <= now.records[r].source_version <= now.version && import::payload(
            now.records[r],
        ) is Some by {
            if there.records.contains_key(r) {
                assert(there.records[r].id == r);
            }
            lemma_added_are_sound(there.records, added, r, next);
        }
        assert forall|d: Seq<char>, r: Seq<char>|
            #![trigger s.datasets[d].records.contains_key(r)]
            s.datasets.contains_key(d) && s.datasets[d].records.contains_key(r) implies t.datasets.contains_key(
        d) && t.datasets[d].records.contains_key(r) && t.datasets[d].records[r]
            == s.datasets[d].records[r] by {
            if d == id {
                lemma_records_kept(there.records, added, r);
            }
        }
        assert forall|p: Seq<char>| #[trigger] t.plans.contains_key(p) implies sound_plan(
            t,
            p,
            t.plans[p],
        ) && sound_changes(t, p) by {
            assert(s.plans.contains_key(p));
            assert(sound_changes(s, p));
            if s.plans[p].dataset_id == id {
                reveal(fits_records);
                lemma_same_records_then(s, id, request, key, s.plans[p].dataset_version);
            }
        }
        assert forall|d: Seq<char>| #[trigger] t.datasets.contains_key(d) implies sound_dataset(
            d,
            t.datasets[d],
        ) by {
            if d != id {
                assert(s.datasets.contains_key(d));
            }
        }
    }
}

/// A plan for the current version of a data set fits its records.
proof fn lemma_fits_records(plan: PlanModel, dataset: DatasetModel, id: Seq<char>)
    requires
        sound_dataset(id, dataset),
        plan.dataset_version == dataset.version,
        import::dataset_analysis(dataset, plan.rules) is Ok,
        plan.groups == service::conflict_groups(
            import::dataset_analysis(dataset, plan.rules)->Ok_0.buckets,
        ),
    ensures
        fits_records(dataset, plan),
{
    reveal(fits_records);
    let then = mappings::dataset_at(dataset, plan.dataset_version);
    assert(then.records =~= dataset.records);
    assert(import::records_in_order(then) == import::records_in_order(dataset));
    let analysis = import::dataset_analysis(dataset, plan.rules)->Ok_0;
    let records = analysis.records;
    let ids = order::in_order(dataset.records.dom());
    order::lemma_finite_listed(dataset.records.dom());
    assert(records.len() == ids.len());
    assert forall|i: int| 0 <= i < records.len() implies (#[trigger] records[i]).record_id
        == ids[i] by {
        assert(ids.contains(ids[i]));
        assert(dataset.records.dom().contains(ids[i]));
        assert(dataset.records.contains_key(ids[i]));
    }
    assert(conflicts::distinct_ids(records)) by {
        assert forall|i: int, j: int| 0 <= i < j < records.len() implies (
        #[trigger] records[i]).record_id != (#[trigger] records[j]).record_id by {
            assert(order::text_less(ids[i], ids[j]));
            order::lemma_text_less_irreflexive(ids[i]);
        }
    }
    conflicts::lemma_groups_fit(plan, records);
}

/// What a plan that fits its records comes to keeps to its decisions.
proof fn lemma_outcome_is_proper(s: StateModel, plan: PlanModel)
    requires
        fits_records(s.datasets[plan.dataset_id], plan),
        plan.groups.dom().finite(),
        mappings::plan_outcome(s, plan) is Ok,
    ensures
        proper(plan, mappings::plan_outcome(s, plan)->Ok_0.mappings),
{
    reveal(fits_records);
    reveal(proper);
    let details = mappings::plan_outcome(s, plan)->Ok_0;
    let done = details.mappings;
    let source = mappings::canonical_by_id(details.source_analysis.records);
    let target = mappings::canonical_by_id(details.target_analysis.records);
    conflicts::lemma_values_finite(details.target_analysis.records);
    assert(mappings::disjoint_groups(plan));
    assert forall|record: Seq<char>| #[trigger]
        mappings::left_out(plan, record) implies !mappings::handled(done, record) by {
        let bucket = choose|bucket: Seq<char>| mappings::rejected_in(plan, bucket, record);
        mappings::rejected_records_are_not_mapped(plan, source, target, bucket, record);
    }
    assert forall|i: int, j: int|
        0 <= i < done.len() && 0 <= j < done.len() && (#[trigger] done[i]).new_canonical == (
        #[trigger] done[j]).new_canonical && done[i].record_id
            != done[j].record_id implies mappings::aliased(
        plan,
        done[i].new_canonical,
        done[i].record_id,
    ) && mappings::aliased(plan, done[i].new_canonical, done[j].record_id) by {
        mappings::values_are_shared_by_aliases_alone(plan, source, target, i, j);
    }
    outcomes::lemma_one_value(plan, source, target);
}

/// What migrations gave is fixed by the migrations.
proof fn lemma_same_agreed(s: StateModel, t: StateModel)
    requires
        migrations::agreed(s),
        t.migrations == s.migrations,
    ensures
        migrations::agreed(t),
{
    reveal(migrations::agreed);
    assert forall|r: Seq<char>, v: Seq<char>| #[trigger] migrations::migrated(t, r, v) implies
        migrations::migrated(s, r, v) by {
        let p = choose|p: Seq<char>| #[trigger]
            t.migrations.contains_key(p) && migrations::gives(t.migrations[p].mappings, r, v);
        assert(s.migrations.contains_key(p));
    }
}

proof fn lemma_records_finite(
    records: Map<Seq<char>, StoredRecordModel>,
    added: Seq<StoredRecordModel>,
)
    requires
        records.dom().finite(),
    ensures
        ledger::with_records(records, added).dom().finite(),
    decreases added.len(),
{
    if added.len() > 0 {
        lemma_records_finite(records, added.drop_last());
    }
}

proof fn lemma_planning_is_sound(s: StateModel, request: CreatePlanModel, key: Option<Seq<char>>)
    requires
        consistent(s),
    ensures
        sound_step(s, service::plan_creation(s, request, key)),
{
    let outcome = service::plan_creation(s, request, key);
    if outcome matches Ok(step) && step is Commit {
        let event = outcome->Ok_0->Commit_event;
        let t = ledger::applied(s, event);
        lemma_same_agreed(s, t);
        let plan = event.change->PlanCreated_plan;
        let rules = request.rules.resolved();
        let dataset = s.datasets[request.dataset_id];
        let analysis = import::dataset_analysis(dataset, rules)->Ok_0;
        assert(sound_dataset(request.dataset_id, dataset));
        conflicts::lemma_groups_finite(analysis.buckets);
        lemma_fits_records(plan, dataset, request.dataset_id);
        assert(plan.dataset_id == request.dataset_id);
        assert(!s.plans.contains_key(plan.id));
        assert(!s.migrations.contains_key(plan.id));
        assert(sound_plan(t, plan.id, plan));
        assert(!s.plan_changes.contains_key(plan.id));
        assert(sound_changes(t, plan.id));
        assert forall|p: Seq<char>| #[trigger] t.plans.contains_key(p) implies sound_plan(
            t,
            p,
            t.plans[p],
        ) && sound_changes(t, p) by {
            if p != plan.id {
                assert(s.plans.contains_key(p));
                assert(sound_changes(s, p));
            }
        }
    }
}

proof fn lemma_approval_is_proper(s: StateModel, before: PlanModel, request: UpdatePlanReqModel)
    requires
        fits_records(s.datasets[before.dataset_id], before),
        before.groups.dom().finite(),
        before.status != PlanStatus::Approved,
        service::plan_after(s, before, request) is Ok,
        service::plan_after(s, before, request)->Ok_0.status == PlanStatus::Approved,
    ensures
        ({
            let plan = service::plan_after(s, before, request)->Ok_0;
            proper(plan, plan.baseline_mappings)
        }),
{
    let plan = service::plan_after(s, before, request)->Ok_0;
    let decided = PlanModel { decisions: plan.decisions, ..before };
    assert(service::plan_approved(s, decided) == Ok::<PlanModel, ServiceErrorModel>(plan));
    lemma_same_fit(s.datasets[before.dataset_id], decided, before);
    lemma_outcome_is_proper(s, decided);
    lemma_same_proper(plan, decided, plan.baseline_mappings);
}

/// Whether a plan fits its records is fixed by its buckets, rules and version of the data set.
pub proof fn lemma_same_fit(dataset: DatasetModel, plan: PlanModel, other: PlanModel)
    requires
        plan.groups == other.groups,
        plan.rules == other.rules,
        plan.dataset_version == other.dataset_version,
        fits_records(dataset, other),
    ensures
        fits_records(dataset, plan),
{
    reveal(fits_records);
    let then = mappings::dataset_at(dataset, plan.dataset_version);
    let target = mappings::canonical_by_id(
        import::dataset_analysis(then, plan.rules)->Ok_0.records,
    );
    assert forall|b: Seq<char>, id: Seq<char>| #[trigger]
        mappings::in_bucket(plan, b, id) implies target.contains_key(id) && target[id] == b by {
        assert(mappings::in_bucket(other, b, id));
    }
    assert forall|x: Seq<char>, y: Seq<char>| #[trigger]
        target.contains_key(x) && #[trigger] target.contains_key(y) && x != y && target[x]
            == target[y] implies mappings::in_bucket(plan, target[x], x) by {
        assert(mappings::in_bucket(other, target[x], x));
    }
}

/// Whether mappings keep to the decisions of a plan is fixed by its buckets and decisions.
proof fn lemma_same_proper(plan: PlanModel, other: PlanModel, done: Seq<StoredMappingModel>)
    requires
        plan.groups == other.groups,
        plan.decisions == other.decisions,
        proper(other, done),
    ensures
        proper(plan, done),
{
    reveal(proper);
    assert forall|record: Seq<char>| #[trigger] mappings::left_out(plan, record) implies !mappings::handled(
        done,
        record,
    ) by {
        let bucket = choose|bucket: Seq<char>| mappings::rejected_in(plan, bucket, record);
        assert(mappings::rejected_in(other, bucket, record));
        assert(mappings::left_out(other, record));
    }
    assert forall|b: Seq<char>, id: Seq<char>| mappings::aliased(other, b, id) implies #[trigger]
        mappings::aliased(plan, b, id) by {}
    assert(shares_by_alias(other, done));
    assert(shares_by_alias(plan, done));
}

proof fn lemma_change_is_sound(
    s: StateModel,
    id: Seq<char>,
    request: UpdatePlanReqModel,
    key: Option<Seq<char>>,
)
    requires
        consistent(s),
        s.plans.contains_key(id) ==> s.plans[id].version < u64::MAX,
    ensures
        sound_step(s, service::plan_change(s, id, request, key)),
{
    let outcome = service::plan_change(s, id, request, key);
    if outcome matches Ok(step) && step is Commit {
        let event = outcome->Ok_0->Commit_event;
        let t = ledger::applied(s, event);
        lemma_same_agreed(s, t);
        let before = s.plans[id];
        let plan = service::plan_after(s, before, request)->Ok_0;
        assert(sound_plan(s, id, before));
        assert(plan.id == id && plan.dataset_id == before.dataset_id && plan.groups
            == before.groups && plan.rules == before.rules && plan.dataset_version
            == before.dataset_version);
        assert(plan.version == before.version + 1);
        assert(plan.status == PlanStatus::Applied <==> before.status == PlanStatus::Applied);
        lemma_same_fit(s.datasets[plan.dataset_id], plan, before);
        if plan.status == PlanStatus::Approved {
            lemma_approval_is_proper(s, before, request);
        }
        assert(sound_changes(s, id));
        assert(sound_changes(t, id));
        assert forall|p: Seq<char>| #[trigger] t.plans.contains_key(p) implies sound_plan(
            t,
            p,
            t.plans[p],
        ) && sound_changes(t, p) by {
            assert(s.plans.contains_key(p));
            assert(sound_changes(s, p));
        }
    }
}

proof fn lemma_application_is_sound(
    s: StateModel,
    id: Seq<char>,
    request: ApplyPlanReqModel,
    key: Option<Seq<char>>,
)
    requires
        consistent(s),
    ensures
        sound_step(s, service::plan_application(s, id, request, key)),
{
    let outcome = service::plan_application(s, id, request, key);
    if outcome matches Ok(step) && step is Commit {
        reveal(service::migration_of);
        let event = outcome->Ok_0->Commit_event;
        let t = ledger::applied(s, event);
        assert(sound_plan(s, id, s.plans[id]));
        assert(t.migrations[id].plan_id == id);
        let plan = s.plans[id];
        let done = t.migrations[id].mappings;
        lemma_outcome_is_proper(s, plan);
        lemma_same_proper(t.plans[id], plan, done);
        lemma_same_proper(t.plans[id], plan, plan.baseline_mappings);
        lemma_same_fit(s.datasets[plan.dataset_id], t.plans[id], plan);
        assert forall|p: Seq<char>| #[trigger] t.plans.contains_key(p) implies sound_plan(
            t,
            p,
            t.plans[p],
        ) && sound_changes(t, p) by {
            assert(s.plans.contains_key(p));
            assert(sound_changes(s, p));
        }
        assert(one_value_each(done)) by {
            reveal(proper);
        }
        migrations::lemma_stays_agreed(s, t, id, t.migrations[id]);
        assert forall|m: Seq<char>| #[trigger]
            t.migrations.contains_key(m) implies t.plans.contains_key(m) && t.migrations[m].plan_id
            == m && proper(t.plans[m], t.migrations[m].mappings) by {
            if m != id {
                assert(s.migrations.contains_key(m));
            }
        }
    }
}

} // verus!
