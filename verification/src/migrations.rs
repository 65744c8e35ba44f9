//! What carrying a plan out does, told by the migrations that were carried out before.

use vstd::prelude::*;

use crate::consistency;
use crate::engine::{AnalysisModel, BucketModel};
use crate::import;
use crate::ledger;
use crate::ledger::{
    AppliedMigrationModel, PlanModel, PlanStatus, StateModel, StoredMappingModel,
    StoredRecordModel,
};
use crate::conflicts;
use crate::mappings;
use crate::order;
use crate::requests::{
    AddedRecordModel, ApplyPlanReqModel, CollisionModel, ErrorDetailsModel, ServiceErrorModel,
    StepModel,
};
use crate::service;

verus! {

/// Some mapping among some gives the record the value.
pub open spec fn gives(done: Seq<StoredMappingModel>, record: Seq<char>, value: Seq<char>) -> bool {
    exists|i: int|
        0 <= i < done.len() && (#[trigger] done[i]).record_id == record && done[i].new_canonical
            == value
}

/// Some migration gave the record the value.
pub open spec fn migrated(s: StateModel, record: Seq<char>, value: Seq<char>) -> bool {
    exists|p: Seq<char>| #[trigger]
        s.migrations.contains_key(p) && gives(s.migrations[p].mappings, record, value)
}

/// No migration gave a record another value than another did, or than itself.
#[verifier::opaque]
pub open spec fn agreed(s: StateModel) -> bool {
    forall|r: Seq<char>, a: Seq<char>, b: Seq<char>| #[trigger]
        migrated(s, r, a) && #[trigger] migrated(s, r, b) ==> a == b
}

proof fn lemma_registered(
    registry: Map<Seq<char>, Seq<char>>,
    done: Seq<StoredMappingModel>,
    r: Seq<char>,
)
    ensures
        ({
            let all = service::registered(registry, done);
            &&& registry.contains_key(r) ==> all.contains_key(r)
            &&& all.contains_key(r) ==> gives(done, r, all[r]) || (registry.contains_key(r)
                && registry[r] == all[r])
            &&& forall|v: Seq<char>| #[trigger] gives(done, r, v) ==> all.contains_key(r)
        }),
    decreases done.len(),
{
    if done.len() > 0 {
        let front = done.drop_last();
        let last = done.len() - 1;
        let all = service::registered(registry, done);
        let before = service::registered(registry, front);
        lemma_registered(registry, front, r);
        if done[last].record_id == r {
            assert(gives(done, r, all[r]));
        } else {
            if all.contains_key(r) && gives(front, r, all[r]) {
                let k = choose|k: int|
                    0 <= k < front.len() && (#[trigger] front[k]).record_id == r
                        && front[k].new_canonical == all[r];
                assert(done[k] == front[k]);
            }
            assert forall|v: Seq<char>| #[trigger] gives(done, r, v) implies all.contains_key(r) by {
                let k = choose|k: int|
                    0 <= k < done.len() && (#[trigger] done[k]).record_id == r
                        && done[k].new_canonical == v;
                assert(front[k] == done[k]);
                assert(gives(front, r, v));
            }
        }
    }
}

proof fn lemma_registry_of(
    migrations: Map<Seq<char>, AppliedMigrationModel>,
    ids: Seq<Seq<char>>,
    r: Seq<char>,
)
    ensures
        ({
            let all = service::registry_of(migrations, ids);
            &&& all.contains_key(r) ==> exists|k: int|
                0 <= k < ids.len() && gives(migrations[#[trigger] ids[k]].mappings, r, all[r])
            &&& forall|k: int, v: Seq<char>|
                0 <= k < ids.len() && #[trigger] gives(migrations[ids[k]].mappings, r, v)
                    ==> all.contains_key(r)
        }),
    decreases ids.len(),
{
    if ids.len() > 0 {
        let front = ids.drop_last();
        let last = ids.len() - 1;
        let before = service::registry_of(migrations, front);
        let all = service::registry_of(migrations, ids);
        lemma_registry_of(migrations, front, r);
        lemma_registered(before, migrations[ids[last]].mappings, r);
        if all.contains_key(r) {
            if gives(migrations[ids[last]].mappings, r, all[r]) {
            } else {
                let k = choose|k: int|
                    0 <= k < front.len() && gives(
                        migrations[#[trigger] front[k]].mappings,
                        r,
                        before[r],
                    );
                assert(ids[k] == front[k]);
            }
        }
        assert forall|k: int, v: Seq<char>|
            0 <= k < ids.len() && #[trigger] gives(
                migrations[ids[k]].mappings,
                r,
                v,
            ) implies all.contains_key(r) by {
            if k < last {
                assert(front[k] == ids[k]);
                assert(gives(migrations[front[k]].mappings, r, v));
            }
        }
    }
}

/// The values of records that migrations gave them, as far as they agree.
pub proof fn lemma_registry(s: StateModel, r: Seq<char>)
    requires
        s.migrations.dom().finite(),
    ensures
        service::registry(s).contains_key(r) ==> migrated(s, r, service::registry(s)[r]),
        forall|v: Seq<char>| #[trigger] migrated(s, r, v) ==> service::registry(s).contains_key(r),
        agreed(s) ==> forall|v: Seq<char>| #[trigger]
            migrated(s, r, v) ==> service::registry(s)[r] == v,
{
    reveal(agreed);
    let ids = order::in_order(s.migrations.dom());
    let all = service::registry(s);
    order::lemma_finite_listed(s.migrations.dom());
    lemma_registry_of(s.migrations, ids, r);
    if all.contains_key(r) {
        let k = choose|k: int|
            0 <= k < ids.len() && gives(s.migrations[#[trigger] ids[k]].mappings, r, all[r]);
        assert(ids.contains(ids[k]));
        assert(s.migrations.dom().contains(ids[k]));
        assert(s.migrations.contains_key(ids[k]));
    }
    assert forall|v: Seq<char>| #[trigger] migrated(s, r, v) implies all.contains_key(r) by {
        let p = choose|p: Seq<char>| #[trigger]
            s.migrations.contains_key(p) && gives(s.migrations[p].mappings, r, v);
        assert(s.migrations.dom().contains(p));
        assert(ids.contains(p));
        let k = choose|k: int| 0 <= k < ids.len() && ids[k] == p;
        assert(gives(s.migrations[ids[k]].mappings, r, v));
    }
    if agreed(s) {
        assert forall|v: Seq<char>| #[trigger] migrated(s, r, v) implies all[r] == v by {
            assert(all.contains_key(r));
            assert(migrated(s, r, all[r]));
        }
    }
}

proof fn lemma_no_conflict(
    registry: Map<Seq<char>, Seq<char>>,
    done: Seq<StoredMappingModel>,
    m: int,
)
    requires
        service::first_conflict(registry, done) is None,
        0 <= m < done.len(),
    ensures
        registry.contains_key(done[m].record_id) ==> registry[done[m].record_id]
            == done[m].new_canonical,
    decreases done.len(),
{
    if m < done.len() - 1 {
        lemma_no_conflict(registry, done.drop_last(), m);
        assert(done.drop_last()[m] == done[m]);
    }
}

proof fn lemma_a_conflict(registry: Map<Seq<char>, Seq<char>>, done: Seq<StoredMappingModel>)
    requires
        service::first_conflict(registry, done) is Some,
    ensures
        ({
            let m = service::first_conflict(registry, done)->0;
            &&& gives(done, m.record_id, m.new_canonical)
            &&& registry.contains_key(m.record_id)
            &&& registry[m.record_id] != m.new_canonical
        }),
    decreases done.len(),
{
    let front = done.drop_last();
    let m = service::first_conflict(registry, done)->0;
    if service::first_conflict(registry, front) is Some {
        lemma_a_conflict(registry, front);
        let k = choose|k: int|
            0 <= k < front.len() && (#[trigger] front[k]).record_id == m.record_id
                && front[k].new_canonical == m.new_canonical;
        assert(done[k] == front[k]);
    } else {
        assert(done[done.len() - 1] == m);
    }
}

/// A migration that passed the check leaves the values of all migrations agreed.
pub proof fn lemma_stays_agreed(
    s: StateModel,
    t: StateModel,
    id: Seq<char>,
    migration: AppliedMigrationModel,
)
    requires
        s.migrations.dom().finite(),
        agreed(s),
        !s.migrations.contains_key(id),
        t.migrations == s.migrations.insert(id, migration),
        service::first_conflict(service::registry(s), migration.mappings) is None,
        forall|r: Seq<char>, a: Seq<char>, b: Seq<char>| #[trigger]
            gives(migration.mappings, r, a) && #[trigger] gives(migration.mappings, r, b) ==> a == b,
    ensures
        agreed(t),
{
    let done = migration.mappings;
    assert forall|r: Seq<char>, a: Seq<char>| #[trigger] migrated(t, r, a) implies migrated(s, r, a)
        || gives(done, r, a) by {
        let p = choose|p: Seq<char>| #[trigger]
            t.migrations.contains_key(p) && gives(t.migrations[p].mappings, r, a);
        if p != id {
            assert(s.migrations.contains_key(p));
        }
    }
    assert forall|r: Seq<char>, a: Seq<char>, b: Seq<char>| #[trigger]
        migrated(t, r, a) && #[trigger] migrated(t, r, b) implies a == b by {
        reveal(agreed);
        lemma_registry(s, r);
        if gives(done, r, a) {
            let k = choose|k: int|
                0 <= k < done.len() && (#[trigger] done[k]).record_id == r && done[k].new_canonical
                    == a;
            lemma_no_conflict(service::registry(s), done, k);
        }
        if gives(done, r, b) {
            let k = choose|k: int|
                0 <= k < done.len() && (#[trigger] done[k]).record_id == r && done[k].new_canonical
                    == b;
            lemma_no_conflict(service::registry(s), done, k);
        }
    }
    reveal(agreed);
}

/// The state after a plan was carried out.
pub open spec fn state_after(
    s: StateModel,
    outcome: Result<StepModel, ServiceErrorModel>,
) -> StateModel {
    ledger::applied(s, outcome->Ok_0->Commit_event)
}

/// There is something to store.
pub open spec fn commits(outcome: Result<StepModel, ServiceErrorModel>) -> bool {
    outcome matches Ok(step) && step is Commit
}

/// A record that was migrated is never moved: whatever value an earlier migration gave it, every
/// mapping of it in a plan that is carried out gives it that value again.
pub proof fn migrated_records_keep_their_value(
    s: StateModel,
    id: Seq<char>,
    request: ApplyPlanReqModel,
    key: Option<Seq<char>>,
    earlier: Seq<char>,
    i: int,
    j: int,
)
    requires
        consistency::consistent(s),
        commits(service::plan_application(s, id, request, key)),
        s.migrations.contains_key(earlier),
        0 <= i < s.migrations[earlier].mappings.len(),
        ({
            let t = state_after(s, service::plan_application(s, id, request, key));
            &&& 0 <= j < t.migrations[id].mappings.len()
            &&& t.migrations[id].mappings[j].record_id
                == s.migrations[earlier].mappings[i].record_id
        }),
    ensures
        ({
            let t = state_after(s, service::plan_application(s, id, request, key));
            &&& t.migrations[id].mappings[j].new_canonical
                == s.migrations[earlier].mappings[i].new_canonical
            &&& t.migrations[earlier] == s.migrations[earlier]
        }),
{
    reveal(service::migration_of);
    let done = state_after(
        s,
        service::plan_application(s, id, request, key),
    ).migrations[id].mappings;
    let m = s.migrations[earlier].mappings[i];
    assert(gives(s.migrations[earlier].mappings, m.record_id, m.new_canonical));
    assert(migrated(s, m.record_id, m.new_canonical));
    lemma_registry(s, m.record_id);
    lemma_no_conflict(service::registry(s), done, j);
    assert(consistency::sound_plan(s, id, s.plans[id]));
    assert(earlier != id);
}

/// What a plan is carried out with: what was approved, or else what it comes to.
pub open spec fn is_approved_outcome(
    s: StateModel,
    plan: PlanModel,
    done: Seq<StoredMappingModel>,
) -> bool {
    &&& mappings::plan_outcome(s, plan) is Ok
    &&& if plan.baseline_mappings.len() > 0 {
        done == plan.baseline_mappings
    } else {
        done == mappings::plan_outcome(s, plan)->Ok_0.mappings
    }
}

/// The plan knows of the record: it maps it, or it rejects the bucket that the record is in.
pub open spec fn knows(plan: PlanModel, done: Seq<StoredMappingModel>, record: Seq<char>) -> bool {
    (exists|i: int| 0 <= i < done.len() && (#[trigger] done[i]).record_id == record) || (
    exists|b: Seq<char>|
        plan.groups.contains_key(b) && #[trigger] plan.groups[b].contains(record)
            && plan.decisions.contains_key(b) && plan.decisions[b].action == "reject"@)
}

proof fn lemma_knows(plan: PlanModel, done: Seq<StoredMappingModel>, record: Seq<char>)
    ensures
        knows(plan, done, record) <==> mappings::known(plan, done, record),
{
    if mappings::left_out(plan, record) {
        let b = choose|b: Seq<char>| mappings::rejected_in(plan, b, record);
        assert(plan.groups[b].contains(record));
    }
    if knows(plan, done, record) && !mappings::handled(done, record) {
        let b = choose|b: Seq<char>|
            plan.groups.contains_key(b) && #[trigger] plan.groups[b].contains(record)
                && plan.decisions.contains_key(b) && plan.decisions[b].action == "reject"@;
        assert(mappings::rejected_in(plan, b, record));
    }
}

/// The value is given by the plan or by an earlier migration.
pub open spec fn value_given(
    s: StateModel,
    done: Seq<StoredMappingModel>,
    value: Seq<char>,
) -> bool {
    (exists|record: Seq<char>| #[trigger] gives(done, record, value)) || (exists|record: Seq<char>| #[trigger]
        migrated(s, record, value))
}

/// A bucket of several records, some of which the plan does not know of.
pub open spec fn joined(
    plan: PlanModel,
    done: Seq<StoredMappingModel>,
    canonical: Seq<char>,
    ids: Seq<Seq<char>>,
    analysis: AnalysisModel,
) -> bool {
    exists|b: int|
        {
            &&& 0 <= b < analysis.buckets.len()
            &&& (#[trigger] analysis.buckets[b]).canonical == canonical
            &&& analysis.buckets[b].record_ids == ids
            &&& ids.len() > 1
            &&& exists|i: int| 0 <= i < ids.len() && !knows(plan, done, #[trigger] ids[i])
        }
}

/// An eligible record that the plan does not know of, whose value is given to a record.
pub open spec fn taken(
    s: StateModel,
    plan: PlanModel,
    done: Seq<StoredMappingModel>,
    canonical: Seq<char>,
    record: Seq<char>,
    analysis: AnalysisModel,
) -> bool {
    &&& !knows(plan, done, record)
    &&& value_given(s, done, canonical)
    &&& exists|k: int|
        0 <= k < analysis.records.len() && (#[trigger] analysis.records[k]).eligible
            && analysis.records[k].record_id == record && analysis.records[k].canonical == canonical
}

/// Something that keeps a plan from being carried out.
pub open spec fn collides(
    s: StateModel,
    plan: PlanModel,
    done: Seq<StoredMappingModel>,
    analysis: AnalysisModel,
    c: CollisionModel,
) -> bool {
    match c {
        CollisionModel::Bucket { canonical, record_ids } => joined(
            plan,
            done,
            canonical,
            record_ids,
            analysis,
        ),
        CollisionModel::NewRecord { canonical, new_record_id } => taken(
            s,
            plan,
            done,
            canonical,
            new_record_id,
            analysis,
        ),
    }
}

/// A record that an earlier migration gave another value.
pub open spec fn moved(s: StateModel, done: Seq<StoredMappingModel>, record: Seq<char>, value: Seq<char>) -> bool {
    migrated(s, record, value) && exists|other: Seq<char>| #[trigger]
        gives(done, record, other) && other != value
}

spec fn bucket_hit(
    plan: PlanModel,
    done: Seq<StoredMappingModel>,
    bucket: BucketModel,
    c: CollisionModel,
) -> bool {
    &&& c == (CollisionModel::Bucket {
        canonical: bucket.canonical,
        record_ids: bucket.record_ids,
    })
    &&& bucket.record_ids.len() > 1
    &&& exists|i: int|
        0 <= i < bucket.record_ids.len() && !knows(plan, done, #[trigger] bucket.record_ids[i])
}

proof fn lemma_bucket_collisions(
    plan: PlanModel,
    buckets: Seq<BucketModel>,
    done: Seq<StoredMappingModel>,
    c: CollisionModel,
)
    ensures
        service::bucket_collisions(plan, buckets, done).contains(c) <==> exists|b: int|
            0 <= b < buckets.len() && bucket_hit(plan, done, #[trigger] buckets[b], c),
    decreases buckets.len(),
{
    if buckets.len() > 0 {
        let front = buckets.drop_last();
        let last = buckets.len() - 1;
        let bucket = buckets[last];
        let before = service::bucket_collisions(plan, front, done);
        let all = service::bucket_collisions(plan, buckets, done);
        lemma_bucket_collisions(plan, front, done, c);
        assert forall|i: int| 0 <= i < bucket.record_ids.len() implies (knows(
            plan,
            done,
            #[trigger] bucket.record_ids[i],
        ) <==> mappings::known(plan, done, bucket.record_ids[i])) by {
            lemma_knows(plan, done, bucket.record_ids[i]);
        }
        let hit = bucket_hit(plan, done, bucket, c);
        assert(all.contains(c) <==> before.contains(c) || hit) by {
            if before.contains(c) {
                let k = choose|k: int| 0 <= k < before.len() && before[k] == c;
                assert(all[k] == c);
            }
            if hit {
                assert(all[all.len() - 1] == c);
            }
            if all.contains(c) {
                let k = choose|k: int| 0 <= k < all.len() && all[k] == c;
                if k < before.len() {
                    assert(before[k] == c);
                }
            }
        }
        if before.contains(c) {
            let b = choose|b: int|
                0 <= b < front.len() && bucket_hit(plan, done, #[trigger] front[b], c);
            assert(bucket_hit(plan, done, buckets[b], c));
        }
        if exists|b: int| 0 <= b < buckets.len() && bucket_hit(plan, done, #[trigger] buckets[b], c) {
            let b = choose|b: int|
                0 <= b < buckets.len() && bucket_hit(plan, done, #[trigger] buckets[b], c);
            if b < last {
                assert(bucket_hit(plan, done, front[b], c));
            }
        }
    }
}

proof fn lemma_value_given(s: StateModel, done: Seq<StoredMappingModel>, value: Seq<char>)
    requires
        s.migrations.dom().finite(),
        agreed(s),
    ensures
        value_given(s, done, value) <==> service::value_registered(service::registry(s), value)
            || service::value_in_baseline(done, value),
{
    let all = service::registry(s);
    if value_given(s, done, value) {
        if exists|r: Seq<char>| #[trigger] gives(done, r, value) {
            let r = choose|r: Seq<char>| #[trigger] gives(done, r, value);
            let k = choose|k: int|
                0 <= k < done.len() && (#[trigger] done[k]).record_id == r && done[k].new_canonical
                    == value;
            assert(done[k].new_canonical == value);
        } else {
            let r = choose|r: Seq<char>| #[trigger] migrated(s, r, value);
            lemma_registry(s, r);
            assert(all.contains_key(r) && all[r] == value);
        }
    }
    if service::value_registered(all, value) {
        let r = choose|r: Seq<char>| #[trigger] all.contains_key(r) && all[r] == value;
        lemma_registry(s, r);
        assert(migrated(s, r, value));
    }
    if service::value_in_baseline(done, value) {
        let k = choose|k: int| 0 <= k < done.len() && (#[trigger] done[k]).new_canonical == value;
        assert(gives(done, done[k].record_id, value));
    }
}

proof fn lemma_record_collisions(
    s: StateModel,
    plan: PlanModel,
    targets: Map<Seq<char>, Seq<char>>,
    done: Seq<StoredMappingModel>,
    ids: Seq<Seq<char>>,
    c: CollisionModel,
)
    requires
        s.migrations.dom().finite(),
        agreed(s),
    ensures
        service::record_collisions(
            plan,
            targets,
            service::registry(s),
            done,
            ids,
        ).contains(c) <==> (c matches CollisionModel::NewRecord { canonical, new_record_id }
            && ids.contains(new_record_id) && canonical == targets[new_record_id] && !knows(
            plan,
            done,
            new_record_id,
        ) && value_given(s, done, canonical)),
    decreases ids.len(),
{
    if ids.len() > 0 {
        let front = ids.drop_last();
        let id = ids[ids.len() - 1];
        let registry = service::registry(s);
        let before = service::record_collisions(plan, targets, registry, done, front);
        let all = service::record_collisions(plan, targets, registry, done, ids);
        lemma_record_collisions(s, plan, targets, done, front, c);
        lemma_knows(plan, done, id);
        lemma_value_given(s, done, targets[id]);
        let this = CollisionModel::NewRecord { canonical: targets[id], new_record_id: id };
        let hits = !knows(plan, done, id) && value_given(s, done, targets[id]);
        assert(all.contains(c) <==> before.contains(c) || (hits && c == this)) by {
            if before.contains(c) {
                let k = choose|k: int| 0 <= k < before.len() && before[k] == c;
                assert(all[k] == c);
            }
            if hits && c == this {
                assert(all[all.len() - 1] == c);
            }
            if all.contains(c) {
                let k = choose|k: int| 0 <= k < all.len() && all[k] == c;
                if k < before.len() {
                    assert(before[k] == c);
                }
            }
        }
        assert forall|r: Seq<char>| ids.contains(r) <==> front.contains(r) || r == id by {
            if front.contains(r) {
                let k = choose|k: int| 0 <= k < front.len() && front[k] == r;
                assert(ids[k] == r);
            }
            if ids.contains(r) {
                let k = choose|k: int| 0 <= k < ids.len() && ids[k] == r;
                if k < front.len() {
                    assert(front[k] == r);
                }
            }
        }
    }
}

proof fn lemma_collisions(
    s: StateModel,
    plan: PlanModel,
    done: Seq<StoredMappingModel>,
    analysis: AnalysisModel,
    c: CollisionModel,
)
    requires
        s.migrations.dom().finite(),
        agreed(s),
        conflicts::distinct_ids(analysis.records),
    ensures
        service::collisions_of(s, plan, analysis, done).contains(c) <==> collides(
            s,
            plan,
            done,
            analysis,
            c,
        ),
{
    let targets = mappings::canonical_by_id(analysis.records);
    let ids = order::in_order(targets.dom());
    let a = service::bucket_collisions(plan, analysis.buckets, done);
    let b = service::record_collisions(plan, targets, service::registry(s), done, ids);
    conflicts::lemma_values_finite(analysis.records);
    order::lemma_finite_listed(targets.dom());
    lemma_bucket_collisions(plan, analysis.buckets, done, c);
    lemma_record_collisions(s, plan, targets, done, ids, c);
    assert((a + b).contains(c) <==> a.contains(c) || b.contains(c)) by {
        if a.contains(c) {
            let k = choose|k: int| 0 <= k < a.len() && a[k] == c;
            assert((a + b)[k] == c);
        }
        if b.contains(c) {
            let k = choose|k: int| 0 <= k < b.len() && b[k] == c;
            assert((a + b)[a.len() + k] == c);
        }
        if (a + b).contains(c) {
            let k = choose|k: int| 0 <= k < (a + b).len() && (a + b)[k] == c;
            if k < a.len() {
                assert(a[k] == c);
            } else {
                assert(b[k - a.len()] == c);
            }
        }
    }
    if c is Bucket {
        let (canonical, ids) = (c->Bucket_canonical, c->record_ids);
        if a.contains(c) {
            let k = choose|k: int|
                0 <= k < analysis.buckets.len() && bucket_hit(
                    plan,
                    done,
                    #[trigger] analysis.buckets[k],
                    c,
                );
            assert(analysis.buckets[k].canonical == canonical);
        }
        if joined(plan, done, canonical, ids, analysis) {
            let k = choose|k: int|
                {
                    &&& 0 <= k < analysis.buckets.len()
                    &&& (#[trigger] analysis.buckets[k]).canonical == canonical
                    &&& analysis.buckets[k].record_ids == ids
                    &&& ids.len() > 1
                    &&& exists|i: int| 0 <= i < ids.len() && !knows(plan, done, #[trigger] ids[i])
                };
            assert(bucket_hit(plan, done, analysis.buckets[k], c));
        }
    } else {
        let (canonical, record) = (c->NewRecord_canonical, c->new_record_id);
        assert(ids.contains(record) <==> targets.dom().contains(record));
        if targets.contains_key(record) {
            let k = conflicts::lemma_value_has_record(analysis.records, record);
            assert(analysis.records[k].eligible && analysis.records[k].record_id == record);
        }
        if taken(s, plan, done, canonical, record, analysis) {
            let k = choose|k: int|
                0 <= k < analysis.records.len() && (#[trigger] analysis.records[k]).eligible
                    && analysis.records[k].record_id == record && analysis.records[k].canonical
                    == canonical;
            conflicts::lemma_record_has_value(analysis.records, k);
        }
    }
}

/// An approved plan of the current version is carried out exactly if no record would be moved from
/// the value that an earlier migration gave it and nothing collides. Its migration then has exactly
/// what was approved; the plan is applied, at the same version, and nothing else is changed.
pub proof fn approved_plans_are_carried_out(
    s: StateModel,
    id: Seq<char>,
    request: ApplyPlanReqModel,
    done: Seq<StoredMappingModel>,
    analysis: AnalysisModel,
)
    requires
        consistency::consistent(s),
        s.plans.contains_key(id),
        s.plans[id].status == PlanStatus::Approved,
        s.plans[id].version == request.expected_version,
        is_approved_outcome(s, s.plans[id], done),
        import::dataset_analysis(s.datasets[s.plans[id].dataset_id], s.plans[id].rules) == Ok::<
            AnalysisModel,
            Seq<char>,
        >(analysis),
    ensures
        ({
            let plan = s.plans[id];
            let outcome = service::plan_application(s, id, request, None);
            let t = state_after(s, outcome);
            &&& commits(outcome) <==> (forall|r: Seq<char>, v: Seq<char>|
                !#[trigger] moved(s, done, r, v)) && (forall|c: CollisionModel|
                !#[trigger] collides(s, plan, done, analysis, c))
            &&& commits(outcome) ==> {
                &&& t.migrations == s.migrations.insert(id, t.migrations[id])
                &&& t.migrations[id].plan_id == id
                &&& t.migrations[id].dataset_id == plan.dataset_id
                &&& t.migrations[id].baseline_plan_version == plan.version
                &&& t.migrations[id].mappings == done
                &&& t.plans == s.plans.insert(id, PlanModel { status: PlanStatus::Applied, ..plan })
                &&& t.datasets == s.datasets
                &&& t.commands == s.commands
            }
        }),
{
    reveal(service::migration_of);
    let plan = s.plans[id];
    let dataset = s.datasets[plan.dataset_id];
    let registry = service::registry(s);
    let collisions = service::collisions_of(s, plan, analysis, done);
    assert(consistency::sound_plan(s, id, plan));
    lemma_current_distinct(s, plan);
    assert forall|c: CollisionModel| #[trigger] collides(s, plan, done, analysis, c)
        <==> collisions.contains(c) by {
        lemma_collisions(s, plan, done, analysis, c);
    }
    if collisions.len() > 0 {
        assert(collisions.contains(collisions[0]));
        assert(collides(s, plan, done, analysis, collisions[0]));
    }
    lemma_moved(s, done);
}

proof fn lemma_moved(s: StateModel, done: Seq<StoredMappingModel>)
    requires
        s.migrations.dom().finite(),
        agreed(s),
    ensures
        service::first_conflict(service::registry(s), done) is None <==> forall|
            r: Seq<char>,
            v: Seq<char>,
        | !#[trigger] moved(s, done, r, v),
        service::first_conflict(service::registry(s), done) matches Some(m) ==> moved(
            s,
            done,
            m.record_id,
            service::registry(s)[m.record_id],
        ),
{
    let registry = service::registry(s);
    if service::first_conflict(registry, done) is Some {
        let m = service::first_conflict(registry, done)->0;
        lemma_a_conflict(registry, done);
        lemma_registry(s, m.record_id);
        assert(moved(s, done, m.record_id, registry[m.record_id]));
    } else {
        assert forall|r: Seq<char>, v: Seq<char>| !#[trigger] moved(s, done, r, v) by {
            if moved(s, done, r, v) {
                let other = choose|other: Seq<char>| #[trigger] gives(done, r, other) && other != v;
                let k = choose|k: int|
                    0 <= k < done.len() && (#[trigger] done[k]).record_id == r
                        && done[k].new_canonical == other;
                lemma_no_conflict(registry, done, k);
                lemma_registry(s, r);
            }
        }
    }
}

proof fn lemma_current_distinct(s: StateModel, plan: PlanModel)
    requires
        consistency::consistent(s),
        s.datasets.contains_key(plan.dataset_id),
        import::dataset_analysis(s.datasets[plan.dataset_id], plan.rules) is Ok,
    ensures
        conflicts::distinct_ids(
            import::dataset_analysis(s.datasets[plan.dataset_id], plan.rules)->Ok_0.records,
        ),
{
    let dataset = s.datasets[plan.dataset_id];
    let records = import::dataset_analysis(dataset, plan.rules)->Ok_0.records;
    let ids = order::in_order(dataset.records.dom());
    assert(consistency::sound_dataset(plan.dataset_id, dataset));
    order::lemma_finite_listed(dataset.records.dom());
    assert(records.len() == ids.len());
    assert forall|i: int, j: int| 0 <= i < j < records.len() implies (
    #[trigger] records[i]).record_id != (#[trigger] records[j]).record_id by {
        assert(ids.contains(ids[i]) && ids.contains(ids[j]));
        assert(dataset.records.dom().contains(ids[i]) && dataset.records.dom().contains(ids[j]));
        assert(dataset.records.contains_key(ids[i]) && dataset.records.contains_key(ids[j]));
        assert(order::text_less(ids[i], ids[j]));
        order::lemma_text_less_irreflexive(ids[i]);
    }
}

proof fn lemma_added_after(records: Seq<StoredRecordModel>, version: u64, a: AddedRecordModel)
    ensures
        service::added_after(records, version).contains(a) <==> exists|k: int|
            0 <= k < records.len() && (#[trigger] records[k]).id == a.id && records[k].source_version
                == a.source_version && a.source_version > version,
    decreases records.len(),
{
    if records.len() > 0 {
        let front = records.drop_last();
        let last = records[records.len() - 1];
        let before = service::added_after(front, version);
        let all = service::added_after(records, version);
        lemma_added_after(front, version, a);
        if before.contains(a) {
            let k = choose|k: int| 0 <= k < before.len() && before[k] == a;
            assert(all[k] == a);
            let i = choose|i: int|
                0 <= i < front.len() && (#[trigger] front[i]).id == a.id && front[i].source_version
                    == a.source_version && a.source_version > version;
            assert(records[i] == front[i]);
        }
        if last.source_version > version && last.id == a.id && last.source_version
            == a.source_version {
            assert(all[all.len() - 1] == a);
            assert(records[records.len() - 1] == last);
        }
        if all.contains(a) && !before.contains(a) {
            let k = choose|k: int| 0 <= k < all.len() && all[k] == a;
            if k < before.len() {
                assert(before[k] == a);
            }
        }
        if exists|i: int|
            0 <= i < records.len() && (#[trigger] records[i]).id == a.id && records[i].source_version
                == a.source_version && a.source_version > version {
            let i = choose|i: int|
                0 <= i < records.len() && (#[trigger] records[i]).id == a.id
                    && records[i].source_version == a.source_version && a.source_version > version;
            if i < front.len() {
                assert(front[i] == records[i]);
            }
        }
    }
}

/// What a plan that is not carried out is answered: where a record would be moved, that record and
/// the value that it was given; else everything that collides and nothing else, with the versions
/// of the data set and exactly the records that came after the plan.
pub proof fn refused_plans_are_told_why(
    s: StateModel,
    id: Seq<char>,
    request: ApplyPlanReqModel,
    key: Option<Seq<char>>,
    done: Seq<StoredMappingModel>,
    analysis: AnalysisModel,
)
    requires
        consistency::consistent(s),
        s.plans.contains_key(id),
        s.plans[id].status == PlanStatus::Approved,
        s.plans[id].version == request.expected_version,
        is_approved_outcome(s, s.plans[id], done),
        import::dataset_analysis(s.datasets[s.plans[id].dataset_id], s.plans[id].rules) == Ok::<
            AnalysisModel,
            Seq<char>,
        >(analysis),
    ensures
        ({
            let plan = s.plans[id];
            let dataset = s.datasets[plan.dataset_id];
            let outcome = service::plan_application(s, id, request, key);
            &&& (exists|r: Seq<char>, v: Seq<char>| #[trigger] moved(s, done, r, v)) ==> {
                &&& outcome matches Err(error)
                &&& error.status == 409
                &&& error.code == "migration-conflict"@
                &&& error.details matches ErrorDetailsModel::MigrationConflict {
                    record_id,
                    existing,
                }
                &&& moved(s, done, record_id, existing)
            }
            &&& (forall|r: Seq<char>, v: Seq<char>| !#[trigger] moved(s, done, r, v)) && (exists|
                c: CollisionModel,
            | #[trigger] collides(s, plan, done, analysis, c)) ==> {
                &&& outcome matches Err(error)
                &&& error.status == 409
                &&& error.code == "simulation-failed"@
                &&& error.details matches ErrorDetailsModel::SimulationFailed {
                    collisions,
                    dataset_version_at_plan,
                    current_dataset_version,
                    added_records,
                }
                &&& dataset_version_at_plan == plan.dataset_version
                &&& current_dataset_version == dataset.version
                &&& forall|c: CollisionModel|
                    collisions.contains(c) <==> #[trigger] collides(s, plan, done, analysis, c)
                &&& forall|a: AddedRecordModel| #[trigger]
                    added_records.contains(a) <==> dataset.records.contains_key(a.id)
                        && dataset.records[a.id].source_version == a.source_version
                        && a.source_version > plan.dataset_version
            }
        }),
{
    reveal(service::migration_of);
    let plan = s.plans[id];
    let dataset = s.datasets[plan.dataset_id];
    let collisions = service::collisions_of(s, plan, analysis, done);
    let records = import::records_in_order(dataset);
    let added = service::added_after(records, plan.dataset_version);
    assert(consistency::sound_plan(s, id, plan));
    assert(consistency::sound_dataset(plan.dataset_id, dataset));
    lemma_current_distinct(s, plan);
    lemma_moved(s, done);
    assert forall|c: CollisionModel| #[trigger] collides(s, plan, done, analysis, c)
        <==> collisions.contains(c) by {
        lemma_collisions(s, plan, done, analysis, c);
    }
    if exists|c: CollisionModel| #[trigger] collides(s, plan, done, analysis, c) {
        let c = choose|c: CollisionModel| #[trigger] collides(s, plan, done, analysis, c);
        assert(collisions.contains(c));
        assert(collisions.len() > 0);
    }
    let ids = order::in_order(dataset.records.dom());
    order::lemma_finite_listed(dataset.records.dom());
    assert forall|a: AddedRecordModel| #[trigger] added.contains(a) <==> dataset.records.contains_key(
        a.id,
    ) && dataset.records[a.id].source_version == a.source_version && a.source_version
        > plan.dataset_version by {
        lemma_added_after(records, plan.dataset_version, a);
        if added.contains(a) {
            let k = choose|k: int|
                0 <= k < records.len() && (#[trigger] records[k]).id == a.id
                    && records[k].source_version == a.source_version && a.source_version
                    > plan.dataset_version;
            assert(ids.contains(ids[k]));
            assert(dataset.records.dom().contains(ids[k]));
            assert(dataset.records.contains_key(ids[k]));
        }
        if dataset.records.contains_key(a.id) && dataset.records[a.id].source_version
            == a.source_version && a.source_version > plan.dataset_version {
            assert(dataset.records.dom().contains(a.id));
            assert(ids.contains(a.id));
            let k = choose|k: int| 0 <= k < ids.len() && ids[k] == a.id;
            assert(records[k].id == a.id);
        }
    }
}

} // verus!
