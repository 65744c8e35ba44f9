//! The buckets of an analysis as the conflicts that a plan decides on.

use vstd::prelude::*;

use crate::engine;
use crate::engine::{BucketModel, RecordModel};
use crate::ledger::PlanModel;
use crate::mappings;
use crate::service;

verus! {

/// There are finitely many values.
pub proof fn lemma_values_finite(records: Seq<RecordModel>)
    ensures
        mappings::canonical_by_id(records).dom().finite(),
    decreases records.len(),
{
    if records.len() > 0 {
        lemma_values_finite(records.drop_last());
    }
}

proof fn lemma_ids_with(records: Seq<RecordModel>, canonical: Seq<char>, id: Seq<char>) -> (i: int)
    requires
        engine::ids_with(records, canonical).contains(id),
    ensures
        0 <= i < records.len(),
        records[i].eligible,
        records[i].record_id == id,
        records[i].canonical == canonical,
    decreases records.len(),
{
    let front = records.drop_last();
    let before = engine::ids_with(front, canonical);
    if before.contains(id) {
        lemma_ids_with(front, canonical, id)
    } else {
        let all = engine::ids_with(records, canonical);
        let k = choose|k: int| 0 <= k < all.len() && all[k] == id;
        if k < before.len() {
            assert(before[k] == id);
        }
        records.len() - 1
    }
}

proof fn lemma_group_bucket(buckets: Seq<BucketModel>, value: Seq<char>) -> (k: int)
    requires
        service::conflict_groups(buckets).contains_key(value),
    ensures
        0 <= k < buckets.len(),
        buckets[k].canonical == value,
        buckets[k].record_ids.len() > 1,
        buckets[k].record_ids == service::conflict_groups(buckets)[value],
    decreases buckets.len(),
{
    if buckets.last().record_ids.len() > 1 && buckets.last().canonical == value {
        buckets.len() - 1
    } else {
        lemma_group_bucket(buckets.drop_last(), value)
    }
}

proof fn lemma_has_ids_with(records: Seq<RecordModel>, i: int)
    requires
        0 <= i < records.len(),
        records[i].eligible,
    ensures
        engine::ids_with(records, records[i].canonical).contains(records[i].record_id),
    decreases records.len(),
{
    let canonical = records[i].canonical;
    let id = records[i].record_id;
    let all = engine::ids_with(records, canonical);
    let before = engine::ids_with(records.drop_last(), canonical);
    if i < records.len() - 1 {
        assert(records.drop_last()[i] == records[i]);
        lemma_has_ids_with(records.drop_last(), i);
        let k = choose|k: int| 0 <= k < before.len() && before[k] == id;
        assert(all[k] == id);
    } else {
        assert(all[all.len() - 1] == id);
    }
}

proof fn lemma_bucket_group(buckets: Seq<BucketModel>, k: int)
    requires
        0 <= k < buckets.len(),
        buckets[k].record_ids.len() > 1,
    ensures
        service::conflict_groups(buckets).contains_key(buckets[k].canonical),
    decreases buckets.len(),
{
    if k < buckets.len() - 1 {
        assert(buckets.drop_last()[k] == buckets[k]);
        lemma_bucket_group(buckets.drop_last(), k);
    }
}

/// No two records have the same id.
pub open spec fn distinct_ids(records: Seq<RecordModel>) -> bool {
    forall|i: int, j: int|
        0 <= i < j < records.len() ==> (#[trigger] records[i]).record_id != (
        #[trigger] records[j]).record_id
}

/// A value comes from an eligible record.
pub proof fn lemma_value_has_record(records: Seq<RecordModel>, id: Seq<char>) -> (i: int)
    requires
        mappings::canonical_by_id(records).contains_key(id),
    ensures
        0 <= i < records.len(),
        records[i].eligible,
        records[i].record_id == id,
        records[i].canonical == mappings::canonical_by_id(records)[id],
    decreases records.len(),
{
    if records.last().eligible && records.last().record_id == id {
        records.len() - 1
    } else {
        lemma_value_has_record(records.drop_last(), id)
    }
}

/// An eligible record has its value.
pub proof fn lemma_record_has_value(records: Seq<RecordModel>, i: int)
    requires
        distinct_ids(records),
        0 <= i < records.len(),
        records[i].eligible,
    ensures
        mappings::canonical_by_id(records).contains_key(records[i].record_id),
        mappings::canonical_by_id(records)[records[i].record_id] == records[i].canonical,
    decreases records.len(),
{
    let last = records.len() - 1;
    if i < last {
        let front = records.drop_last();
        assert(front[i] == records[i]);
        assert(distinct_ids(front)) by {
            assert forall|j: int, k: int| 0 <= j < k < front.len() implies (
            #[trigger] front[j]).record_id != (#[trigger] front[k]).record_id by {
                assert(front[j] == records[j] && front[k] == records[k]);
            }
        }
        lemma_record_has_value(front, i);
        assert(records[i].record_id != records[last].record_id);
    }
}

proof fn lemma_bucket_ids(records: Seq<RecordModel>, k: int)
    requires
        0 <= k < engine::buckets_of(records).len(),
    ensures
        engine::buckets_of(records)[k].record_ids == engine::ids_with(
            records,
            engine::buckets_of(records)[k].canonical,
        ),
{
}

proof fn lemma_value_has_bucket(records: Seq<RecordModel>, i: int) -> (k: int)
    requires
        0 <= i < records.len(),
        records[i].eligible,
    ensures
        0 <= k < engine::buckets_of(records).len(),
        engine::buckets_of(records)[k].canonical == records[i].canonical,
{
    let buckets = engine::buckets_of(records);
    engine::buckets_divide_eligible_records(records);
    choose|k: int|
        0 <= k < buckets.len() && (#[trigger] buckets[k]).canonical == records[i].canonical
            && buckets[k].record_ids.contains(records[i].record_id)
}

proof fn lemma_in_conflict(records: Seq<RecordModel>, value: Seq<char>, id: Seq<char>)
    requires
        distinct_ids(records),
        service::conflict_groups(engine::buckets_of(records)).contains_key(value),
        service::conflict_groups(engine::buckets_of(records))[value].contains(id),
    ensures
        mappings::canonical_by_id(records).contains_key(id),
        mappings::canonical_by_id(records)[id] == value,
{
    let k = lemma_group_bucket(engine::buckets_of(records), value);
    lemma_bucket_ids(records, k);
    let i = lemma_ids_with(records, value, id);
    lemma_record_has_value(records, i);
}

proof fn lemma_shared_is_conflict(records: Seq<RecordModel>, x: Seq<char>, y: Seq<char>)
    requires
        mappings::canonical_by_id(records).contains_key(x),
        mappings::canonical_by_id(records).contains_key(y),
        x != y,
        mappings::canonical_by_id(records)[x] == mappings::canonical_by_id(records)[y],
    ensures
        ({
            let groups = service::conflict_groups(engine::buckets_of(records));
            let value = mappings::canonical_by_id(records)[x];
            groups.contains_key(value) && groups[value].contains(x)
        }),
{
    let buckets = engine::buckets_of(records);
    let value = mappings::canonical_by_id(records)[x];
    let i = lemma_value_has_record(records, x);
    let j = lemma_value_has_record(records, y);
    lemma_has_ids_with(records, i);
    lemma_has_ids_with(records, j);
    let k = lemma_value_has_bucket(records, i);
    lemma_bucket_ids(records, k);
    let ids = buckets[k].record_ids;
    let a = choose|a: int| 0 <= a < ids.len() && ids[a] == x;
    let b = choose|b: int| 0 <= b < ids.len() && ids[b] == y;
    assert(a != b);
    lemma_bucket_group(buckets, k);
    let l = lemma_group_bucket(buckets, value);
    lemma_bucket_ids(records, l);
}

/// Records with different ids are divided by their values into conflicts.
pub proof fn lemma_groups_fit(plan: PlanModel, records: Seq<RecordModel>)
    requires
        distinct_ids(records),
        plan.groups == service::conflict_groups(engine::buckets_of(records)),
    ensures
        mappings::groups_fit(plan, mappings::canonical_by_id(records)),
{
    let target = mappings::canonical_by_id(records);
    assert forall|b: Seq<char>, id: Seq<char>| #[trigger]
        mappings::in_bucket(plan, b, id) implies target.contains_key(id) && target[id] == b by {
        lemma_in_conflict(records, b, id);
    }
    assert forall|x: Seq<char>, y: Seq<char>| #[trigger]
        target.contains_key(x) && #[trigger] target.contains_key(y) && x != y && target[x]
            == target[y] implies mappings::in_bucket(plan, target[x], x) by {
        lemma_shared_is_conflict(records, x, y);
    }
}

/// The conflicts are exactly the buckets of several records.
pub proof fn lemma_groups_are_conflicts(records: Seq<RecordModel>)
    ensures
        ({
            let buckets = engine::buckets_of(records);
            let groups = service::conflict_groups(buckets);
            &&& forall|b: int|
                0 <= b < buckets.len() && (#[trigger] buckets[b]).record_ids.len() > 1
                    ==> groups.contains_key(buckets[b].canonical) && groups[buckets[b].canonical]
                    == buckets[b].record_ids
            &&& forall|value: Seq<char>| #[trigger]
                groups.contains_key(value) ==> exists|b: int|
                    0 <= b < buckets.len() && (#[trigger] buckets[b]).canonical == value
                        && buckets[b].record_ids.len() > 1
        }),
{
    let buckets = engine::buckets_of(records);
    let groups = service::conflict_groups(buckets);
    assert forall|b: int|
        0 <= b < buckets.len() && (#[trigger] buckets[b]).record_ids.len()
            > 1 implies groups.contains_key(buckets[b].canonical)
        && groups[buckets[b].canonical] == buckets[b].record_ids by {
        lemma_bucket_group(buckets, b);
        let k = lemma_group_bucket(buckets, buckets[b].canonical);
        lemma_bucket_ids(records, b);
        lemma_bucket_ids(records, k);
    }
    assert forall|value: Seq<char>| #[trigger] groups.contains_key(value) implies exists|b: int|
        0 <= b < buckets.len() && (#[trigger] buckets[b]).canonical == value
            && buckets[b].record_ids.len() > 1 by {
        let k = lemma_group_bucket(buckets, value);
        assert(buckets[k].canonical == value);
    }
}

/// There are finitely many conflicts.
pub proof fn lemma_groups_finite(buckets: Seq<BucketModel>)
    ensures
        service::conflict_groups(buckets).dom().finite(),
    decreases buckets.len(),
{
    if buckets.len() > 0 {
        lemma_groups_finite(buckets.drop_last());
    }
}

} // verus!
