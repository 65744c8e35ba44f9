//! What a plan comes to, record by record.

use vstd::prelude::*;

use crate::conflicts;
use crate::consistency;
use crate::engine;
use crate::engine::{AnalysisModel, InputModel, RecordModel, RuleConfigModel};
use crate::import;
use crate::ledger::{
    DatasetModel, GroupDecisionModel, PlanModel, StateModel, StoredMapping, StoredMappingModel,
    StoredRecordKind, StoredRecordModel,
};
use crate::mappings;
use crate::migrations;
use crate::order;
use crate::sorting;

verus! {

/// The decision on a bucket asks for the mapping, given the values of records under the old and the
/// new rules.
pub open spec fn explained(
    plan: PlanModel,
    source: Map<Seq<char>, Seq<char>>,
    target: Map<Seq<char>, Seq<char>>,
    bucket: Seq<char>,
    m: StoredMappingModel,
) -> bool {
    let id = m.record_id;
    let decision = plan.decisions[bucket];
    &&& plan.groups.contains_key(bucket)
    &&& plan.groups[bucket].contains(id)
    &&& plan.decisions.contains_key(bucket)
    &&& m.action == "keep-alias"@ || m.action == "rename"@ ==> m.old_canonical == (
    if source.contains_key(id) {
        source[id]
    } else {
        bucket
    })
    &&& m.action == "old-alias"@ ==> m.old_canonical == bucket && decision.keep_old_alias
    &&& {
        ||| {
            &&& m.action == "keep-alias"@
            &&& decision.action == "keep-alias"@
            &&& decision.primary_record_id is Some
            &&& plan.groups[bucket].contains(decision.primary_record_id->0)
            &&& m.new_canonical == target[decision.primary_record_id->0]
        }
        ||| {
            &&& m.action == "rename"@ || m.action == "old-alias"@
            &&& decision.action == "rename"@
            &&& decision.replacements.contains_key(id)
            &&& is_replacement(plan.rules, decision.replacements[id], m.new_canonical)
        }
    }
}

/// A value is what a replacement text comes to under some rules; the text is eligible and not empty.
pub open spec fn is_replacement(rules: RuleConfigModel, content: Seq<char>, value: Seq<char>) -> bool {
    exists|input: InputModel|
        {
            &&& !input.codepoint_source
            &&& input.original_bytes == vstd::utf8::encode_utf8(content)
            &&& (#[trigger] engine::analysis_of(rules, seq![input])).records[0].eligible
            &&& engine::analysis_of(rules, seq![input]).records[0].canonical == value
            &&& value.len() > 0
        }
}

/// Some mapping of the record has the action.
pub open spec fn has_mapping(
    done: Seq<StoredMappingModel>,
    id: Seq<char>,
    action: Seq<char>,
) -> bool {
    exists|i: int|
        0 <= i < done.len() && (#[trigger] done[i]).record_id == id && done[i].action == action
}

/// The mappings that a decision asks for are there.
pub open spec fn all_there(plan: PlanModel, done: Seq<StoredMappingModel>, bucket: Seq<char>) -> bool {
    let decision = plan.decisions[bucket];
    forall|id: Seq<char>| #[trigger]
        plan.groups[bucket].contains(id) ==> {
            &&& decision.action == "keep-alias"@ ==> has_mapping(done, id, "keep-alias"@)
            &&& decision.action == "rename"@ ==> has_mapping(done, id, "rename"@)
            &&& decision.action == "rename"@ && decision.keep_old_alias ==> has_mapping(
                done,
                id,
                "old-alias"@,
            )
        }
}

proof fn lemma_replacement(rules: RuleConfigModel, content: Seq<char>)
    requires
        mappings::replacement_value(rules, content) is Ok,
    ensures
        is_replacement(rules, content, mappings::replacement_value(rules, content)->Ok_0),
{
    let input = engine::query_input(content);
    let analysis = engine::analysis_of(rules, seq![input]);
    assert(analysis.records[0] == engine::record_of(rules, input));
}

proof fn lemma_has_mapping_grows(
    some: Seq<StoredMappingModel>,
    all: Seq<StoredMappingModel>,
    id: Seq<char>,
    action: Seq<char>,
    from: int,
)
    requires
        has_mapping(some, id, action),
        0 <= from <= all.len() - some.len(),
        some == all.subrange(from, from + some.len()),
    ensures
        has_mapping(all, id, action),
{
    let k = choose|k: int|
        0 <= k < some.len() && (#[trigger] some[k]).record_id == id && some[k].action == action;
    assert(all[from + k] == some[k]);
}

proof fn lemma_actions_differ()
    ensures
        "keep-alias"@ != "rename"@,
        "keep-alias"@ != "old-alias"@,
        "rename"@ != "old-alias"@,
        "auto"@ != "keep-alias"@,
        "auto"@ != "rename"@,
        "auto"@ != "old-alias"@,
        "reject"@ != "rename"@,
        "reject"@ != "keep-alias"@,
{
    reveal_strlit("keep-alias");
    reveal_strlit("rename");
    reveal_strlit("old-alias");
    reveal_strlit("auto");
    reveal_strlit("reject");
    assert("keep-alias"@.len() == 10 && "rename"@.len() == 6 && "old-alias"@.len() == 9
        && "auto"@.len() == 4 && "reject"@.len() == 6);
    assert("reject"@[2] == 'j' && "rename"@[2] == 'n');
}

proof fn lemma_renames(
    plan: PlanModel,
    source: Map<Seq<char>, Seq<char>>,
    target: Map<Seq<char>, Seq<char>>,
    bucket: Seq<char>,
    ids: Seq<Seq<char>>,
)
    requires
        plan.groups.contains_key(bucket),
        plan.decisions.contains_key(bucket),
        plan.decisions[bucket].action == "rename"@,
        forall|k: int| 0 <= k < ids.len() ==> plan.groups[bucket].contains(#[trigger] ids[k]),
        mappings::rename_mappings(
            plan.rules,
            plan.decisions[bucket],
            source,
            bucket,
            ids,
        ) is Ok,
    ensures
        ({
            let all = mappings::rename_mappings(
                plan.rules,
                plan.decisions[bucket],
                source,
                bucket,
                ids,
            )->Ok_0;
            &&& forall|j: int|
                0 <= j < all.len() ==> explained(plan, source, target, bucket, #[trigger] all[j])
            &&& forall|k: int|
                0 <= k < ids.len() ==> has_mapping(all, #[trigger] ids[k], "rename"@) && (
                plan.decisions[bucket].keep_old_alias ==> has_mapping(all, ids[k], "old-alias"@))
        }),
    decreases ids.len(),
{
    if ids.len() > 0 {
        lemma_actions_differ();
        let decision = plan.decisions[bucket];
        let front = ids.drop_last();
        let id = ids[ids.len() - 1];
        assert forall|k: int| 0 <= k < front.len() implies plan.groups[bucket].contains(
            #[trigger] front[k],
        ) by {
            assert(front[k] == ids[k]);
        }
        lemma_renames(plan, source, target, bucket, front);
        let all = mappings::rename_mappings(plan.rules, decision, source, bucket, ids)->Ok_0;
        let before = mappings::rename_mappings(plan.rules, decision, source, bucket, front)->Ok_0;
        let n = before.len() as int;
        assert(all.subrange(0, n) =~= before);
        lemma_replacement(plan.rules, decision.replacements[id]);
        assert(plan.groups[bucket].contains(id));
        assert forall|j: int| 0 <= j < all.len() implies explained(
            plan,
            source,
            target,
            bucket,
            #[trigger] all[j],
        ) by {
            if j < n {
                assert(all[j] == before[j]);
            }
        }
        assert forall|k: int| 0 <= k < ids.len() implies has_mapping(
            all,
            #[trigger] ids[k],
            "rename"@,
        ) && (decision.keep_old_alias ==> has_mapping(all, ids[k], "old-alias"@)) by {
            if k < front.len() {
                assert(front[k] == ids[k]);
                lemma_has_mapping_grows(before, all, ids[k], "rename"@, 0);
                if decision.keep_old_alias {
                    lemma_has_mapping_grows(before, all, ids[k], "old-alias"@, 0);
                }
            } else {
                assert(all[n].record_id == id && all[n].action == "rename"@);
                if decision.keep_old_alias {
                    assert(all[n + 1].record_id == id && all[n + 1].action == "old-alias"@);
                }
            }
        }
    }
}

proof fn lemma_bucket_explained(
    plan: PlanModel,
    source: Map<Seq<char>, Seq<char>>,
    target: Map<Seq<char>, Seq<char>>,
    bucket: Seq<char>,
)
    requires
        plan.groups.contains_key(bucket),
        mappings::bucket_mappings(plan, source, target, bucket) is Ok,
    ensures
        plan.decisions.contains_key(bucket),
        ({
            let all = mappings::bucket_mappings(plan, source, target, bucket)->Ok_0;
            &&& forall|j: int|
                0 <= j < all.len() ==> explained(plan, source, target, bucket, #[trigger] all[j])
            &&& all_there(plan, all, bucket)
        }),
{
    lemma_actions_differ();
    let all = mappings::bucket_mappings(plan, source, target, bucket)->Ok_0;
    let decision = plan.decisions[bucket];
    let ids = plan.groups[bucket];
    if decision.action == "reject"@ {
    } else if decision.action == "keep-alias"@ {
        assert forall|j: int| 0 <= j < all.len() implies explained(
            plan,
            source,
            target,
            bucket,
            #[trigger] all[j],
        ) by {
            assert(ids.contains(ids[j]));
        }
        assert forall|id: Seq<char>| #[trigger] ids.contains(id) implies has_mapping(
            all,
            id,
            "keep-alias"@,
        ) by {
            let k = choose|k: int| 0 <= k < ids.len() && ids[k] == id;
            assert(all[k].record_id == id && all[k].action == "keep-alias"@);
        }
    } else {
        lemma_renames(plan, source, target, bucket, ids);
        assert forall|id: Seq<char>| #[trigger] ids.contains(id) implies has_mapping(
            all,
            id,
            "rename"@,
        ) && (decision.keep_old_alias ==> has_mapping(all, id, "old-alias"@)) by {
            let k = choose|k: int| 0 <= k < ids.len() && ids[k] == id;
            assert(has_mapping(all, ids[k], "rename"@));
        }
    }
}

proof fn lemma_there_grows(
    plan: PlanModel,
    some: Seq<StoredMappingModel>,
    all: Seq<StoredMappingModel>,
    bucket: Seq<char>,
    from: int,
)
    requires
        all_there(plan, some, bucket),
        0 <= from <= all.len() - some.len(),
        some == all.subrange(from, from + some.len()),
    ensures
        all_there(plan, all, bucket),
{
    let decision = plan.decisions[bucket];
    assert forall|id: Seq<char>| #[trigger] plan.groups[bucket].contains(id) implies {
        &&& decision.action == "keep-alias"@ ==> has_mapping(all, id, "keep-alias"@)
        &&& decision.action == "rename"@ ==> has_mapping(all, id, "rename"@)
        &&& decision.action == "rename"@ && decision.keep_old_alias ==> has_mapping(
            all,
            id,
            "old-alias"@,
        )
    } by {
        if decision.action == "keep-alias"@ {
            lemma_has_mapping_grows(some, all, id, "keep-alias"@, from);
        }
        if decision.action == "rename"@ {
            lemma_has_mapping_grows(some, all, id, "rename"@, from);
            if decision.keep_old_alias {
                lemma_has_mapping_grows(some, all, id, "old-alias"@, from);
            }
        }
    }
}

spec fn explained_by(
    plan: PlanModel,
    source: Map<Seq<char>, Seq<char>>,
    target: Map<Seq<char>, Seq<char>>,
    buckets: Seq<Seq<char>>,
    m: StoredMappingModel,
) -> bool {
    exists|k: int|
        0 <= k < buckets.len() && explained(plan, source, target, #[trigger] buckets[k], m)
}

proof fn lemma_buckets_explained(
    plan: PlanModel,
    source: Map<Seq<char>, Seq<char>>,
    target: Map<Seq<char>, Seq<char>>,
    buckets: Seq<Seq<char>>,
)
    requires
        mappings::all_bucket_mappings(plan, source, target, buckets) is Ok,
        forall|k: int| 0 <= k < buckets.len() ==> plan.groups.contains_key(#[trigger] buckets[k]),
    ensures
        ({
            let all = mappings::all_bucket_mappings(plan, source, target, buckets)->Ok_0;
            &&& forall|j: int|
                0 <= j < all.len() ==> explained_by(plan, source, target, buckets, #[trigger] all[j])
            &&& forall|k: int|
                0 <= k < buckets.len() ==> plan.decisions.contains_key(#[trigger] buckets[k])
                    && all_there(plan, all, buckets[k])
        }),
    decreases buckets.len(),
{
    if buckets.len() > 0 {
        let front = buckets.drop_last();
        let last = buckets.len() - 1;
        assert forall|k: int| 0 <= k < front.len() implies plan.groups.contains_key(
            #[trigger] front[k],
        ) by {
            assert(front[k] == buckets[k]);
        }
        lemma_buckets_explained(plan, source, target, front);
        assert(plan.groups.contains_key(buckets[last]));
        lemma_bucket_explained(plan, source, target, buckets[last]);
        let all = mappings::all_bucket_mappings(plan, source, target, buckets)->Ok_0;
        let before = mappings::all_bucket_mappings(plan, source, target, front)->Ok_0;
        let more = mappings::bucket_mappings(plan, source, target, buckets[last])->Ok_0;
        let n = before.len() as int;
        assert(all == before + more);
        assert(all.subrange(0, n) =~= before);
        assert(all.subrange(n, n + more.len()) =~= more);
        assert forall|j: int| 0 <= j < all.len() implies explained_by(
            plan,
            source,
            target,
            buckets,
            #[trigger] all[j],
        ) by {
            if j < n {
                assert(all[j] == before[j]);
                let k = choose|k: int|
                    0 <= k < front.len() && explained(
                        plan,
                        source,
                        target,
                        #[trigger] front[k],
                        all[j],
                    );
                assert(explained(plan, source, target, buckets[k], all[j]));
            } else {
                assert(all[j] == more[j - n]);
                assert(explained(plan, source, target, buckets[last], all[j]));
            }
        }
        assert forall|k: int| 0 <= k < buckets.len() implies plan.decisions.contains_key(
            #[trigger] buckets[k],
        ) && all_there(plan, all, buckets[k]) by {
            if k < last {
                assert(front[k] == buckets[k]);
                lemma_there_grows(plan, before, all, buckets[k], 0);
            } else {
                lemma_there_grows(plan, more, all, buckets[k], n);
            }
        }
    }
}

/// The mapping of a record that no decision is about.
pub open spec fn automatic(
    plan: PlanModel,
    source: Map<Seq<char>, Seq<char>>,
    target: Map<Seq<char>, Seq<char>>,
    m: StoredMappingModel,
) -> bool {
    &&& m.action == "auto"@
    &&& target.contains_key(m.record_id)
    &&& m.new_canonical == target[m.record_id]
    &&& m.old_canonical == (if source.contains_key(m.record_id) {
        source[m.record_id]
    } else {
        seq![]
    })
    &&& forall|b: Seq<char>| #[trigger]
        plan.groups.contains_key(b) ==> !plan.groups[b].contains(m.record_id)
}

proof fn lemma_auto_shape(
    plan: PlanModel,
    asked: Seq<StoredMappingModel>,
    source: Map<Seq<char>, Seq<char>>,
    target: Map<Seq<char>, Seq<char>>,
    ids: Seq<Seq<char>>,
)
    ensures
        ({
            let all = mappings::auto_mappings(plan, asked, source, target, ids);
            &&& forall|j: int|
                0 <= j < all.len() ==> (#[trigger] all[j]).action == "auto"@ && all[j].old_canonical
                    == (if source.contains_key(all[j].record_id) {
                    source[all[j].record_id]
                } else {
                    seq![]
                })
        }),
    decreases ids.len(),
{
    if ids.len() > 0 {
        lemma_auto_shape(plan, asked, source, target, ids.drop_last());
        let all = mappings::auto_mappings(plan, asked, source, target, ids);
        let before = mappings::auto_mappings(plan, asked, source, target, ids.drop_last());
        assert forall|j: int| 0 <= j < all.len() implies (#[trigger] all[j]).action == "auto"@
            && all[j].old_canonical == (if source.contains_key(all[j].record_id) {
            source[all[j].record_id]
        } else {
            seq![]
        }) by {
            if j < before.len() {
                assert(all[j] == before[j]);
            }
        }
    }
}

/// The mappings of all records are exactly what the decisions ask for and, for the records that no
/// decision is about, that they go from their old to their new value.
pub proof fn completed_mappings_are_accounted_for(
    plan: PlanModel,
    source: Map<Seq<char>, Seq<char>>,
    target: Map<Seq<char>, Seq<char>>,
)
    requires
        mappings::completed(plan, source, target) is Ok,
        mappings::groups_fit(plan, target),
        plan.groups.dom().finite(),
        target.dom().finite(),
    ensures
        ({
            let done = mappings::completed(plan, source, target)->Ok_0;
            &&& forall|i: int|
                0 <= i < done.len() ==> automatic(plan, source, target, #[trigger] done[i]) || (
                exists|b: Seq<char>| #[trigger] explained(plan, source, target, b, done[i]))
            &&& forall|b: Seq<char>| #[trigger]
                plan.groups.contains_key(b) ==> plan.decisions.contains_key(b) && all_there(
                    plan,
                    done,
                    b,
                )
            &&& forall|id: Seq<char>| #[trigger]
                target.contains_key(id) && (forall|b: Seq<char>| #[trigger]
                    plan.groups.contains_key(b) ==> !plan.groups[b].contains(id)) ==> has_mapping(
                    done,
                    id,
                    "auto"@,
                )
        }),
{
    broadcast use vstd::seq_lib::group_to_multiset_ensures;

    let asked = mappings::requested(plan, source, target)->Ok_0;
    let ids = order::in_order(target.dom());
    let buckets = order::in_order(plan.groups.dom());
    let auto = mappings::auto_mappings(plan, asked, source, target, ids);
    let all = asked + auto;
    let done = sorting::sorted::<StoredMapping>(all);
    sorting::sorting_sorts::<StoredMapping>(all);
    order::lemma_finite_listed(target.dom());
    mappings::lemma_listed_buckets(plan);
    mappings::lemma_asked_origin(plan, source, target, buckets);
    lemma_buckets_explained(plan, source, target, buckets);
    lemma_auto_shape(plan, asked, source, target, ids);
    assert(all.subrange(0, asked.len() as int) =~= asked);
    assert forall|b: Seq<char>, id: Seq<char>| #[trigger] mappings::in_bucket(
        plan,
        b,
        id,
    ) implies mappings::known(plan, asked, id) by {
        assert(buckets.contains(b));
        let k = choose|k: int| 0 <= k < buckets.len() && buckets[k] == b;
        assert(mappings::in_bucket(plan, buckets[k], id));
    }
    assert forall|i: int| 0 <= i < done.len() implies automatic(
        plan,
        source,
        target,
        #[trigger] done[i],
    ) || (exists|b: Seq<char>| #[trigger] explained(plan, source, target, b, done[i])) by {
        let m = done[i];
        assert(done.contains(m));
        assert(done.to_multiset().count(m) > 0);
        assert(all.contains(m));
        let j = choose|j: int| 0 <= j < all.len() && all[j] == m;
        if j < asked.len() {
            assert(asked[j] == m);
            assert(explained_by(plan, source, target, buckets, asked[j]));
            let k = choose|k: int|
                0 <= k < buckets.len() && explained(plan, source, target, #[trigger] buckets[k], m);
            assert(explained(plan, source, target, buckets[k], m));
        } else {
            assert(auto[j - asked.len()] == m);
            mappings::lemma_auto_origin(plan, asked, source, target, ids, j - asked.len());
            assert(target.dom().contains(m.record_id));
            assert forall|b: Seq<char>| #[trigger]
                plan.groups.contains_key(b) implies !plan.groups[b].contains(m.record_id) by {
                if plan.groups[b].contains(m.record_id) {
                    assert(mappings::in_bucket(plan, b, m.record_id));
                }
            }
        }
    }
    assert forall|id: Seq<char>, action: Seq<char>| #[trigger]
        has_mapping(all, id, action) implies has_mapping(done, id, action) by {
        let k = choose|k: int|
            0 <= k < all.len() && (#[trigger] all[k]).record_id == id && all[k].action == action;
        let m = all[k];
        assert(all.contains(m));
        assert(all.to_multiset().count(m) > 0);
        assert(done.contains(m));
        let j = choose|j: int| 0 <= j < done.len() && done[j] == m;
        assert(done[j].record_id == id);
    }
    assert forall|b: Seq<char>| #[trigger]
        plan.groups.contains_key(b) implies plan.decisions.contains_key(b) && all_there(
        plan,
        done,
        b,
    ) by {
        assert(buckets.contains(b));
        let k = choose|k: int| 0 <= k < buckets.len() && buckets[k] == b;
        assert(plan.decisions.contains_key(buckets[k]));
        lemma_there_grows(plan, asked, all, b, 0);
        let decision = plan.decisions[b];
        assert forall|id: Seq<char>| #[trigger] plan.groups[b].contains(id) implies {
            &&& decision.action == "keep-alias"@ ==> has_mapping(done, id, "keep-alias"@)
            &&& decision.action == "rename"@ ==> has_mapping(done, id, "rename"@)
            &&& decision.action == "rename"@ && decision.keep_old_alias ==> has_mapping(
                done,
                id,
                "old-alias"@,
            )
        } by {
            if decision.action == "keep-alias"@ {
                assert(has_mapping(all, id, "keep-alias"@));
            }
            if decision.action == "rename"@ {
                assert(has_mapping(all, id, "rename"@));
                if decision.keep_old_alias {
                    assert(has_mapping(all, id, "old-alias"@));
                }
            }
        }
    }
    assert forall|id: Seq<char>| #[trigger]
        target.contains_key(id) && (forall|b: Seq<char>| #[trigger]
            plan.groups.contains_key(b) ==> !plan.groups[b].contains(id)) implies has_mapping(
        done,
        id,
        "auto"@,
    ) by {
        assert(target.dom().contains(id));
        mappings::lemma_auto_mapped(plan, asked, source, target, ids, id);
        if mappings::handled(asked, id) {
            let j = choose|j: int| 0 <= j < asked.len() && (#[trigger] asked[j]).record_id == id;
            assert(explained_by(plan, source, target, buckets, asked[j]));
            let k = choose|k: int|
                0 <= k < buckets.len() && explained(
                    plan,
                    source,
                    target,
                    #[trigger] buckets[k],
                    asked[j],
                );
            assert(plan.groups.contains_key(buckets[k]));
        }
        if mappings::left_out(plan, id) {
            let b = choose|b: Seq<char>| mappings::rejected_in(plan, b, id);
            assert(plan.groups.contains_key(b));
        }
        let j = choose|j: int| 0 <= j < auto.len() && (#[trigger] auto[j]).record_id == id;
        assert(all[asked.len() + j] == auto[j]);
        assert(has_mapping(all, id, "auto"@));
    }
}

/// A replacement comes to one value.
proof fn lemma_one_replacement(rules: RuleConfigModel, content: Seq<char>, a: Seq<char>, b: Seq<char>)
    requires
        is_replacement(rules, content, a),
        is_replacement(rules, content, b),
    ensures
        a == b,
{
    let x = choose|input: InputModel|
        {
            &&& !input.codepoint_source
            &&& input.original_bytes == vstd::utf8::encode_utf8(content)
            &&& (#[trigger] engine::analysis_of(rules, seq![input])).records[0].eligible
            &&& engine::analysis_of(rules, seq![input]).records[0].canonical == a
            &&& a.len() > 0
        };
    let y = choose|input: InputModel|
        {
            &&& !input.codepoint_source
            &&& input.original_bytes == vstd::utf8::encode_utf8(content)
            &&& (#[trigger] engine::analysis_of(rules, seq![input])).records[0].eligible
            &&& engine::analysis_of(rules, seq![input]).records[0].canonical == b
            &&& b.len() > 0
        };
    assert(engine::analysis_of(rules, seq![x]).records[0] == engine::record_of(rules, x));
    assert(engine::analysis_of(rules, seq![y]).records[0] == engine::record_of(rules, y));
    assert(engine::record_of(rules, x).canonical == engine::record_of(rules, y).canonical);
}

/// No record comes out with two values.
pub proof fn lemma_one_value(
    plan: PlanModel,
    source: Map<Seq<char>, Seq<char>>,
    target: Map<Seq<char>, Seq<char>>,
)
    requires
        mappings::completed(plan, source, target) is Ok,
        mappings::groups_fit(plan, target),
        plan.groups.dom().finite(),
        target.dom().finite(),
    ensures
        consistency::one_value_each(mappings::completed(plan, source, target)->Ok_0),
{
    lemma_actions_differ();
    completed_mappings_are_accounted_for(plan, source, target);
    let done = mappings::completed(plan, source, target)->Ok_0;
    assert forall|r: Seq<char>, a: Seq<char>, b: Seq<char>| #[trigger]
        migrations::gives(done, r, a) && #[trigger] migrations::gives(done, r, b) implies a == b by {
        let i = choose|i: int|
            0 <= i < done.len() && (#[trigger] done[i]).record_id == r && done[i].new_canonical == a;
        let j = choose|j: int|
            0 <= j < done.len() && (#[trigger] done[j]).record_id == r && done[j].new_canonical == b;
        assert(automatic(plan, source, target, done[i]) || (exists|x: Seq<char>| #[trigger]
            explained(plan, source, target, x, done[i])));
        assert(automatic(plan, source, target, done[j]) || (exists|x: Seq<char>| #[trigger]
            explained(plan, source, target, x, done[j])));
        if !automatic(plan, source, target, done[i]) {
            let x = choose|x: Seq<char>| #[trigger] explained(plan, source, target, x, done[i]);
            assert(mappings::in_bucket(plan, x, r));
            assert(!automatic(plan, source, target, done[j]));
            let y = choose|y: Seq<char>| #[trigger] explained(plan, source, target, y, done[j]);
            assert(mappings::in_bucket(plan, y, r));
            assert(x == y);
            if plan.decisions[x].action == "rename"@ {
                lemma_one_replacement(plan.rules, plan.decisions[x].replacements[r], a, b);
            }
        } else if !automatic(plan, source, target, done[j]) {
            let y = choose|y: Seq<char>| #[trigger] explained(plan, source, target, y, done[j]);
            assert(mappings::in_bucket(plan, y, r));
            assert(plan.groups.contains_key(y));
        }
    }
}

/// The records of an analysis of a sound data set have different ids.
pub proof fn lemma_distinct(
    id: Seq<char>,
    dataset: DatasetModel,
    version: u64,
    rules: RuleConfigModel,
)
    requires
        consistency::sound_dataset(id, dataset),
        import::dataset_analysis(mappings::dataset_at(dataset, version), rules) is Ok,
    ensures
        conflicts::distinct_ids(
            import::dataset_analysis(mappings::dataset_at(dataset, version), rules)->Ok_0.records,
        ),
        ({
            let then = mappings::dataset_at(dataset, version);
            let ids = order::in_order(then.records.dom());
            let records = import::dataset_analysis(then, rules)->Ok_0.records;
            &&& order::lists_in_order(ids, then.records.dom())
            &&& records.len() == ids.len()
            &&& forall|i: int|
                0 <= i < records.len() ==> (#[trigger] records[i]).record_id == ids[i]
                    && then.records.contains_key(ids[i]) && records[i] == engine::record_of(
                    rules,
                    import::record_input(then.records[ids[i]]),
                )
        }),
{
    let then = mappings::dataset_at(dataset, version);
    let ids = order::in_order(then.records.dom());
    let records = import::dataset_analysis(then, rules)->Ok_0.records;
    assert(then.records.dom().subset_of(dataset.records.dom()));
    vstd::set_lib::lemma_set_subset_finite(dataset.records.dom(), then.records.dom());
    order::lemma_finite_listed(then.records.dom());
    assert(records.len() == ids.len());
    assert forall|i: int| 0 <= i < records.len() implies (#[trigger] records[i]).record_id == ids[i]
        && then.records.contains_key(ids[i]) && records[i] == engine::record_of(
        rules,
        import::record_input(then.records[ids[i]]),
    ) by {
        assert(ids.contains(ids[i]));
        assert(then.records.dom().contains(ids[i]));
        assert(dataset.records.contains_key(ids[i]));
    }
    assert forall|i: int, j: int| 0 <= i < j < records.len() implies (
    #[trigger] records[i]).record_id != (#[trigger] records[j]).record_id by {
        assert(order::text_less(ids[i], ids[j]));
        order::lemma_text_less_irreflexive(ids[i]);
    }
}

/// A record as it is analyzed: with its id, version and text, and with the bytes that it came with.
pub open spec fn analyzed_source(kept: StoredRecordModel, input: InputModel) -> bool {
    &&& input.record_id == kept.id
    &&& input.source_version == kept.source_version
    &&& input.original_text == kept.original_text
    &&& input.codepoint_source == (kept.kind == StoredRecordKind::Codepoints)
    &&& import::payload(kept) == Some(input.original_bytes)
}

/// What an analysis says of the records of a data set up to a version: of each of them, under its
/// id and in ascending order of the ids, what it comes to alone, and of no other.
pub open spec fn analyzes(
    analysis: AnalysisModel,
    rules: RuleConfigModel,
    dataset: DatasetModel,
    version: u64,
) -> bool {
    let records = analysis.records;
    &&& analysis.rules == rules.snapshot()
    &&& forall|r: Seq<char>| #[trigger]
        dataset.records.contains_key(r) && dataset.records[r].source_version <= version
            ==> exists|i: int| 0 <= i < records.len() && (#[trigger] records[i]).record_id == r
    &&& forall|i: int|
        0 <= i < records.len() ==> {
            let r = (#[trigger] records[i]).record_id;
            &&& dataset.records.contains_key(r)
            &&& dataset.records[r].source_version <= version
            &&& exists|input: InputModel| #[trigger]
                analyzed_source(dataset.records[r], input) && records[i] == engine::analysis_of(
                    rules,
                    seq![input],
                ).records[0]
        }
    &&& forall|i: int, j: int|
        0 <= i < j < records.len() ==> order::text_less(
            (#[trigger] records[i]).record_id,
            (#[trigger] records[j]).record_id,
        )
}

/// A plan comes to analyses of the records that its data set had at the version of the plan: of one
/// under the rules that it starts from, and of one under those that it leads to.
pub proof fn outcomes_analyze_the_planned_version(s: StateModel, plan: PlanModel)
    requires
        consistency::consistent(s),
        mappings::plan_outcome(s, plan) is Ok,
    ensures
        s.datasets.contains_key(plan.dataset_id),
        analyzes(
            mappings::plan_outcome(s, plan)->Ok_0.source_analysis,
            plan.from_rules,
            s.datasets[plan.dataset_id],
            plan.dataset_version,
        ),
        analyzes(
            mappings::plan_outcome(s, plan)->Ok_0.target_analysis,
            plan.rules,
            s.datasets[plan.dataset_id],
            plan.dataset_version,
        ),
{
    let dataset = s.datasets[plan.dataset_id];
    let details = mappings::plan_outcome(s, plan)->Ok_0;
    assert(consistency::sound_dataset(plan.dataset_id, dataset));
    lemma_analyzes(plan.dataset_id, dataset, plan.dataset_version, plan.from_rules);
    lemma_analyzes(plan.dataset_id, dataset, plan.dataset_version, plan.rules);
}

/// The analysis of a data set as it was at a version says what it is to say.
pub proof fn lemma_analyzes(id: Seq<char>, dataset: DatasetModel, version: u64, rules: RuleConfigModel)
    requires
        consistency::sound_dataset(id, dataset),
        import::dataset_analysis(mappings::dataset_at(dataset, version), rules) is Ok,
    ensures
        analyzes(
            import::dataset_analysis(mappings::dataset_at(dataset, version), rules)->Ok_0,
            rules,
            dataset,
            version,
        ),
{
    let then = mappings::dataset_at(dataset, version);
    let ids = order::in_order(then.records.dom());
    let analysis = import::dataset_analysis(then, rules)->Ok_0;
    let records = analysis.records;
    lemma_distinct(id, dataset, version, rules);
    assert forall|r: Seq<char>| #[trigger]
        dataset.records.contains_key(r) && dataset.records[r].source_version
            <= version implies exists|i: int|
        0 <= i < records.len() && (#[trigger] records[i]).record_id == r by {
        assert(then.records.dom().contains(r));
        assert(ids.contains(r));
        let i = choose|i: int| 0 <= i < ids.len() && ids[i] == r;
        assert(records[i].record_id == r);
    }
    assert forall|i: int| 0 <= i < records.len() implies {
        let r = (#[trigger] records[i]).record_id;
        &&& dataset.records.contains_key(r)
        &&& dataset.records[r].source_version <= version
        &&& exists|input: InputModel| #[trigger]
            analyzed_source(dataset.records[r], input) && records[i] == engine::analysis_of(
                rules,
                seq![input],
            ).records[0]
    } by {
        let r = records[i].record_id;
        let kept = dataset.records[r];
        assert(then.records.contains_key(r));
        let input = import::record_input(kept);
        assert(dataset.records[r].id == r);
        assert(analyzed_source(kept, input));
        assert(engine::analysis_of(rules, seq![input]).records[0] == engine::record_of(
            rules,
            input,
        ));
    }
}

/// Some eligible record of an analysis has the id.
pub open spec fn eligible_in(records: Seq<RecordModel>, id: Seq<char>) -> bool {
    exists|k: int| 0 <= k < records.len() && (#[trigger] records[k]).eligible && records[k].record_id == id
}

proof fn lemma_outcome_fits(
    s: StateModel,
    id: Seq<char>,
    decisions: Map<Seq<char>, GroupDecisionModel>,
)
    requires
        consistency::consistent(s),
        s.plans.contains_key(id),
        mappings::plan_outcome(s, PlanModel { decisions, ..s.plans[id] }) is Ok,
    ensures
        ({
            let plan = PlanModel { decisions, ..s.plans[id] };
            let details = mappings::plan_outcome(s, plan)->Ok_0;
            let source = mappings::canonical_by_id(details.source_analysis.records);
            let target = mappings::canonical_by_id(details.target_analysis.records);
            &&& mappings::groups_fit(plan, target)
            &&& plan.groups.dom().finite()
            &&& target.dom().finite()
            &&& conflicts::distinct_ids(details.source_analysis.records)
            &&& conflicts::distinct_ids(details.target_analysis.records)
            &&& mappings::completed(plan, source, target) == Ok::<
                Seq<StoredMappingModel>,
                Seq<char>,
            >(details.mappings)
        }),
{
    let before = s.plans[id];
    let plan = PlanModel { decisions, ..before };
    let details = mappings::plan_outcome(s, plan)->Ok_0;
    let dataset = s.datasets[plan.dataset_id];
    assert(consistency::sound_plan(s, id, before));
    assert(consistency::sound_dataset(plan.dataset_id, dataset));
    consistency::lemma_same_fit(dataset, plan, before);
    reveal(consistency::fits_records);
    lemma_distinct(plan.dataset_id, dataset, plan.dataset_version, plan.rules);
    lemma_distinct(plan.dataset_id, dataset, plan.dataset_version, plan.from_rules);
    conflicts::lemma_values_finite(details.target_analysis.records);
}

/// Every mapping of a plan, whatever is decided: its record is eligible under the new rules. The old
/// value is the one that the record has under the rules that the plan starts from, if it has one;
/// else its new value stands for it, or nothing, where nothing is decided. Without a conflict about
/// it a record goes to its value under the new rules. With a conflict, that value is kept, or the
/// record goes to what its replacement comes to, and the value may stay as a further alias.
pub proof fn mappings_follow_the_decisions(
    s: StateModel,
    id: Seq<char>,
    decisions: Map<Seq<char>, GroupDecisionModel>,
    i: int,
)
    requires
        consistency::consistent(s),
        s.plans.contains_key(id),
        mappings::plan_outcome(s, PlanModel { decisions, ..s.plans[id] }) is Ok,
        0 <= i < mappings::plan_outcome(
            s,
            PlanModel { decisions, ..s.plans[id] },
        )->Ok_0.mappings.len(),
    ensures
        ({
            let plan = PlanModel { decisions, ..s.plans[id] };
            let details = mappings::plan_outcome(s, plan)->Ok_0;
            let old = details.source_analysis.records;
            let new = details.target_analysis.records;
            let m = details.mappings[i];
            let r = m.record_id;
            &&& eligible_in(new, r)
            &&& forall|k: int|
                0 <= k < old.len() && (#[trigger] old[k]).eligible && old[k].record_id == r
                    && m.action != "old-alias"@ ==> m.old_canonical == old[k].canonical
            &&& forall|k: int|
                0 <= k < new.len() && (#[trigger] new[k]).eligible && new[k].record_id == r ==> {
                    let value = new[k].canonical;
                    let decision = decisions[value];
                    &&& m.action == "auto"@ <==> !(plan.groups.contains_key(value)
                        && plan.groups[value].contains(r))
                    &&& m.action == "auto"@ ==> m.new_canonical == value && (!eligible_in(old, r)
                        ==> m.old_canonical == Seq::<char>::empty())
                    &&& m.action != "auto"@ ==> decisions.contains_key(value)
                    &&& m.action == "keep-alias"@ ==> m.new_canonical == value && decision.action
                        == "keep-alias"@
                    &&& m.action == "rename"@ || m.action == "old-alias"@ ==> decision.action
                        == "rename"@ && decision.replacements.contains_key(r) && is_replacement(
                        plan.rules,
                        decision.replacements[r],
                        m.new_canonical,
                    )
                    &&& m.action == "old-alias"@ ==> m.old_canonical == value
                        && decision.keep_old_alias
                    &&& (m.action == "keep-alias"@ || m.action == "rename"@) && !eligible_in(old, r)
                        ==> m.old_canonical == value
                    &&& m.action == "auto"@ || m.action == "keep-alias"@ || m.action == "rename"@
                        || m.action == "old-alias"@
                }
        }),
{
    lemma_actions_differ();
    lemma_outcome_fits(s, id, decisions);
    let plan = PlanModel { decisions, ..s.plans[id] };
    let details = mappings::plan_outcome(s, plan)->Ok_0;
    let old = details.source_analysis.records;
    let new = details.target_analysis.records;
    let source = mappings::canonical_by_id(old);
    let target = mappings::canonical_by_id(new);
    let m = details.mappings[i];
    let r = m.record_id;
    completed_mappings_are_accounted_for(plan, source, target);
    assert(automatic(plan, source, target, m) || (exists|b: Seq<char>| #[trigger]
        explained(plan, source, target, b, m)));
    let bucket = choose|b: Seq<char>| #[trigger] explained(plan, source, target, b, m);
    if !automatic(plan, source, target, m) {
        assert(mappings::in_bucket(plan, bucket, r));
        if m.action == "keep-alias"@ {
            assert(mappings::in_bucket(plan, bucket, decisions[bucket].primary_record_id->0));
        }
    }
    assert(target.contains_key(r));
    let t = conflicts::lemma_value_has_record(new, r);
    assert(new[t].eligible && new[t].record_id == r);
    if source.contains_key(r) {
        let o = conflicts::lemma_value_has_record(old, r);
        assert(old[o].eligible && old[o].record_id == r);
    }
    assert forall|k: int|
        0 <= k < old.len() && (#[trigger] old[k]).eligible && old[k].record_id
            == r implies source.contains_key(r) && source[r] == old[k].canonical by {
        conflicts::lemma_record_has_value(old, k);
    }
    assert forall|k: int|
        0 <= k < new.len() && (#[trigger] new[k]).eligible && new[k].record_id == r implies target[r]
        == new[k].canonical by {
        conflicts::lemma_record_has_value(new, k);
    }
    if automatic(plan, source, target, m) {
        assert(!(plan.groups.contains_key(target[r]) && plan.groups[target[r]].contains(r)));
    } else {
        assert(bucket == target[r]);
    }
}

/// Every record that is eligible under the new rules is mapped as was decided: without a conflict
/// about it to its value; with one, as an alias of its value, or by its replacement, with a further
/// alias where that was asked for, or not at all.
pub proof fn records_are_mapped_as_decided(
    s: StateModel,
    id: Seq<char>,
    decisions: Map<Seq<char>, GroupDecisionModel>,
    k: int,
)
    requires
        consistency::consistent(s),
        s.plans.contains_key(id),
        mappings::plan_outcome(s, PlanModel { decisions, ..s.plans[id] }) is Ok,
        0 <= k < mappings::plan_outcome(
            s,
            PlanModel { decisions, ..s.plans[id] },
        )->Ok_0.target_analysis.records.len(),
        mappings::plan_outcome(
            s,
            PlanModel { decisions, ..s.plans[id] },
        )->Ok_0.target_analysis.records[k].eligible,
    ensures
        ({
            let plan = PlanModel { decisions, ..s.plans[id] };
            let details = mappings::plan_outcome(s, plan)->Ok_0;
            let record = details.target_analysis.records[k];
            let (r, value) = (record.record_id, record.canonical);
            let done = details.mappings;
            if plan.groups.contains_key(value) && plan.groups[value].contains(r) {
                let decision = decisions[value];
                &&& decisions.contains_key(value)
                &&& has_mapping(done, r, "keep-alias"@) <==> decision.action == "keep-alias"@
                &&& has_mapping(done, r, "rename"@) <==> decision.action == "rename"@
                &&& has_mapping(done, r, "old-alias"@) <==> decision.action == "rename"@
                    && decision.keep_old_alias
                &&& !has_mapping(done, r, "auto"@)
                &&& decision.action == "reject"@ || decision.action == "keep-alias"@
                    || decision.action == "rename"@
            } else {
                &&& has_mapping(done, r, "auto"@)
                &&& !has_mapping(done, r, "keep-alias"@)
                &&& !has_mapping(done, r, "rename"@)
                &&& !has_mapping(done, r, "old-alias"@)
            }
        }),
{
    lemma_actions_differ();
    lemma_outcome_fits(s, id, decisions);
    let plan = PlanModel { decisions, ..s.plans[id] };
    let details = mappings::plan_outcome(s, plan)->Ok_0;
    let old = details.source_analysis.records;
    let new = details.target_analysis.records;
    let source = mappings::canonical_by_id(old);
    let target = mappings::canonical_by_id(new);
    let done = details.mappings;
    let (r, value) = (new[k].record_id, new[k].canonical);
    conflicts::lemma_record_has_value(new, k);
    completed_mappings_are_accounted_for(plan, source, target);
    assert forall|action: Seq<char>| #[trigger] has_mapping(done, r, action) implies exists|j: int|
        0 <= j < done.len() && (#[trigger] done[j]).record_id == r && done[j].action == action && (
        automatic(plan, source, target, done[j]) || explained(
            plan,
            source,
            target,
            value,
            done[j],
        )) by {
        let j = choose|j: int|
            0 <= j < done.len() && (#[trigger] done[j]).record_id == r && done[j].action == action;
        assert(automatic(plan, source, target, done[j]) || (exists|b: Seq<char>| #[trigger]
            explained(plan, source, target, b, done[j])));
        if !automatic(plan, source, target, done[j]) {
            let b = choose|b: Seq<char>| #[trigger] explained(plan, source, target, b, done[j]);
            assert(mappings::in_bucket(plan, b, r));
            assert(b == value);
        }
    }
    if plan.groups.contains_key(value) && plan.groups[value].contains(r) {
        assert(all_there(plan, done, value));
        lemma_known_actions(plan, source, target, value);
    } else {
        assert forall|b: Seq<char>| #[trigger] plan.groups.contains_key(b) implies !plan.groups[b].contains(
            r,
        ) by {
            if plan.groups[b].contains(r) {
                assert(mappings::in_bucket(plan, b, r));
            }
        }
    }
}

/// Where a plan comes to something, each of its decisions is one of three.
proof fn lemma_known_actions(
    plan: PlanModel,
    source: Map<Seq<char>, Seq<char>>,
    target: Map<Seq<char>, Seq<char>>,
    bucket: Seq<char>,
)
    requires
        mappings::completed(plan, source, target) is Ok,
        plan.groups.dom().finite(),
        plan.groups.contains_key(bucket),
    ensures
        plan.decisions.contains_key(bucket),
        plan.decisions[bucket].action == "reject"@ || plan.decisions[bucket].action
            == "keep-alias"@ || plan.decisions[bucket].action == "rename"@,
{
    let buckets = order::in_order(plan.groups.dom());
    mappings::lemma_listed_buckets(plan);
    assert(buckets.contains(bucket));
    let k = choose|k: int| 0 <= k < buckets.len() && buckets[k] == bucket;
    lemma_each_bucket_ok(plan, source, target, buckets, k);
}

proof fn lemma_each_bucket_ok(
    plan: PlanModel,
    source: Map<Seq<char>, Seq<char>>,
    target: Map<Seq<char>, Seq<char>>,
    buckets: Seq<Seq<char>>,
    k: int,
)
    requires
        mappings::all_bucket_mappings(plan, source, target, buckets) is Ok,
        0 <= k < buckets.len(),
    ensures
        mappings::bucket_mappings(plan, source, target, buckets[k]) is Ok,
    decreases buckets.len(),
{
    if k < buckets.len() - 1 {
        assert(buckets.drop_last()[k] == buckets[k]);
        lemma_each_bucket_ok(plan, source, target, buckets.drop_last(), k);
    }
}

} // verus!
