//! Which decisions on a plan can be carried through.

use vstd::prelude::*;

use crate::conflicts;
use crate::consistency;
use crate::engine;
use crate::engine::{AnalysisModel, InputModel, RecordModel, RuleConfigModel};
use crate::import;
use crate::ledger::{
    DatasetModel, GroupDecisionModel, PlanModel, StateModel, StoredMappingModel,
};
use crate::mappings;
use crate::order;
use crate::outcomes;
use crate::plannings;
use crate::text;

verus! {

/// A replacement text for a record: it has a character that is no white space, and under the rules
/// of the plan it is eligible and comes to the value.
pub open spec fn replaces(rules: RuleConfigModel, content: Seq<char>, value: Seq<char>) -> bool {
    &&& exists|i: int| 0 <= i < content.len() && !text::white_space(#[trigger] content[i])
    &&& outcomes::is_replacement(rules, content, value)
}

/// The decision on a bucket renames a record to a value.
pub open spec fn renames(
    plan: PlanModel,
    bucket: Seq<char>,
    id: Seq<char>,
    value: Seq<char>,
) -> bool {
    let decision = plan.decisions[bucket];
    &&& plan.groups.contains_key(bucket)
    &&& plan.groups[bucket].contains(id)
    &&& plan.decisions.contains_key(bucket)
    &&& decision.action == "rename"@
    &&& decision.replacements.contains_key(id)
    &&& replaces(plan.rules, decision.replacements[id], value)
}

/// A decision that can be taken on a bucket: to leave it out, to keep its value with one of its records
/// as the first, or to rename all of its records, and no others.
pub open spec fn sound_decision(plan: PlanModel, bucket: Seq<char>) -> bool {
    let decision = plan.decisions[bucket];
    let ids = plan.groups[bucket];
    &&& plan.decisions.contains_key(bucket)
    &&& {
        ||| decision.action == "reject"@
        ||| {
            &&& decision.action == "keep-alias"@
            &&& decision.primary_record_id is Some
            &&& ids.contains(decision.primary_record_id->0)
        }
        ||| {
            &&& decision.action == "rename"@
            &&& decision.replacements.dom().len() == ids.len()
            &&& forall|id: Seq<char>| #[trigger]
                ids.contains(id) ==> exists|value: Seq<char>| #[trigger]
                    renames(plan, bucket, id, value)
        }
    }
}

/// Two records are renamed to one value.
pub open spec fn renamed_together(plan: PlanModel) -> bool {
    exists|a: Seq<char>, b: Seq<char>, x: Seq<char>, y: Seq<char>, value: Seq<char>|
        x != y && #[trigger] renames(plan, a, x, value) && #[trigger] renames(plan, b, y, value)
}

/// A record is renamed to the value of another eligible record, which is not renamed itself.
pub open spec fn renamed_onto(plan: PlanModel, records: Seq<RecordModel>) -> bool {
    exists|a: Seq<char>, x: Seq<char>, value: Seq<char>, k: int|
        #![trigger renames(plan, a, x, value), records[k]]
        renames(plan, a, x, value) && 0 <= k < records.len() && records[k].eligible
            && records[k].canonical == value && records[k].record_id != x && !(
        plan.groups.contains_key(value) && plan.groups[value].contains(records[k].record_id)
            && plan.decisions.contains_key(value) && plan.decisions[value].action == "rename"@)
}

/// The decisions of a plan can be carried through, given the records under its rules.
pub open spec fn carried_through(plan: PlanModel, records: Seq<RecordModel>) -> bool {
    &&& forall|b: Seq<char>| #[trigger] plan.groups.contains_key(b) ==> sound_decision(plan, b)
    &&& !renamed_together(plan)
    &&& !renamed_onto(plan, records)
}

proof fn lemma_same_value(rules: RuleConfigModel, content: Seq<char>, value: Seq<char>)
    requires
        engine::unknown_script(rules) is None,
    ensures
        replaces(rules, content, value) <==> !text::blank(content) && mappings::replacement_value(
            rules,
            content,
        ) == Ok::<Seq<char>, Seq<char>>(value),
{
    let own = engine::query_input(content);
    if outcomes::is_replacement(rules, content, value) {
        let input = choose|input: InputModel|
            {
                &&& !input.codepoint_source
                &&& input.original_bytes == vstd::utf8::encode_utf8(content)
                &&& (#[trigger] engine::analysis_of(rules, seq![input])).records[0].eligible
                &&& engine::analysis_of(rules, seq![input]).records[0].canonical == value
                &&& value.len() > 0
            };
        assert(engine::analysis_of(rules, seq![input]).records[0] == engine::record_of(
            rules,
            input,
        ));
        assert(engine::source_of(input) == engine::source_of(own));
        assert(engine::record_of(rules, own).eligible);
        assert(engine::record_of(rules, own).canonical == value);
    }
    if mappings::replacement_value(rules, content) == Ok::<Seq<char>, Seq<char>>(value) {
        let analysis = engine::analysis_of(rules, seq![own]);
        assert(analysis.records[0] == engine::record_of(rules, own));
        assert(outcomes::is_replacement(rules, content, value));
    }
    if !text::blank(content) {
        let i = choose|i: int| 0 <= i < content.len() && !text::white_space(#[trigger] content[i]);
        assert(!text::white_space(content[i]));
    }
}

/// Some mapping renames the record to the value.
pub open spec fn renamed(done: Seq<StoredMappingModel>, id: Seq<char>, value: Seq<char>) -> bool {
    exists|i: int|
        0 <= i < done.len() && (#[trigger] done[i]).action == "rename"@ && done[i].record_id == id
            && done[i].new_canonical == value
}

proof fn lemma_renamed_concat(
    a: Seq<StoredMappingModel>,
    b: Seq<StoredMappingModel>,
    id: Seq<char>,
    value: Seq<char>,
)
    ensures
        renamed(a + b, id, value) <==> renamed(a, id, value) || renamed(b, id, value),
{
    let all = a + b;
    if renamed(a, id, value) {
        let i = choose|i: int|
            0 <= i < a.len() && (#[trigger] a[i]).action == "rename"@ && a[i].record_id == id
                && a[i].new_canonical == value;
        assert(all[i] == a[i]);
    }
    if renamed(b, id, value) {
        let i = choose|i: int|
            0 <= i < b.len() && (#[trigger] b[i]).action == "rename"@ && b[i].record_id == id
                && b[i].new_canonical == value;
        assert(all[a.len() + i] == b[i]);
    }
    if renamed(all, id, value) {
        let i = choose|i: int|
            0 <= i < all.len() && (#[trigger] all[i]).action == "rename"@ && all[i].record_id == id
                && all[i].new_canonical == value;
        if i < a.len() {
            assert(a[i] == all[i]);
        } else {
            assert(b[i - a.len()] == all[i]);
        }
    }
}

proof fn lemma_actions_differ()
    ensures
        "rename"@ != "old-alias"@,
        "rename"@ != "keep-alias"@,
        "rename"@ != "reject"@,
        "keep-alias"@ != "reject"@,
{
    reveal_strlit("rename");
    reveal_strlit("old-alias");
    reveal_strlit("keep-alias");
    reveal_strlit("reject");
    assert("rename"@.len() == 6);
    assert("reject"@[2] == 'j' && "rename"@[2] == 'n');
    assert("keep-alias"@.len() == 10 && "old-alias"@.len() == 9);
}

proof fn lemma_rename_mappings(
    rules: RuleConfigModel,
    decision: GroupDecisionModel,
    source: Map<Seq<char>, Seq<char>>,
    canonical: Seq<char>,
    ids: Seq<Seq<char>>,
)
    requires
        engine::unknown_script(rules) is None,
    ensures
        mappings::rename_mappings(rules, decision, source, canonical, ids) is Ok <==> forall|
            i: int,
        |
            0 <= i < ids.len() ==> mappings::renamed_value(rules, decision, #[trigger] ids[i]) is Ok,
        mappings::rename_mappings(rules, decision, source, canonical, ids) matches Ok(done)
            ==> forall|id: Seq<char>, value: Seq<char>| #[trigger]
            renamed(done, id, value) <==> ids.contains(id) && mappings::renamed_value(
                rules,
                decision,
                id,
            ) == Ok::<Seq<char>, Seq<char>>(value),
    decreases ids.len(),
{
    lemma_actions_differ();
    if ids.len() == 0 {
        assert forall|id: Seq<char>, value: Seq<char>| !(#[trigger] renamed(
            Seq::<StoredMappingModel>::empty(),
            id,
            value,
        )) by {}
    } else {
        let front = ids.drop_last();
        let id = ids.last();
        lemma_rename_mappings(rules, decision, source, canonical, front);
        let before = mappings::rename_mappings(rules, decision, source, canonical, front);
        let now = mappings::rename_mappings(rules, decision, source, canonical, ids);
        assert forall|i: int| 0 <= i < front.len() implies #[trigger] front[i] == ids[i] by {}
        if now is Ok {
            assert forall|i: int| 0 <= i < ids.len() implies mappings::renamed_value(
                rules,
                decision,
                #[trigger] ids[i],
            ) is Ok by {
                if i < front.len() {
                    assert(mappings::renamed_value(rules, decision, front[i]) is Ok);
                }
            }
            let done = now->Ok_0;
            let less = before->Ok_0;
            let more = done.skip(less.len() as int);
            let new = mappings::renamed_value(rules, decision, id)->Ok_0;
            assert(done =~= less + more);
            assert forall|x: Seq<char>, value: Seq<char>| #[trigger]
                renamed(done, x, value) <==> ids.contains(x) && mappings::renamed_value(
                    rules,
                    decision,
                    x,
                ) == Ok::<Seq<char>, Seq<char>>(value) by {
                lemma_renamed_concat(less, more, x, value);
                assert(renamed(more, x, value) <==> x == id && value == new) by {
                    assert(more[0] == done[less.len() as int]);
                    if renamed(more, x, value) {
                        let i = choose|i: int|
                            0 <= i < more.len() && (#[trigger] more[i]).action == "rename"@
                                && more[i].record_id == x && more[i].new_canonical == value;
                        assert(more[i] == done[less.len() + i]);
                    }
                }
                if front.contains(x) {
                    let i = choose|i: int| 0 <= i < front.len() && front[i] == x;
                    assert(ids[i] == x);
                }
                if ids.contains(x) {
                    let i = choose|i: int| 0 <= i < ids.len() && ids[i] == x;
                    if i < front.len() {
                        assert(front[i] == x);
                    }
                }
                assert(ids[ids.len() - 1] == id);
            }
        }
        if forall|i: int|
            0 <= i < ids.len() ==> mappings::renamed_value(rules, decision, #[trigger] ids[i]) is Ok {
            assert forall|i: int| 0 <= i < front.len() implies mappings::renamed_value(
                rules,
                decision,
                #[trigger] front[i],
            ) is Ok by {
                assert(mappings::renamed_value(rules, decision, ids[i]) is Ok);
            }
            assert(mappings::renamed_value(rules, decision, ids[ids.len() - 1]) is Ok);
        }
    }
}

proof fn lemma_renames(plan: PlanModel, bucket: Seq<char>, id: Seq<char>, value: Seq<char>)
    requires
        engine::unknown_script(plan.rules) is None,
        plan.groups.contains_key(bucket),
        plan.decisions.contains_key(bucket),
        plan.decisions[bucket].action == "rename"@,
    ensures
        renames(plan, bucket, id, value) <==> plan.groups[bucket].contains(id)
            && mappings::renamed_value(plan.rules, plan.decisions[bucket], id) == Ok::<
            Seq<char>,
            Seq<char>,
        >(value),
{
    let decision = plan.decisions[bucket];
    if decision.replacements.contains_key(id) {
        lemma_same_value(plan.rules, decision.replacements[id], value);
    }
}

proof fn lemma_bucket(
    plan: PlanModel,
    source: Map<Seq<char>, Seq<char>>,
    target: Map<Seq<char>, Seq<char>>,
    bucket: Seq<char>,
)
    requires
        engine::unknown_script(plan.rules) is None,
        plan.groups.contains_key(bucket),
        plan.decisions.contains_key(bucket) ==> plan.decisions[bucket].replacements.dom().finite(),
        forall|id: Seq<char>| #[trigger]
            plan.groups[bucket].contains(id) ==> target.contains_key(id),
    ensures
        mappings::bucket_mappings(plan, source, target, bucket) is Ok <==> sound_decision(
            plan,
            bucket,
        ),
        mappings::bucket_mappings(plan, source, target, bucket) matches Ok(done) ==> forall|
            id: Seq<char>,
            value: Seq<char>,
        | #[trigger]
            renamed(done, id, value) <==> renames(plan, bucket, id, value),
{
    lemma_actions_differ();
    let ids = plan.groups[bucket];
    if plan.decisions.contains_key(bucket) {
        let decision = plan.decisions[bucket];
        let outcome = mappings::bucket_mappings(plan, source, target, bucket);
        if decision.action == "rename"@ {
            order::lemma_listed_len(decision.replacements.dom());
            lemma_rename_mappings(plan.rules, decision, source, bucket, ids);
            assert forall|id: Seq<char>, value: Seq<char>| #[trigger]
                renames(plan, bucket, id, value) <==> ids.contains(id) && mappings::renamed_value(
                    plan.rules,
                    decision,
                    id,
                ) == Ok::<Seq<char>, Seq<char>>(value) by {
                lemma_renames(plan, bucket, id, value);
            }
            if outcome is Ok {
                assert forall|id: Seq<char>| #[trigger] ids.contains(id) implies exists|
                    value: Seq<char>,
                | #[trigger] renames(plan, bucket, id, value) by {
                    let i = choose|i: int| 0 <= i < ids.len() && ids[i] == id;
                    assert(mappings::renamed_value(plan.rules, decision, ids[i]) is Ok);
                    let value = mappings::renamed_value(plan.rules, decision, id)->Ok_0;
                    assert(renames(plan, bucket, id, value));
                }
            }
            if sound_decision(plan, bucket) {
                assert forall|i: int| 0 <= i < ids.len() implies mappings::renamed_value(
                    plan.rules,
                    decision,
                    #[trigger] ids[i],
                ) is Ok by {
                    assert(ids.contains(ids[i]));
                    let value = choose|value: Seq<char>| #[trigger]
                        renames(plan, bucket, ids[i], value);
                    assert(renames(plan, bucket, ids[i], value));
                }
            }
        } else {
            if outcome is Ok {
                let done = outcome->Ok_0;
                assert forall|id: Seq<char>, value: Seq<char>| !(#[trigger] renamed(
                    done,
                    id,
                    value,
                )) by {
                    if renamed(done, id, value) {
                        let i = choose|i: int|
                            0 <= i < done.len() && (#[trigger] done[i]).action == "rename"@
                                && done[i].record_id == id && done[i].new_canonical == value;
                        assert(done[i].action == "keep-alias"@);
                    }
                }
            }
        }
    }
}

/// Some of the buckets renames the record to the value.
pub open spec fn renamed_by(
    plan: PlanModel,
    buckets: Seq<Seq<char>>,
    id: Seq<char>,
    value: Seq<char>,
) -> bool {
    exists|b: int| 0 <= b < buckets.len() && renames(plan, #[trigger] buckets[b], id, value)
}

proof fn lemma_buckets(
    plan: PlanModel,
    source: Map<Seq<char>, Seq<char>>,
    target: Map<Seq<char>, Seq<char>>,
    buckets: Seq<Seq<char>>,
)
    requires
        engine::unknown_script(plan.rules) is None,
        forall|b: int| 0 <= b < buckets.len() ==> plan.groups.contains_key(#[trigger] buckets[b]),
        forall|b: Seq<char>| #[trigger]
            plan.decisions.contains_key(b) ==> plan.decisions[b].replacements.dom().finite(),
        forall|b: Seq<char>, id: Seq<char>|
            plan.groups.contains_key(b) && #[trigger] plan.groups[b].contains(id)
                ==> target.contains_key(id),
    ensures
        mappings::all_bucket_mappings(plan, source, target, buckets) is Ok <==> forall|b: int|
            0 <= b < buckets.len() ==> sound_decision(plan, #[trigger] buckets[b]),
        mappings::all_bucket_mappings(plan, source, target, buckets) matches Ok(done) ==> forall|
            id: Seq<char>,
            value: Seq<char>,
        | #[trigger]
            renamed(done, id, value) <==> renamed_by(plan, buckets, id, value),
    decreases buckets.len(),
{
    let now = mappings::all_bucket_mappings(plan, source, target, buckets);
    if buckets.len() == 0 {
        assert forall|id: Seq<char>, value: Seq<char>| !(#[trigger] renamed(
            Seq::<StoredMappingModel>::empty(),
            id,
            value,
        )) by {}
    } else {
        let front = buckets.drop_last();
        let last = buckets.len() - 1;
        assert forall|b: int| 0 <= b < front.len() implies plan.groups.contains_key(
            #[trigger] front[b],
        ) by {
            assert(plan.groups.contains_key(buckets[b]));
        }
        assert(plan.groups.contains_key(buckets[last]));
        lemma_buckets(plan, source, target, front);
        lemma_bucket(plan, source, target, buckets.last());
        if now is Ok {
            assert forall|b: int| 0 <= b < buckets.len() implies sound_decision(
                plan,
                #[trigger] buckets[b],
            ) by {
                if b < last {
                    assert(sound_decision(plan, front[b]));
                }
            }
            let less = mappings::all_bucket_mappings(plan, source, target, front)->Ok_0;
            let more = mappings::bucket_mappings(plan, source, target, buckets.last())->Ok_0;
            assert forall|id: Seq<char>, value: Seq<char>| #[trigger]
                renamed(now->Ok_0, id, value) <==> renamed_by(plan, buckets, id, value) by {
                lemma_renamed_concat(less, more, id, value);
                if renamed_by(plan, front, id, value) {
                    let b = choose|b: int|
                        0 <= b < front.len() && renames(plan, #[trigger] front[b], id, value);
                    assert(renames(plan, buckets[b], id, value));
                }
                if renames(plan, buckets.last(), id, value) {
                    assert(renames(plan, buckets[last], id, value));
                }
                if renamed_by(plan, buckets, id, value) {
                    let b = choose|b: int|
                        0 <= b < buckets.len() && renames(plan, #[trigger] buckets[b], id, value);
                    if b < last {
                        assert(renames(plan, front[b], id, value));
                    }
                }
            }
        }
        if forall|b: int| 0 <= b < buckets.len() ==> sound_decision(plan, #[trigger] buckets[b]) {
            assert forall|b: int| 0 <= b < front.len() implies sound_decision(
                plan,
                #[trigger] front[b],
            ) by {
                assert(sound_decision(plan, buckets[b]));
            }
            assert(sound_decision(plan, buckets[last]));
        }
    }
}

proof fn lemma_no_value_error(
    plan: PlanModel,
    target: Map<Seq<char>, Seq<char>>,
    done: Seq<StoredMappingModel>,
    values: Seq<Seq<char>>,
)
    ensures
        mappings::first_value_error(plan, target, done, values) is None <==> forall|i: int|
            0 <= i < values.len() ==> mappings::value_error(
                plan,
                target,
                done,
                #[trigger] values[i],
            ) is None,
    decreases values.len(),
{
    if values.len() > 0 {
        let front = values.drop_last();
        let last = values.len() - 1;
        lemma_no_value_error(plan, target, done, front);
        if mappings::first_value_error(plan, target, done, values) is None {
            assert forall|i: int| 0 <= i < values.len() implies mappings::value_error(
                plan,
                target,
                done,
                #[trigger] values[i],
            ) is None by {
                if i < last {
                    assert(mappings::value_error(plan, target, done, front[i]) is None);
                }
            }
        }
        if forall|i: int|
            0 <= i < values.len() ==> mappings::value_error(
                plan,
                target,
                done,
                #[trigger] values[i],
            ) is None {
            assert forall|i: int| 0 <= i < front.len() implies mappings::value_error(
                plan,
                target,
                done,
                #[trigger] front[i],
            ) is None by {
                assert(mappings::value_error(plan, target, done, values[i]) is None);
            }
            assert(mappings::value_error(plan, target, done, values[last]) is None);
        }
    }
}

proof fn lemma_finite_among(done: Seq<StoredMappingModel>, some: Set<Seq<char>>, ids: bool)
    requires
        forall|x: Seq<char>| #[trigger]
            some.contains(x) ==> exists|i: int|
                0 <= i < done.len() && x == if ids {
                    (#[trigger] done[i]).record_id
                } else {
                    done[i].new_canonical
                },
    ensures
        some.finite(),
{
    let all = if ids {
        Seq::new(done.len(), |i: int| done[i].record_id)
    } else {
        Seq::new(done.len(), |i: int| done[i].new_canonical)
    };
    assert forall|x: Seq<char>| #[trigger] some.contains(x) implies all.to_set().contains(x) by {
        let i = choose|i: int|
            0 <= i < done.len() && x == if ids {
                (#[trigger] done[i]).record_id
            } else {
                done[i].new_canonical
            };
        assert(all[i] == x);
        assert(all.contains(x));
    }
    vstd::set_lib::lemma_set_subset_finite(all.to_set(), some);
}

proof fn lemma_value_error(
    plan: PlanModel,
    target: Map<Seq<char>, Seq<char>>,
    done: Seq<StoredMappingModel>,
    value: Seq<char>,
    id: Seq<char>,
)
    requires
        renamed(done, id, value),
    ensures
        mappings::value_error(plan, target, done, value) is None <==> (forall|other: Seq<char>| #[trigger]
            renamed(done, other, value) ==> other == id) && !mappings::value_taken(
            plan,
            target,
            value,
            id,
        ),
{
    let some = mappings::renamed_to(done, value);
    let ids = order::in_order(some);
    assert forall|x: Seq<char>| #[trigger] some.contains(x) <==> renamed(done, x, value) by {
        if some.contains(x) {
            let i = choose|i: int|
                0 <= i < done.len() && (#[trigger] done[i]).action == "rename"@
                    && done[i].new_canonical == value && done[i].record_id == x;
            assert(done[i].record_id == x);
        }
        if renamed(done, x, value) {
            let i = choose|i: int|
                0 <= i < done.len() && (#[trigger] done[i]).action == "rename"@
                    && done[i].record_id == x && done[i].new_canonical == value;
            assert(done[i].new_canonical == value);
        }
    }
    assert forall|x: Seq<char>| #[trigger] some.contains(x) implies exists|i: int|
        0 <= i < done.len() && x == if true {
            (#[trigger] done[i]).record_id
        } else {
            done[i].new_canonical
        } by {
        let i = choose|i: int|
            0 <= i < done.len() && (#[trigger] done[i]).action == "rename"@
                && done[i].new_canonical == value && done[i].record_id == x;
        assert(done[i].record_id == x);
    }
    lemma_finite_among(done, some, true);
    order::lemma_finite_listed(some);
    assert(some.contains(id));
    assert(ids.contains(id));
    let k = choose|k: int| 0 <= k < ids.len() && ids[k] == id;
    if ids.len() == 1 {
        assert forall|other: Seq<char>| #[trigger] renamed(done, other, value) implies other
            == id by {
            assert(some.contains(other));
            assert(ids.contains(other));
            let j = choose|j: int| 0 <= j < ids.len() && ids[j] == other;
            assert(j == k);
        }
    } else {
        assert(order::text_less(ids[0], ids[1]));
        order::lemma_text_less_irreflexive(ids[0]);
        assert(ids.contains(ids[0]) && ids.contains(ids[1]));
        assert(some.contains(ids[0]) && some.contains(ids[1]));
        assert(renamed(done, ids[0], value) && renamed(done, ids[1], value));
    }
}

proof fn lemma_requested(
    plan: PlanModel,
    source: Map<Seq<char>, Seq<char>>,
    records: Seq<RecordModel>,
)
    requires
        engine::unknown_script(plan.rules) is None,
        plan.groups.dom().finite(),
        conflicts::distinct_ids(records),
        mappings::groups_fit(plan, mappings::canonical_by_id(records)),
        forall|b: Seq<char>| #[trigger]
            plan.decisions.contains_key(b) ==> plan.decisions[b].replacements.dom().finite(),
    ensures
        mappings::requested(plan, source, mappings::canonical_by_id(records)) is Ok
            <==> carried_through(plan, records),
{
    let target = mappings::canonical_by_id(records);
    let buckets = order::in_order(plan.groups.dom());
    order::lemma_finite_listed(plan.groups.dom());
    assert forall|b: int| 0 <= b < buckets.len() implies plan.groups.contains_key(
        #[trigger] buckets[b],
    ) by {
        assert(buckets.contains(buckets[b]));
        assert(plan.groups.dom().contains(buckets[b]));
    }
    assert forall|b: Seq<char>, id: Seq<char>|
        plan.groups.contains_key(b) && #[trigger] plan.groups[b].contains(
            id,
        ) implies target.contains_key(id) by {
        assert(mappings::in_bucket(plan, b, id));
    }
    lemma_buckets(plan, source, target, buckets);
    assert((forall|b: int| 0 <= b < buckets.len() ==> sound_decision(plan, #[trigger] buckets[b]))
        <==> (forall|b: Seq<char>| #[trigger]
        plan.groups.contains_key(b) ==> sound_decision(plan, b))) by {
        if forall|b: int| 0 <= b < buckets.len() ==> sound_decision(plan, #[trigger] buckets[b]) {
            assert forall|b: Seq<char>| #[trigger] plan.groups.contains_key(
                b,
            ) implies sound_decision(plan, b) by {
                assert(plan.groups.dom().contains(b));
                assert(buckets.contains(b));
                let i = choose|i: int| 0 <= i < buckets.len() && buckets[i] == b;
                assert(sound_decision(plan, buckets[i]));
            }
        }
    }
    let asked = mappings::all_bucket_mappings(plan, source, target, buckets);
    if asked is Ok {
        let done = asked->Ok_0;
        assert forall|id: Seq<char>, value: Seq<char>| #[trigger]
            renamed(done, id, value) <==> exists|b: Seq<char>| #[trigger]
                renames(plan, b, id, value) by {
            if renamed(done, id, value) {
                let b = choose|b: int|
                    0 <= b < buckets.len() && renames(plan, #[trigger] buckets[b], id, value);
                assert(renames(plan, buckets[b], id, value));
            }
            if exists|b: Seq<char>| #[trigger] renames(plan, b, id, value) {
                let b = choose|b: Seq<char>| #[trigger] renames(plan, b, id, value);
                assert(plan.groups.dom().contains(b));
                assert(buckets.contains(b));
                let i = choose|i: int| 0 <= i < buckets.len() && buckets[i] == b;
                assert(renames(plan, buckets[i], id, value));
                assert(renamed_by(plan, buckets, id, value));
            }
        }
        lemma_values(plan, records, done);
    }
}

proof fn lemma_values(plan: PlanModel, records: Seq<RecordModel>, done: Seq<StoredMappingModel>)
    requires
        conflicts::distinct_ids(records),
        forall|id: Seq<char>, value: Seq<char>| #[trigger]
            renamed(done, id, value) <==> exists|b: Seq<char>| #[trigger]
                renames(plan, b, id, value),
    ensures
        mappings::first_value_error(
            plan,
            mappings::canonical_by_id(records),
            done,
            order::in_order(mappings::rename_values(done)),
        ) is None <==> !renamed_together(plan) && !renamed_onto(plan, records),
{
    let target = mappings::canonical_by_id(records);
    let some = mappings::rename_values(done);
    let values = order::in_order(some);
    assert forall|x: Seq<char>| #[trigger] some.contains(x) implies exists|i: int|
        0 <= i < done.len() && x == if false {
            (#[trigger] done[i]).record_id
        } else {
            done[i].new_canonical
        } by {
        let i = choose|i: int|
            0 <= i < done.len() && (#[trigger] done[i]).action == "rename"@
                && done[i].new_canonical == x;
        assert(done[i].record_id == done[i].record_id);
    }
    lemma_finite_among(done, some, false);
    order::lemma_finite_listed(some);
    lemma_no_value_error(plan, target, done, values);
    assert forall|id: Seq<char>, value: Seq<char>| #[trigger] renamed(
        done,
        id,
        value,
    ) implies values.contains(value) by {
        let i = choose|i: int|
            0 <= i < done.len() && (#[trigger] done[i]).action == "rename"@ && done[i].record_id
                == id && done[i].new_canonical == value;
        assert(some.contains(value));
    }
    let none = mappings::first_value_error(plan, target, done, values) is None;
    if none {
        if renamed_together(plan) {
            let (a, b, x, y, value) = choose|
                a: Seq<char>,
                b: Seq<char>,
                x: Seq<char>,
                y: Seq<char>,
                value: Seq<char>,
            |
                x != y && #[trigger] renames(plan, a, x, value) && #[trigger] renames(
                    plan,
                    b,
                    y,
                    value,
                );
            assert(renamed(done, x, value) && renamed(done, y, value));
            assert(values.contains(value));
            let i = choose|i: int| 0 <= i < values.len() && values[i] == value;
            assert(mappings::value_error(plan, target, done, values[i]) is None);
            lemma_value_error(plan, target, done, value, x);
            assert(false);
        }
        if renamed_onto(plan, records) {
            let (a, x, value, k) = choose|a: Seq<char>, x: Seq<char>, value: Seq<char>, k: int|
                #![trigger renames(plan, a, x, value), records[k]]
                renames(plan, a, x, value) && 0 <= k < records.len() && records[k].eligible
                    && records[k].canonical == value && records[k].record_id != x && !(
                plan.groups.contains_key(value) && plan.groups[value].contains(
                    records[k].record_id,
                ) && plan.decisions.contains_key(value) && plan.decisions[value].action
                    == "rename"@);
            assert(renamed(done, x, value));
            let i = choose|i: int| 0 <= i < values.len() && values[i] == value;
            assert(mappings::value_error(plan, target, done, values[i]) is None);
            lemma_value_error(plan, target, done, value, x);
            conflicts::lemma_record_has_value(records, k);
            assert(mappings::owns_value(plan, target, value, x, records[k].record_id));
            assert(false);
        }
    }
    if !renamed_together(plan) && !renamed_onto(plan, records) {
        assert forall|i: int| 0 <= i < values.len() implies mappings::value_error(
            plan,
            target,
            done,
            #[trigger] values[i],
        ) is None by {
            let value = values[i];
            assert(values.contains(value));
            assert(some.contains(value));
            let m = choose|m: int|
                0 <= m < done.len() && (#[trigger] done[m]).action == "rename"@
                    && done[m].new_canonical == value;
            let x = done[m].record_id;
            assert(renamed(done, x, value));
            let a = choose|b: Seq<char>| #[trigger] renames(plan, b, x, value);
            lemma_value_error(plan, target, done, value, x);
            assert forall|other: Seq<char>| #[trigger] renamed(done, other, value) implies other
                == x by {
                let b = choose|b: Seq<char>| #[trigger] renames(plan, b, other, value);
                assert(renames(plan, a, x, value) && renames(plan, b, other, value));
            }
            if mappings::value_taken(plan, target, value, x) {
                let owner = choose|owner: Seq<char>|
                    mappings::owns_value(plan, target, value, x, owner);
                let k = conflicts::lemma_value_has_record(records, owner);
                assert(renames(plan, a, x, value) && records[k].eligible);
                assert(false);
            }
        }
    }
}

/// What a plan comes to can be said exactly if neither of its rules lists an unknown script, every
/// bucket has a decision that can be taken, no two records are renamed to one value, and none is renamed
/// to the value that another record keeps.
pub proof fn sound_decisions_are_carried_through(
    s: StateModel,
    id: Seq<char>,
    decisions: Map<Seq<char>, GroupDecisionModel>,
)
    requires
        consistency::consistent(s),
        s.plans.contains_key(id),
        s.plans[id].from_rules.allowed_scripts.finite(),
        s.plans[id].rules.allowed_scripts.finite(),
        forall|b: Seq<char>| #[trigger]
            decisions.contains_key(b) ==> decisions[b].replacements.dom().finite(),
    ensures
        ({
            let plan = PlanModel { decisions, ..s.plans[id] };
            let outcome = mappings::plan_outcome(s, plan);
            &&& outcome is Ok <==> !plannings::lists_unknown(plan.from_rules)
                && !plannings::lists_unknown(plan.rules) && exists|target: AnalysisModel| #[trigger]
                outcomes::analyzes(
                    target,
                    plan.rules,
                    s.datasets[plan.dataset_id],
                    plan.dataset_version,
                ) && carried_through(plan, target.records)
            &&& outcome matches Err(error) ==> error.status == 400
        }),
{
    let plan = PlanModel { decisions, ..s.plans[id] };
    let dataset = s.datasets[plan.dataset_id];
    let then = mappings::dataset_at(dataset, plan.dataset_version);
    assert(consistency::sound_plan(s, id, s.plans[id]));
    assert(consistency::sound_dataset(plan.dataset_id, dataset));
    plannings::lemma_lists_unknown(plan.from_rules);
    plannings::lemma_lists_unknown(plan.rules);
    if engine::unknown_script(plan.from_rules) is None && engine::unknown_script(plan.rules) is None {
        lemma_then(plan.dataset_id, dataset, plan.dataset_version, plan.from_rules);
        lemma_then(plan.dataset_id, dataset, plan.dataset_version, plan.rules);
        let own = import::dataset_analysis(then, plan.rules)->Ok_0;
        let source = import::dataset_analysis(then, plan.from_rules)->Ok_0;
        outcomes::lemma_analyzes(plan.dataset_id, dataset, plan.dataset_version, plan.rules);
        outcomes::lemma_distinct(plan.dataset_id, dataset, plan.dataset_version, plan.rules);
        reveal(consistency::fits_records);
        assert(mappings::groups_fit(s.plans[id], mappings::canonical_by_id(own.records)));
        lemma_same_groups(s.plans[id], plan, mappings::canonical_by_id(own.records));
        lemma_requested(plan, mappings::canonical_by_id(source.records), own.records);
        if exists|target: AnalysisModel| #[trigger]
            outcomes::analyzes(target, plan.rules, dataset, plan.dataset_version)
                && carried_through(plan, target.records) {
            let target = choose|target: AnalysisModel| #[trigger]
                outcomes::analyzes(target, plan.rules, dataset, plan.dataset_version)
                    && carried_through(plan, target.records);
            lemma_same_records(target, own, plan.rules, dataset, plan.dataset_version);
            lemma_same_way(plan, target.records, own.records);
        }
    }
}

proof fn lemma_same_groups(a: PlanModel, b: PlanModel, target: Map<Seq<char>, Seq<char>>)
    requires
        a.groups == b.groups,
        mappings::groups_fit(a, target),
    ensures
        mappings::groups_fit(b, target),
{
    assert forall|v: Seq<char>, id: Seq<char>| #[trigger]
        mappings::in_bucket(b, v, id) implies target.contains_key(id) && target[id] == v by {
        assert(mappings::in_bucket(a, v, id));
    }
    assert forall|x: Seq<char>, y: Seq<char>| #[trigger]
        target.contains_key(x) && #[trigger] target.contains_key(y) && x != y && target[x]
            == target[y] implies mappings::in_bucket(b, target[x], x) by {
        assert(mappings::in_bucket(a, target[x], x));
    }
}

proof fn lemma_then(
    id: Seq<char>,
    dataset: DatasetModel,
    version: u64,
    rules: RuleConfigModel,
)
    requires
        consistency::sound_dataset(id, dataset),
        engine::unknown_script(rules) is None,
    ensures
        import::dataset_analysis(mappings::dataset_at(dataset, version), rules) is Ok,
{
    let then = mappings::dataset_at(dataset, version);
    let records = import::records_in_order(then);
    let ids = order::in_order(then.records.dom());
    vstd::set_lib::lemma_set_subset_finite(dataset.records.dom(), then.records.dom());
    order::lemma_finite_listed(then.records.dom());
    assert forall|i: int| 0 <= i < records.len() implies import::payload(
        #[trigger] records[i],
    ) is Some by {
        assert(ids.contains(ids[i]));
        assert(then.records.dom().contains(ids[i]));
        assert(dataset.records.contains_key(ids[i]));
    }
}

/// The analysis says of the record what `said` says.
pub open spec fn found(records: Seq<RecordModel>, said: RecordModel) -> bool {
    exists|i: int| 0 <= i < records.len() && #[trigger] records[i] == said
}

proof fn lemma_same_records(
    a: AnalysisModel,
    b: AnalysisModel,
    rules: RuleConfigModel,
    dataset: DatasetModel,
    version: u64,
)
    requires
        outcomes::analyzes(a, rules, dataset, version),
        outcomes::analyzes(b, rules, dataset, version),
    ensures
        forall|i: int| 0 <= i < b.records.len() ==> found(a.records, #[trigger] b.records[i]),
{
    assert forall|i: int| 0 <= i < b.records.len() implies found(
        a.records,
        #[trigger] b.records[i],
    ) by {
        let r = b.records[i].record_id;
        assert(dataset.records.contains_key(r));
        let k = choose|k: int| 0 <= k < a.records.len() && (#[trigger] a.records[k]).record_id == r;
        let x = choose|input: InputModel| #[trigger]
            outcomes::analyzed_source(dataset.records[r], input) && b.records[i]
                == engine::analysis_of(rules, seq![input]).records[0];
        let y = choose|input: InputModel| #[trigger]
            outcomes::analyzed_source(dataset.records[r], input) && a.records[k]
                == engine::analysis_of(rules, seq![input]).records[0];
        assert(x == y);
        assert(a.records[k] == b.records[i]);
    }
}

proof fn lemma_same_way(plan: PlanModel, a: Seq<RecordModel>, b: Seq<RecordModel>)
    requires
        carried_through(plan, a),
        forall|i: int| 0 <= i < b.len() ==> found(a, #[trigger] b[i]),
    ensures
        carried_through(plan, b),
{
    if renamed_onto(plan, b) {
        let (c, x, value, k) = choose|c: Seq<char>, x: Seq<char>, value: Seq<char>, k: int|
            #![trigger renames(plan, c, x, value), b[k]]
            renames(plan, c, x, value) && 0 <= k < b.len() && b[k].eligible && b[k].canonical
                == value && b[k].record_id != x && !(plan.groups.contains_key(value)
                && plan.groups[value].contains(b[k].record_id) && plan.decisions.contains_key(value)
                && plan.decisions[value].action == "rename"@);
        assert(found(a, b[k]));
        let i = choose|i: int| 0 <= i < a.len() && #[trigger] a[i] == b[k];
        assert(renames(plan, c, x, value) && a[i].eligible);
        assert(renamed_onto(plan, a));
    }
}

} // verus!
