//! What a request to change a plan does to it.

use vstd::prelude::*;

use crate::cycles;
use crate::ledger;
use crate::ledger::{
    GroupDecisionModel, PlanModel, PlanStatus, StateModel, StoredMappingModel,
};
use crate::mappings;
use crate::order;
use crate::requests::{
    GroupDecisionReqModel, ServiceErrorModel, StepModel, UpdatePlanReqModel,
};
use crate::service;

verus! {

/// The state after a decision that has something to store.
pub open spec fn state_after(
    s: StateModel,
    outcome: Result<StepModel, ServiceErrorModel>,
) -> StateModel {
    ledger::applied(s, outcome->Ok_0->Commit_event)
}

/// There is something to store.
pub open spec fn commits(outcome: Result<StepModel, ServiceErrorModel>) -> bool {
    outcome matches Ok(step) && step is Commit
}

proof fn lemma_merged(
    groups: Map<Seq<char>, Seq<Seq<char>>>,
    decisions: Map<Seq<char>, GroupDecisionModel>,
    request: Map<Seq<char>, GroupDecisionReqModel>,
    buckets: Seq<Seq<char>>,
)
    ensures
        match service::decisions_with(groups, decisions, request, buckets) {
            Ok(merged) => {
                &&& forall|k: int| 0 <= k < buckets.len() ==> groups.contains_key(#[trigger] buckets[k])
                &&& forall|b: Seq<char>|
                    !buckets.contains(b) ==> (#[trigger] merged.contains_key(b)
                        <==> decisions.contains_key(b)) && merged[b] == decisions[b]
                &&& forall|b: Seq<char>|
                    buckets.contains(b) ==> #[trigger] merged.contains_key(b) && merged[b].action
                        == request[b].action && merged[b].primary_record_id
                        == request[b].primary_record_id && merged[b].replacements
                        == request[b].replacements && merged[b].keep_old_alias
                        == request[b].keep_old_alias
            },
            Err(_) => exists|k: int|
                0 <= k < buckets.len() && !groups.contains_key(#[trigger] buckets[k]),
        },
    decreases buckets.len(),
{
    if buckets.len() > 0 {
        let front = buckets.drop_last();
        let last = buckets.len() - 1;
        lemma_merged(groups, decisions, request, front);
        match service::decisions_with(groups, decisions, request, front) {
            Err(_) => {
                let k = choose|k: int|
                    0 <= k < front.len() && !groups.contains_key(#[trigger] front[k]);
                assert(buckets[k] == front[k]);
            },
            Ok(before) => {
                if groups.contains_key(buckets[last]) {
                    assert forall|b: Seq<char>| buckets.contains(b) <==> front.contains(b) || b
                        == buckets[last] by {
                        if front.contains(b) {
                            let k = choose|k: int| 0 <= k < front.len() && front[k] == b;
                            assert(buckets[k] == b);
                        }
                        if buckets.contains(b) {
                            let k = choose|k: int| 0 <= k < buckets.len() && buckets[k] == b;
                            if k < last {
                                assert(front[k] == b);
                            }
                        }
                    }
                    assert forall|k: int| 0 <= k < buckets.len() implies groups.contains_key(
                        #[trigger] buckets[k],
                    ) by {
                        if k < last {
                            assert(front[k] == buckets[k]);
                        }
                    }
                } else {
                    assert(!groups.contains_key(buckets[last]));
                }
            },
        }
    }
}

proof fn lemma_taken_in(plan: PlanModel, request: UpdatePlanReqModel)
    requires
        request.decisions.dom().finite(),
    ensures
        match service::decisions_with(
            plan.groups,
            plan.decisions,
            request.decisions,
            order::in_order(request.decisions.dom()),
        ) {
            Ok(merged) => {
                &&& forall|b: Seq<char>| #[trigger]
                    request.decisions.contains_key(b) ==> plan.groups.contains_key(b)
                &&& forall|b: Seq<char>|
                    !request.decisions.contains_key(b) ==> (#[trigger] merged.contains_key(b)
                        <==> plan.decisions.contains_key(b)) && merged[b] == plan.decisions[b]
                &&& forall|b: Seq<char>|
                    request.decisions.contains_key(b) ==> #[trigger] merged.contains_key(b)
                        && merged[b].action == request.decisions[b].action
                        && merged[b].primary_record_id == request.decisions[b].primary_record_id
                        && merged[b].replacements == request.decisions[b].replacements
                        && merged[b].keep_old_alias == request.decisions[b].keep_old_alias
            },
            Err(_) => exists|b: Seq<char>| #[trigger]
                request.decisions.contains_key(b) && !plan.groups.contains_key(b),
        },
{
    let buckets = order::in_order(request.decisions.dom());
    order::lemma_finite_listed(request.decisions.dom());
    lemma_merged(plan.groups, plan.decisions, request.decisions, buckets);
    assert forall|b: Seq<char>| buckets.contains(b) <==> #[trigger] request.decisions.contains_key(
        b,
    ) by {
        assert(request.decisions.dom().contains(b) <==> buckets.contains(b));
    }
    match service::decisions_with(plan.groups, plan.decisions, request.decisions, buckets) {
        Ok(_) => {
            assert forall|b: Seq<char>| #[trigger]
                request.decisions.contains_key(b) implies plan.groups.contains_key(b) by {
                assert(buckets.contains(b));
                let k = choose|k: int| 0 <= k < buckets.len() && buckets[k] == b;
                assert(plan.groups.contains_key(buckets[k]));
            }
        },
        Err(_) => {
            let k = choose|k: int|
                0 <= k < buckets.len() && !plan.groups.contains_key(#[trigger] buckets[k]);
            assert(buckets.contains(buckets[k]));
            assert(request.decisions.contains_key(buckets[k]));
        },
    }
}

proof fn lemma_stored_decisions(
    s: StateModel,
    id: Seq<char>,
    request: UpdatePlanReqModel,
    key: Option<Seq<char>>,
)
    requires
        commits(service::plan_change(s, id, request, key)),
        s.plans[id].id == id,
    ensures
        service::decisions_with(
            s.plans[id].groups,
            s.plans[id].decisions,
            request.decisions,
            order::in_order(request.decisions.dom()),
        ) == Ok::<Map<Seq<char>, GroupDecisionModel>, Seq<char>>(
            state_after(s, service::plan_change(s, id, request, key)).plans[id].decisions,
        ),
{
}

/// Decisions are merged: where a plan is changed, every bucket that the request names has the
/// decision that was asked for, and every other bucket has the decision that it had, or none. All
/// named buckets are conflicts of the plan.
pub proof fn decisions_are_merged(
    s: StateModel,
    id: Seq<char>,
    request: UpdatePlanReqModel,
    key: Option<Seq<char>>,
    bucket: Seq<char>,
)
    requires
        commits(service::plan_change(s, id, request, key)),
        request.decisions.dom().finite(),
        s.plans[id].id == id,
    ensures
        ({
            let before = s.plans[id].decisions;
            let after = state_after(s, service::plan_change(s, id, request, key)).plans[id].decisions;
            let asked = request.decisions;
            &&& asked.contains_key(bucket) ==> {
                &&& s.plans[id].groups.contains_key(bucket)
                &&& after.contains_key(bucket)
                &&& after[bucket].action == asked[bucket].action
                &&& after[bucket].primary_record_id == asked[bucket].primary_record_id
                &&& after[bucket].replacements == asked[bucket].replacements
                &&& after[bucket].keep_old_alias == asked[bucket].keep_old_alias
            }
            &&& !asked.contains_key(bucket) ==> {
                &&& after.contains_key(bucket) <==> before.contains_key(bucket)
                &&& before.contains_key(bucket) ==> after[bucket] == before[bucket]
            }
        }),
{
    let before = s.plans[id].decisions;
    let after = state_after(s, service::plan_change(s, id, request, key)).plans[id].decisions;
    lemma_stored_decisions(s, id, request, key);
    lemma_taken_in(s.plans[id], request);
    if request.decisions.contains_key(bucket) {
        assert(after.contains_key(bucket));
    } else {
        assert(after.contains_key(bucket) <==> before.contains_key(bucket));
    }
}

/// A change of a plan raises its version by one and sets its status to what was asked for; nothing
/// that the plan was made up from is changed, and no other plan, data set or migration.
pub proof fn changes_touch_only_decisions_and_status(
    s: StateModel,
    id: Seq<char>,
    request: UpdatePlanReqModel,
    key: Option<Seq<char>>,
)
    requires
        commits(service::plan_change(s, id, request, key)),
        s.plans[id].id == id,
        s.plans[id].version < u64::MAX,
    ensures
        ({
            let before = s.plans[id];
            let t = state_after(s, service::plan_change(s, id, request, key));
            let after = t.plans[id];
            &&& before.version == request.expected_version
            &&& after.version == before.version + 1
            &&& request.status is None ==> after.status == before.status && after.baseline_mappings
                == before.baseline_mappings
            &&& request.status is Some ==> before.status == PlanStatus::Draft
            &&& request.status matches Some(status) ==> (status == "approved"@ && after.status
                == PlanStatus::Approved) || (status == "rejected"@ && after.status
                == PlanStatus::Rejected && after.baseline_mappings == before.baseline_mappings)
            &&& after.id == before.id
            &&& after.dataset_id == before.dataset_id
            &&& after.dataset_version == before.dataset_version
            &&& after.from_rules == before.from_rules
            &&& after.from_snapshot_json == before.from_snapshot_json
            &&& after.rules == before.rules
            &&& after.rule_snapshot_json == before.rule_snapshot_json
            &&& after.groups == before.groups
            &&& forall|other: Seq<char>|
                other != id ==> (#[trigger] t.plans.contains_key(other) <==> s.plans.contains_key(
                    other,
                )) && t.plans[other] == s.plans[other]
            &&& t.datasets == s.datasets
            &&& t.migrations == s.migrations
        }),
{
}

/// A draft, or a plan that was rejected, takes in every decision on its conflicts: such a request
/// without a status and without a key is stored. It is refused where it names anything else.
pub proof fn decisions_on_conflicts_are_taken_in(
    s: StateModel,
    id: Seq<char>,
    request: UpdatePlanReqModel,
)
    requires
        s.plans.contains_key(id),
        s.plans[id].status == PlanStatus::Draft || s.plans[id].status == PlanStatus::Rejected,
        s.plans[id].version == request.expected_version,
        request.status is None,
        request.decisions.dom().finite(),
    ensures
        commits(service::plan_change(s, id, request, None)) <==> forall|b: Seq<char>| #[trigger]
            request.decisions.contains_key(b) ==> s.plans[id].groups.contains_key(b),
        !commits(service::plan_change(s, id, request, None)) ==> (service::plan_change(
            s,
            id,
            request,
            None,
        ) matches Err(error) && error.status == 400),
{
    lemma_taken_in(s.plans[id], request);
}

/// A value is an alias of another by some mapping, among some or in a migration.
pub open spec fn leads_to(
    s: StateModel,
    done: Seq<StoredMappingModel>,
    from: Seq<char>,
    to: Seq<char>,
) -> bool {
    from != to && ((exists|i: int|
        0 <= i < done.len() && (#[trigger] done[i]).old_canonical == from && done[i].new_canonical
            == to) || exists|p: Seq<char>, i: int|
        s.migrations.contains_key(p) && 0 <= i < s.migrations[p].mappings.len() && (
        #[trigger] s.migrations[p].mappings[i]).old_canonical == from
            && s.migrations[p].mappings[i].new_canonical == to)
}

proof fn lemma_leads_to(
    s: StateModel,
    done: Seq<StoredMappingModel>,
    from: Seq<char>,
    to: Seq<char>,
)
    ensures
        leads_to(s, done, from, to) <==> mappings::alias_graph(s, done).contains((from, to)),
{
    if leads_to(s, done, from, to) {
        if exists|i: int|
            0 <= i < done.len() && (#[trigger] done[i]).old_canonical == from
                && done[i].new_canonical == to {
        } else {
            let (p, i) = choose|p: Seq<char>, i: int|
                s.migrations.contains_key(p) && 0 <= i < s.migrations[p].mappings.len() && (
                #[trigger] s.migrations[p].mappings[i]).old_canonical == from
                    && s.migrations[p].mappings[i].new_canonical == to;
            assert(mappings::alias_links(s.migrations[p].mappings).contains((from, to)));
        }
    }
    if mappings::alias_graph(s, done).contains((from, to)) {
        if mappings::alias_links(done).contains((from, to)) {
            let i = choose|i: int|
                0 <= i < done.len() && (#[trigger] done[i]).old_canonical == from
                    && done[i].new_canonical == to;
            assert(done[i].old_canonical == from);
        } else {
            let p = choose|p: Seq<char>| #[trigger]
                s.migrations.contains_key(p) && mappings::alias_links(
                    s.migrations[p].mappings,
                ).contains((from, to));
            let all = s.migrations[p].mappings;
            let i = choose|i: int|
                0 <= i < all.len() && (#[trigger] all[i]).old_canonical == from
                    && all[i].new_canonical == to;
            assert(s.migrations[p].mappings[i].old_canonical == from);
        }
    }
}

/// No value is an alias of itself, however long the way: where a plan is approved, going from value
/// to value along its mappings and those of all migrations never leads back.
pub proof fn approved_aliases_never_lead_back(
    s: StateModel,
    id: Seq<char>,
    request: UpdatePlanReqModel,
    key: Option<Seq<char>>,
    way: Seq<Seq<char>>,
)
    requires
        commits(service::plan_change(s, id, request, key)),
        request.status == Some("approved"@),
        s.plans[id].id == id,
        way.len() >= 2,
        ({
            let done = state_after(
                s,
                service::plan_change(s, id, request, key),
            ).plans[id].baseline_mappings;
            forall|k: int| 0 <= k < way.len() - 1 ==> leads_to(s, done, #[trigger] way[k], way[k + 1])
        }),
    ensures
        way[0] != way.last(),
{
    let done = state_after(
        s,
        service::plan_change(s, id, request, key),
    ).plans[id].baseline_mappings;
    let g = mappings::alias_graph(s, done);
    assert(mappings::closed_cycle(s, done) is None);
    if way[0] == way.last() {
        assert forall|k: int| 0 <= k < way.len() - 1 implies #[trigger] cycles::step(g, way, k) by {
            lemma_leads_to(s, done, way[k], way[k + 1]);
        }
        assert(cycles::cycle(g, way));
    }
}

/// A draft is approved exactly if the plan with the merged decisions comes to something, every
/// conflict has a decision, and no alias leads back to itself. What is approved is what the plan
/// comes to.
pub proof fn decided_drafts_are_approved(
    s: StateModel,
    id: Seq<char>,
    request: UpdatePlanReqModel,
    decided: PlanModel,
)
    requires
        s.plans.contains_key(id),
        s.plans[id].id == id,
        s.plans[id].status == PlanStatus::Draft,
        s.plans[id].version == request.expected_version,
        request.status == Some("approved"@),
        request.decisions.dom().finite(),
        s.plans[id].groups.dom().finite(),
        forall|b: Seq<char>| #[trigger]
            request.decisions.contains_key(b) ==> s.plans[id].groups.contains_key(b),
        decided == (PlanModel { decisions: decided.decisions, ..s.plans[id] }),
        forall|b: Seq<char>| #[trigger] decided.decisions.contains_key(b) <==>
            request.decisions.contains_key(b) || s.plans[id].decisions.contains_key(b),
        forall|b: Seq<char>| #[trigger]
            decided.decisions.contains_key(b) ==> if request.decisions.contains_key(b) {
                &&& decided.decisions[b].action == request.decisions[b].action
                &&& decided.decisions[b].primary_record_id == request.decisions[b].primary_record_id
                &&& decided.decisions[b].replacements == request.decisions[b].replacements
                &&& decided.decisions[b].keep_old_alias == request.decisions[b].keep_old_alias
            } else {
                decided.decisions[b] == s.plans[id].decisions[b]
            },
        forall|b: Seq<char>| #[trigger]
            decided.decisions.contains_key(b) <==> decided.groups.contains_key(b),
    ensures
        ({
            let outcome = service::plan_change(s, id, request, None);
            let comes_to = mappings::plan_outcome(s, decided);
            &&& commits(outcome) <==> comes_to is Ok && forall|way: Seq<Seq<char>>|
                way.len() >= 2 && (forall|k: int|
                    0 <= k < way.len() - 1 ==> leads_to(
                        s,
                        comes_to->Ok_0.mappings,
                        #[trigger] way[k],
                        way[k + 1],
                    )) ==> #[trigger] way[0] != way.last()
            &&& commits(outcome) ==> state_after(s, outcome).plans[id].baseline_mappings
                == comes_to->Ok_0.mappings
            &&& !commits(outcome) && comes_to is Ok ==> (outcome matches Err(error) && error.status
                == 422)
            &&& comes_to is Err ==> outcome == Err::<StepModel, ServiceErrorModel>(comes_to->Err_0)
        }),
{
    lemma_taken_in(s.plans[id], request);
    let merged = service::decisions_with(
        s.plans[id].groups,
        s.plans[id].decisions,
        request.decisions,
        order::in_order(request.decisions.dom()),
    )->Ok_0;
    assert forall|b: Seq<char>| #[trigger] merged.contains_key(b) <==> decided.decisions.contains_key(
        b,
    ) by {}
    assert forall|b: Seq<char>| #[trigger] merged.contains_key(b) implies merged[b]
        == decided.decisions[b] by {
        assert(decided.decisions.contains_key(b));
        assert(merged[b] =~= decided.decisions[b]);
    }
    assert(merged =~= decided.decisions);
    assert(decided.decisions.dom() =~= decided.groups.dom());
    let outcome = service::plan_change(s, id, request, None);
    let comes_to = mappings::plan_outcome(s, decided);
    if comes_to is Ok {
        let done = comes_to->Ok_0.mappings;
        let g = mappings::alias_graph(s, done);
        if exists|p: Seq<Seq<char>>| cycles::cycle(g, p) {
            let way = choose|p: Seq<Seq<char>>| cycles::cycle(g, p);
            assert forall|k: int| 0 <= k < way.len() - 1 implies leads_to(
                s,
                done,
                #[trigger] way[k],
                way[k + 1],
            ) by {
                assert(cycles::step(g, way, k));
                lemma_leads_to(s, done, way[k], way[k + 1]);
            }
            assert(way[0] == way.last());
            assert(!commits(outcome));
        } else {
            assert(commits(outcome));
            assert forall|way: Seq<Seq<char>>|
                way.len() >= 2 && (forall|k: int|
                    0 <= k < way.len() - 1 ==> leads_to(
                        s,
                        done,
                        #[trigger] way[k],
                        way[k + 1],
                    )) implies #[trigger] way[0] != way.last() by {
                if way[0] == way.last() {
                    assert forall|k: int| 0 <= k < way.len() - 1 implies #[trigger] cycles::step(
                        g,
                        way,
                        k,
                    ) by {
                        assert(leads_to(s, done, way[k], way[k + 1]));
                        lemma_leads_to(s, done, way[k], way[k + 1]);
                    }
                    assert(cycles::cycle(g, way));
                }
            }
        }
    }
}

} // verus!
