//! What requests to change and to carry out a plan are answered.

use vstd::prelude::*;

use crate::ledger;
use crate::ledger::{PlanStatus, ResponseModel, StateModel};
use crate::mappings;
use crate::order;
use crate::requests::{
    ApplyPlanReqModel, ErrorDetailsModel, ServiceErrorModel, StepModel, UpdatePlanReqModel,
};
use crate::service;

verus! {

/// A change of a plan is answered with the plan as it is then stored, and with what it comes to, if
/// that can be said.
pub proof fn changes_are_answered_with_the_plan(
    s: StateModel,
    id: Seq<char>,
    request: UpdatePlanReqModel,
    key: Option<Seq<char>>,
)
    requires
        service::plan_change(s, id, request, key) matches Ok(step) && step is Commit,
        s.plans[id].id == id,
    ensures
        ({
            let step = service::plan_change(s, id, request, key)->Ok_0;
            let plan = ledger::applied(s, step->Commit_event).plans[id];
            &&& step->Commit_response matches ResponseModel::PlanView { plan: shown, details }
            &&& shown == plan
            &&& mappings::plan_outcome(s, plan) matches Ok(outcome) ==> details == Some(outcome)
            &&& mappings::plan_outcome(s, plan) is Err ==> details is None
        }),
{
}

/// A plan that is carried out is answered with its migration as it is then stored: that of the plan and
/// its data set, from the version that was approved.
pub proof fn applications_are_answered_with_the_migration(
    s: StateModel,
    id: Seq<char>,
    request: ApplyPlanReqModel,
    key: Option<Seq<char>>,
)
    requires
        service::plan_application(s, id, request, key) matches Ok(step) && step is Commit,
    ensures
        ({
            let step = service::plan_application(s, id, request, key)->Ok_0;
            let t = ledger::applied(s, step->Commit_event);
            &&& t.migrations.contains_key(id)
            &&& step->Commit_response == ResponseModel::Applied { migration: t.migrations[id] }
            &&& t.migrations[id].plan_id == id
            &&& t.migrations[id].dataset_id == s.plans[id].dataset_id
            &&& t.migrations[id].baseline_plan_version == s.plans[id].version
        }),
{
    reveal(service::migration_of);
}

/// A plan that is neither approved nor carried out is not carried out: the answer tells its status.
pub proof fn only_approved_plans_are_carried_out(
    s: StateModel,
    id: Seq<char>,
    request: ApplyPlanReqModel,
    key: Option<Seq<char>>,
)
    ensures
        !s.plans.contains_key(id) ==> (service::plan_application(s, id, request, key) matches Err(
            error,
        ) && error.status == 404),
        s.plans.contains_key(id) && s.plans[id].version == request.expected_version && (
        s.plans[id].status == PlanStatus::Draft || s.plans[id].status == PlanStatus::Rejected)
            ==> service::plan_application(s, id, request, key) == Err::<
            StepModel,
            ServiceErrorModel,
        >(
            ServiceErrorModel {
                status: 409,
                code: "illegal-state-transition"@,
                details: ErrorDetailsModel::IllegalTransition {
                    from: s.plans[id].status,
                    requested: "applied"@,
                },
            },
        ),
{
}

/// Only a draft gets another status, and only that of an approved or a rejected plan; every other
/// status is refused, and the answer tells both.
pub proof fn only_drafts_are_approved_or_rejected(
    s: StateModel,
    id: Seq<char>,
    request: UpdatePlanReqModel,
    key: Option<Seq<char>>,
    status: Seq<char>,
)
    requires
        s.plans.contains_key(id),
        s.plans[id].status == PlanStatus::Draft || s.plans[id].status == PlanStatus::Rejected,
        s.plans[id].version == request.expected_version,
        request.decisions.dom() == Set::<Seq<char>>::empty(),
        request.status == Some(status),
    ensures
        s.plans[id].status == PlanStatus::Rejected || (status != "approved"@ && status
            != "rejected"@) ==> service::plan_change(s, id, request, key) == Err::<
            StepModel,
            ServiceErrorModel,
        >(
            ServiceErrorModel {
                status: 409,
                code: "illegal-state-transition"@,
                details: ErrorDetailsModel::IllegalTransition {
                    from: s.plans[id].status,
                    requested: status,
                },
            },
        ),
        s.plans[id].status == PlanStatus::Draft && status == "rejected"@ && key is None ==> (
        service::plan_change(s, id, request, key) matches Ok(step) && step is Commit),
{
    order::lemma_in_order(seq![], request.decisions.dom());
    lemma_rejected_is_not_approved();
}

proof fn lemma_rejected_is_not_approved()
    ensures
        "rejected"@ != "approved"@,
{
    reveal_strlit("rejected");
    reveal_strlit("approved");
    assert("rejected"@[0] == 'r' && "approved"@[0] == 'a');
}

/// A plan that is not there is not changed.
pub proof fn missing_plans_are_not_changed(
    s: StateModel,
    id: Seq<char>,
    request: UpdatePlanReqModel,
    key: Option<Seq<char>>,
)
    requires
        !s.plans.contains_key(id),
    ensures
        service::plan_change(s, id, request, key) matches Err(error) && error.status == 404,
        service::export_outcome(s, id) matches Err(error) && error.status == 404,
{
}

} // verus!
