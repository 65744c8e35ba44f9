//! Requests to the workbench, and what they lead to: answers, events and errors.

use vstd::prelude::*;

use crate::engine::{RuleConfig, RuleConfigModel};
use crate::ledger::{
    Event, EventModel, Plan, PlanChange, PlanChangeModel, PlanModel, PlanStatus, Response,
    ResponseModel,
};
use crate::strmap::StringMap;

verus! {

/// A record to import, with its source in exactly one form.
#[derive(Debug)]
pub struct ImportRecord {
    pub id: String,
    pub text: Option<String>,
    pub raw_base64: Option<String>,
    pub codepoints: Option<Vec<u32>>,
}

/// The model of [`ImportRecord`].
#[verifier::ext_equal]
pub struct ImportRecordModel {
    pub id: Seq<char>,
    pub text: Option<Seq<char>>,
    pub raw_base64: Option<Seq<char>>,
    pub codepoints: Option<Seq<u32>>,
}

impl DeepView for ImportRecord {
    type V = ImportRecordModel;

    open spec fn deep_view(&self) -> ImportRecordModel {
        ImportRecordModel {
            id: self.id@,
            text: self.text.deep_view(),
            raw_base64: self.raw_base64.deep_view(),
            codepoints: self.codepoints.deep_view(),
        }
    }
}

/// A request for a new data set.
#[derive(Debug)]
pub struct CreateDataset {
    pub name: String,
    pub records: Vec<ImportRecord>,
}

/// The model of [`CreateDataset`].
#[verifier::ext_equal]
pub struct CreateDatasetModel {
    pub name: Seq<char>,
    pub records: Seq<ImportRecordModel>,
}

impl DeepView for CreateDataset {
    type V = CreateDatasetModel;

    open spec fn deep_view(&self) -> CreateDatasetModel {
        CreateDatasetModel {
            name: self.name@,
            records: self.records.deep_view(),
        }
    }
}

/// A request to add records to a data set.
#[derive(Debug)]
pub struct AppendRecordsReq {
    pub expected_version: u64,
    pub records: Vec<ImportRecord>,
}

/// The model of [`AppendRecordsReq`].
#[verifier::ext_equal]
pub struct AppendRecordsReqModel {
    pub expected_version: u64,
    pub records: Seq<ImportRecordModel>,
}

impl DeepView for AppendRecordsReq {
    type V = AppendRecordsReqModel;

    open spec fn deep_view(&self) -> AppendRecordsReqModel {
        AppendRecordsReqModel {
            expected_version: self.expected_version,
            records: self.records.deep_view(),
        }
    }
}

/// A request for a new plan.
#[derive(Debug)]
pub struct CreatePlan {
    pub dataset_id: String,
    pub expected_dataset_version: u64,
    pub from_rules: Option<RuleConfig>,
    pub rules: RuleConfig,
}

/// The model of [`CreatePlan`].
#[verifier::ext_equal]
pub struct CreatePlanModel {
    pub dataset_id: Seq<char>,
    pub expected_dataset_version: u64,
    pub from_rules: Option<RuleConfigModel>,
    pub rules: RuleConfigModel,
}

impl DeepView for CreatePlan {
    type V = CreatePlanModel;

    open spec fn deep_view(&self) -> CreatePlanModel {
        CreatePlanModel {
            dataset_id: self.dataset_id@,
            expected_dataset_version: self.expected_dataset_version,
            from_rules: self.from_rules.deep_view(),
            rules: self.rules.deep_view(),
        }
    }
}

/// A decision on a bucket as it is requested.
#[derive(Debug, Clone)]
pub struct GroupDecisionReq {
    pub action: String,
    pub primary_record_id: Option<String>,
    pub replacements: StringMap<String>,
    pub keep_old_alias: bool,
}

/// The model of [`GroupDecisionReq`].
#[verifier::ext_equal]
pub struct GroupDecisionReqModel {
    pub action: Seq<char>,
    pub primary_record_id: Option<Seq<char>>,
    pub replacements: Map<Seq<char>, Seq<char>>,
    pub keep_old_alias: bool,
}

impl DeepView for GroupDecisionReq {
    type V = GroupDecisionReqModel;

    open spec fn deep_view(&self) -> GroupDecisionReqModel {
        GroupDecisionReqModel {
            action: self.action@,
            primary_record_id: self.primary_record_id.deep_view(),
            replacements: self.replacements.deep_view(),
            keep_old_alias: self.keep_old_alias,
        }
    }
}

/// A request to decide on buckets of a plan, and to approve or reject it.
#[derive(Debug)]
pub struct UpdatePlanReq {
    pub expected_version: u64,
    pub status: Option<String>,
    pub decisions: StringMap<GroupDecisionReq>,
}

/// The model of [`UpdatePlanReq`].
#[verifier::ext_equal]
pub struct UpdatePlanReqModel {
    pub expected_version: u64,
    pub status: Option<Seq<char>>,
    pub decisions: Map<Seq<char>, GroupDecisionReqModel>,
}

impl DeepView for UpdatePlanReq {
    type V = UpdatePlanReqModel;

    open spec fn deep_view(&self) -> UpdatePlanReqModel {
        UpdatePlanReqModel {
            expected_version: self.expected_version,
            status: self.status.deep_view(),
            decisions: self.decisions.deep_view(),
        }
    }
}

/// A request to carry a plan out.
#[derive(Debug)]
pub struct ApplyPlanReq {
    pub expected_version: u64,
}

/// The model of [`ApplyPlanReq`].
#[verifier::ext_equal]
pub struct ApplyPlanReqModel {
    pub expected_version: u64,
}

impl DeepView for ApplyPlanReq {
    type V = ApplyPlanReqModel;

    open spec fn deep_view(&self) -> ApplyPlanReqModel {
        ApplyPlanReqModel {
            expected_version: self.expected_version,
        }
    }
}

/// Something that keeps a plan from being carried out.
#[derive(Debug, Clone)]
pub enum Collision {
    /// A bucket that a new record is in.
    Bucket { canonical: String, record_ids: Vec<String> },
    /// A new record whose value is taken by a migration.
    NewRecord { canonical: String, new_record_id: String },
}

/// The model of [`Collision`].
#[verifier::ext_equal]
pub enum CollisionModel {
    Bucket { canonical: Seq<char>, record_ids: Seq<Seq<char>> },
    NewRecord { canonical: Seq<char>, new_record_id: Seq<char> },
}

impl DeepView for Collision {
    type V = CollisionModel;

    open spec fn deep_view(&self) -> CollisionModel {
        match self {
            Collision::Bucket { canonical, record_ids } => CollisionModel::Bucket {
                canonical: canonical@,
                record_ids: record_ids.deep_view(),
            },
            Collision::NewRecord { canonical, new_record_id } => CollisionModel::NewRecord {
                canonical: canonical@,
                new_record_id: new_record_id@,
            },
        }
    }
}

/// A record that is newer than a plan.
#[derive(Debug, Clone)]
pub struct AddedRecord {
    pub id: String,
    pub source_version: u64,
}

/// The model of [`AddedRecord`].
#[verifier::ext_equal]
pub struct AddedRecordModel {
    pub id: Seq<char>,
    pub source_version: u64,
}

impl DeepView for AddedRecord {
    type V = AddedRecordModel;

    open spec fn deep_view(&self) -> AddedRecordModel {
        AddedRecordModel {
            id: self.id@,
            source_version: self.source_version,
        }
    }
}

/// What an error is about.
#[derive(Debug, Clone)]
pub enum ErrorDetails {
    Message { message: String },
    /// A write on top of another version of a data set than the current one: both sides.
    DatasetConflict {
        current_version: u64,
        supplied_version: u64,
        server_records: Vec<String>,
        incoming_records: Vec<String>,
    },
    /// A write on top of another version of a plan than the current one: the plan as it stands, and
    /// what was written of it after the version that the write is based on.
    PlanConflict {
        base_version: u64,
        current_version: u64,
        supplied_version: u64,
        server_plan: Plan,
        changes_since_base: Vec<PlanChange>,
    },
    /// A plan for another version of a data set than the current one.
    PlanDatasetConflict { current_dataset_version: u64, supplied_dataset_version: u64 },
    AliasCycle { cycle: Vec<String> },
    IllegalTransition { from: PlanStatus, requested: String },
    /// A record that was already migrated to another value.
    MigrationConflict { record_id: String, existing: String },
    SimulationFailed {
        collisions: Vec<Collision>,
        dataset_version_at_plan: u64,
        current_dataset_version: u64,
        added_records: Vec<AddedRecord>,
    },
}

/// The model of [`ErrorDetails`].
#[verifier::ext_equal]
pub enum ErrorDetailsModel {
    Message { message: Seq<char> },
    DatasetConflict {
        current_version: u64,
        supplied_version: u64,
        server_records: Seq<Seq<char>>,
        incoming_records: Seq<Seq<char>>,
    },
    PlanConflict {
        base_version: u64,
        current_version: u64,
        supplied_version: u64,
        server_plan: PlanModel,
        changes_since_base: Seq<PlanChangeModel>,
    },
    PlanDatasetConflict { current_dataset_version: u64, supplied_dataset_version: u64 },
    AliasCycle { cycle: Seq<Seq<char>> },
    IllegalTransition { from: PlanStatus, requested: Seq<char> },
    MigrationConflict { record_id: Seq<char>, existing: Seq<char> },
    SimulationFailed {
        collisions: Seq<CollisionModel>,
        dataset_version_at_plan: u64,
        current_dataset_version: u64,
        added_records: Seq<AddedRecordModel>,
    },
}

impl DeepView for ErrorDetails {
    type V = ErrorDetailsModel;

    open spec fn deep_view(&self) -> ErrorDetailsModel {
        match self {
            ErrorDetails::Message { message } => ErrorDetailsModel::Message {
                message: message@,
            },
            ErrorDetails::DatasetConflict { current_version, supplied_version, server_records, incoming_records } => ErrorDetailsModel::DatasetConflict {
                current_version: *current_version,
                supplied_version: *supplied_version,
                server_records: server_records.deep_view(),
                incoming_records: incoming_records.deep_view(),
            },
            ErrorDetails::PlanConflict { base_version, current_version, supplied_version, server_plan, changes_since_base } => ErrorDetailsModel::PlanConflict {
                base_version: *base_version,
                current_version: *current_version,
                supplied_version: *supplied_version,
                server_plan: server_plan.deep_view(),
                changes_since_base: changes_since_base.deep_view(),
            },
            ErrorDetails::PlanDatasetConflict { current_dataset_version, supplied_dataset_version } => ErrorDetailsModel::PlanDatasetConflict {
                current_dataset_version: *current_dataset_version,
                supplied_dataset_version: *supplied_dataset_version,
            },
            ErrorDetails::AliasCycle { cycle } => ErrorDetailsModel::AliasCycle {
                cycle: cycle.deep_view(),
            },
            ErrorDetails::IllegalTransition { from, requested } => ErrorDetailsModel::IllegalTransition {
                from: *from,
                requested: requested@,
            },
            ErrorDetails::MigrationConflict { record_id, existing } => ErrorDetailsModel::MigrationConflict {
                record_id: record_id@,
                existing: existing@,
            },
            ErrorDetails::SimulationFailed { collisions, dataset_version_at_plan, current_dataset_version, added_records } => ErrorDetailsModel::SimulationFailed {
                collisions: collisions.deep_view(),
                dataset_version_at_plan: *dataset_version_at_plan,
                current_dataset_version: *current_dataset_version,
                added_records: added_records.deep_view(),
            },
        }
    }
}

/// The answer to a request that was not served.
#[derive(Debug, Clone)]
pub struct ServiceError {
    /// The HTTP status.
    pub status: u16,
    pub code: String,
    pub details: ErrorDetails,
}

/// The model of [`ServiceError`].
#[verifier::ext_equal]
pub struct ServiceErrorModel {
    pub status: u16,
    pub code: Seq<char>,
    pub details: ErrorDetailsModel,
}

impl DeepView for ServiceError {
    type V = ServiceErrorModel;

    open spec fn deep_view(&self) -> ServiceErrorModel {
        ServiceErrorModel {
            status: self.status,
            code: self.code@,
            details: self.details.deep_view(),
        }
    }
}

/// What a request leads to.
#[derive(Debug, Clone)]
pub enum Step {
    /// An answer that changes nothing.
    Reply { response: Response },
    /// An event to store and apply, and the answer once that is done.
    Commit { event: Event, response: Response },
}

/// The model of [`Step`].
#[verifier::ext_equal]
pub enum StepModel {
    Reply { response: ResponseModel },
    Commit { event: EventModel, response: ResponseModel },
}

impl DeepView for Step {
    type V = StepModel;

    open spec fn deep_view(&self) -> StepModel {
        match self {
            Step::Reply { response } => StepModel::Reply {
                response: response.deep_view(),
            },
            Step::Commit { event, response } => StepModel::Commit {
                event: event.deep_view(),
                response: response.deep_view(),
            },
        }
    }
}

/// An error with a message.
pub open spec fn message_error(status: u16, code: Seq<char>, message: Seq<char>) -> ServiceErrorModel {
    ServiceErrorModel { status, code, details: ErrorDetailsModel::Message { message } }
}

/// A request that makes no sense.
pub open spec fn bad_request(message: Seq<char>) -> ServiceErrorModel {
    message_error(400, "bad-request"@, message)
}

/// A request for something that is not there.
pub open spec fn not_found(message: Seq<char>) -> ServiceErrorModel {
    message_error(404, "not-found"@, message)
}

/// A request that cannot go with what is there.
pub open spec fn conflict(message: Seq<char>) -> ServiceErrorModel {
    message_error(409, "conflict"@, message)
}

impl ServiceError {
    /// An error with its details.
    pub fn new(status: u16, code: &str, details: ErrorDetails) -> (r: Self)
        ensures
            r.deep_view() == (ServiceErrorModel {
                status,
                code: code@,
                details: details.deep_view(),
            }),
    {
        ServiceError { status, code: code.to_owned(), details }
    }

    /// A request that makes no sense.
    pub fn bad_request(message: String) -> (r: Self)
        ensures
            r.deep_view() == bad_request(message@),
    {
        ServiceError::new(400, "bad-request", ErrorDetails::Message { message })
    }

    /// A request for something that is not there.
    pub fn not_found(message: &str) -> (r: Self)
        ensures
            r.deep_view() == not_found(message@),
    {
        ServiceError::new(404, "not-found", ErrorDetails::Message { message: message.to_owned() })
    }

    /// A request that cannot go with what is there.
    pub fn conflict(message: String) -> (r: Self)
        ensures
            r.deep_view() == conflict(message@),
    {
        ServiceError::new(409, "conflict", ErrorDetails::Message { message })
    }
}

} // verus!
