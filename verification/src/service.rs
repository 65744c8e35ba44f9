//! The rules of the workbench: what every request leads to.
//!
//! A request is decided on the current state alone. The decision is an answer, an error, or an event
//! with the answer to give once the event is stored; nothing is changed before that.

use vstd::prelude::*;

pub use crate::import::{analysis_for, convert_records, record_payload};
pub use crate::mappings::{
    alias_cycle, canonical_text, complete_mappings, plan_data, requested_mappings,
};
pub use crate::requests::{
    AddedRecord, AppendRecordsReq, ApplyPlanReq, Collision, CreateDataset, CreatePlan, ErrorDetails,
    GroupDecisionReq, ImportRecord, ServiceError, Step, UpdatePlanReq,
};

use crate::engine;
use crate::engine::{
    analyze_text, validate_config, Analysis, AnalysisModel, Bucket, BucketModel, RuleConfig,
    RuleConfigModel,
};
use crate::exports;
use crate::exports::export_string;
use crate::import;
use crate::json;
use crate::ledger;
use crate::ledger::{
    stable_id, AppliedMigration, AppliedMigrationModel, Change, ChangeModel, Command, CommandModel,
    Dataset, DatasetModel, Event, EventModel, GroupDecision, GroupDecisionModel, Plan,
    PlanChange, PlanChangeModel, PlanDetailsModel, PlanModel, PlanStatus, Receipt, ReceiptModel, Response, ResponseModel, State,
    StateModel, StoredMapping, StoredMappingModel, StoredRecord, StoredRecordModel,
};
use crate::mappings;
use crate::order;
use crate::requests;
use crate::requests::{
    AddedRecordModel, AppendRecordsReqModel, ApplyPlanReqModel, CollisionModel, CreateDatasetModel,
    CreatePlanModel, ErrorDetailsModel, GroupDecisionReqModel, ImportRecordModel, ServiceErrorModel,
    StepModel, UpdatePlanReqModel,
};
use crate::shapes;
use crate::shapes::{
    hash_append, hash_apply, hash_dataset, hash_plan, hash_update, shape_of_plan, shape_of_records,
    snapshot_string,
};
use crate::strmap::{StringMap, StringSet};
use crate::text;
use crate::text::{str_eq, Duplicate};

verus! {

/// A data set without its records.
pub open spec fn dataset_summary(dataset: DatasetModel) -> ResponseModel {
    ResponseModel::Dataset {
        id: dataset.id,
        name: dataset.name,
        version: dataset.version,
        record_count: order::in_order(dataset.records.dom()).len() as usize,
    }
}

fn dataset_view(dataset: &Dataset) -> (r: Response)
    ensures
        r.deep_view() == dataset_summary(dataset.deep_view()),
{
    proof {
        assert(dataset.deep_view().records.dom() =~= dataset.records@.dom());
    }
    Response::Dataset {
        id: dataset.id.clone(),
        name: dataset.name.clone(),
        version: dataset.version,
        record_count: dataset.records.len(),
    }
}

/// What a request leads to that asks for a change: a request whose key was seen before gets the
/// stored answer if it is the same request, and is refused if it is not.
pub open spec fn settled(
    s: StateModel,
    key: Option<Seq<char>>,
    hash: Seq<char>,
    change: ChangeModel,
    response: ResponseModel,
) -> Result<StepModel, ServiceErrorModel> {
    match key {
        Some(key) => if s.commands.contains_key(key) {
            if s.commands[key].request_hash != hash {
                Err(
                    requests::conflict("Idempotency-Key was reused with a different request"@),
                )
            } else {
                Ok(StepModel::Reply { response: s.commands[key].response })
            }
        } else {
            Ok(
                StepModel::Commit {
                    event: EventModel {
                        change,
                        command: Some(
                            CommandModel {
                                key,
                                receipt: ReceiptModel { request_hash: hash, response },
                            },
                        ),
                    },
                    response,
                },
            )
        },
        None => Ok(
            StepModel::Commit { event: EventModel { change, command: None }, response },
        ),
    }
}

/// The stored answer to a request whose key was seen before with the same request.
pub open spec fn answered(s: StateModel, key: Option<Seq<char>>, hash: Seq<char>) -> Option<
    ResponseModel,
> {
    match key {
        Some(key) if s.commands.contains_key(key) && s.commands[key].request_hash == hash => Some(
            s.commands[key].response,
        ),
        _ => None,
    }
}

fn find_answer(state: &State, key: &Option<String>, request_hash: &str) -> (r: Option<Response>)
    ensures
        r.deep_view() == answered(state.deep_view(), key.deep_view(), request_hash@),
{
    match key {
        Some(key) => match state.commands.get(key.as_str()) {
            Some(receipt) => if str_eq(receipt.request_hash.as_str(), request_hash) {
                Some(receipt.response.duplicate())
            } else {
                None
            },
            None => None,
        },
        None => None,
    }
}

/// Whether an outcome is the one that was specified.
pub open spec fn is_outcome(
    r: Result<Step, ServiceError>,
    model: Result<StepModel, ServiceErrorModel>,
) -> bool {
    match model {
        Ok(step) => r is Ok && r->Ok_0.deep_view() == step,
        Err(error) => r is Err && r->Err_0.deep_view() == error,
    }
}

/// Settles a request that asks for a change.
fn append_command(
    state: &State,
    key: Option<String>,
    request_hash: String,
    change: Change,
    response: Response,
) -> (r: Result<Step, ServiceError>)
    ensures
        is_outcome(
            r,
            settled(
                state.deep_view(),
                key.deep_view(),
                request_hash@,
                change.deep_view(),
                response.deep_view(),
            ),
        ),
{
    match key {
        Some(key) => {
            if let Some(receipt) = state.commands.get(key.as_str()) {
                if !str_eq(receipt.request_hash.as_str(), request_hash.as_str()) {
                    return Err(
                        ServiceError::conflict(
                            "Idempotency-Key was reused with a different request".to_owned(),
                        ),
                    );
                }
                return Ok(Step::Reply { response: receipt.response.duplicate() });
            }
            let receipt = Receipt { request_hash, response: response.duplicate() };
            let command = Command { key, receipt };
            Ok(Step::Commit { event: Event { change, command: Some(command) }, response })
        },
        None => Ok(Step::Commit { event: Event { change, command: None }, response }),
    }
}

impl State {
    /// Carries a decision out; gives the answer.
    pub fn accept(&mut self, step: Step) -> (r: Response)
        ensures
            match step.deep_view() {
                StepModel::Reply { response } => {
                    &&& r.deep_view() == response
                    &&& final(self).deep_view() == old(self).deep_view()
                },
                StepModel::Commit { event, response } => {
                    &&& r.deep_view() == response
                    &&& final(self).deep_view() == ledger::applied(old(self).deep_view(), event)
                },
            },
    {
        match step {
            Step::Reply { response } => response,
            Step::Commit { event, response } => {
                self.apply(event);
                response
            },
        }
    }
}

/// The id of a data set: it is fixed by its name and the shape of its records.
pub open spec fn dataset_id(name: Seq<char>, shape: Seq<char>) -> Seq<char> {
    ledger::stable_id_text("ds"@, seq![name, shape])
}

/// The id of a data set that repeats another.
pub open spec fn repeat_id(id: Seq<char>, n: nat) -> Seq<char> {
    id + "-"@ + text::decimal_text(n)
}

/// The first number, from one on and below a limit, by which a repeated data set has an id of its
/// own; else the limit.
pub open spec fn free_number(taken: Set<Seq<char>>, id: Seq<char>, n: nat, limit: nat) -> nat
    decreases limit - n,
{
    if n < limit && taken.contains(repeat_id(id, n)) {
        free_number(taken, id, n + 1, limit)
    } else {
        n
    }
}

/// An id, or, where it is taken, that of the first repetition that is not.
pub open spec fn free_id(taken: Set<Seq<char>>, id: Seq<char>) -> Seq<char> {
    if taken.contains(id) {
        repeat_id(id, free_number(taken, id, 1, order::in_order(taken).len()))
    } else {
        id
    }
}

/// The first free number is not taken, unless the limit is reached, and all before it are.
pub proof fn lemma_free_number(taken: Set<Seq<char>>, id: Seq<char>, n: nat, limit: nat)
    requires
        n <= limit,
    ensures
        ({
            let free = free_number(taken, id, n, limit);
            &&& n <= free <= limit
            &&& forall|k: nat| n <= k < free ==> taken.contains(#[trigger] repeat_id(id, k))
            &&& free < limit ==> !taken.contains(repeat_id(id, free))
        }),
    decreases limit - n,
{
    if n < limit && taken.contains(repeat_id(id, n)) {
        lemma_free_number(taken, id, n + 1, limit);
    }
}

/// Repetitions of a data set have different ids, none of which is that of the data set.
proof fn lemma_repeat_ids(id: Seq<char>, a: nat, b: nat)
    ensures
        repeat_id(id, a) != id,
        repeat_id(id, a) == repeat_id(id, b) ==> a == b,
{
    reveal_strlit("-");
    let head = id + "-"@;
    assert(repeat_id(id, a).len() > id.len());
    if repeat_id(id, a) == repeat_id(id, b) {
        assert(repeat_id(id, a).skip(head.len() as int) =~= text::decimal_text(a));
        assert(repeat_id(id, b).skip(head.len() as int) =~= text::decimal_text(b));
        text::lemma_decimal_injective(a, b);
    }
}

/// The id that is found for a new data set is not taken.
pub proof fn free_ids_are_free(taken: Set<Seq<char>>, id: Seq<char>)
    requires
        taken.finite(),
    ensures
        !taken.contains(free_id(taken, id)),
{
    let all = order::in_order(taken);
    let limit = all.len();
    order::lemma_finite_listed(taken);
    if taken.contains(id) {
        assert(all.contains(id));
        lemma_free_number(taken, id, 1, limit);
        if taken.contains(free_id(taken, id)) {
            let ids = Seq::new(
                limit + 1,
                |i: int|
                    if i == 0 {
                        id
                    } else {
                        repeat_id(id, i as nat)
                    },
            );
            assert forall|i: int, j: int|
                0 <= i < ids.len() && 0 <= j < ids.len() && i != j implies ids[i] != ids[j] by {
                lemma_repeat_ids(id, i as nat, j as nat);
                lemma_repeat_ids(id, j as nat, i as nat);
            }
            assert(ids.no_duplicates());
            ids.unique_seq_to_set();
            assert forall|k: Seq<char>| #[trigger] ids.to_set().contains(k) implies taken.contains(
                k,
            ) by {
                let i = choose|i: int| 0 <= i < ids.len() && ids[i] == k;
                if i > 0 {
                    assert(ids[i] == repeat_id(id, i as nat));
                }
            }
            vstd::set_lib::lemma_len_subset(ids.to_set(), taken);
            order::lemma_listed_len(taken);
        }
    }
}

/// A new data set.
pub open spec fn new_dataset(
    id: Seq<char>,
    name: Seq<char>,
    records: Seq<StoredRecordModel>,
) -> DatasetModel {
    DatasetModel { id, name, version: 1, records: ledger::with_records(Map::empty(), records) }
}

/// What a request for a data set leads to. A request with a key gets the first answer, where its key
/// was answered before, and the data set as it stands, where there is one of that name and content.
/// A request without a key always makes a new data set.
pub open spec fn dataset_creation(
    s: StateModel,
    request: CreateDatasetModel,
    key: Option<Seq<char>>,
) -> Result<StepModel, ServiceErrorModel> {
    match import::stored_all(request.records, 1) {
        Err(message) => Err(requests::bad_request(message)),
        Ok(records) => {
            let shape = shapes::records_shape(records);
            let hash = shapes::hash_text(shapes::dataset_payload(request.name, shape));
            let id = dataset_id(request.name, shape);
            if let Some(response) = answered(s, key, hash) {
                Ok(StepModel::Reply { response })
            } else if key is Some && s.datasets.contains_key(id) {
                Ok(StepModel::Reply { response: dataset_summary(s.datasets[id]) })
            } else {
                let dataset = new_dataset(free_id(s.datasets.dom(), id), request.name, records);
                settled(
                    s,
                    key,
                    hash,
                    ChangeModel::DatasetCreated { dataset },
                    dataset_summary(dataset),
                )
            }
        },
    }
}

fn make_repeat_id(id: &str, n: usize) -> (r: String)
    ensures
        r@ == repeat_id(id@, n as nat),
{
    let mut out = id.to_owned();
    out.push_str("-");
    out.push_str(json::number(n as u64).as_str());
    out
}

/// An id, or, where it is taken, that of the first repetition that is not.
fn find_free_id<V>(taken: &StringMap<V>, id: String) -> (r: String)
    ensures
        r@ == free_id(taken@.dom(), id@),
{
    if !taken.contains_key(id.as_str()) {
        return id;
    }
    let limit = taken.len();
    let mut n: usize = 1;
    let ghost start = free_number(taken@.dom(), id@, 1, limit as nat);
    let mut next = make_repeat_id(id.as_str(), n);
    while n < limit && taken.contains_key(next.as_str())
        invariant
            n <= limit || n == 1,
            limit == order::in_order(taken@.dom()).len(),
            next@ == repeat_id(id@, n as nat),
            start == free_number(taken@.dom(), id@, n as nat, limit as nat),
        decreases limit - n,
    {
        n += 1;
        next = make_repeat_id(id.as_str(), n);
    }
    next
}

/// Records under their ids.
fn records_by_id(records: &Vec<StoredRecord>) -> (r: StringMap<StoredRecord>)
    ensures
        r.deep_view() == ledger::with_records(Map::empty(), records.deep_view()),
{
    let mut out: StringMap<StoredRecord> = StringMap::new();
    proof {
        assert(out.deep_view() =~= Map::<Seq<char>, StoredRecordModel>::empty());
    }
    ledger::add_records(&mut out, records);
    out
}

/// Decides on a request for a data set.
pub fn create_dataset(
    state: &State,
    request: CreateDataset,
    idempotency_key: Option<String>,
) -> (r: Result<Step, ServiceError>)
    ensures
        is_outcome(
            r,
            dataset_creation(
                state.deep_view(),
                request.deep_view(),
                idempotency_key.deep_view(),
            ),
        ),
{
    let records = match convert_records(&request.records, 1) {
        Ok(records) => records,
        Err(error) => {
            return Err(error);
        },
    };
    let shape = shape_of_records(&records);
    let mut parts: Vec<String> = Vec::new();
    parts.push(request.name.clone());
    parts.push(shape.clone());
    proof {
        assert(parts.deep_view() =~= seq![request.name@, shape@]);
    }
    let id = stable_id("ds", &parts);
    let hash = hash_dataset(request.name.as_str(), shape.as_str());
    if let Some(response) = find_answer(state, &idempotency_key, hash.as_str()) {
        return Ok(Step::Reply { response });
    }
    if idempotency_key.is_some() {
        if let Some(existing) = state.datasets.get(id.as_str()) {
            return Ok(Step::Reply { response: dataset_view(existing) });
        }
    }
    proof {
        assert(state.deep_view().datasets.dom() =~= state.datasets@.dom());
    }
    let dataset = Dataset {
        id: find_free_id(&state.datasets, id),
        name: request.name,
        version: 1,
        records: records_by_id(&records),
    };
    let response = dataset_view(&dataset);
    append_command(state, idempotency_key, hash, Change::DatasetCreated { dataset }, response)
}

/// The first of some records whose id is taken.
pub open spec fn first_existing(
    records: Map<Seq<char>, StoredRecordModel>,
    added: Seq<StoredRecordModel>,
) -> Option<Seq<char>>
    decreases added.len(),
{
    if added.len() == 0 {
        None
    } else {
        match first_existing(records, added.drop_last()) {
            Some(id) => Some(id),
            None => if records.contains_key(added.last().id) {
                Some(added.last().id)
            } else {
                None
            },
        }
    }
}

/// The ids of records to import.
pub open spec fn import_ids(records: Seq<ImportRecordModel>) -> Seq<Seq<char>> {
    Seq::new(records.len(), |i: int| records[i].id)
}

/// The ids of records.
pub open spec fn stored_ids(records: Seq<StoredRecordModel>) -> Seq<Seq<char>> {
    Seq::new(records.len(), |i: int| records[i].id)
}

/// What a request to add records leads to.
pub open spec fn records_addition(
    s: StateModel,
    id: Seq<char>,
    request: AppendRecordsReqModel,
    key: Option<Seq<char>>,
) -> Result<StepModel, ServiceErrorModel> {
    if !s.datasets.contains_key(id) {
        Err(requests::not_found("dataset not found"@))
    } else {
        let dataset = s.datasets[id];
        let next = (dataset.version + 1) as u64;
        if dataset.version != request.expected_version {
            Err(
                ServiceErrorModel {
                    status: 409,
                    code: "version-conflict"@,
                    details: ErrorDetailsModel::DatasetConflict {
                        current_version: dataset.version,
                        supplied_version: request.expected_version,
                        server_records: order::in_order(dataset.records.dom()),
                        incoming_records: import_ids(request.records),
                    },
                },
            )
        } else {
            match import::stored_all(request.records, next) {
                Err(message) => Err(requests::bad_request(message)),
                Ok(records) => match first_existing(dataset.records, records) {
                    Some(taken) => Err(
                        requests::conflict("record `"@ + taken + "` already exists"@),
                    ),
                    None => settled(
                        s,
                        key,
                        shapes::hash_text(
                            shapes::append_payload(
                                id,
                                request.expected_version,
                                stored_ids(records),
                            ),
                        ),
                        ChangeModel::RecordsAppended { dataset_id: id, version: next, records },
                        dataset_summary(
                            DatasetModel {
                                version: next,
                                records: ledger::with_records(dataset.records, records),
                                ..dataset
                            },
                        ),
                    ),
                },
            }
        }
    }
}

proof fn lemma_existing_found(
    records: Map<Seq<char>, StoredRecordModel>,
    added: Seq<StoredRecordModel>,
    n: int,
)
    requires
        0 <= n <= added.len(),
        first_existing(records, added.take(n)) is Some,
    ensures
        first_existing(records, added) == first_existing(records, added.take(n)),
    decreases added.len() - n,
{
    if n == added.len() {
        assert(added.take(n) =~= added);
    } else {
        assert(added.take(n + 1).drop_last() =~= added.take(n));
        lemma_existing_found(records, added, n + 1);
    }
}

fn find_existing(records: &StringMap<StoredRecord>, added: &Vec<StoredRecord>) -> (r: Option<String>)
    ensures
        r.deep_view() == first_existing(records.deep_view(), added.deep_view()),
{
    let ghost model = added.deep_view();
    let ghost there = records.deep_view();
    proof {
        assert(model.take(0) =~= Seq::<StoredRecordModel>::empty());
    }
    for i in 0..added.len()
        invariant
            model == added.deep_view(),
            there == records.deep_view(),
            first_existing(there, model.take(i as int)) is None,
    {
        proof {
            assert(model.take(i + 1).drop_last() =~= model.take(i as int));
            assert(model.take(i + 1).last() == added@[i as int].deep_view());
        }
        if records.contains_key(added[i].id.as_str()) {
            proof {
                lemma_existing_found(there, model, i + 1);
            }
            return Some(added[i].id.clone());
        }
    }
    proof {
        assert(model.take(model.len() as int) =~= model);
    }
    None
}

fn keys_of<V>(m: &StringMap<V>) -> (r: Vec<String>)
    ensures
        r.deep_view() == m.keys(),
        order::lists_in_order(m.keys(), m@.dom()),
{
    let n = m.len();
    let ghost keys = m.keys();
    let mut out: Vec<String> = Vec::new();
    let mut i: usize = 0;
    while i < n
        invariant
            n == keys.len(),
            keys == m.keys(),
            i <= n,
            out@.len() == i,
            forall|k: int| 0 <= k < i ==> (#[trigger] out@[k])@ == keys[k],
        decreases n - i,
    {
        out.push(m.key_at(i).clone());
        i += 1;
    }
    proof {
        assert(out.deep_view() =~= keys);
    }
    out
}

fn ids_of_imports(records: &Vec<ImportRecord>) -> (r: Vec<String>)
    ensures
        r.deep_view() == import_ids(records.deep_view()),
{
    let mut out: Vec<String> = Vec::new();
    for i in 0..records.len()
        invariant
            out@.len() == i,
            forall|k: int| 0 <= k < i ==> (#[trigger] out@[k])@ == records@[k].id@,
    {
        out.push(records[i].id.clone());
    }
    proof {
        assert(out.deep_view() =~= import_ids(records.deep_view()));
    }
    out
}

fn ids_of_records(records: &Vec<StoredRecord>) -> (r: Vec<String>)
    ensures
        r.deep_view() == stored_ids(records.deep_view()),
{
    let mut out: Vec<String> = Vec::new();
    for i in 0..records.len()
        invariant
            out@.len() == i,
            forall|k: int| 0 <= k < i ==> (#[trigger] out@[k])@ == records@[k].id@,
    {
        out.push(records[i].id.clone());
    }
    proof {
        assert(out.deep_view() =~= stored_ids(records.deep_view()));
    }
    out
}

/// Decides on a request to add records to a data set.
pub fn append_records(
    state: &State,
    dataset_id: &str,
    request: AppendRecordsReq,
    idempotency_key: Option<String>,
) -> (r: Result<Step, ServiceError>)
    requires
        state.deep_view().datasets.contains_key(dataset_id@)
            ==> state.deep_view().datasets[dataset_id@].version < u64::MAX,
    ensures
        is_outcome(
            r,
            records_addition(
                state.deep_view(),
                dataset_id@,
                request.deep_view(),
                idempotency_key.deep_view(),
            ),
        ),
{
    let dataset = match state.datasets.get(dataset_id) {
        Some(dataset) => dataset,
        None => {
            return Err(ServiceError::not_found("dataset not found"));
        },
    };
    let ghost model = dataset.deep_view();
    proof {
        assert(state.deep_view().datasets[dataset_id@] == model);
        assert(model.records.dom() =~= dataset.records@.dom());
    }
    if dataset.version != request.expected_version {
        return Err(
            ServiceError::new(
                409,
                "version-conflict",
                ErrorDetails::DatasetConflict {
                    current_version: dataset.version,
                    supplied_version: request.expected_version,
                    server_records: keys_of(&dataset.records),
                    incoming_records: ids_of_imports(&request.records),
                },
            ),
        );
    }
    let next_version: u64 = dataset.version + 1;
    let records = match convert_records(&request.records, next_version) {
        Ok(records) => records,
        Err(error) => {
            return Err(error);
        },
    };
    if let Some(taken) = find_existing(&dataset.records, &records) {
        let mut message = "record `".to_owned();
        message.push_str(taken.as_str());
        message.push_str("` already exists");
        return Err(ServiceError::conflict(message));
    }
    let hash = hash_append(dataset_id, request.expected_version, &ids_of_records(&records));
    let mut after = dataset.records.duplicate();
    ledger::add_records(&mut after, &records);
    let preview = Dataset {
        id: dataset.id.clone(),
        name: dataset.name.clone(),
        version: next_version,
        records: after,
    };
    let response = dataset_view(&preview);
    let change = Change::RecordsAppended {
        dataset_id: dataset_id.to_owned(),
        version: next_version,
        records,
    };
    append_command(state, idempotency_key, hash, change, response)
}

/// A data set with its records.
pub fn get_dataset<'a>(state: &'a State, dataset_id: &str) -> (r: Result<&'a Dataset, ServiceError>)
    ensures
        match r {
            Ok(dataset) => {
                &&& state.deep_view().datasets.contains_key(dataset_id@)
                &&& dataset.deep_view() == state.deep_view().datasets[dataset_id@]
            },
            Err(error) => {
                &&& !state.deep_view().datasets.contains_key(dataset_id@)
                &&& error.deep_view() == requests::not_found("dataset not found"@)
            },
        },
{
    match state.datasets.get(dataset_id) {
        Some(dataset) => Ok(dataset),
        None => Err(ServiceError::not_found("dataset not found")),
    }
}

/// The analysis of a data set under some rules, or why there is none.
pub open spec fn analysis_outcome(s: StateModel, id: Seq<char>, rules: RuleConfigModel) -> Result<
    AnalysisModel,
    ServiceErrorModel,
> {
    if !s.datasets.contains_key(id) {
        Err(requests::not_found("dataset not found"@))
    } else {
        match import::dataset_analysis(s.datasets[id], rules) {
            Ok(analysis) => Ok(analysis),
            Err(message) => Err(requests::bad_request(message)),
        }
    }
}

/// The analysis of a data set under some rules.
pub fn analyze_dataset(state: &State, dataset_id: &str, rules: RuleConfig) -> (r: Result<
    Analysis,
    ServiceError,
>)
    ensures
        match analysis_outcome(state.deep_view(), dataset_id@, rules.deep_view()) {
            Ok(analysis) => r is Ok && r->Ok_0.deep_view() == analysis,
            Err(error) => r is Err && r->Err_0.deep_view() == error,
        },
{
    match state.datasets.get(dataset_id) {
        Some(dataset) => analysis_for(dataset, &rules),
        None => Err(ServiceError::not_found("dataset not found")),
    }
}

/// The buckets with more than one record: record ids by canonical value.
pub open spec fn conflict_groups(buckets: Seq<BucketModel>) -> Map<Seq<char>, Seq<Seq<char>>>
    decreases buckets.len(),
{
    if buckets.len() == 0 {
        Map::empty()
    } else {
        let before = conflict_groups(buckets.drop_last());
        if buckets.last().record_ids.len() > 1 {
            before.insert(buckets.last().canonical, buckets.last().record_ids)
        } else {
            before
        }
    }
}

fn gather_conflicts(buckets: &Vec<Bucket>) -> (r: StringMap<Vec<String>>)
    ensures
        r.deep_view() == conflict_groups(buckets.deep_view()),
{
    broadcast use text::lemma_map_models_insert;

    let ghost model = buckets.deep_view();
    let mut out: StringMap<Vec<String>> = StringMap::new();
    proof {
        assert(model.take(0) =~= Seq::<BucketModel>::empty());
        assert(out.deep_view() =~= Map::<Seq<char>, Seq<Seq<char>>>::empty());
    }
    for i in 0..buckets.len()
        invariant
            model == buckets.deep_view(),
            out.deep_view() == conflict_groups(model.take(i as int)),
    {
        proof {
            assert(model.take(i + 1).drop_last() =~= model.take(i as int));
            assert(model.take(i + 1).last() == buckets@[i as int].deep_view());
        }
        if buckets[i].record_ids.len() > 1 {
            out.insert(buckets[i].canonical.clone(), buckets[i].record_ids.duplicate());
        }
    }
    proof {
        assert(model.take(model.len() as int) =~= model);
    }
    out
}

/// The id of a plan: it is fixed by its shape.
pub open spec fn plan_id(shape: Seq<char>) -> Seq<char> {
    ledger::stable_id_text("plan"@, seq![shape])
}

/// The rules that a plan starts from.
pub open spec fn starting_rules(request: CreatePlanModel) -> RuleConfigModel {
    match request.from_rules {
        Some(rules) => rules,
        None => engine::default_rules(),
    }
}

/// A new plan.
pub open spec fn new_plan(
    dataset: DatasetModel,
    from_rules: RuleConfigModel,
    rules: RuleConfigModel,
    from_analysis: AnalysisModel,
    analysis: AnalysisModel,
) -> PlanModel {
    PlanModel {
        id: plan_id(shapes::plan_shape(dataset.id, dataset.version, from_rules, rules)),
        dataset_id: dataset.id,
        dataset_version: dataset.version,
        from_rules,
        from_snapshot_json: shapes::snapshot_text(from_analysis.rules),
        rules,
        rule_snapshot_json: shapes::snapshot_text(analysis.rules),
        status: PlanStatus::Draft,
        version: 1,
        groups: conflict_groups(analysis.buckets),
        decisions: Map::empty(),
        baseline_mappings: seq![],
    }
}

/// A plan with what it comes to, where that can be computed.
pub open spec fn plan_shown(s: StateModel, plan: PlanModel) -> ResponseModel {
    ResponseModel::PlanView {
        plan,
        details: match mappings::plan_outcome(s, plan) {
            Ok(details) => Some(details),
            Err(_) => None,
        },
    }
}

/// What a request for a plan leads to. The answer to a request with a key is the plan alone.
pub open spec fn plan_creation(
    s: StateModel,
    request: CreatePlanModel,
    key: Option<Seq<char>>,
) -> Result<StepModel, ServiceErrorModel> {
    let from_rules = starting_rules(request);
    let rules = request.rules.resolved();
    if !s.datasets.contains_key(request.dataset_id) {
        Err(requests::not_found("dataset not found"@))
    } else {
        let dataset = s.datasets[request.dataset_id];
        if dataset.version != request.expected_dataset_version {
            Err(
                ServiceErrorModel {
                    status: 409,
                    code: "version-conflict"@,
                    details: ErrorDetailsModel::PlanDatasetConflict {
                        current_dataset_version: dataset.version,
                        supplied_dataset_version: request.expected_dataset_version,
                    },
                },
            )
        } else if let Some(name) = engine::unknown_script(request.rules) {
            Err(requests::bad_request(engine::unknown_script_text(name)))
        } else if let Some(name) = engine::unknown_script(from_rules) {
            Err(requests::bad_request(engine::unknown_script_text(name)))
        } else {
            match import::dataset_analysis(dataset, rules) {
                Err(message) => Err(requests::bad_request(message)),
                Ok(analysis) => match import::dataset_analysis(dataset, from_rules) {
                    Err(message) => Err(requests::bad_request(message)),
                    Ok(from_analysis) => {
                        let plan = new_plan(dataset, from_rules, rules, from_analysis, analysis);
                        if s.plans.contains_key(plan.id) {
                            Ok(StepModel::Reply { response: plan_shown(s, s.plans[plan.id]) })
                        } else {
                            settled(
                                s,
                                key,
                                shapes::hash_text(
                                    shapes::plan_payload(
                                        shapes::plan_shape(
                                            dataset.id,
                                            dataset.version,
                                            from_rules,
                                            rules,
                                        ),
                                    ),
                                ),
                                ChangeModel::PlanCreated { plan },
                                if key is Some {
                                    ResponseModel::Plan { plan }
                                } else {
                                    plan_shown(s, plan)
                                },
                            )
                        }
                    },
                },
            }
        }
    }
}

/// A plan with what it comes to, where that can be computed.
pub fn plan_view(state: &State, plan: &Plan) -> (r: Response)
    ensures
        r.deep_view() == plan_shown(state.deep_view(), plan.deep_view()),
{
    let details = match plan_data(state, plan) {
        Ok(details) => Some(details),
        Err(_) => None,
    };
    Response::PlanView { plan: plan.duplicate(), details }
}

/// Decides on a request for a plan.
pub fn create_plan(state: &State, request: CreatePlan, idempotency_key: Option<String>) -> (r: Result<
    Step,
    ServiceError,
>)
    ensures
        is_outcome(
            r,
            plan_creation(
                state.deep_view(),
                request.deep_view(),
                idempotency_key.deep_view(),
            ),
        ),
{
    let ghost s = state.deep_view();
    let ghost asked = request.deep_view();
    let dataset = match state.datasets.get(request.dataset_id.as_str()) {
        Some(dataset) => dataset,
        None => {
            return Err(ServiceError::not_found("dataset not found"));
        },
    };
    if dataset.version != request.expected_dataset_version {
        return Err(
            ServiceError::new(
                409,
                "version-conflict",
                ErrorDetails::PlanDatasetConflict {
                    current_dataset_version: dataset.version,
                    supplied_dataset_version: request.expected_dataset_version,
                },
            ),
        );
    }
    let from_rules = match request.from_rules {
        Some(rules) => rules,
        None => RuleConfig::default(),
    };
    proof {
        assert(from_rules.deep_view() == starting_rules(asked));
    }
    let rules = match validate_config(&request.rules) {
        Ok(rules) => rules,
        Err(message) => {
            return Err(ServiceError::bad_request(message));
        },
    };
    if let Err(message) = validate_config(&from_rules) {
        return Err(ServiceError::bad_request(message));
    }
    let analysis = match analysis_for(dataset, &rules) {
        Ok(analysis) => analysis,
        Err(error) => {
            return Err(error);
        },
    };
    let from_analysis = match analysis_for(dataset, &from_rules) {
        Ok(analysis) => analysis,
        Err(error) => {
            return Err(error);
        },
    };
    let groups = gather_conflicts(&analysis.buckets);
    let shape = shape_of_plan(dataset.id.as_str(), dataset.version, &from_rules, &rules);
    let mut parts: Vec<String> = Vec::new();
    parts.push(shape.clone());
    proof {
        assert(parts.deep_view() =~= seq![shape@]);
    }
    let id = stable_id("plan", &parts);
    if let Some(plan) = state.plans.get(id.as_str()) {
        return Ok(Step::Reply { response: plan_view(state, plan) });
    }
    let hash = hash_plan(shape.as_str());
    let plan = Plan {
        id,
        dataset_id: dataset.id.clone(),
        dataset_version: dataset.version,
        from_rules,
        from_snapshot_json: snapshot_string(&from_analysis.rules),
        rules,
        rule_snapshot_json: snapshot_string(&analysis.rules),
        status: PlanStatus::Draft,
        version: 1,
        groups,
        decisions: StringMap::new(),
        baseline_mappings: Vec::new(),
    };
    proof {
        assert(plan.decisions.deep_view() =~= Map::<Seq<char>, GroupDecisionModel>::empty());
        assert(plan.baseline_mappings.deep_view() =~= Seq::<StoredMappingModel>::empty());
        assert(plan.deep_view() =~= new_plan(
            dataset.deep_view(),
            from_rules.deep_view(),
            rules.deep_view(),
            from_analysis.deep_view(),
            analysis.deep_view(),
        ));
    }
    let response = if idempotency_key.is_some() {
        Response::Plan { plan: plan.duplicate() }
    } else {
        plan_view(state, &plan)
    };
    append_command(state, idempotency_key, hash, Change::PlanCreated { plan }, response)
}

/// A requested decision as it is stored.
pub open spec fn decision_of(request: GroupDecisionReqModel) -> GroupDecisionModel {
    GroupDecisionModel {
        action: request.action,
        primary_record_id: request.primary_record_id,
        replacements: request.replacements,
        keep_old_alias: request.keep_old_alias,
    }
}

/// Decisions with some requested ones taken over, or the first bucket that is not there.
pub open spec fn decisions_with(
    groups: Map<Seq<char>, Seq<Seq<char>>>,
    decisions: Map<Seq<char>, GroupDecisionModel>,
    request: Map<Seq<char>, GroupDecisionReqModel>,
    buckets: Seq<Seq<char>>,
) -> Result<Map<Seq<char>, GroupDecisionModel>, Seq<char>>
    decreases buckets.len(),
{
    if buckets.len() == 0 {
        Ok(decisions)
    } else {
        let bucket = buckets.last();
        match decisions_with(groups, decisions, request, buckets.drop_last()) {
            Err(message) => Err(message),
            Ok(before) => if groups.contains_key(bucket) {
                Ok(before.insert(bucket, decision_of(request[bucket])))
            } else {
                Err(mappings::named_text("unknown conflict bucket `"@, bucket))
            },
        }
    }
}

proof fn lemma_decisions_refused(
    groups: Map<Seq<char>, Seq<Seq<char>>>,
    decisions: Map<Seq<char>, GroupDecisionModel>,
    request: Map<Seq<char>, GroupDecisionReqModel>,
    buckets: Seq<Seq<char>>,
    n: int,
)
    requires
        0 <= n <= buckets.len(),
        decisions_with(groups, decisions, request, buckets.take(n)) is Err,
    ensures
        decisions_with(groups, decisions, request, buckets) == decisions_with(
            groups,
            decisions,
            request,
            buckets.take(n),
        ),
    decreases buckets.len() - n,
{
    if n == buckets.len() {
        assert(buckets.take(n) =~= buckets);
    } else {
        assert(buckets.take(n + 1).drop_last() =~= buckets.take(n));
        lemma_decisions_refused(groups, decisions, request, buckets, n + 1);
    }
}

fn take_decisions(plan: &Plan, request: &StringMap<GroupDecisionReq>) -> (r: Result<
    StringMap<GroupDecision>,
    String,
>)
    ensures
        match decisions_with(
            plan.deep_view().groups,
            plan.deep_view().decisions,
            request.deep_view(),
            order::in_order(request.deep_view().dom()),
        ) {
            Ok(decisions) => r is Ok && r->Ok_0.deep_view() == decisions,
            Err(message) => r is Err && r->Err_0@ == message,
        },
{
    broadcast use text::lemma_map_models_insert;

    let ghost groups = plan.deep_view().groups;
    let ghost start = plan.deep_view().decisions;
    let ghost asked = request.deep_view();
    let n = request.len();
    let ghost keys = request.keys();
    let mut out = plan.decisions.duplicate();
    proof {
        assert(asked.dom() =~= request@.dom());
        assert(keys.take(0) =~= Seq::<Seq<char>>::empty());
    }
    let mut i: usize = 0;
    while i < n
        invariant
            groups == plan.deep_view().groups,
            start == plan.deep_view().decisions,
            asked == request.deep_view(),
            n == keys.len(),
            keys == request.keys(),
            keys == order::in_order(asked.dom()),
            i <= n,
            decisions_with(groups, start, asked, keys.take(i as int)) == Ok::<_, Seq<char>>(
                out.deep_view(),
            ),
        decreases n - i,
    {
        let bucket = request.key_at(i);
        let decision = request.value_at(i);
        proof {
            assert(keys.take(i + 1).drop_last() =~= keys.take(i as int));
            assert(keys.take(i + 1).last() == bucket@);
        }
        if !plan.groups.contains_key(bucket.as_str()) {
            proof {
                lemma_decisions_refused(groups, start, asked, keys, i + 1);
            }
            let mut message = "unknown conflict bucket `".to_owned();
            message.push_str(bucket.as_str());
            message.push_str("`");
            return Err(message);
        }
        let taken = GroupDecision {
            action: decision.action.clone(),
            primary_record_id: decision.primary_record_id.duplicate(),
            replacements: decision.replacements.duplicate(),
            keep_old_alias: decision.keep_old_alias,
        };
        let ghost before = out.deep_view();
        proof {
            assert(asked[bucket@] == decision.deep_view());
            assert(taken.deep_view() =~= decision_of(asked[bucket@]));
        }
        out.insert(bucket.clone(), taken);
        proof {
            assert(out.deep_view() =~= before.insert(bucket@, taken.deep_view()));
        }
        i += 1;
    }
    proof {
        assert(keys.take(n as int) =~= keys);
    }
    Ok(out)
}

/// A refusal of what a plan's status does not allow.
pub open spec fn refused_transition(
    status: u16,
    from: PlanStatus,
    requested: Seq<char>,
) -> ServiceErrorModel {
    ServiceErrorModel {
        status,
        code: "illegal-state-transition"@,
        details: ErrorDetailsModel::IllegalTransition { from, requested },
    }
}

/// A refusal of a change of a plan's status.
pub open spec fn illegal_transition(from: PlanStatus, requested: Seq<char>) -> ServiceErrorModel {
    refused_transition(409, from, requested)
}

/// A plan that was approved stays as it was approved, also once it was carried out.
pub open spec fn is_frozen(plan: PlanModel) -> bool {
    plan.status == PlanStatus::Approved || plan.status == PlanStatus::Applied
}

/// A refusal of a request to change a plan that is frozen: of a change of its status, or else of a
/// change of its decisions.
pub open spec fn frozen_error(plan: PlanModel, request: UpdatePlanReqModel) -> ServiceErrorModel {
    refused_transition(
        400,
        plan.status,
        match request.status {
            Some(status) => status,
            None => "decisions"@,
        },
    )
}

/// What was written of a plan, among some, after a version.
pub open spec fn changes_since(changes: Seq<PlanChangeModel>, base: u64) -> Seq<PlanChangeModel>
    decreases changes.len(),
{
    if changes.len() == 0 {
        seq![]
    } else {
        let before = changes_since(changes.drop_last(), base);
        if changes.last().version > base {
            before.push(changes.last())
        } else {
            before
        }
    }
}

/// A refusal of a write on top of another version of a plan than the current one: the plan as it
/// stands, and what was written of it after the version that the write is based on.
pub open spec fn plan_conflict(s: StateModel, id: Seq<char>, base: u64) -> ServiceErrorModel {
    ServiceErrorModel {
        status: 409,
        code: "version-conflict"@,
        details: ErrorDetailsModel::PlanConflict {
            base_version: base,
            current_version: s.plans[id].version,
            supplied_version: base,
            server_plan: s.plans[id],
            changes_since_base: changes_since(ledger::changes_of(s, id), base),
        },
    }
}

/// A plan after it was approved, or why it cannot be.
pub open spec fn plan_approved(s: StateModel, plan: PlanModel) -> Result<
    PlanModel,
    ServiceErrorModel,
> {
    match mappings::plan_outcome(s, plan) {
        Err(error) => Err(error),
        Ok(details) => if order::in_order(plan.decisions.dom()).len() != order::in_order(
            plan.groups.dom(),
        ).len() {
            Err(requests::bad_request("every conflict group needs a decision"@))
        } else {
            match mappings::closed_cycle(s, details.mappings) {
                Some(cycle) => Err(
                    ServiceErrorModel {
                        status: 422,
                        code: "alias-cycle"@,
                        details: ErrorDetailsModel::AliasCycle { cycle },
                    },
                ),
                None => Ok(
                    PlanModel {
                        status: PlanStatus::Approved,
                        version: (plan.version + 1) as u64,
                        baseline_mappings: details.mappings,
                        ..plan
                    },
                ),
            }
        },
    }
}

/// A plan after a request was taken over, or why it cannot be. Only a draft can be approved or
/// rejected, and a plan that was approved is not changed at all.
pub open spec fn plan_after(s: StateModel, plan: PlanModel, request: UpdatePlanReqModel) -> Result<
    PlanModel,
    ServiceErrorModel,
> {
    if is_frozen(plan) {
        Err(frozen_error(plan, request))
    } else {
        match decisions_with(
            plan.groups,
            plan.decisions,
            request.decisions,
            order::in_order(request.decisions.dom()),
        ) {
            Err(message) => Err(requests::bad_request(message)),
            Ok(decisions) => {
                let decided = PlanModel { decisions, ..plan };
                match request.status {
                    None => Ok(PlanModel { version: (plan.version + 1) as u64, ..decided }),
                    Some(status) => if plan.status == PlanStatus::Draft && status == "approved"@ {
                        plan_approved(s, decided)
                    } else if plan.status == PlanStatus::Draft && status == "rejected"@ {
                        Ok(
                            PlanModel {
                                status: PlanStatus::Rejected,
                                version: (plan.version + 1) as u64,
                                ..decided
                            },
                        )
                    } else {
                        Err(illegal_transition(plan.status, status))
                    },
                }
            },
        }
    }
}

/// What a request to change a plan leads to. A plan that was approved is not changed, whatever version
/// the request is based on.
pub open spec fn plan_change(
    s: StateModel,
    id: Seq<char>,
    request: UpdatePlanReqModel,
    key: Option<Seq<char>>,
) -> Result<StepModel, ServiceErrorModel> {
    if !s.plans.contains_key(id) {
        Err(requests::not_found("plan not found"@))
    } else if !is_frozen(s.plans[id]) && s.plans[id].version != request.expected_version {
        Err(plan_conflict(s, id, request.expected_version))
    } else {
        match plan_after(s, s.plans[id], request) {
            Err(error) => Err(error),
            Ok(plan) => settled(
                s,
                key,
                shapes::hash_text(shapes::update_payload(request)),
                ChangeModel::PlanUpdated { plan },
                plan_shown(s, plan),
            ),
        }
    }
}

fn approve(state: &State, plan: Plan) -> (r: Result<Plan, ServiceError>)
    requires
        plan.version < u64::MAX,
    ensures
        match plan_approved(state.deep_view(), plan.deep_view()) {
            Ok(model) => r is Ok && r->Ok_0.deep_view() == model,
            Err(error) => r is Err && r->Err_0.deep_view() == error,
        },
{
    let details = match plan_data(state, &plan) {
        Ok(details) => details,
        Err(error) => {
            return Err(error);
        },
    };
    proof {
        assert(plan.deep_view().decisions.dom() =~= plan.decisions@.dom());
        assert(plan.deep_view().groups.dom() =~= plan.groups@.dom());
    }
    if plan.decisions.len() != plan.groups.len() {
        return Err(
            ServiceError::bad_request("every conflict group needs a decision".to_owned()),
        );
    }
    if let Some(cycle) = alias_cycle(state, &details.mappings) {
        return Err(ServiceError::new(422, "alias-cycle", ErrorDetails::AliasCycle { cycle }));
    }
    Ok(
        Plan {
            status: PlanStatus::Approved,
            version: plan.version + 1,
            baseline_mappings: details.mappings,
            ..plan
        },
    )
}

fn refuse(status: u16, from: PlanStatus, requested: &str) -> (r: ServiceError)
    ensures
        r.deep_view() == refused_transition(status, from, requested@),
{
    ServiceError::new(
        status,
        "illegal-state-transition",
        ErrorDetails::IllegalTransition { from, requested: requested.to_owned() },
    )
}

fn take_request(state: &State, plan: &Plan, request: &UpdatePlanReq) -> (r: Result<
    Plan,
    ServiceError,
>)
    requires
        plan.version < u64::MAX,
    ensures
        match plan_after(state.deep_view(), plan.deep_view(), request.deep_view()) {
            Ok(model) => r is Ok && r->Ok_0.deep_view() == model,
            Err(error) => r is Err && r->Err_0.deep_view() == error,
        },
{
    if plan.status == PlanStatus::Approved || plan.status == PlanStatus::Applied {
        return match &request.status {
            Some(status) => Err(refuse(400, plan.status, status.as_str())),
            None => Err(refuse(400, plan.status, "decisions")),
        };
    }
    let decisions = match take_decisions(plan, &request.decisions) {
        Ok(decisions) => decisions,
        Err(message) => {
            return Err(ServiceError::bad_request(message));
        },
    };
    let decided = Plan { decisions, ..plan.duplicate() };
    match &request.status {
        None => Ok(Plan { version: plan.version + 1, ..decided }),
        Some(status) => {
            if plan.status == PlanStatus::Draft && str_eq(status.as_str(), "approved") {
                approve(state, decided)
            } else if plan.status == PlanStatus::Draft && str_eq(status.as_str(), "rejected") {
                Ok(Plan { status: PlanStatus::Rejected, version: plan.version + 1, ..decided })
            } else {
                Err(refuse(409, plan.status, status.as_str()))
            }
        },
    }
}

fn find_changes(changes: &Vec<PlanChange>, base: u64) -> (r: Vec<PlanChange>)
    ensures
        r.deep_view() == changes_since(changes.deep_view(), base),
{
    broadcast use {text::lemma_models_push, text::lemma_vec_model};

    let ghost model = changes.deep_view();
    let mut out: Vec<PlanChange> = Vec::new();
    proof {
        assert(model.take(0) =~= Seq::<PlanChangeModel>::empty());
        assert(text::models(out@) =~= Seq::<PlanChangeModel>::empty());
    }
    for i in 0..changes.len()
        invariant
            model == changes.deep_view(),
            text::models(out@) == changes_since(model.take(i as int), base),
    {
        proof {
            assert(model.take(i + 1).drop_last() =~= model.take(i as int));
            assert(model.take(i + 1).last() == changes@[i as int].deep_view());
        }
        if changes[i].version > base {
            out.push(changes[i].duplicate());
        }
    }
    proof {
        assert(model.take(model.len() as int) =~= model);
    }
    out
}

fn stale_plan(state: &State, plan_id: &str, plan: &Plan, base: u64) -> (r: ServiceError)
    requires
        state.deep_view().plans[plan_id@] == plan.deep_view(),
    ensures
        r.deep_view() == plan_conflict(state.deep_view(), plan_id@, base),
{
    let changes_since_base: Vec<PlanChange> = match state.plan_changes.get(plan_id) {
        Some(changes) => find_changes(changes, base),
        None => Vec::new(),
    };
    proof {
        assert(changes_since_base.deep_view() =~= changes_since(
            ledger::changes_of(state.deep_view(), plan_id@),
            base,
        ));
    }
    ServiceError::new(
        409,
        "version-conflict",
        ErrorDetails::PlanConflict {
            base_version: base,
            current_version: plan.version,
            supplied_version: base,
            server_plan: plan.duplicate(),
            changes_since_base,
        },
    )
}

/// Decides on a request to change a plan.
pub fn update_plan(
    state: &State,
    plan_id: &str,
    request: UpdatePlanReq,
    idempotency_key: Option<String>,
) -> (r: Result<Step, ServiceError>)
    requires
        state.deep_view().plans.contains_key(plan_id@)
            ==> state.deep_view().plans[plan_id@].version < u64::MAX,
    ensures
        is_outcome(
            r,
            plan_change(
                state.deep_view(),
                plan_id@,
                request.deep_view(),
                idempotency_key.deep_view(),
            ),
        ),
{
    let existing = match state.plans.get(plan_id) {
        Some(plan) => plan,
        None => {
            return Err(ServiceError::not_found("plan not found"));
        },
    };
    proof {
        assert(state.deep_view().plans[plan_id@] == existing.deep_view());
    }
    if existing.status != PlanStatus::Approved && existing.status != PlanStatus::Applied
        && existing.version != request.expected_version {
        return Err(stale_plan(state, plan_id, existing, request.expected_version));
    }
    let updated = match take_request(state, existing, &request) {
        Ok(plan) => plan,
        Err(error) => {
            return Err(error);
        },
    };
    let hash = hash_update(&request);
    let response = plan_view(state, &updated);
    append_command(state, idempotency_key, hash, Change::PlanUpdated { plan: updated }, response)
}

/// The values of records with those that mappings give them.
pub open spec fn registered(
    registry: Map<Seq<char>, Seq<char>>,
    mappings: Seq<StoredMappingModel>,
) -> Map<Seq<char>, Seq<char>>
    decreases mappings.len(),
{
    if mappings.len() == 0 {
        registry
    } else {
        registered(registry, mappings.drop_last()).insert(
            mappings.last().record_id,
            mappings.last().new_canonical,
        )
    }
}

/// The values that migrations, taken in the given order, gave to records.
pub open spec fn registry_of(
    migrations: Map<Seq<char>, AppliedMigrationModel>,
    ids: Seq<Seq<char>>,
) -> Map<Seq<char>, Seq<char>>
    decreases ids.len(),
{
    if ids.len() == 0 {
        Map::empty()
    } else {
        registered(
            registry_of(migrations, ids.drop_last()),
            migrations[ids.last()].mappings,
        )
    }
}

/// The values that all migrations gave to records: of several, the one of the last plan id.
pub open spec fn registry(s: StateModel) -> Map<Seq<char>, Seq<char>> {
    registry_of(s.migrations, order::in_order(s.migrations.dom()))
}

fn register(registry: &mut StringMap<String>, mappings: &Vec<StoredMapping>)
    ensures
        final(registry).deep_view() == registered(old(registry).deep_view(), mappings.deep_view()),
{
    broadcast use text::lemma_map_models_insert;

    let ghost model = mappings.deep_view();
    let ghost start = registry.deep_view();
    proof {
        assert(model.take(0) =~= Seq::<StoredMappingModel>::empty());
    }
    for i in 0..mappings.len()
        invariant
            model == mappings.deep_view(),
            registry.deep_view() == registered(start, model.take(i as int)),
    {
        proof {
            assert(model.take(i + 1).drop_last() =~= model.take(i as int));
            assert(model.take(i + 1).last() == mappings@[i as int].deep_view());
        }
        registry.insert(mappings[i].record_id.clone(), mappings[i].new_canonical.clone());
    }
    proof {
        assert(model.take(model.len() as int) =~= model);
    }
}

fn gather_registry(state: &State) -> (r: StringMap<String>)
    ensures
        r.deep_view() == registry(state.deep_view()),
{
    let ghost model = state.deep_view().migrations;
    let n = state.migrations.len();
    let ghost keys = state.migrations.keys();
    let mut out: StringMap<String> = StringMap::new();
    proof {
        assert(model.dom() =~= state.migrations@.dom());
        assert(keys.take(0) =~= Seq::<Seq<char>>::empty());
        assert(out.deep_view() =~= Map::<Seq<char>, Seq<char>>::empty());
    }
    let mut i: usize = 0;
    while i < n
        invariant
            model == state.deep_view().migrations,
            n == keys.len(),
            keys == state.migrations.keys(),
            i <= n,
            out.deep_view() == registry_of(model, keys.take(i as int)),
        decreases n - i,
    {
        proof {
            assert(keys.take(i + 1).drop_last() =~= keys.take(i as int));
            assert(keys.take(i + 1).last() == keys[i as int]);
        }
        register(&mut out, &state.migrations.value_at(i).mappings);
        i += 1;
    }
    proof {
        assert(keys.take(n as int) =~= keys);
    }
    out
}

/// The first mapping of a record that was migrated to another value before.
pub open spec fn first_conflict(
    registry: Map<Seq<char>, Seq<char>>,
    mappings: Seq<StoredMappingModel>,
) -> Option<StoredMappingModel>
    decreases mappings.len(),
{
    if mappings.len() == 0 {
        None
    } else {
        let last = mappings.last();
        match first_conflict(registry, mappings.drop_last()) {
            Some(mapping) => Some(mapping),
            None => if registry.contains_key(last.record_id) && registry[last.record_id]
                != last.new_canonical {
                Some(last)
            } else {
                None
            },
        }
    }
}

proof fn lemma_conflict_found(
    registry: Map<Seq<char>, Seq<char>>,
    mappings: Seq<StoredMappingModel>,
    n: int,
)
    requires
        0 <= n <= mappings.len(),
        first_conflict(registry, mappings.take(n)) is Some,
    ensures
        first_conflict(registry, mappings) == first_conflict(registry, mappings.take(n)),
    decreases mappings.len() - n,
{
    if n == mappings.len() {
        assert(mappings.take(n) =~= mappings);
    } else {
        assert(mappings.take(n + 1).drop_last() =~= mappings.take(n));
        lemma_conflict_found(registry, mappings, n + 1);
    }
}

fn find_conflict(registry: &StringMap<String>, mappings: &Vec<StoredMapping>) -> (r: Option<usize>)
    ensures
        match r {
            Some(i) => {
                &&& i < mappings@.len()
                &&& first_conflict(registry.deep_view(), mappings.deep_view()) == Some(
                    mappings@[i as int].deep_view(),
                )
                &&& registry@.contains_key(mappings@[i as int].record_id@)
            },
            None => first_conflict(registry.deep_view(), mappings.deep_view()) is None,
        },
{
    let ghost model = mappings.deep_view();
    let ghost known = registry.deep_view();
    proof {
        assert(model.take(0) =~= Seq::<StoredMappingModel>::empty());
    }
    for i in 0..mappings.len()
        invariant
            model == mappings.deep_view(),
            known == registry.deep_view(),
            first_conflict(known, model.take(i as int)) is None,
    {
        proof {
            assert(model.take(i + 1).drop_last() =~= model.take(i as int));
            assert(model.take(i + 1).last() == mappings@[i as int].deep_view());
        }
        if let Some(existing) = registry.get(mappings[i].record_id.as_str()) {
            if !str_eq(existing.as_str(), mappings[i].new_canonical.as_str()) {
                proof {
                    lemma_conflict_found(known, model, i + 1);
                }
                return Some(i);
            }
        }
    }
    proof {
        assert(model.take(model.len() as int) =~= model);
    }
    None
}

/// A bucket collides if it has more than one record and one of them is new to the plan.
pub open spec fn bucket_collides(
    plan: PlanModel,
    bucket: BucketModel,
    baseline: Seq<StoredMappingModel>,
) -> bool {
    bucket.record_ids.len() > 1 && exists|i: int|
        0 <= i < bucket.record_ids.len() && !mappings::known(
            plan,
            baseline,
            #[trigger] bucket.record_ids[i],
        )
}

/// The buckets, among some, that collide.
pub open spec fn bucket_collisions(
    plan: PlanModel,
    buckets: Seq<BucketModel>,
    baseline: Seq<StoredMappingModel>,
) -> Seq<CollisionModel>
    decreases buckets.len(),
{
    if buckets.len() == 0 {
        seq![]
    } else {
        let before = bucket_collisions(plan, buckets.drop_last(), baseline);
        if bucket_collides(plan, buckets.last(), baseline) {
            before.push(
                CollisionModel::Bucket {
                    canonical: buckets.last().canonical,
                    record_ids: buckets.last().record_ids,
                },
            )
        } else {
            before
        }
    }
}

/// Some record was migrated to the value.
pub open spec fn value_registered(registry: Map<Seq<char>, Seq<char>>, value: Seq<char>) -> bool {
    exists|id: Seq<char>| #[trigger] registry.contains_key(id) && registry[id] == value
}

/// Some mapping of the baseline leads to the value.
pub open spec fn value_in_baseline(baseline: Seq<StoredMappingModel>, value: Seq<char>) -> bool {
    exists|i: int| 0 <= i < baseline.len() && (#[trigger] baseline[i]).new_canonical == value
}

/// The records, among some, that are new to the plan and whose value is taken.
pub open spec fn record_collisions(
    plan: PlanModel,
    targets: Map<Seq<char>, Seq<char>>,
    registry: Map<Seq<char>, Seq<char>>,
    baseline: Seq<StoredMappingModel>,
    ids: Seq<Seq<char>>,
) -> Seq<CollisionModel>
    decreases ids.len(),
{
    if ids.len() == 0 {
        seq![]
    } else {
        let before = record_collisions(plan, targets, registry, baseline, ids.drop_last());
        let id = ids.last();
        if !mappings::known(plan, baseline, id) && (value_registered(registry, targets[id])
            || value_in_baseline(baseline, targets[id])) {
            before.push(CollisionModel::NewRecord { canonical: targets[id], new_record_id: id })
        } else {
            before
        }
    }
}

/// Everything that keeps a plan from being carried out on the current data set.
pub open spec fn collisions_of(
    s: StateModel,
    plan: PlanModel,
    analysis: AnalysisModel,
    baseline: Seq<StoredMappingModel>,
) -> Seq<CollisionModel> {
    let targets = mappings::canonical_by_id(analysis.records);
    bucket_collisions(plan, analysis.buckets, baseline) + record_collisions(
        plan,
        targets,
        registry(s),
        baseline,
        order::in_order(targets.dom()),
    )
}

/// The records, among some, that are newer than a version.
pub open spec fn added_after(records: Seq<StoredRecordModel>, version: u64) -> Seq<AddedRecordModel>
    decreases records.len(),
{
    if records.len() == 0 {
        seq![]
    } else {
        let before = added_after(records.drop_last(), version);
        if records.last().source_version > version {
            before.push(
                AddedRecordModel {
                    id: records.last().id,
                    source_version: records.last().source_version,
                },
            )
        } else {
            before
        }
    }
}

/// The mappings that a plan is carried out with: those that were approved, or else what it comes to.
pub open spec fn baseline_of(plan: PlanModel, details: PlanDetailsModel) -> Seq<StoredMappingModel> {
    if plan.baseline_mappings.len() == 0 {
        details.mappings
    } else {
        plan.baseline_mappings
    }
}

/// The migration that carries a plan out, or why it cannot be carried out. The mappings are those
/// that were approved, or, where none were, what the plan comes to.
#[verifier::opaque]
pub open spec fn migration_of(s: StateModel, id: Seq<char>, plan: PlanModel) -> Result<
    AppliedMigrationModel,
    ServiceErrorModel,
> {
    match mappings::plan_outcome(s, plan) {
        Err(error) => Err(error),
        Ok(details) => {
            let baseline = baseline_of(plan, details);
            let dataset = s.datasets[plan.dataset_id];
            match import::dataset_analysis(dataset, plan.rules) {
                Err(message) => Err(requests::bad_request(message)),
                Ok(analysis) => match first_conflict(registry(s), baseline) {
                    Some(mapping) => Err(
                        ServiceErrorModel {
                            status: 409,
                            code: "migration-conflict"@,
                            details: ErrorDetailsModel::MigrationConflict {
                                record_id: mapping.record_id,
                                existing: registry(s)[mapping.record_id],
                            },
                        },
                    ),
                    None => {
                        let collisions = collisions_of(s, plan, analysis, baseline);
                        if collisions.len() > 0 {
                            Err(
                                ServiceErrorModel {
                                    status: 409,
                                    code: "simulation-failed"@,
                                    details: ErrorDetailsModel::SimulationFailed {
                                        collisions,
                                        dataset_version_at_plan: plan.dataset_version,
                                        current_dataset_version: dataset.version,
                                        added_records: added_after(
                                            import::records_in_order(dataset),
                                            plan.dataset_version,
                                        ),
                                    },
                                },
                            )
                        } else {
                            Ok(
                                AppliedMigrationModel {
                                    plan_id: id,
                                    dataset_id: plan.dataset_id,
                                    baseline_plan_version: plan.version,
                                    mappings: baseline,
                                },
                            )
                        }
                    },
                },
            }
        },
    }
}

/// What a request to carry a plan out leads to.
pub open spec fn plan_application(
    s: StateModel,
    id: Seq<char>,
    request: ApplyPlanReqModel,
    key: Option<Seq<char>>,
) -> Result<StepModel, ServiceErrorModel> {
    if !s.plans.contains_key(id) {
        Err(requests::not_found("plan not found"@))
    } else {
        let plan = s.plans[id];
        if plan.version != request.expected_version {
            Err(plan_conflict(s, id, request.expected_version))
        } else if plan.status == PlanStatus::Applied {
            Ok(
                StepModel::Reply {
                    response: ResponseModel::AlreadyApplied {
                        plan_id: id,
                        migration: if s.migrations.contains_key(id) {
                            Some(s.migrations[id])
                        } else {
                            None
                        },
                    },
                },
            )
        } else if plan.status != PlanStatus::Approved {
            Err(illegal_transition(plan.status, "applied"@))
        } else {
            match migration_of(s, id, plan) {
                Err(error) => Err(error),
                Ok(migration) => settled(
                    s,
                    key,
                    shapes::hash_text(shapes::apply_payload(id, plan.version)),
                    ChangeModel::PlanApplied { plan_id: id, migration },
                    ResponseModel::Applied { migration },
                ),
            }
        }
    }
}

fn is_colliding(bucket: &Bucket, ids: &StringSet) -> (r: bool)
    ensures
        r == (bucket.record_ids@.len() > 1 && exists|i: int|
            0 <= i < bucket.record_ids@.len() && !ids@.contains(
                #[trigger] bucket.record_ids.deep_view()[i],
            )),
{
    if bucket.record_ids.len() <= 1 {
        return false;
    }
    for i in 0..bucket.record_ids.len()
        invariant
            bucket.record_ids@.len() > 1,
            forall|k: int|
                0 <= k < i ==> ids@.contains(#[trigger] bucket.record_ids.deep_view()[k]),
    {
        if !ids.contains(bucket.record_ids[i].as_str()) {
            proof {
                assert(!ids@.contains(bucket.record_ids.deep_view()[i as int]));
            }
            return true;
        }
    }
    false
}

fn find_bucket_collisions(
    buckets: &Vec<Bucket>,
    ids: &StringSet,
    plan: Ghost<PlanModel>,
    baseline: Ghost<Seq<StoredMappingModel>>,
) -> (r: Vec<Collision>)
    requires
        forall|id: Seq<char>| #[trigger] ids@.contains(id) <==> mappings::known(plan@, baseline@, id),
    ensures
        r.deep_view() == bucket_collisions(plan@, buckets.deep_view(), baseline@),
{
    broadcast use {text::lemma_models_push, text::lemma_vec_model};

    let ghost model = buckets.deep_view();
    let mut out: Vec<Collision> = Vec::new();
    proof {
        assert(model.take(0) =~= Seq::<BucketModel>::empty());
        assert(text::models(out@) =~= Seq::<CollisionModel>::empty());
    }
    for i in 0..buckets.len()
        invariant
            model == buckets.deep_view(),
            forall|id: Seq<char>| #[trigger]
                ids@.contains(id) <==> mappings::known(plan@, baseline@, id),
            text::models(out@) == bucket_collisions(plan@, model.take(i as int), baseline@),
    {
        let bucket = &buckets[i];
        proof {
            assert(model.take(i + 1).drop_last() =~= model.take(i as int));
            assert(model.take(i + 1).last() == bucket.deep_view());
        }
        let collides = is_colliding(bucket, ids);
        proof {
            let shown = bucket.deep_view();
            if collides {
                let k = choose|k: int|
                    0 <= k < bucket.record_ids@.len() && !ids@.contains(
                        #[trigger] bucket.record_ids.deep_view()[k],
                    );
                assert(ids@.contains(shown.record_ids[k]) <==> mappings::known(
                    plan@,
                    baseline@,
                    shown.record_ids[k],
                ));
                assert(!mappings::known(plan@, baseline@, shown.record_ids[k]));
            }
            if bucket_collides(plan@, shown, baseline@) {
                let k = choose|k: int|
                    0 <= k < shown.record_ids.len() && !mappings::known(
                        plan@,
                        baseline@,
                        #[trigger] shown.record_ids[k],
                    );
                assert(ids@.contains(shown.record_ids[k]) <==> mappings::known(
                    plan@,
                    baseline@,
                    shown.record_ids[k],
                ));
                assert(!ids@.contains(bucket.record_ids.deep_view()[k]));
            }
            assert(collides == bucket_collides(plan@, shown, baseline@));
        }
        if collides {
            out.push(
                Collision::Bucket {
                    canonical: bucket.canonical.clone(),
                    record_ids: bucket.record_ids.duplicate(),
                },
            );
        }
    }
    proof {
        assert(model.take(model.len() as int) =~= model);
    }
    out
}

fn is_registered(registry: &StringMap<String>, value: &str) -> (r: bool)
    ensures
        r == value_registered(registry.deep_view(), value@),
{
    let ghost model = registry.deep_view();
    let n = registry.len();
    let ghost keys = registry.keys();
    let mut i: usize = 0;
    while i < n
        invariant
            model == registry.deep_view(),
            n == keys.len(),
            keys == registry.keys(),
            order::lists_in_order(keys, registry@.dom()),
            i <= n,
            forall|k: int| 0 <= k < i ==> model[#[trigger] keys[k]] != value@,
        decreases n - i,
    {
        let found = registry.value_at(i);
        if str_eq(found.as_str(), value) {
            proof {
                assert(model.contains_key(keys[i as int]));
            }
            return true;
        }
        i += 1;
    }
    proof {
        assert forall|id: Seq<char>| #[trigger] model.contains_key(id) implies model[id]
            != value@ by {
            assert(registry@.dom().contains(id));
            assert(keys.contains(id));
            let k = choose|k: int| 0 <= k < keys.len() && keys[k] == id;
            assert(model[keys[k]] != value@);
        }
    }
    false
}

fn is_in_baseline(baseline: &Vec<StoredMapping>, value: &str) -> (r: bool)
    ensures
        r == value_in_baseline(baseline.deep_view(), value@),
{
    let ghost model = baseline.deep_view();
    for i in 0..baseline.len()
        invariant
            model == baseline.deep_view(),
            forall|k: int| 0 <= k < i ==> (#[trigger] model[k]).new_canonical != value@,
    {
        if str_eq(baseline[i].new_canonical.as_str(), value) {
            proof {
                assert(model[i as int].new_canonical == value@);
            }
            return true;
        }
    }
    false
}

fn find_record_collisions(
    targets: &StringMap<String>,
    registry: &StringMap<String>,
    baseline: &Vec<StoredMapping>,
    ids: &StringSet,
    plan: Ghost<PlanModel>,
) -> (r: Vec<Collision>)
    requires
        forall|id: Seq<char>| #[trigger]
            ids@.contains(id) <==> mappings::known(plan@, baseline.deep_view(), id),
    ensures
        r.deep_view() == record_collisions(
            plan@,
            targets.deep_view(),
            registry.deep_view(),
            baseline.deep_view(),
            order::in_order(targets.deep_view().dom()),
        ),
{
    broadcast use {text::lemma_models_push, text::lemma_vec_model};

    let ghost t = targets.deep_view();
    let ghost g = registry.deep_view();
    let ghost b = baseline.deep_view();
    let n = targets.len();
    let ghost keys = targets.keys();
    let mut out: Vec<Collision> = Vec::new();
    proof {
        assert(t.dom() =~= targets@.dom());
        assert(keys.take(0) =~= Seq::<Seq<char>>::empty());
        assert(text::models(out@) =~= Seq::<CollisionModel>::empty());
    }
    let mut i: usize = 0;
    while i < n
        invariant
            t == targets.deep_view(),
            g == registry.deep_view(),
            b == baseline.deep_view(),
            forall|id: Seq<char>| #[trigger] ids@.contains(id) <==> mappings::known(plan@, b, id),
            n == keys.len(),
            keys == targets.keys(),
            i <= n,
            text::models(out@) == record_collisions(plan@, t, g, b, keys.take(i as int)),
        decreases n - i,
    {
        let id = targets.key_at(i);
        let value = targets.value_at(i);
        proof {
            assert(keys.take(i + 1).drop_last() =~= keys.take(i as int));
            assert(keys.take(i + 1).last() == id@);
            assert(ids@.contains(id@) <==> mappings::known(plan@, b, id@));
        }
        if !ids.contains(id.as_str()) && (is_registered(registry, value.as_str()) || is_in_baseline(
            baseline,
            value.as_str(),
        )) {
            out.push(
                Collision::NewRecord { canonical: value.clone(), new_record_id: id.clone() },
            );
        }
        i += 1;
    }
    proof {
        assert(keys.take(n as int) =~= keys);
    }
    out
}

fn list_added(records: &StringMap<StoredRecord>, version: u64, dataset: Ghost<DatasetModel>) -> (r:
    Vec<AddedRecord>)
    requires
        dataset@.records == records.deep_view(),
    ensures
        r.deep_view() == added_after(import::records_in_order(dataset@), version),
{
    broadcast use {text::lemma_models_push, text::lemma_vec_model};

    let ghost list = import::records_in_order(dataset@);
    let n = records.len();
    let ghost keys = records.keys();
    let mut out: Vec<AddedRecord> = Vec::new();
    proof {
        assert(records.deep_view().dom() =~= records@.dom());
        assert(list.take(0) =~= Seq::<StoredRecordModel>::empty());
        assert(text::models(out@) =~= Seq::<AddedRecordModel>::empty());
    }
    let mut i: usize = 0;
    while i < n
        invariant
            dataset@.records == records.deep_view(),
            list == import::records_in_order(dataset@),
            n == keys.len(),
            n == list.len(),
            keys == records.keys(),
            keys == order::in_order(dataset@.records.dom()),
            i <= n,
            text::models(out@) == added_after(list.take(i as int), version),
        decreases n - i,
    {
        let record = records.value_at(i);
        proof {
            assert(list.take(i + 1).drop_last() =~= list.take(i as int));
            assert(list.take(i + 1).last() == record.deep_view());
        }
        if record.source_version > version {
            out.push(
                AddedRecord { id: record.id.clone(), source_version: record.source_version },
            );
        }
        i += 1;
    }
    proof {
        assert(list.take(n as int) =~= list);
    }
    out
}

fn simulate(state: &State, plan_id: &str, plan: &Plan) -> (r: Result<AppliedMigration, ServiceError>)
    ensures
        match migration_of(state.deep_view(), plan_id@, plan.deep_view()) {
            Ok(model) => r is Ok && r->Ok_0.deep_view() == model,
            Err(error) => r is Err && r->Err_0.deep_view() == error,
        },
{
    let ghost s = state.deep_view();
    proof {
        reveal(migration_of);
    }
    let details = match plan_data(state, plan) {
        Ok(details) => details,
        Err(error) => {
            return Err(error);
        },
    };
    let baseline = if plan.baseline_mappings.len() == 0 {
        details.mappings
    } else {
        plan.baseline_mappings.duplicate()
    };
    let dataset = match state.datasets.get(plan.dataset_id.as_str()) {
        Some(dataset) => dataset,
        None => {
            return Err(ServiceError::not_found("dataset not found"));
        },
    };
    let analysis = match analysis_for(dataset, &plan.rules) {
        Ok(analysis) => analysis,
        Err(error) => {
            return Err(error);
        },
    };
    let targets = mappings::canonical_by_record(&analysis.records);
    let ids = mappings::gather_known(plan, &baseline);
    let registry = gather_registry(state);
    if let Some(i) = find_conflict(&registry, &baseline) {
        if let Some(existing) = registry.get(baseline[i].record_id.as_str()) {
            return Err(
                ServiceError::new(
                    409,
                    "migration-conflict",
                    ErrorDetails::MigrationConflict {
                        record_id: baseline[i].record_id.clone(),
                        existing: existing.clone(),
                    },
                ),
            );
        }
    }
    let mut collisions = find_bucket_collisions(
        &analysis.buckets,
        &ids,
        Ghost(plan.deep_view()),
        Ghost(baseline.deep_view()),
    );
    let mut more = find_record_collisions(
        &targets,
        &registry,
        &baseline,
        &ids,
        Ghost(plan.deep_view()),
    );
    let ghost all = collisions.deep_view() + more.deep_view();
    collisions.append(&mut more);
    proof {
        assert(collisions.deep_view() =~= all);
    }
    if collisions.len() > 0 {
        return Err(
            ServiceError::new(
                409,
                "simulation-failed",
                ErrorDetails::SimulationFailed {
                    collisions,
                    dataset_version_at_plan: plan.dataset_version,
                    current_dataset_version: dataset.version,
                    added_records: list_added(
                        &dataset.records,
                        plan.dataset_version,
                        Ghost(dataset.deep_view()),
                    ),
                },
            ),
        );
    }
    Ok(
        AppliedMigration {
            plan_id: plan_id.to_owned(),
            dataset_id: plan.dataset_id.clone(),
            baseline_plan_version: plan.version,
            mappings: baseline,
        },
    )
}

/// Decides on a request to carry a plan out.
pub fn apply_plan(
    state: &State,
    plan_id: &str,
    request: ApplyPlanReq,
    idempotency_key: Option<String>,
) -> (r: Result<Step, ServiceError>)
    ensures
        is_outcome(
            r,
            plan_application(
                state.deep_view(),
                plan_id@,
                request.deep_view(),
                idempotency_key.deep_view(),
            ),
        ),
{
    let plan = match state.plans.get(plan_id) {
        Some(plan) => plan,
        None => {
            return Err(ServiceError::not_found("plan not found"));
        },
    };
    if plan.version != request.expected_version {
        return Err(stale_plan(state, plan_id, plan, request.expected_version));
    }
    if plan.status == PlanStatus::Applied {
        let migration = match state.migrations.get(plan_id) {
            Some(migration) => Some(migration.duplicate()),
            None => None,
        };
        return Ok(
            Step::Reply {
                response: Response::AlreadyApplied { plan_id: plan_id.to_owned(), migration },
            },
        );
    }
    if plan.status != PlanStatus::Approved {
        return Err(refuse(409, plan.status, "applied"));
    }
    let migration = match simulate(state, plan_id, plan) {
        Ok(migration) => migration,
        Err(error) => {
            return Err(error);
        },
    };
    let hash = hash_apply(plan_id, plan.version);
    let response = Response::Applied { migration: migration.duplicate() };
    let change = Change::PlanApplied { plan_id: plan_id.to_owned(), migration };
    append_command(state, idempotency_key, hash, change, response)
}

/// The plans, in ascending order of their ids.
pub open spec fn plans_in_order(s: StateModel) -> Seq<PlanModel> {
    let ids = order::in_order(s.plans.dom());
    Seq::new(ids.len(), |i: int| s.plans[ids[i]])
}

/// All plans, in ascending order of their ids.
pub fn list_plans(state: &State) -> (r: Vec<Plan>)
    ensures
        r.deep_view() == plans_in_order(state.deep_view()),
{
    let ghost s = state.deep_view();
    let n = state.plans.len();
    let ghost keys = state.plans.keys();
    proof {
        assert(s.plans.dom() =~= state.plans@.dom());
    }
    let mut out: Vec<Plan> = Vec::new();
    let mut i: usize = 0;
    while i < n
        invariant
            s == state.deep_view(),
            n == keys.len(),
            keys == state.plans.keys(),
            i <= n,
            out@.len() == i,
            forall|k: int| 0 <= k < i ==> (#[trigger] out@[k]).deep_view() == s.plans[keys[k]],
        decreases n - i,
    {
        out.push(state.plans.value_at(i).duplicate());
        i += 1;
    }
    proof {
        assert(out.deep_view() =~= plans_in_order(s));
    }
    out
}

/// A plan with what it comes to.
pub fn get_plan(state: &State, plan_id: &str) -> (r: Result<Response, ServiceError>)
    ensures
        match r {
            Ok(response) => {
                &&& state.deep_view().plans.contains_key(plan_id@)
                &&& response.deep_view() == plan_shown(
                    state.deep_view(),
                    state.deep_view().plans[plan_id@],
                )
            },
            Err(error) => {
                &&& !state.deep_view().plans.contains_key(plan_id@)
                &&& error.deep_view() == requests::not_found("plan not found"@)
            },
        },
{
    match state.plans.get(plan_id) {
        Some(plan) => Ok(plan_view(state, plan)),
        None => Err(ServiceError::not_found("plan not found")),
    }
}

/// A file with what is exported of a plan.
#[derive(Debug)]
pub struct Export {
    pub file_name: String,
    pub text: String,
}

/// What is exported of a plan, or why it cannot be: the name of a file and its text.
pub open spec fn export_outcome(s: StateModel, id: Seq<char>) -> Result<
    (Seq<char>, Seq<char>),
    ServiceErrorModel,
> {
    if !s.plans.contains_key(id) {
        Err(requests::not_found("plan not found"@))
    } else if s.plans[id].status == PlanStatus::Draft {
        Err(requests::bad_request("a draft cannot be exported"@))
    } else {
        match mappings::plan_outcome(s, s.plans[id]) {
            Err(error) => Err(error),
            Ok(details) => match json::pretty_json(exports::export_text(s.plans[id], details)) {
                Err(message) => Err(requests::bad_request(message)),
                Ok(text) => Ok(("plan-"@ + id + ".json"@, text)),
            },
        }
    }
}

/// What is exported of a plan.
pub fn export_plan(state: &State, plan_id: &str) -> (r: Result<Export, ServiceError>)
    ensures
        match export_outcome(state.deep_view(), plan_id@) {
            Ok((file_name, text)) => {
                &&& r is Ok
                &&& r->Ok_0.file_name@ == file_name
                &&& r->Ok_0.text@ == text
            },
            Err(error) => r is Err && r->Err_0.deep_view() == error,
        },
{
    let plan = match state.plans.get(plan_id) {
        Some(plan) => plan,
        None => {
            return Err(ServiceError::not_found("plan not found"));
        },
    };
    if plan.status == PlanStatus::Draft {
        return Err(ServiceError::bad_request("a draft cannot be exported".to_owned()));
    }
    let details = match plan_data(state, plan) {
        Ok(details) => details,
        Err(error) => {
            return Err(error);
        },
    };
    match json::write_pretty(export_string(plan, &details).as_str()) {
        Ok(text) => {
            let mut file_name = "plan-".to_owned();
            file_name.push_str(plan_id);
            file_name.push_str(".json");
            Ok(Export { file_name, text })
        },
        Err(message) => Err(ServiceError::bad_request(message)),
    }
}

/// A text with its analysis.
#[derive(Debug)]
pub struct QueryAnalysis {
    pub query_original: String,
    pub analysis: Analysis,
}

/// The analysis of a single text; the text itself is kept.
pub fn analyze_query(query: String, rules: RuleConfig) -> (r: Result<QueryAnalysis, ServiceError>)
    ensures
        match engine::unknown_script(rules.deep_view()) {
            None => {
                &&& r is Ok
                &&& r->Ok_0.query_original@ == query@
                &&& r->Ok_0.analysis.deep_view() == engine::analysis_of(
                    rules.deep_view(),
                    seq![engine::query_input(query@)],
                )
            },
            Some(name) => r is Err && r->Err_0.deep_view() == requests::bad_request(
                engine::unknown_script_text(name),
            ),
        },
{
    match analyze_text(&rules, query.as_str()) {
        Ok(analysis) => Ok(QueryAnalysis { query_original: query, analysis }),
        Err(message) => Err(ServiceError::bad_request(message)),
    }
}

} // verus!
