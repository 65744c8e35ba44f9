//! The state of the collision workbench: data sets, plans, migrations and receipts, as a fold over
//! events.

use vstd::prelude::*;
use vstd::utf8::*;

use crate::engine::{Analysis, AnalysisModel, RuleConfig, RuleConfigModel};
use crate::sorting::Keyed;
use crate::strmap::StringMap;
use crate::text;
use crate::text::{push_lower_hex, Duplicate};

verus! {

/// How the source of a record was given.
#[derive(Debug, Clone, Copy, PartialEq, Eq, Structural)]
pub enum StoredRecordKind {
    Text,
    RawBase64,
    Codepoints,
}

/// A record with its source.
#[derive(Debug, Clone, PartialEq, Eq)]
pub struct StoredRecord {
    pub id: String,
    pub kind: StoredRecordKind,
    pub original_text: Option<String>,
    /// The source bytes in base64; for code points, their JSON list as it is.
    pub original_bytes_base64: String,
    /// The version of the data set that the record came with.
    pub source_version: u64,
}

/// The model of [`StoredRecord`].
#[verifier::ext_equal]
pub struct StoredRecordModel {
    pub id: Seq<char>,
    pub kind: StoredRecordKind,
    pub original_text: Option<Seq<char>>,
    pub original_bytes_base64: Seq<char>,
    pub source_version: u64,
}

impl DeepView for StoredRecord {
    type V = StoredRecordModel;

    open spec fn deep_view(&self) -> StoredRecordModel {
        StoredRecordModel {
            id: self.id@,
            kind: self.kind,
            original_text: self.original_text.deep_view(),
            original_bytes_base64: self.original_bytes_base64@,
            source_version: self.source_version,
        }
    }
}

impl Duplicate for StoredRecord {
    fn duplicate(&self) -> (r: Self) {
        StoredRecord {
            id: self.id.duplicate(),
            kind: self.kind,
            original_text: self.original_text.duplicate(),
            original_bytes_base64: self.original_bytes_base64.duplicate(),
            source_version: self.source_version,
        }
    }
}

/// A versioned set of records.
#[derive(Debug, Clone)]
pub struct Dataset {
    pub id: String,
    pub name: String,
    pub version: u64,
    /// Records by id.
    pub records: StringMap<StoredRecord>,
}

/// The model of [`Dataset`].
#[verifier::ext_equal]
pub struct DatasetModel {
    pub id: Seq<char>,
    pub name: Seq<char>,
    pub version: u64,
    pub records: Map<Seq<char>, StoredRecordModel>,
}

impl DeepView for Dataset {
    type V = DatasetModel;

    open spec fn deep_view(&self) -> DatasetModel {
        DatasetModel {
            id: self.id@,
            name: self.name@,
            version: self.version,
            records: self.records.deep_view(),
        }
    }
}

impl Duplicate for Dataset {
    fn duplicate(&self) -> (r: Self) {
        Dataset {
            id: self.id.duplicate(),
            name: self.name.duplicate(),
            version: self.version,
            records: self.records.duplicate(),
        }
    }
}

/// Where a plan stands.
#[derive(Debug, Clone, Copy, PartialEq, Eq, Structural)]
pub enum PlanStatus {
    Draft,
    Approved,
    Rejected,
    Applied,
}

impl PlanStatus {
    /// The name of the status.
    pub open spec fn name(self) -> Seq<char> {
        match self {
            PlanStatus::Draft => "Draft"@,
            PlanStatus::Approved => "Approved"@,
            PlanStatus::Rejected => "Rejected"@,
            PlanStatus::Applied => "Applied"@,
        }
    }

    /// The name of the status.
    pub fn as_str(self) -> (r: &'static str)
        ensures
            r@ == self.name(),
    {
        match self {
            PlanStatus::Draft => "Draft",
            PlanStatus::Approved => "Approved",
            PlanStatus::Rejected => "Rejected",
            PlanStatus::Applied => "Applied",
        }
    }
}

/// A decision on the records of a bucket.
#[derive(Debug, Clone)]
pub struct GroupDecision {
    pub action: String,
    pub primary_record_id: Option<String>,
    /// New values by record id.
    pub replacements: StringMap<String>,
    pub keep_old_alias: bool,
}

/// The model of [`GroupDecision`].
#[verifier::ext_equal]
pub struct GroupDecisionModel {
    pub action: Seq<char>,
    pub primary_record_id: Option<Seq<char>>,
    pub replacements: Map<Seq<char>, Seq<char>>,
    pub keep_old_alias: bool,
}

impl DeepView for GroupDecision {
    type V = GroupDecisionModel;

    open spec fn deep_view(&self) -> GroupDecisionModel {
        GroupDecisionModel {
            action: self.action@,
            primary_record_id: self.primary_record_id.deep_view(),
            replacements: self.replacements.deep_view(),
            keep_old_alias: self.keep_old_alias,
        }
    }
}

impl Duplicate for GroupDecision {
    fn duplicate(&self) -> (r: Self) {
        GroupDecision {
            action: self.action.duplicate(),
            primary_record_id: self.primary_record_id.duplicate(),
            replacements: self.replacements.duplicate(),
            keep_old_alias: self.keep_old_alias,
        }
    }
}

/// What becomes of one canonical value of a record.
#[derive(Debug, Clone, PartialEq, Eq)]
pub struct StoredMapping {
    pub record_id: String,
    pub old_canonical: String,
    pub new_canonical: String,
    pub action: String,
}

/// The model of [`StoredMapping`].
#[verifier::ext_equal]
pub struct StoredMappingModel {
    pub record_id: Seq<char>,
    pub old_canonical: Seq<char>,
    pub new_canonical: Seq<char>,
    pub action: Seq<char>,
}

impl DeepView for StoredMapping {
    type V = StoredMappingModel;

    open spec fn deep_view(&self) -> StoredMappingModel {
        StoredMappingModel {
            record_id: self.record_id@,
            old_canonical: self.old_canonical@,
            new_canonical: self.new_canonical@,
            action: self.action@,
        }
    }
}

impl Duplicate for StoredMapping {
    fn duplicate(&self) -> (r: Self) {
        StoredMapping {
            record_id: self.record_id.duplicate(),
            old_canonical: self.old_canonical.duplicate(),
            new_canonical: self.new_canonical.duplicate(),
            action: self.action.duplicate(),
        }
    }
}

/// A migration from one set of rules to another.
#[derive(Debug, Clone)]
pub struct Plan {
    pub id: String,
    pub dataset_id: String,
    pub dataset_version: u64,
    pub from_rules: RuleConfig,
    pub from_snapshot_json: String,
    pub rules: RuleConfig,
    pub rule_snapshot_json: String,
    pub status: PlanStatus,
    pub version: u64,
    /// The buckets with more than one record: record ids by canonical value.
    pub groups: StringMap<Vec<String>>,
    /// Decisions by canonical value.
    pub decisions: StringMap<GroupDecision>,
    /// The mappings that were approved.
    pub baseline_mappings: Vec<StoredMapping>,
}

/// The model of [`Plan`].
#[verifier::ext_equal]
pub struct PlanModel {
    pub id: Seq<char>,
    pub dataset_id: Seq<char>,
    pub dataset_version: u64,
    pub from_rules: RuleConfigModel,
    pub from_snapshot_json: Seq<char>,
    pub rules: RuleConfigModel,
    pub rule_snapshot_json: Seq<char>,
    pub status: PlanStatus,
    pub version: u64,
    pub groups: Map<Seq<char>, Seq<Seq<char>>>,
    pub decisions: Map<Seq<char>, GroupDecisionModel>,
    pub baseline_mappings: Seq<StoredMappingModel>,
}

impl DeepView for Plan {
    type V = PlanModel;

    open spec fn deep_view(&self) -> PlanModel {
        PlanModel {
            id: self.id@,
            dataset_id: self.dataset_id@,
            dataset_version: self.dataset_version,
            from_rules: self.from_rules.deep_view(),
            from_snapshot_json: self.from_snapshot_json@,
            rules: self.rules.deep_view(),
            rule_snapshot_json: self.rule_snapshot_json@,
            status: self.status,
            version: self.version,
            groups: self.groups.deep_view(),
            decisions: self.decisions.deep_view(),
            baseline_mappings: self.baseline_mappings.deep_view(),
        }
    }
}

impl Duplicate for Plan {
    fn duplicate(&self) -> (r: Self) {
        Plan {
            id: self.id.duplicate(),
            dataset_id: self.dataset_id.duplicate(),
            dataset_version: self.dataset_version,
            from_rules: self.from_rules.duplicate(),
            from_snapshot_json: self.from_snapshot_json.duplicate(),
            rules: self.rules.duplicate(),
            rule_snapshot_json: self.rule_snapshot_json.duplicate(),
            status: self.status,
            version: self.version,
            groups: self.groups.duplicate(),
            decisions: self.decisions.duplicate(),
            baseline_mappings: self.baseline_mappings.duplicate(),
        }
    }
}

/// What a plan came to be by a write.
#[derive(Debug, Clone)]
pub struct PlanChange {
    /// The version that the write led to.
    pub version: u64,
    pub status: PlanStatus,
    pub decisions: StringMap<GroupDecision>,
}

/// The model of [`PlanChange`].
#[verifier::ext_equal]
pub struct PlanChangeModel {
    pub version: u64,
    pub status: PlanStatus,
    pub decisions: Map<Seq<char>, GroupDecisionModel>,
}

impl DeepView for PlanChange {
    type V = PlanChangeModel;

    open spec fn deep_view(&self) -> PlanChangeModel {
        PlanChangeModel {
            version: self.version,
            status: self.status,
            decisions: self.decisions.deep_view(),
        }
    }
}

impl Duplicate for PlanChange {
    fn duplicate(&self) -> (r: Self) {
        PlanChange {
            version: self.version,
            status: self.status,
            decisions: self.decisions.duplicate(),
        }
    }
}

/// A plan that was carried out.
#[derive(Debug, Clone)]
pub struct AppliedMigration {
    pub plan_id: String,
    pub dataset_id: String,
    pub baseline_plan_version: u64,
    pub mappings: Vec<StoredMapping>,
}

/// The model of [`AppliedMigration`].
#[verifier::ext_equal]
pub struct AppliedMigrationModel {
    pub plan_id: Seq<char>,
    pub dataset_id: Seq<char>,
    pub baseline_plan_version: u64,
    pub mappings: Seq<StoredMappingModel>,
}

impl DeepView for AppliedMigration {
    type V = AppliedMigrationModel;

    open spec fn deep_view(&self) -> AppliedMigrationModel {
        AppliedMigrationModel {
            plan_id: self.plan_id@,
            dataset_id: self.dataset_id@,
            baseline_plan_version: self.baseline_plan_version,
            mappings: self.mappings.deep_view(),
        }
    }
}

impl Duplicate for AppliedMigration {
    fn duplicate(&self) -> (r: Self) {
        AppliedMigration {
            plan_id: self.plan_id.duplicate(),
            dataset_id: self.dataset_id.duplicate(),
            baseline_plan_version: self.baseline_plan_version,
            mappings: self.mappings.duplicate(),
        }
    }
}

/// What a plan comes to.
#[derive(Debug, Clone)]
pub struct PlanDetails {
    pub source_analysis: Analysis,
    pub target_analysis: Analysis,
    pub mappings: Vec<StoredMapping>,
}

/// The model of [`PlanDetails`].
#[verifier::ext_equal]
pub struct PlanDetailsModel {
    pub source_analysis: AnalysisModel,
    pub target_analysis: AnalysisModel,
    pub mappings: Seq<StoredMappingModel>,
}

impl DeepView for PlanDetails {
    type V = PlanDetailsModel;

    open spec fn deep_view(&self) -> PlanDetailsModel {
        PlanDetailsModel {
            source_analysis: self.source_analysis.deep_view(),
            target_analysis: self.target_analysis.deep_view(),
            mappings: self.mappings.deep_view(),
        }
    }
}

impl Duplicate for PlanDetails {
    fn duplicate(&self) -> (r: Self) {
        PlanDetails {
            source_analysis: self.source_analysis.duplicate(),
            target_analysis: self.target_analysis.duplicate(),
            mappings: self.mappings.duplicate(),
        }
    }
}

/// The answer to a request that was served.
#[derive(Debug, Clone)]
pub enum Response {
    /// A data set without its records.
    Dataset { id: String, name: String, version: u64, record_count: usize },
    /// A plan alone.
    Plan { plan: Plan },
    /// A plan with what it comes to, where that can be computed.
    PlanView { plan: Plan, details: Option<PlanDetails> },
    /// A plan was carried out.
    Applied { migration: AppliedMigration },
    /// A plan had been carried out before.
    AlreadyApplied { plan_id: String, migration: Option<AppliedMigration> },
}

/// The model of [`Response`].
#[verifier::ext_equal]
pub enum ResponseModel {
    Dataset { id: Seq<char>, name: Seq<char>, version: u64, record_count: usize },
    Plan { plan: PlanModel },
    PlanView { plan: PlanModel, details: Option<PlanDetailsModel> },
    Applied { migration: AppliedMigrationModel },
    AlreadyApplied { plan_id: Seq<char>, migration: Option<AppliedMigrationModel> },
}

impl DeepView for Response {
    type V = ResponseModel;

    open spec fn deep_view(&self) -> ResponseModel {
        match self {
            Response::Dataset { id, name, version, record_count } => ResponseModel::Dataset {
                id: id@,
                name: name@,
                version: *version,
                record_count: *record_count,
            },
            Response::Plan { plan } => ResponseModel::Plan {
                plan: plan.deep_view(),
            },
            Response::PlanView { plan, details } => ResponseModel::PlanView {
                plan: plan.deep_view(),
                details: details.deep_view(),
            },
            Response::Applied { migration } => ResponseModel::Applied {
                migration: migration.deep_view(),
            },
            Response::AlreadyApplied { plan_id, migration } => ResponseModel::AlreadyApplied {
                plan_id: plan_id@,
                migration: migration.deep_view(),
            },
        }
    }
}

impl Duplicate for Response {
    fn duplicate(&self) -> (r: Self) {
        match self {
            Response::Dataset { id, name, version, record_count } => Response::Dataset {
                id: id.duplicate(),
                name: name.duplicate(),
                version: *version,
                record_count: *record_count,
            },
            Response::Plan { plan } => Response::Plan {
                plan: plan.duplicate(),
            },
            Response::PlanView { plan, details } => Response::PlanView {
                plan: plan.duplicate(),
                details: details.duplicate(),
            },
            Response::Applied { migration } => Response::Applied {
                migration: migration.duplicate(),
            },
            Response::AlreadyApplied { plan_id, migration } => Response::AlreadyApplied {
                plan_id: plan_id.duplicate(),
                migration: migration.duplicate(),
            },
        }
    }
}

/// The answer to a request that carried a key.
#[derive(Debug, Clone)]
pub struct Receipt {
    pub request_hash: String,
    pub response: Response,
}

/// The model of [`Receipt`].
#[verifier::ext_equal]
pub struct ReceiptModel {
    pub request_hash: Seq<char>,
    pub response: ResponseModel,
}

impl DeepView for Receipt {
    type V = ReceiptModel;

    open spec fn deep_view(&self) -> ReceiptModel {
        ReceiptModel {
            request_hash: self.request_hash@,
            response: self.response.deep_view(),
        }
    }
}

impl Duplicate for Receipt {
    fn duplicate(&self) -> (r: Self) {
        Receipt {
            request_hash: self.request_hash.duplicate(),
            response: self.response.duplicate(),
        }
    }
}

/// The key of a request with its receipt.
#[derive(Debug, Clone)]
pub struct Command {
    pub key: String,
    pub receipt: Receipt,
}

/// The model of [`Command`].
#[verifier::ext_equal]
pub struct CommandModel {
    pub key: Seq<char>,
    pub receipt: ReceiptModel,
}

impl DeepView for Command {
    type V = CommandModel;

    open spec fn deep_view(&self) -> CommandModel {
        CommandModel {
            key: self.key@,
            receipt: self.receipt.deep_view(),
        }
    }
}

/// A change of the state.
#[derive(Debug, Clone)]
pub enum Change {
    DatasetCreated { dataset: Dataset },
    RecordsAppended { dataset_id: String, version: u64, records: Vec<StoredRecord> },
    PlanCreated { plan: Plan },
    PlanUpdated { plan: Plan },
    PlanApplied { plan_id: String, migration: AppliedMigration },
}

/// The model of [`Change`].
#[verifier::ext_equal]
pub enum ChangeModel {
    DatasetCreated { dataset: DatasetModel },
    RecordsAppended { dataset_id: Seq<char>, version: u64, records: Seq<StoredRecordModel> },
    PlanCreated { plan: PlanModel },
    PlanUpdated { plan: PlanModel },
    PlanApplied { plan_id: Seq<char>, migration: AppliedMigrationModel },
}

impl DeepView for Change {
    type V = ChangeModel;

    open spec fn deep_view(&self) -> ChangeModel {
        match self {
            Change::DatasetCreated { dataset } => ChangeModel::DatasetCreated {
                dataset: dataset.deep_view(),
            },
            Change::RecordsAppended { dataset_id, version, records } => ChangeModel::RecordsAppended {
                dataset_id: dataset_id@,
                version: *version,
                records: records.deep_view(),
            },
            Change::PlanCreated { plan } => ChangeModel::PlanCreated {
                plan: plan.deep_view(),
            },
            Change::PlanUpdated { plan } => ChangeModel::PlanUpdated {
                plan: plan.deep_view(),
            },
            Change::PlanApplied { plan_id, migration } => ChangeModel::PlanApplied {
                plan_id: plan_id@,
                migration: migration.deep_view(),
            },
        }
    }
}

/// A change, with the receipt of the request that asked for it where that carried a key.
#[derive(Debug, Clone)]
pub struct Event {
    pub change: Change,
    pub command: Option<Command>,
}

/// The model of [`Event`].
#[verifier::ext_equal]
pub struct EventModel {
    pub change: ChangeModel,
    pub command: Option<CommandModel>,
}

impl DeepView for Event {
    type V = EventModel;

    open spec fn deep_view(&self) -> EventModel {
        EventModel {
            change: self.change.deep_view(),
            command: self.command.deep_view(),
        }
    }
}

/// Everything that is stored.
#[derive(Debug, Clone)]
pub struct State {
    /// Data sets by id.
    pub datasets: StringMap<Dataset>,
    /// Plans by id.
    pub plans: StringMap<Plan>,
    /// What was written of each plan, by plan id, in order.
    pub plan_changes: StringMap<Vec<PlanChange>>,
    /// Migrations by plan id.
    pub migrations: StringMap<AppliedMigration>,
    /// Receipts by key.
    pub commands: StringMap<Receipt>,
}

/// The model of [`State`].
#[verifier::ext_equal]
pub struct StateModel {
    pub datasets: Map<Seq<char>, DatasetModel>,
    pub plans: Map<Seq<char>, PlanModel>,
    pub plan_changes: Map<Seq<char>, Seq<PlanChangeModel>>,
    pub migrations: Map<Seq<char>, AppliedMigrationModel>,
    pub commands: Map<Seq<char>, ReceiptModel>,
}

impl DeepView for State {
    type V = StateModel;

    open spec fn deep_view(&self) -> StateModel {
        StateModel {
            datasets: self.datasets.deep_view(),
            plans: self.plans.deep_view(),
            plan_changes: self.plan_changes.deep_view(),
            migrations: self.migrations.deep_view(),
            commands: self.commands.deep_view(),
        }
    }
}

impl Keyed for StoredMapping {
    open spec fn key(m: StoredMappingModel) -> Seq<char> {
        m.record_id
    }

    fn key_str(&self) -> (r: &str) {
        self.record_id.as_str()
    }
}

/// The state before any event.
pub open spec fn empty_state() -> StateModel {
    StateModel {
        datasets: Map::empty(),
        plans: Map::empty(),
        plan_changes: Map::empty(),
        migrations: Map::empty(),
        commands: Map::empty(),
    }
}

impl Default for State {
    fn default() -> (r: Self)
        ensures
            r.deep_view() == empty_state(),
    {
        let r = State {
            datasets: StringMap::new(),
            plans: StringMap::new(),
            plan_changes: StringMap::new(),
            migrations: StringMap::new(),
            commands: StringMap::new(),
        };
        proof {
            assert(r.deep_view() =~~= empty_state());
        }
        r
    }
}

/// The starting value of the 64-bit FNV-1a hash.
pub const FNV_OFFSET: u64 = 0xcbf2_9ce4_8422_2325;

/// The factor of the 64-bit FNV-1a hash.
pub const FNV_PRIME: u64 = 0x0000_0100_0000_01b3;

/// The hash with one more byte.
pub open spec fn fnv_step(hash: u64, byte: u8) -> u64 {
    ((hash ^ (byte as u64)) * FNV_PRIME % 0x1_0000_0000_0000_0000) as u64
}

/// The FNV-1a hash of bytes, from a given value on.
pub open spec fn fnv(hash: u64, bytes: Seq<u8>) -> u64
    decreases bytes.len(),
{
    if bytes.len() == 0 {
        hash
    } else {
        fnv_step(fnv(hash, bytes.drop_last()), bytes.last())
    }
}

/// The bytes of texts, with a zero byte between them.
pub open spec fn parts_bytes(parts: Seq<Seq<char>>) -> Seq<u8>
    decreases parts.len(),
{
    if parts.len() == 0 {
        seq![]
    } else if parts.len() == 1 {
        encode_utf8(parts[0])
    } else {
        parts_bytes(parts.drop_last()).push(0) + encode_utf8(parts.last())
    }
}

/// An id that is fixed by a prefix and some texts.
pub open spec fn stable_id_text(prefix: Seq<char>, parts: Seq<Seq<char>>) -> Seq<char> {
    prefix + "-"@ + text::lower_hex_text(fnv(FNV_OFFSET, parts_bytes(parts)) as nat, 16)
}

fn hash_byte(hash: u64, byte: u8) -> (r: u64)
    ensures
        r == fnv_step(hash, byte),
{
    (hash ^ (byte as u64)).wrapping_mul(FNV_PRIME)
}

fn hash_bytes(hash: u64, bytes: &[u8]) -> (r: u64)
    ensures
        r == fnv(hash, bytes@),
{
    let mut h: u64 = hash;
    proof {
        assert(bytes@.take(0) =~= Seq::<u8>::empty());
    }
    for i in 0..bytes.len()
        invariant
            h == fnv(hash, bytes@.take(i as int)),
    {
        proof {
            assert(bytes@.take(i + 1).drop_last() =~= bytes@.take(i as int));
            assert(bytes@.take(i + 1).last() == bytes@[i as int]);
        }
        h = hash_byte(h, bytes[i]);
    }
    proof {
        assert(bytes@.take(bytes@.len() as int) =~= bytes@);
    }
    h
}

proof fn lemma_fnv_concat(hash: u64, a: Seq<u8>, b: Seq<u8>)
    ensures
        fnv(hash, a + b) == fnv(fnv(hash, a), b),
    decreases b.len(),
{
    if b.len() == 0 {
        assert(a + b =~= a);
    } else {
        assert((a + b).drop_last() =~= a + b.drop_last());
        lemma_fnv_concat(hash, a, b.drop_last());
    }
}

/// An id that is fixed by a prefix and some texts: their 64-bit FNV-1a hash.
pub fn stable_id(prefix: &str, parts: &Vec<String>) -> (r: String)
    ensures
        r@ == stable_id_text(prefix@, parts.deep_view()),
{
    let ghost model = parts.deep_view();
    let mut hash: u64 = FNV_OFFSET;
    proof {
        assert(model.take(0) =~= Seq::<Seq<char>>::empty());
    }
    for i in 0..parts.len()
        invariant
            model == parts.deep_view(),
            hash == fnv(FNV_OFFSET, parts_bytes(model.take(i as int))),
    {
        let ghost before = parts_bytes(model.take(i as int));
        proof {
            assert(model.take(i + 1).drop_last() =~= model.take(i as int));
            assert(model.take(i + 1).last() == parts@[i as int]@);
        }
        if i > 0 {
            proof {
                lemma_fnv_concat(FNV_OFFSET, before, seq![0u8]);
                assert(before + seq![0u8] =~= before.push(0));
                assert(seq![0u8].drop_last() =~= Seq::<u8>::empty());
                assert(fnv(hash, seq![0u8]) == fnv_step(fnv(hash, Seq::<u8>::empty()), 0));
            }
            hash = hash_byte(hash, 0);
            proof {
                lemma_fnv_concat(FNV_OFFSET, before.push(0), encode_utf8(parts@[i as int]@));
            }
        } else {
            proof {
                lemma_fnv_concat(FNV_OFFSET, before, encode_utf8(parts@[i as int]@));
                assert(before + encode_utf8(parts@[i as int]@) =~= encode_utf8(parts@[i as int]@));
                assert(model.take(1)[0] == parts@[0]@);
            }
        }
        hash = hash_bytes(hash, parts[i].as_str().as_bytes());
    }
    proof {
        assert(model.take(model.len() as int) =~= model);
    }
    let mut out = prefix.to_owned();
    out.push_str("-");
    push_lower_hex(&mut out, hash, 16);
    out
}

/// Records of a data set with some more, each under its id.
pub open spec fn with_records(
    records: Map<Seq<char>, StoredRecordModel>,
    added: Seq<StoredRecordModel>,
) -> Map<Seq<char>, StoredRecordModel>
    decreases added.len(),
{
    if added.len() == 0 {
        records
    } else {
        with_records(records, added.drop_last()).insert(added.last().id, added.last())
    }
}

/// What was written of a plan, in order.
pub open spec fn changes_of(s: StateModel, id: Seq<char>) -> Seq<PlanChangeModel> {
    if s.plan_changes.contains_key(id) {
        s.plan_changes[id]
    } else {
        seq![]
    }
}

/// The state after a plan was written.
pub open spec fn with_plan(s: StateModel, plan: PlanModel) -> StateModel {
    let change = PlanChangeModel {
        version: plan.version,
        status: plan.status,
        decisions: plan.decisions,
    };
    StateModel {
        plans: s.plans.insert(plan.id, plan),
        plan_changes: s.plan_changes.insert(plan.id, changes_of(s, plan.id).push(change)),
        ..s
    }
}

/// The state after a change.
pub open spec fn changed(s: StateModel, change: ChangeModel) -> StateModel {
    match change {
        ChangeModel::DatasetCreated { dataset } => StateModel {
            datasets: s.datasets.insert(dataset.id, dataset),
            ..s
        },
        ChangeModel::RecordsAppended { dataset_id, version, records } => if s.datasets.contains_key(
            dataset_id,
        ) {
            let dataset = s.datasets[dataset_id];
            StateModel {
                datasets: s.datasets.insert(
                    dataset_id,
                    DatasetModel {
                        version,
                        records: with_records(dataset.records, records),
                        ..dataset
                    },
                ),
                ..s
            }
        } else {
            s
        },
        ChangeModel::PlanCreated { plan } => with_plan(s, plan),
        ChangeModel::PlanUpdated { plan } => with_plan(s, plan),
        ChangeModel::PlanApplied { plan_id, migration } => StateModel {
            plans: if s.plans.contains_key(plan_id) {
                s.plans.insert(
                    plan_id,
                    PlanModel { status: PlanStatus::Applied, ..s.plans[plan_id] },
                )
            } else {
                s.plans
            },
            migrations: s.migrations.insert(plan_id, migration),
            ..s
        },
    }
}

/// The state after an event.
pub open spec fn applied(s: StateModel, e: EventModel) -> StateModel {
    let t = changed(s, e.change);
    match e.command {
        Some(command) => StateModel {
            commands: t.commands.insert(command.key, command.receipt),
            ..t
        },
        None => t,
    }
}

/// The state after some events.
pub open spec fn replayed(s: StateModel, log: Seq<EventModel>) -> StateModel
    decreases log.len(),
{
    if log.len() == 0 {
        s
    } else {
        applied(replayed(s, log.drop_last()), log.last())
    }
}

/// Adds records, each under its id.
pub fn add_records(records: &mut StringMap<StoredRecord>, added: &Vec<StoredRecord>)
    ensures
        final(records).deep_view() == with_records(old(records).deep_view(), added.deep_view()),
{
    broadcast use text::lemma_map_models_insert;

    let ghost model = added.deep_view();
    let ghost start = records.deep_view();
    proof {
        assert(model.take(0) =~= Seq::<StoredRecordModel>::empty());
    }
    for i in 0..added.len()
        invariant
            model == added.deep_view(),
            records.deep_view() == with_records(start, model.take(i as int)),
    {
        proof {
            assert(model.take(i + 1).drop_last() =~= model.take(i as int));
            assert(model.take(i + 1).last() == added@[i as int].deep_view());
        }
        let record = added[i].duplicate();
        records.insert(record.id.clone(), record);
    }
    proof {
        assert(model.take(model.len() as int) =~= model);
    }
}

impl State {
    fn put_plan(&mut self, plan: Plan)
        ensures
            final(self).deep_view() == with_plan(old(self).deep_view(), plan.deep_view()),
    {
        broadcast use {
            text::lemma_map_models_insert,
            text::lemma_map_models_remove,
            text::lemma_models_push,
            text::lemma_vec_model,
        };

        let ghost want = with_plan(self.deep_view(), plan.deep_view());
        let change = PlanChange {
            version: plan.version,
            status: plan.status,
            decisions: plan.decisions.duplicate(),
        };
        let mut changes: Vec<PlanChange> = match self.plan_changes.remove(plan.id.as_str()) {
            Some(changes) => changes,
            None => Vec::new(),
        };
        proof {
            assert(changes.deep_view() =~= changes_of(old(self).deep_view(), plan.id@));
        }
        changes.push(change);
        self.plan_changes.insert(plan.id.clone(), changes);
        self.plans.insert(plan.id.clone(), plan);
        proof {
            assert(self.deep_view().plan_changes =~= want.plan_changes);
            assert(self.deep_view() =~= want);
        }
    }

    /// Applies an event.
    pub fn apply(&mut self, event: Event)
        ensures
            final(self).deep_view() == applied(old(self).deep_view(), event.deep_view()),
    {
        broadcast use {text::lemma_map_models_insert, text::lemma_map_models_remove};

        let ghost start = self.deep_view();
        let ghost want = applied(start, event.deep_view());
        match event.change {
            Change::DatasetCreated { dataset } => {
                self.datasets.insert(dataset.id.clone(), dataset);
            },
            Change::RecordsAppended { dataset_id, version, records } => {
                let ghost before = self.datasets@;
                if let Some(dataset) = self.datasets.remove(dataset_id.as_str()) {
                    let mut all = dataset.records;
                    add_records(&mut all, &records);
                    let changed = Dataset {
                        id: dataset.id,
                        name: dataset.name,
                        version,
                        records: all,
                    };
                    self.datasets.insert(dataset_id, changed);
                    proof {
                        assert(self.deep_view().datasets =~= want.datasets);
                    }
                } else {
                    proof {
                        assert(self.datasets@ =~= before);
                    }
                }
            },
            Change::PlanCreated { plan } => {
                self.put_plan(plan);
            },
            Change::PlanUpdated { plan } => {
                self.put_plan(plan);
            },
            Change::PlanApplied { plan_id, migration } => {
                let ghost before = self.plans@;
                if let Some(plan) = self.plans.remove(plan_id.as_str()) {
                    let changed = Plan { status: PlanStatus::Applied, ..plan };
                    self.plans.insert(plan_id.clone(), changed);
                    proof {
                        assert(self.deep_view().plans =~= want.plans);
                    }
                } else {
                    proof {
                        assert(self.plans@ =~= before);
                    }
                }
                self.migrations.insert(plan_id, migration);
            },
        }
        if let Some(command) = event.command {
            self.commands.insert(command.key, command.receipt);
        }
        proof {
            assert(self.deep_view() =~= want);
        }
    }
}

} // verus!
