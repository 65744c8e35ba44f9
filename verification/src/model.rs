//! The persisted entities. Everything that results from normalization is versioned and immutable;
//! original bytes are never overwritten.

use vstd::prelude::*;

pub use crate::hex_bytes;

use crate::strmap::StringMap;
use crate::text::Duplicate;
use crate::unicode;
use crate::unicode::{
    Normalization, RuleConfig, RuleConfigModel, TableVersions, TableVersionsModel, Trace, TraceModel,
};

verus! {

/// The number of an entity.
pub type Id = u64;

fn copy_bytes(bytes: &Vec<u8>) -> (r: Vec<u8>)
    ensures
        r@ == bytes@,
{
    let r = bytes.duplicate();
    proof {
        assert(r@ =~= r.deep_view());
        assert(bytes@ =~= bytes.deep_view());
    }
    r
}

/// A numbered set of rules with the tables that it goes by.
#[derive(Clone, Debug)]
pub struct Ruleset {
    pub id: Id,
    pub label: String,
    /// The table revision. An upgrade of the tables makes a new rule set with the next revision; approved
    /// plans stay with the one they were built from.
    pub revision: u32,
    pub config: RuleConfig,
    pub tables: TableVersions,
}

/// The model of [`Ruleset`].
#[verifier::ext_equal]
pub struct RulesetModel {
    pub id: Id,
    pub label: Seq<char>,
    pub revision: u32,
    pub config: RuleConfigModel,
    pub tables: TableVersionsModel,
}

impl DeepView for Ruleset {
    type V = RulesetModel;

    open spec fn deep_view(&self) -> RulesetModel {
        RulesetModel {
            id: self.id,
            label: self.label@,
            revision: self.revision,
            config: self.config.deep_view(),
            tables: self.tables.deep_view(),
        }
    }
}

impl Duplicate for Ruleset {
    fn duplicate(&self) -> (r: Self) {
        Ruleset {
            id: self.id,
            label: self.label.duplicate(),
            revision: self.revision,
            config: self.config.duplicate(),
            tables: self.tables.duplicate(),
        }
    }
}

/// A record as it was imported.
#[derive(Clone, Debug)]
pub struct ImportedRecord {
    /// The stable record number, given by the user and scoped to a data set.
    pub record_no: String,
    /// The original bytes, kept forever.
    pub raw: Vec<u8>,
}

/// The model of [`ImportedRecord`].
#[verifier::ext_equal]
pub struct ImportedRecordModel {
    pub record_no: Seq<char>,
    pub raw: Seq<u8>,
}

impl DeepView for ImportedRecord {
    type V = ImportedRecordModel;

    open spec fn deep_view(&self) -> ImportedRecordModel {
        ImportedRecordModel {
            record_no: self.record_no@,
            raw: self.raw@,
        }
    }
}

impl Duplicate for ImportedRecord {
    fn duplicate(&self) -> (r: Self) {
        let raw = copy_bytes(&self.raw);
        ImportedRecord {
            record_no: self.record_no.duplicate(),
            raw,
        }
    }
}

/// The records of one import.
#[derive(Clone, Debug)]
pub struct Dataset {
    pub id: Id,
    pub label: String,
    pub records: Vec<ImportedRecord>,
}

/// The model of [`Dataset`].
#[verifier::ext_equal]
pub struct DatasetModel {
    pub id: Id,
    pub label: Seq<char>,
    pub records: Seq<ImportedRecordModel>,
}

impl DeepView for Dataset {
    type V = DatasetModel;

    open spec fn deep_view(&self) -> DatasetModel {
        DatasetModel {
            id: self.id,
            label: self.label@,
            records: self.records.deep_view(),
        }
    }
}

impl Duplicate for Dataset {
    fn duplicate(&self) -> (r: Self) {
        Dataset {
            id: self.id,
            label: self.label.duplicate(),
            records: self.records.duplicate(),
        }
    }
}

/// What an analysis says of one record.
#[derive(Clone, Debug)]
pub struct AnalyzedRecord {
    pub record_no: String,
    pub raw: Vec<u8>,
    pub trace: Trace,
}

/// The model of [`AnalyzedRecord`].
#[verifier::ext_equal]
pub struct AnalyzedRecordModel {
    pub record_no: Seq<char>,
    pub raw: Seq<u8>,
    pub trace: TraceModel,
}

impl DeepView for AnalyzedRecord {
    type V = AnalyzedRecordModel;

    open spec fn deep_view(&self) -> AnalyzedRecordModel {
        AnalyzedRecordModel {
            record_no: self.record_no@,
            raw: self.raw@,
            trace: self.trace.deep_view(),
        }
    }
}

impl Duplicate for AnalyzedRecord {
    fn duplicate(&self) -> (r: Self) {
        let raw = copy_bytes(&self.raw);
        AnalyzedRecord {
            record_no: self.record_no.duplicate(),
            raw,
            trace: self.trace.duplicate(),
        }
    }
}

/// The records that share a canonical value.
#[derive(Clone, Debug)]
pub struct Bucket {
    pub canonical: String,
    pub canonical_cps: Vec<u32>,
    /// The UTF-8 bytes of the canonical value in hexadecimal: a stable bucket id.
    pub bucket_hex: String,
    pub record_nos: Vec<String>,
    /// Every member has the same original bytes.
    pub identical_originals: bool,
}

/// The model of [`Bucket`].
#[verifier::ext_equal]
pub struct BucketModel {
    pub canonical: Seq<char>,
    pub canonical_cps: Seq<u32>,
    pub bucket_hex: Seq<char>,
    pub record_nos: Seq<Seq<char>>,
    pub identical_originals: bool,
}

impl DeepView for Bucket {
    type V = BucketModel;

    open spec fn deep_view(&self) -> BucketModel {
        BucketModel {
            canonical: self.canonical@,
            canonical_cps: self.canonical_cps.deep_view(),
            bucket_hex: self.bucket_hex@,
            record_nos: self.record_nos.deep_view(),
            identical_originals: self.identical_originals,
        }
    }
}

impl Duplicate for Bucket {
    fn duplicate(&self) -> (r: Self) {
        Bucket {
            canonical: self.canonical.duplicate(),
            canonical_cps: self.canonical_cps.duplicate(),
            bucket_hex: self.bucket_hex.duplicate(),
            record_nos: self.record_nos.duplicate(),
            identical_originals: self.identical_originals,
        }
    }
}

/// An analysis of a data set under a rule set. It is never changed.
#[derive(Clone, Debug)]
pub struct Analysis {
    pub id: Id,
    pub dataset_id: Id,
    pub ruleset_id: Id,
    /// The revision of the rule set when the analysis was built.
    pub ruleset_revision: u32,
    pub tables: TableVersions,
    pub config: RuleConfig,
    pub records: Vec<AnalyzedRecord>,
    pub buckets: Vec<Bucket>,
}

/// The model of [`Analysis`].
#[verifier::ext_equal]
pub struct AnalysisModel {
    pub id: Id,
    pub dataset_id: Id,
    pub ruleset_id: Id,
    pub ruleset_revision: u32,
    pub tables: TableVersionsModel,
    pub config: RuleConfigModel,
    pub records: Seq<AnalyzedRecordModel>,
    pub buckets: Seq<BucketModel>,
}

impl DeepView for Analysis {
    type V = AnalysisModel;

    open spec fn deep_view(&self) -> AnalysisModel {
        AnalysisModel {
            id: self.id,
            dataset_id: self.dataset_id,
            ruleset_id: self.ruleset_id,
            ruleset_revision: self.ruleset_revision,
            tables: self.tables.deep_view(),
            config: self.config.deep_view(),
            records: self.records.deep_view(),
            buckets: self.buckets.deep_view(),
        }
    }
}

impl Duplicate for Analysis {
    fn duplicate(&self) -> (r: Self) {
        Analysis {
            id: self.id,
            dataset_id: self.dataset_id,
            ruleset_id: self.ruleset_id,
            ruleset_revision: self.ruleset_revision,
            tables: self.tables.duplicate(),
            config: self.config.duplicate(),
            records: self.records.duplicate(),
            buckets: self.buckets.duplicate(),
        }
    }
}

/// What is to become of a group of records that collide.
#[derive(Clone, Copy, Debug, PartialEq, Eq, Structural)]
pub enum GroupAction {
    Undecided,
    Rename,
    KeepAlias,
    Reject,
}

/// A decision on a group.
#[derive(Clone, Debug, PartialEq, Eq)]
pub struct GroupDecision {
    pub action: GroupAction,
    /// The new canonical value, for a renaming.
    pub new_value: String,
    /// Keep the canonical values from before the migration as aliases.
    pub keep_old_aliases: bool,
}

/// The model of [`GroupDecision`].
#[verifier::ext_equal]
pub struct GroupDecisionModel {
    pub action: GroupAction,
    pub new_value: Seq<char>,
    pub keep_old_aliases: bool,
}

impl DeepView for GroupDecision {
    type V = GroupDecisionModel;

    open spec fn deep_view(&self) -> GroupDecisionModel {
        GroupDecisionModel {
            action: self.action,
            new_value: self.new_value@,
            keep_old_aliases: self.keep_old_aliases,
        }
    }
}

impl Duplicate for GroupDecision {
    fn duplicate(&self) -> (r: Self) {
        GroupDecision {
            action: self.action,
            new_value: self.new_value.duplicate(),
            keep_old_aliases: self.keep_old_aliases,
        }
    }
}

/// No decision yet.
pub open spec fn undecided() -> GroupDecisionModel {
    GroupDecisionModel {
        action: GroupAction::Undecided,
        new_value: seq![],
        keep_old_aliases: false,
    }
}

impl Default for GroupDecision {
    fn default() -> (r: Self)
        ensures
            r.deep_view() == undecided(),
    {
        let r = GroupDecision {
            action: GroupAction::Undecided,
            new_value: String::new(),
            keep_old_aliases: false,
        };
        proof {
            assert(r.deep_view() =~= undecided());
        }
        r
    }
}

/// What an approved plan makes of one record.
#[derive(Clone, Debug, PartialEq, Eq)]
pub struct AppliedMapping {
    pub record_no: String,
    pub original_raw: Vec<u8>,
    pub old_canonical: String,
    pub new_canonical: String,
    pub aliases: Vec<String>,
    pub rejected: bool,
}

/// The model of [`AppliedMapping`].
#[verifier::ext_equal]
pub struct AppliedMappingModel {
    pub record_no: Seq<char>,
    pub original_raw: Seq<u8>,
    pub old_canonical: Seq<char>,
    pub new_canonical: Seq<char>,
    pub aliases: Seq<Seq<char>>,
    pub rejected: bool,
}

impl DeepView for AppliedMapping {
    type V = AppliedMappingModel;

    open spec fn deep_view(&self) -> AppliedMappingModel {
        AppliedMappingModel {
            record_no: self.record_no@,
            original_raw: self.original_raw@,
            old_canonical: self.old_canonical@,
            new_canonical: self.new_canonical@,
            aliases: self.aliases.deep_view(),
            rejected: self.rejected,
        }
    }
}

impl Duplicate for AppliedMapping {
    fn duplicate(&self) -> (r: Self) {
        let original_raw = copy_bytes(&self.original_raw);
        AppliedMapping {
            record_no: self.record_no.duplicate(),
            original_raw,
            old_canonical: self.old_canonical.duplicate(),
            new_canonical: self.new_canonical.duplicate(),
            aliases: self.aliases.duplicate(),
            rejected: self.rejected,
        }
    }
}

#[derive(Clone, Copy, Debug, PartialEq, Eq, Structural)]
pub enum PlanStatus {
    Draft,
    Approved,
}

/// A migration plan over an analysis.
#[derive(Clone, Debug)]
pub struct Plan {
    pub id: Id,
    pub analysis_id: Id,
    pub status: PlanStatus,
    /// Decisions by bucket id.
    pub decisions: StringMap<GroupDecision>,
    /// Filled in on approval, and never computed again.
    pub mapping: Vec<AppliedMapping>,
    pub approved_ruleset_revision: Option<u32>,
    pub approved_tables: Option<TableVersions>,
}

/// The model of [`Plan`].
#[verifier::ext_equal]
pub struct PlanModel {
    pub id: Id,
    pub analysis_id: Id,
    pub status: PlanStatus,
    pub decisions: Map<Seq<char>, GroupDecisionModel>,
    pub mapping: Seq<AppliedMappingModel>,
    pub approved_ruleset_revision: Option<u32>,
    pub approved_tables: Option<TableVersionsModel>,
}

impl DeepView for Plan {
    type V = PlanModel;

    open spec fn deep_view(&self) -> PlanModel {
        PlanModel {
            id: self.id,
            analysis_id: self.analysis_id,
            status: self.status,
            decisions: self.decisions.deep_view(),
            mapping: self.mapping.deep_view(),
            approved_ruleset_revision: self.approved_ruleset_revision,
            approved_tables: self.approved_tables.deep_view(),
        }
    }
}

impl Duplicate for Plan {
    fn duplicate(&self) -> (r: Self) {
        Plan {
            id: self.id,
            analysis_id: self.analysis_id,
            status: self.status,
            decisions: self.decisions.duplicate(),
            mapping: self.mapping.duplicate(),
            approved_ruleset_revision: self.approved_ruleset_revision,
            approved_tables: self.approved_tables.duplicate(),
        }
    }
}

/// A committed mapping, for the collision checks of later plans.
#[derive(Clone, Debug)]
pub struct CommittedEntry {
    pub plan_id: Id,
    pub record_no: String,
    pub new_canonical: String,
    pub aliases: Vec<String>,
}

/// The model of [`CommittedEntry`].
#[verifier::ext_equal]
pub struct CommittedEntryModel {
    pub plan_id: Id,
    pub record_no: Seq<char>,
    pub new_canonical: Seq<char>,
    pub aliases: Seq<Seq<char>>,
}

impl DeepView for CommittedEntry {
    type V = CommittedEntryModel;

    open spec fn deep_view(&self) -> CommittedEntryModel {
        CommittedEntryModel {
            plan_id: self.plan_id,
            record_no: self.record_no@,
            new_canonical: self.new_canonical@,
            aliases: self.aliases.deep_view(),
        }
    }
}

impl Duplicate for CommittedEntry {
    fn duplicate(&self) -> (r: Self) {
        CommittedEntry {
            plan_id: self.plan_id,
            record_no: self.record_no.duplicate(),
            new_canonical: self.new_canonical.duplicate(),
            aliases: self.aliases.duplicate(),
        }
    }
}

/// The responses to requests that carried a key.
#[derive(Clone, Debug)]
pub struct IdempotencyTable {
    /// Status and body by key.
    pub entries: StringMap<(u16, String)>,
}

/// The model of [`IdempotencyTable`].
#[verifier::ext_equal]
pub struct IdempotencyTableModel {
    pub entries: Map<Seq<char>, (u16, Seq<char>)>,
}

impl DeepView for IdempotencyTable {
    type V = IdempotencyTableModel;

    open spec fn deep_view(&self) -> IdempotencyTableModel {
        IdempotencyTableModel {
            entries: self.entries.deep_view(),
        }
    }
}

impl Default for IdempotencyTable {
    fn default() -> (r: Self)
        ensures
            r.deep_view().entries == Map::<Seq<char>, (u16, Seq<char>)>::empty(),
    {
        let r = IdempotencyTable { entries: StringMap::new() };
        proof {
            assert(r.deep_view().entries =~= Map::<Seq<char>, (u16, Seq<char>)>::empty());
        }
        r
    }
}

/// The name of a normalization form.
pub fn norm_label(n: Normalization) -> (r: &'static str)
    ensures
        r@ == n.name(),
{
    n.as_str()
}

/// Refuses rules that are restricted to an unknown script.
pub fn validate_config(cfg: &RuleConfig) -> (r: Result<(), String>)
    ensures
        r is Ok <==> unicode::config_valid(cfg.deep_view()),
        r is Err ==> r->Err_0@ == unicode::unknown_script_text(cfg.restrict_script->0@),
{
    cfg.validate()
}

} // verus!
