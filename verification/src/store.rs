//! The state of the workbench as a fold over events, and its recovery from a snapshot and a log.
//!
//! Every change is one event. Each log record carries a sequence number that only grows; a snapshot
//! contains every event up to its number, so only newer records are replayed. A crash at any point,
//! even between the renaming of a snapshot and the truncation of the log, is recovered from.

use std::collections::BTreeMap;

use vstd::prelude::*;

use crate::model::{
    Analysis, AnalysisModel, AnalyzedRecord, AnalyzedRecordModel, AppliedMapping,
    AppliedMappingModel, Bucket, BucketModel, CommittedEntry, CommittedEntryModel, Dataset,
    DatasetModel, GroupDecision, GroupDecisionModel, Id, IdempotencyTable, IdempotencyTableModel,
    ImportedRecordModel, Plan, PlanModel, PlanStatus, Ruleset, RulesetModel,
};
use crate::hex_bytes;
use crate::hex_bytes::to_hex;
use crate::order;
use crate::sorting;
use crate::sorting::sort_by_key;
use crate::strmap::StringMap;
use crate::text;
use crate::text::{push_decimal, Duplicate};
use crate::unicode;
use crate::unicode::{
    analyze, table_versions, RuleConfig, RuleConfigModel, TableVersions, TableVersionsModel,
};

verus! {

/// The number of events after which the log is folded into a snapshot.
pub const COMPACT_EVERY: u64 = 50;

/// A change of the state.
#[derive(Clone, Debug)]
pub enum Event {
    RulesetCreated { ruleset: Ruleset },
    DatasetImported {
        dataset: Dataset,
        idempotency_key: Option<String>,
        response_body: Option<String>,
    },
    AnalysisBuilt { analysis: Analysis },
    /// A new rule set revision from the linked Unicode tables. Existing rule sets and plans stay
    /// with their own revisions.
    TableUpgraded { new_ruleset: Ruleset, note: String },
    PlanCreated { plan: Plan },
    PlanDecisionsSet { plan_id: Id, decisions: StringMap<GroupDecision> },
    PlanApproved {
        plan_id: Id,
        mapping: Vec<AppliedMapping>,
        committed: Vec<CommittedEntry>,
        approved_ruleset_revision: u32,
        approved_tables: TableVersions,
    },
}

/// The model of an [`Event`].
#[verifier::ext_equal]
pub enum EventModel {
    RulesetCreated { ruleset: RulesetModel },
    DatasetImported {
        dataset: DatasetModel,
        idempotency_key: Option<Seq<char>>,
        response_body: Option<Seq<char>>,
    },
    AnalysisBuilt { analysis: AnalysisModel },
    TableUpgraded { new_ruleset: RulesetModel, note: Seq<char> },
    PlanCreated { plan: PlanModel },
    PlanDecisionsSet { plan_id: Id, decisions: Map<Seq<char>, GroupDecisionModel> },
    PlanApproved {
        plan_id: Id,
        mapping: Seq<AppliedMappingModel>,
        committed: Seq<CommittedEntryModel>,
        approved_ruleset_revision: u32,
        approved_tables: TableVersionsModel,
    },
}

impl DeepView for Event {
    type V = EventModel;

    open spec fn deep_view(&self) -> EventModel {
        match self {
            Event::RulesetCreated { ruleset } => EventModel::RulesetCreated {
                ruleset: ruleset.deep_view(),
            },
            Event::DatasetImported { dataset, idempotency_key, response_body } =>
                EventModel::DatasetImported {
                dataset: dataset.deep_view(),
                idempotency_key: idempotency_key.deep_view(),
                response_body: response_body.deep_view(),
            },
            Event::AnalysisBuilt { analysis } => EventModel::AnalysisBuilt {
                analysis: analysis.deep_view(),
            },
            Event::TableUpgraded { new_ruleset, note } => EventModel::TableUpgraded {
                new_ruleset: new_ruleset.deep_view(),
                note: note@,
            },
            Event::PlanCreated { plan } => EventModel::PlanCreated { plan: plan.deep_view() },
            Event::PlanDecisionsSet { plan_id, decisions } => EventModel::PlanDecisionsSet {
                plan_id: *plan_id,
                decisions: decisions.deep_view(),
            },
            Event::PlanApproved {
                plan_id,
                mapping,
                committed,
                approved_ruleset_revision,
                approved_tables,
            } => EventModel::PlanApproved {
                plan_id: *plan_id,
                mapping: mapping.deep_view(),
                committed: committed.deep_view(),
                approved_ruleset_revision: *approved_ruleset_revision,
                approved_tables: approved_tables.deep_view(),
            },
        }
    }
}

impl Duplicate for Event {
    fn duplicate(&self) -> (r: Self) {
        match self {
            Event::RulesetCreated { ruleset } => Event::RulesetCreated {
                ruleset: ruleset.duplicate(),
            },
            Event::DatasetImported { dataset, idempotency_key, response_body } =>
                Event::DatasetImported {
                dataset: dataset.duplicate(),
                idempotency_key: idempotency_key.duplicate(),
                response_body: response_body.duplicate(),
            },
            Event::AnalysisBuilt { analysis } => Event::AnalysisBuilt {
                analysis: analysis.duplicate(),
            },
            Event::TableUpgraded { new_ruleset, note } => Event::TableUpgraded {
                new_ruleset: new_ruleset.duplicate(),
                note: note.duplicate(),
            },
            Event::PlanCreated { plan } => Event::PlanCreated { plan: plan.duplicate() },
            Event::PlanDecisionsSet { plan_id, decisions } => Event::PlanDecisionsSet {
                plan_id: *plan_id,
                decisions: decisions.duplicate(),
            },
            Event::PlanApproved {
                plan_id,
                mapping,
                committed,
                approved_ruleset_revision,
                approved_tables,
            } => Event::PlanApproved {
                plan_id: *plan_id,
                mapping: mapping.duplicate(),
                committed: committed.duplicate(),
                approved_ruleset_revision: *approved_ruleset_revision,
                approved_tables: approved_tables.duplicate(),
            },
        }
    }
}

/// One append to the change history of a resource.
#[derive(Clone, Debug, PartialEq, Eq)]
pub struct HistoryEntry {
    pub label: String,
    pub summary: String,
}

/// The model of a [`HistoryEntry`].
#[verifier::ext_equal]
pub struct HistoryEntryModel {
    pub label: Seq<char>,
    pub summary: Seq<char>,
}

impl DeepView for HistoryEntry {
    type V = HistoryEntryModel;

    open spec fn deep_view(&self) -> HistoryEntryModel {
        HistoryEntryModel { label: self.label@, summary: self.summary@ }
    }
}

impl Duplicate for HistoryEntry {
    fn duplicate(&self) -> (r: Self) {
        HistoryEntry { label: self.label.duplicate(), summary: self.summary.duplicate() }
    }
}

/// Everything that is stored.
#[derive(Clone, Debug)]
pub struct State {
    pub next_id: Id,
    /// The highest sequence number of an event that was applied.
    pub event_seq: u64,
    pub active_ruleset_id: Option<Id>,
    pub rulesets: BTreeMap<Id, Ruleset>,
    pub datasets: BTreeMap<Id, Dataset>,
    pub analyses: BTreeMap<Id, Analysis>,
    pub plans: BTreeMap<Id, Plan>,
    /// All approved canonical values and aliases: the base of collision checks.
    pub committed: Vec<CommittedEntry>,
    /// Version counters and change histories by resource.
    pub versions: StringMap<u64>,
    pub history: StringMap<Vec<HistoryEntry>>,
    pub idempotency: IdempotencyTable,
}

/// The model of a [`State`].
#[verifier::ext_equal]
pub struct StateModel {
    pub next_id: Id,
    pub event_seq: u64,
    pub active_ruleset_id: Option<Id>,
    pub rulesets: Map<Id, RulesetModel>,
    pub datasets: Map<Id, DatasetModel>,
    pub analyses: Map<Id, AnalysisModel>,
    pub plans: Map<Id, PlanModel>,
    pub committed: Seq<CommittedEntryModel>,
    pub versions: Map<Seq<char>, u64>,
    pub history: Map<Seq<char>, Seq<HistoryEntryModel>>,
    pub idempotency: IdempotencyTableModel,
}

impl DeepView for State {
    type V = StateModel;

    open spec fn deep_view(&self) -> StateModel {
        StateModel {
            next_id: self.next_id,
            event_seq: self.event_seq,
            active_ruleset_id: self.active_ruleset_id,
            rulesets: text::map_models(self.rulesets@),
            datasets: text::map_models(self.datasets@),
            analyses: text::map_models(self.analyses@),
            plans: text::map_models(self.plans@),
            committed: self.committed.deep_view(),
            versions: self.versions@,
            history: self.history.deep_view(),
            idempotency: self.idempotency.deep_view(),
        }
    }
}

/// The state before any event.
pub open spec fn empty_state() -> StateModel {
    StateModel {
        next_id: 0,
        event_seq: 0,
        active_ruleset_id: None,
        rulesets: Map::empty(),
        datasets: Map::empty(),
        analyses: Map::empty(),
        plans: Map::empty(),
        committed: seq![],
        versions: Map::empty(),
        history: Map::empty(),
        idempotency: IdempotencyTableModel { entries: Map::empty() },
    }
}

impl Default for State {
    fn default() -> (r: Self)
        ensures
            r.deep_view() == empty_state(),
    {
        let r = State {
            next_id: 0,
            event_seq: 0,
            active_ruleset_id: None,
            rulesets: BTreeMap::new(),
            datasets: BTreeMap::new(),
            analyses: BTreeMap::new(),
            plans: BTreeMap::new(),
            committed: Vec::new(),
            versions: StringMap::new(),
            history: StringMap::new(),
            idempotency: IdempotencyTable::default(),
        };
        proof {
            assert(r.deep_view() =~~= empty_state());
        }
        r
    }
}

impl StateModel {
    /// The version of a resource: zero before its first change.
    pub open spec fn version_of(self, resource: Seq<char>) -> u64 {
        if self.versions.contains_key(resource) {
            self.versions[resource]
        } else {
            0
        }
    }

    /// The change history of a resource.
    pub open spec fn history_of(self, resource: Seq<char>) -> Seq<HistoryEntryModel> {
        if self.history.contains_key(resource) {
            self.history[resource]
        } else {
            seq![]
        }
    }

    /// The state after a change of a resource was counted and recorded.
    pub open spec fn bumped(
        self,
        resource: Seq<char>,
        label: Seq<char>,
        summary: Seq<char>,
    ) -> StateModel {
        StateModel {
            versions: self.versions.insert(resource, (self.version_of(resource) + 1) as u64),
            history: self.history.insert(
                resource,
                self.history_of(resource).push(HistoryEntryModel { label, summary }),
            ),
            ..self
        }
    }
}

/// The name of an entity as a resource.
pub open spec fn resource_name(kind: Seq<char>, id: Id) -> Seq<char> {
    kind + text::decimal_text(id as nat)
}

/// The resource that an event changes.
pub open spec fn event_resource(e: EventModel) -> Seq<char> {
    match e {
        EventModel::RulesetCreated { ruleset } => resource_name("ruleset:"@, ruleset.id),
        EventModel::DatasetImported { dataset, .. } => resource_name("dataset:"@, dataset.id),
        EventModel::AnalysisBuilt { analysis } => resource_name("analysis:"@, analysis.id),
        EventModel::TableUpgraded { .. } => "tables"@,
        EventModel::PlanCreated { plan } => resource_name("plan:"@, plan.id),
        EventModel::PlanDecisionsSet { plan_id, .. } => resource_name("plan:"@, plan_id),
        EventModel::PlanApproved { plan_id, .. } => resource_name("plan:"@, plan_id),
    }
}

/// The label under which an event is recorded.
pub open spec fn event_label(e: EventModel) -> Seq<char> {
    match e {
        EventModel::RulesetCreated { .. } => "create"@,
        EventModel::DatasetImported { .. } => "import"@,
        EventModel::AnalysisBuilt { .. } => "build"@,
        EventModel::TableUpgraded { .. } => "upgrade"@,
        EventModel::PlanCreated { .. } => "create"@,
        EventModel::PlanDecisionsSet { .. } => "decisions"@,
        EventModel::PlanApproved { .. } => "approve"@,
    }
}

/// The summary under which an event is recorded.
pub open spec fn event_summary(e: EventModel) -> Seq<char> {
    match e {
        EventModel::RulesetCreated { ruleset } => "ruleset "@ + ruleset.label + " rev "@
            + text::decimal_text(ruleset.revision as nat),
        EventModel::DatasetImported { dataset, .. } => "dataset "@ + dataset.label + " ("@
            + text::decimal_text(dataset.records.len()) + " records)"@,
        EventModel::AnalysisBuilt { analysis } => "dataset "@ + text::decimal_text(
            analysis.dataset_id as nat,
        ) + " under ruleset "@ + text::decimal_text(analysis.ruleset_id as nat) + " ("@
            + text::decimal_text(analysis.buckets.len()) + " buckets)"@,
        EventModel::TableUpgraded { new_ruleset, note } => "ruleset "@ + new_ruleset.label
            + " -> rev "@ + text::decimal_text(new_ruleset.revision as nat) + " ("@ + note + ")"@,
        EventModel::PlanCreated { plan } => "plan for analysis "@ + text::decimal_text(
            plan.analysis_id as nat,
        ),
        EventModel::PlanDecisionsSet { decisions, .. } => text::decimal_text(
            order::in_order(decisions.dom()).len(),
        ) + " group decisions set"@,
        EventModel::PlanApproved { mapping, .. } => "approved ("@ + text::decimal_text(
            mapping.len(),
        ) + " mappings)"@,
    }
}

/// The number of the entity that an event brings, if it brings one.
pub open spec fn event_id(e: EventModel) -> Option<Id> {
    match e {
        EventModel::RulesetCreated { ruleset } => Some(ruleset.id),
        EventModel::DatasetImported { dataset, .. } => Some(dataset.id),
        EventModel::AnalysisBuilt { analysis } => Some(analysis.id),
        EventModel::TableUpgraded { new_ruleset, .. } => Some(new_ruleset.id),
        EventModel::PlanCreated { plan } => Some(plan.id),
        EventModel::PlanDecisionsSet { .. } => None,
        EventModel::PlanApproved { .. } => None,
    }
}

/// The next free number after an entity with this number came in.
pub open spec fn next_after(next_id: Id, id: Option<Id>) -> Id {
    match id {
        Some(id) if id >= next_id => (id + 1) as Id,
        _ => next_id,
    }
}

/// What an event does to the entities.
pub open spec fn entities_after(s: StateModel, e: EventModel) -> StateModel {
    match e {
        EventModel::RulesetCreated { ruleset } => StateModel {
            active_ruleset_id: match s.active_ruleset_id {
                Some(id) => Some(id),
                None => Some(ruleset.id),
            },
            rulesets: s.rulesets.insert(ruleset.id, ruleset),
            ..s
        },
        EventModel::DatasetImported { dataset, idempotency_key, response_body } => StateModel {
            datasets: s.datasets.insert(dataset.id, dataset),
            idempotency: match (idempotency_key, response_body) {
                (Some(key), Some(body)) => IdempotencyTableModel {
                    entries: s.idempotency.entries.insert(key, (201u16, body)),
                },
                _ => s.idempotency,
            },
            ..s
        },
        EventModel::AnalysisBuilt { analysis } => StateModel {
            analyses: s.analyses.insert(analysis.id, analysis),
            ..s
        },
        EventModel::TableUpgraded { new_ruleset, .. } => StateModel {
            active_ruleset_id: Some(new_ruleset.id),
            rulesets: s.rulesets.insert(new_ruleset.id, new_ruleset),
            ..s
        },
        EventModel::PlanCreated { plan } => StateModel {
            plans: s.plans.insert(plan.id, plan),
            ..s
        },
        EventModel::PlanDecisionsSet { plan_id, decisions } => if s.plans.contains_key(plan_id) {
            StateModel {
                plans: s.plans.insert(plan_id, PlanModel { decisions, ..s.plans[plan_id] }),
                ..s
            }
        } else {
            s
        },
        EventModel::PlanApproved {
            plan_id,
            mapping,
            committed,
            approved_ruleset_revision,
            approved_tables,
        } => StateModel {
            plans: if s.plans.contains_key(plan_id) {
                s.plans.insert(
                    plan_id,
                    PlanModel {
                        status: PlanStatus::Approved,
                        mapping,
                        approved_ruleset_revision: Some(approved_ruleset_revision),
                        approved_tables: Some(approved_tables),
                        ..s.plans[plan_id]
                    },
                )
            } else {
                s.plans
            },
            committed: s.committed + committed,
            ..s
        },
    }
}

/// The state after an event.
pub open spec fn applied(s: StateModel, e: EventModel) -> StateModel {
    let raised = StateModel { next_id: next_after(s.next_id, event_id(e)), ..s };
    entities_after(raised.bumped(event_resource(e), event_label(e), event_summary(e)), e)
}

/// An event can be applied as long as its numbers do not run out.
pub open spec fn admits(s: StateModel, e: EventModel) -> bool {
    &&& s.version_of(event_resource(e)) < u64::MAX
    &&& event_id(e) matches Some(id) ==> id < u64::MAX
}

fn named(kind: &str, id: Id) -> (r: String)
    ensures
        r@ == resource_name(kind@, id),
{
    let mut out = kind.to_owned();
    push_decimal(&mut out, id);
    out
}

impl Event {
    fn resource(&self) -> (r: String)
        ensures
            r@ == event_resource(self.deep_view()),
    {
        match self {
            Event::RulesetCreated { ruleset } => named("ruleset:", ruleset.id),
            Event::DatasetImported { dataset, .. } => named("dataset:", dataset.id),
            Event::AnalysisBuilt { analysis } => named("analysis:", analysis.id),
            Event::TableUpgraded { .. } => "tables".to_owned(),
            Event::PlanCreated { plan } => named("plan:", plan.id),
            Event::PlanDecisionsSet { plan_id, .. } => named("plan:", *plan_id),
            Event::PlanApproved { plan_id, .. } => named("plan:", *plan_id),
        }
    }

    fn label(&self) -> (r: &'static str)
        ensures
            r@ == event_label(self.deep_view()),
    {
        match self {
            Event::RulesetCreated { .. } => "create",
            Event::DatasetImported { .. } => "import",
            Event::AnalysisBuilt { .. } => "build",
            Event::TableUpgraded { .. } => "upgrade",
            Event::PlanCreated { .. } => "create",
            Event::PlanDecisionsSet { .. } => "decisions",
            Event::PlanApproved { .. } => "approve",
        }
    }

    fn summary(&self) -> (r: String)
        ensures
            r@ == event_summary(self.deep_view()),
    {
        let mut out = String::new();
        match self {
            Event::RulesetCreated { ruleset } => {
                out.push_str("ruleset ");
                out.push_str(ruleset.label.as_str());
                out.push_str(" rev ");
                push_decimal(&mut out, ruleset.revision as u64);
            },
            Event::DatasetImported { dataset, .. } => {
                out.push_str("dataset ");
                out.push_str(dataset.label.as_str());
                out.push_str(" (");
                push_decimal(&mut out, dataset.records.len() as u64);
                out.push_str(" records)");
            },
            Event::AnalysisBuilt { analysis } => {
                out.push_str("dataset ");
                push_decimal(&mut out, analysis.dataset_id);
                out.push_str(" under ruleset ");
                push_decimal(&mut out, analysis.ruleset_id);
                out.push_str(" (");
                push_decimal(&mut out, analysis.buckets.len() as u64);
                out.push_str(" buckets)");
            },
            Event::TableUpgraded { new_ruleset, note } => {
                out.push_str("ruleset ");
                out.push_str(new_ruleset.label.as_str());
                out.push_str(" -> rev ");
                push_decimal(&mut out, new_ruleset.revision as u64);
                out.push_str(" (");
                out.push_str(note.as_str());
                out.push_str(")");
            },
            Event::PlanCreated { plan } => {
                out.push_str("plan for analysis ");
                push_decimal(&mut out, plan.analysis_id);
            },
            Event::PlanDecisionsSet { decisions, .. } => {
                push_decimal(&mut out, decisions.len() as u64);
                out.push_str(" group decisions set");
                proof {
                    assert(decisions.deep_view().dom() =~= decisions@.dom());
                }
            },
            Event::PlanApproved { mapping, .. } => {
                out.push_str("approved (");
                push_decimal(&mut out, mapping.len() as u64);
                out.push_str(" mappings)");
            },
        }
        proof {
            assert(out@ =~= event_summary(self.deep_view()));
        }
        out
    }

    fn id(&self) -> (r: Option<Id>)
        ensures
            r == event_id(self.deep_view()),
    {
        match self {
            Event::RulesetCreated { ruleset } => Some(ruleset.id),
            Event::DatasetImported { dataset, .. } => Some(dataset.id),
            Event::AnalysisBuilt { analysis } => Some(analysis.id),
            Event::TableUpgraded { new_ruleset, .. } => Some(new_ruleset.id),
            Event::PlanCreated { plan } => Some(plan.id),
            Event::PlanDecisionsSet { .. } => None,
            Event::PlanApproved { .. } => None,
        }
    }
}

impl State {
    /// The version of a resource: zero before its first change.
    pub fn version_of(&self, resource: &str) -> (r: u64)
        ensures
            r == self.deep_view().version_of(resource@),
    {
        match self.versions.get(resource) {
            Some(v) => *v,
            None => 0,
        }
    }

    /// Counts and records a change of a resource.
    fn bump(&mut self, resource: &str, label: &str, summary: &str)
        requires
            old(self).deep_view().version_of(resource@) < u64::MAX,
        ensures
            final(self).deep_view() == old(self).deep_view().bumped(resource@, label@, summary@),
    {
        broadcast use {text::lemma_models_push, text::lemma_vec_model, text::lemma_map_models_insert,
            text::lemma_map_models_remove};

        let ghost before = self.deep_view();
        let ghost raw = self.history@;
        let version = self.version_of(resource) + 1;
        self.versions.insert(resource.to_owned(), version);
        let mut entries: Vec<HistoryEntry> = match self.history.remove(resource) {
            Some(entries) => entries,
            None => Vec::new(),
        };
        proof {
            assert(entries.deep_view() =~= before.history_of(resource@));
        }
        entries.push(HistoryEntry { label: label.to_owned(), summary: summary.to_owned() });
        self.history.insert(resource.to_owned(), entries);
        proof {
            let after = before.bumped(resource@, label@, summary@);
            assert(self.deep_view().history =~= after.history);
            assert(self.deep_view() =~= after);
        }
    }

    /// Hands out a number that no entity has had.
    pub fn take_id(&mut self) -> (id: Id)
        requires
            old(self).next_id < u64::MAX,
        ensures
            id == old(self).next_id,
            final(self).deep_view() == (StateModel {
                next_id: (id + 1) as Id,
                ..old(self).deep_view()
            }),
    {
        let id = self.next_id;
        self.next_id = id + 1;
        id
    }

    /// The version of a resource, and its changes after the version `base`.
    pub fn changes_since(&self, resource: &str, base: u64) -> (r: (u64, Vec<HistoryEntry>))
        ensures
            r.0 == self.deep_view().version_of(resource@),
            r.1.deep_view() == (if base <= self.deep_view().history_of(resource@).len() {
                self.deep_view().history_of(resource@).skip(base as int)
            } else {
                seq![]
            }),
    {
        let current = self.version_of(resource);
        let mut out: Vec<HistoryEntry> = Vec::new();
        let ghost all = self.deep_view().history_of(resource@);
        if let Some(entries) = self.history.get(resource) {
            proof {
                assert(all == entries.deep_view());
            }
            if base <= entries.len() as u64 {
                let start: usize = base as usize;
                let mut i: usize = start;
                while i < entries.len()
                    invariant
                        start <= i <= entries@.len(),
                        out@.len() == i - start,
                        forall|k: int|
                            0 <= k < out@.len() ==> (#[trigger] out@[k]).deep_view()
                                == entries@[start + k].deep_view(),
                    decreases entries@.len() - i,
                {
                    out.push(entries[i].duplicate());
                    i += 1;
                }
                proof {
                    assert(out.deep_view() =~= all.skip(base as int));
                }
            } else {
                proof {
                    assert(out.deep_view() =~= Seq::<HistoryEntryModel>::empty());
                }
            }
        } else {
            proof {
                assert(out.deep_view() =~= Seq::<HistoryEntryModel>::empty());
                if base == 0 {
                    assert(all.skip(0) =~= all);
                }
            }
        }
        (current, out)
    }

    /// Whether an event can be applied: its numbers have not run out.
    pub fn can_apply(&self, ev: &Event) -> (r: bool)
        ensures
            r == admits(self.deep_view(), ev.deep_view()),
    {
        let resource = ev.resource();
        if self.version_of(resource.as_str()) == u64::MAX {
            return false;
        }
        match ev.id() {
            Some(id) => id < u64::MAX,
            None => true,
        }
    }

    /// Applies an event.
    pub fn apply(&mut self, ev: Event)
        requires
            admits(old(self).deep_view(), ev.deep_view()),
        ensures
            final(self).deep_view() == applied(old(self).deep_view(), ev.deep_view()),
    {
        broadcast use {text::lemma_models_push, text::lemma_vec_model, text::lemma_map_models_insert,
            text::lemma_map_models_remove};

        let ghost start = self.deep_view();
        let ghost model = ev.deep_view();
        let ghost want = applied(start, model);
        if let Some(id) = ev.id() {
            if id >= self.next_id {
                self.next_id = id + 1;
            }
        }
        let ghost raised = StateModel { next_id: next_after(start.next_id, event_id(model)), ..start
        };
        proof {
            assert(self.deep_view() =~= raised);
        }
        let resource = ev.resource();
        let label = ev.label();
        let summary = ev.summary();
        self.bump(resource.as_str(), label, summary.as_str());
        let ghost counted = self.deep_view();
        match ev {
            Event::RulesetCreated { ruleset } => {
                let id = ruleset.id;
                if self.active_ruleset_id.is_none() {
                    self.active_ruleset_id = Some(id);
                }
                self.rulesets.insert(id, ruleset);
            },
            Event::DatasetImported { dataset, idempotency_key, response_body } => {
                self.datasets.insert(dataset.id, dataset);
                if let Some(key) = idempotency_key {
                    if let Some(body) = response_body {
                        self.idempotency.entries.insert(key, (201, body));
                    }
                }
            },
            Event::AnalysisBuilt { analysis } => {
                self.analyses.insert(analysis.id, analysis);
            },
            Event::TableUpgraded { new_ruleset, .. } => {
                let id = new_ruleset.id;
                self.rulesets.insert(id, new_ruleset);
                self.active_ruleset_id = Some(id);
            },
            Event::PlanCreated { plan } => {
                self.plans.insert(plan.id, plan);
            },
            Event::PlanDecisionsSet { plan_id, decisions } => {
                let ghost plans = self.plans@;
                if let Some(plan) = self.plans.remove(&plan_id) {
                    let changed = Plan { decisions, ..plan };
                    self.plans.insert(plan_id, changed);
                    proof {
                        assert(self.deep_view().plans =~= want.plans);
                    }
                } else {
                    proof {
                        assert(self.plans@ =~= plans);
                    }
                }
            },
            Event::PlanApproved {
                plan_id,
                mapping,
                committed,
                approved_ruleset_revision,
                approved_tables,
            } => {
                let ghost plans = self.plans@;
                if let Some(plan) = self.plans.remove(&plan_id) {
                    let changed = Plan {
                        status: PlanStatus::Approved,
                        mapping,
                        approved_ruleset_revision: Some(approved_ruleset_revision),
                        approved_tables: Some(approved_tables),
                        ..plan
                    };
                    self.plans.insert(plan_id, changed);
                    proof {
                        assert(self.deep_view().plans =~= want.plans);
                    }
                } else {
                    proof {
                        assert(self.plans@ =~= plans);
                    }
                }
                let mut committed = committed;
                self.committed.append(&mut committed);
                proof {
                    assert(self.deep_view().committed =~= want.committed);
                }
            },
        }
        proof {
            assert(self.deep_view() =~= want);
        }
    }
}

/// An event in the log.
pub struct WalRecord {
    pub event_seq: u64,
    pub event: Event,
}

/// The model of a [`WalRecord`].
#[verifier::ext_equal]
pub struct WalRecordModel {
    pub event_seq: u64,
    pub event: EventModel,
}

impl DeepView for WalRecord {
    type V = WalRecordModel;

    open spec fn deep_view(&self) -> WalRecordModel {
        WalRecordModel { event_seq: self.event_seq, event: self.event.deep_view() }
    }
}

impl Duplicate for WalRecord {
    fn duplicate(&self) -> (r: Self) {
        WalRecord { event_seq: self.event_seq, event: self.event.duplicate() }
    }
}

/// The state after a log record was read back: one that is already contained changes nothing.
pub open spec fn replayed_record(s: StateModel, record: WalRecordModel) -> StateModel {
    if record.event_seq <= s.event_seq {
        s
    } else {
        applied(StateModel { event_seq: record.event_seq, ..s }, record.event)
    }
}

/// The state after a whole log was read back.
pub open spec fn replayed(s: StateModel, log: Seq<WalRecordModel>) -> StateModel
    decreases log.len(),
{
    if log.len() == 0 {
        s
    } else {
        replayed_record(replayed(s, log.drop_last()), log.last())
    }
}

/// The number of records of a log that are not contained yet when their turn comes.
pub open spec fn fresh_records(s: StateModel, log: Seq<WalRecordModel>) -> nat
    decreases log.len(),
{
    if log.len() == 0 {
        0
    } else if log.last().event_seq > replayed(s, log.drop_last()).event_seq {
        fresh_records(s, log.drop_last()) + 1
    } else {
        fresh_records(s, log.drop_last())
    }
}

/// Every event of a log can be applied when its turn comes.
pub open spec fn log_admitted(s: StateModel, log: Seq<WalRecordModel>) -> bool {
    forall|k: int|
        0 <= k < log.len() ==> {
            let before = replayed(s, log.take(k));
            (#[trigger] log[k]).event_seq <= before.event_seq || admits(before, log[k].event)
        }
}

/// The state in memory, with the number of events since the last snapshot.
#[derive(Debug)]
pub struct Journal {
    pub state: State,
    pub since_compact: u64,
}

impl Journal {
    /// A journal that continues from a snapshot.
    pub fn from_snapshot(state: State) -> (r: Self)
        ensures
            r.state.deep_view() == state.deep_view(),
            r.since_compact == 0,
    {
        Journal { state, since_compact: 0 }
    }

    /// Reads a log record back; tells whether it was new.
    pub fn replay(&mut self, record: WalRecord) -> (fresh: bool)
        requires
            record.event_seq <= old(self).state.event_seq || admits(
                old(self).state.deep_view(),
                record.event.deep_view(),
            ),
            old(self).since_compact < u64::MAX,
        ensures
            fresh == (record.event_seq > old(self).state.event_seq),
            final(self).state.deep_view() == replayed_record(
                old(self).state.deep_view(),
                record.deep_view(),
            ),
            final(self).since_compact == old(self).since_compact + (if fresh {
                1int
            } else {
                0
            }),
    {
        if record.event_seq <= self.state.event_seq {
            return false;
        }
        let ghost before = self.state.deep_view();
        self.state.event_seq = record.event_seq;
        proof {
            assert(self.state.deep_view() =~= StateModel {
                event_seq: record.event_seq,
                ..before
            });
        }
        self.state.apply(record.event);
        self.since_compact = self.since_compact + 1;
        true
    }

    /// Reads a whole log back.
    pub fn replay_all(&mut self, log: &Vec<WalRecord>)
        requires
            log_admitted(old(self).state.deep_view(), log.deep_view()),
            old(self).since_compact + log@.len() <= u64::MAX,
        ensures
            final(self).state.deep_view() == replayed(old(self).state.deep_view(), log.deep_view()),
            final(self).since_compact == old(self).since_compact + fresh_records(
                old(self).state.deep_view(),
                log.deep_view(),
            ),
    {
        let ghost start = self.state.deep_view();
        let ghost model = log.deep_view();
        let ghost since = self.since_compact;
        proof {
            assert(model.take(0) =~= Seq::<WalRecordModel>::empty());
        }
        for i in 0..log.len()
            invariant
                model == log.deep_view(),
                self.state.deep_view() == replayed(start, model.take(i as int)),
                self.since_compact == since + fresh_records(start, model.take(i as int)),
                self.since_compact <= since + i,
                since + log@.len() <= u64::MAX,
                log_admitted(start, model),
        {
            let record = log[i].duplicate();
            proof {
                lemma_replay_step(start, model, i as int);
                assert(model[i as int] == record.deep_view());
            }
            self.replay(record);
        }
        proof {
            assert(model.take(model.len() as int) =~= model);
        }
    }

    /// Numbers an event. The record is to be written to the log before it is applied.
    pub fn next_record(&mut self, event: Event) -> (r: WalRecord)
        requires
            old(self).state.event_seq < u64::MAX,
        ensures
            r.event_seq == old(self).state.event_seq + 1,
            r.event.deep_view() == event.deep_view(),
            final(self).state.deep_view() == (StateModel {
                event_seq: r.event_seq,
                ..old(self).state.deep_view()
            }),
            final(self).since_compact == old(self).since_compact,
    {
        self.state.event_seq = self.state.event_seq + 1;
        WalRecord { event_seq: self.state.event_seq, event }
    }

    /// Applies an event that was written to the log; tells whether a snapshot is due.
    pub fn written(&mut self, event: Event) -> (compact: bool)
        requires
            admits(old(self).state.deep_view(), event.deep_view()),
            old(self).since_compact < u64::MAX,
        ensures
            final(self).state.deep_view() == applied(
                old(self).state.deep_view(),
                event.deep_view(),
            ),
            final(self).since_compact == old(self).since_compact + 1,
            compact == (final(self).since_compact >= COMPACT_EVERY),
    {
        self.state.apply(event);
        self.since_compact = self.since_compact + 1;
        self.since_compact >= COMPACT_EVERY
    }

    /// Starts counting anew after a snapshot was written.
    pub fn compacted(&mut self)
        ensures
            final(self).state == old(self).state,
            final(self).since_compact == 0,
    {
        self.since_compact = 0;
    }
}

proof fn lemma_replay_step(s: StateModel, log: Seq<WalRecordModel>, i: int)
    requires
        0 <= i < log.len(),
    ensures
        replayed(s, log.take(i + 1)) == replayed_record(replayed(s, log.take(i)), log[i]),
        fresh_records(s, log.take(i + 1)) == fresh_records(s, log.take(i)) + (if log[i].event_seq
            > replayed(s, log.take(i)).event_seq {
            1nat
        } else {
            0
        }),
{
    assert(log.take(i + 1).drop_last() =~= log.take(i));
    assert(log.take(i + 1).last() == log[i]);
}

/// Replaying never lowers the sequence number, and leaves it at or above that of every record.
proof fn lemma_replayed_seq(s: StateModel, log: Seq<WalRecordModel>)
    ensures
        replayed(s, log).event_seq >= s.event_seq,
        forall|i: int|
            0 <= i < log.len() ==> (#[trigger] log[i]).event_seq <= replayed(s, log).event_seq,
    decreases log.len(),
{
    if log.len() > 0 {
        let front = log.drop_last();
        lemma_replayed_seq(s, front);
        assert forall|i: int| 0 <= i < log.len() implies (#[trigger] log[i]).event_seq <= replayed(
            s,
            log,
        ).event_seq by {
            if i < front.len() {
                assert(front[i] == log[i]);
            }
        }
    }
}

/// Records that a state already contains change nothing.
proof fn lemma_replayed_old(s: StateModel, log: Seq<WalRecordModel>)
    requires
        forall|i: int| 0 <= i < log.len() ==> (#[trigger] log[i]).event_seq <= s.event_seq,
    ensures
        replayed(s, log) == s,
    decreases log.len(),
{
    if log.len() > 0 {
        let front = log.drop_last();
        assert forall|i: int| 0 <= i < front.len() implies (#[trigger] front[i]).event_seq
            <= s.event_seq by {
            assert(front[i] == log[i]);
        }
        lemma_replayed_old(s, front);
    }
}

/// Replaying two logs in a row is replaying the one that they make up.
proof fn lemma_replayed_concat(s: StateModel, a: Seq<WalRecordModel>, b: Seq<WalRecordModel>)
    ensures
        replayed(s, a + b) == replayed(replayed(s, a), b),
    decreases b.len(),
{
    if b.len() == 0 {
        assert(a + b =~= a);
    } else {
        assert((a + b).drop_last() =~= a + b.drop_last());
        lemma_replayed_concat(s, a, b.drop_last());
    }
}

/// Recovery is the same from every snapshot: a snapshot that was taken after any number of events
/// of a log, with that whole log still in place, recovers to the state after the whole log. No event
/// is applied twice.
pub proof fn recovery_from_any_snapshot(s: StateModel, log: Seq<WalRecordModel>, k: int)
    requires
        0 <= k <= log.len(),
    ensures
        replayed(replayed(s, log.take(k)), log) == replayed(s, log),
{
    let snapshot = replayed(s, log.take(k));
    let head = log.take(k);
    let tail = log.skip(k);
    assert(head + tail =~= log);
    lemma_replayed_seq(s, head);
    lemma_replayed_old(snapshot, head);
    lemma_replayed_concat(snapshot, head, tail);
    lemma_replayed_concat(s, head, tail);
}

/// Recovery after recovery changes nothing.
pub proof fn recovery_is_idempotent(s: StateModel, log: Seq<WalRecordModel>)
    ensures
        replayed(replayed(s, log), log) == replayed(s, log),
{
    recovery_from_any_snapshot(s, log, log.len() as int);
    assert(log.take(log.len() as int) =~= log);
}

/// What a commit makes of the state is what recovery makes of the log with the new record, whether
/// or not a number was handed out for the new entity before.
pub proof fn commit_survives_recovery(
    s: StateModel,
    log: Seq<WalRecordModel>,
    e: EventModel,
    taken: bool,
)
    requires
        replayed(s, log).event_seq < u64::MAX,
        admits(replayed(s, log), e),
        taken ==> event_id(e) == Some(replayed(s, log).next_id),
    ensures
        ({
            let now = replayed(s, log);
            let seq = (now.event_seq + 1) as u64;
            let handed_out = if taken {
                StateModel { next_id: (now.next_id + 1) as Id, ..now }
            } else {
                now
            };
            applied(StateModel { event_seq: seq, ..handed_out }, e) == replayed(
                s,
                log.push(WalRecordModel { event_seq: seq, event: e }),
            )
        }),
{
    let now = replayed(s, log);
    let record = WalRecordModel { event_seq: (now.event_seq + 1) as u64, event: e };
    assert(log.push(record).drop_last() =~= log);
}

/// The counters agree with the histories, and every entity has a number that was handed out.
pub open spec fn consistent(s: StateModel) -> bool {
    &&& s.versions.dom() == s.history.dom()
    &&& forall|r: Seq<char>| #[trigger]
        s.versions.contains_key(r) ==> s.versions[r] == s.history[r].len()
    &&& forall|id: Id| #[trigger] s.rulesets.contains_key(id) ==> id < s.next_id
    &&& forall|id: Id| #[trigger] s.datasets.contains_key(id) ==> id < s.next_id
    &&& forall|id: Id| #[trigger] s.analyses.contains_key(id) ==> id < s.next_id
    &&& forall|id: Id| #[trigger] s.plans.contains_key(id) ==> id < s.next_id
}

/// The state before any event is consistent.
pub proof fn empty_state_is_consistent()
    ensures
        consistent(empty_state()),
{
    assert(empty_state().versions.dom() =~= empty_state().history.dom());
}

/// Events keep a state consistent.
pub proof fn events_keep_consistency(s: StateModel, e: EventModel)
    requires
        consistent(s),
        admits(s, e),
    ensures
        consistent(applied(s, e)),
{
    let t = applied(s, e);
    let r = event_resource(e);
    assert(t.versions.dom() =~= t.history.dom());
    assert forall|q: Seq<char>| #[trigger] t.versions.contains_key(q) implies t.versions[q]
        == t.history[q].len() by {
        if q == r {
            assert(s.versions.contains_key(r) <==> s.history.contains_key(r)) by {
                assert(s.versions.dom().contains(r) <==> s.history.dom().contains(r));
            }
        } else {
            assert(s.versions.contains_key(q));
        }
    }
}

/// A number that is handed out belongs to no entity, and handing it out keeps the state consistent.
pub proof fn numbers_are_fresh(s: StateModel)
    requires
        consistent(s),
        s.next_id < u64::MAX,
    ensures
        !s.rulesets.contains_key(s.next_id),
        !s.datasets.contains_key(s.next_id),
        !s.analyses.contains_key(s.next_id),
        !s.plans.contains_key(s.next_id),
        consistent(StateModel { next_id: (s.next_id + 1) as Id, ..s }),
{
}

/// Replaying a log keeps a state consistent.
pub proof fn recovery_keeps_consistency(s: StateModel, log: Seq<WalRecordModel>)
    requires
        consistent(s),
        log_admitted(s, log),
    ensures
        consistent(replayed(s, log)),
    decreases log.len(),
{
    if log.len() > 0 {
        let front = log.drop_last();
        assert forall|k: int| 0 <= k < front.len() implies {
            let before = replayed(s, front.take(k));
            (#[trigger] front[k]).event_seq <= before.event_seq || admits(before, front[k].event)
        } by {
            assert(front.take(k) =~= log.take(k));
            assert(front[k] == log[k]);
        }
        recovery_keeps_consistency(s, front);
        let before = replayed(s, front);
        let record = log.last();
        assert(log.take(log.len() - 1) =~= front);
        assert(log[log.len() - 1] == record);
        if record.event_seq > before.event_seq {
            let numbered = StateModel { event_seq: record.event_seq, ..before };
            events_keep_consistency(numbered, record.event);
        }
    }
}

/// Histories only grow: what was recorded of a resource stays, in its place, and its version is
/// never lowered. So the changes since a version that was once current are exactly those recorded
/// after it.
pub proof fn histories_only_grow(s: StateModel, e: EventModel, resource: Seq<char>)
    requires
        consistent(s),
        admits(s, e),
    ensures
        s.version_of(resource) <= applied(s, e).version_of(resource),
        s.version_of(resource) <= applied(s, e).history_of(resource).len(),
        applied(s, e).history_of(resource).take(s.version_of(resource) as int) == s.history_of(
            resource,
        ),
        applied(s, e).history_of(resource).skip(s.version_of(resource) as int) == (if resource
            == event_resource(e) {
            seq![HistoryEntryModel { label: event_label(e), summary: event_summary(e) }]
        } else {
            seq![]
        }),
{
    let t = applied(s, e);
    assert(s.versions.dom().contains(resource) <==> s.history.dom().contains(resource));
    assert(s.version_of(resource) == s.history_of(resource).len());
    let n = s.version_of(resource) as int;
    if resource == event_resource(e) {
        assert(t.history_of(resource) =~= s.history_of(resource).push(
            HistoryEntryModel { label: event_label(e), summary: event_summary(e) },
        ));
    } else {
        assert(t.history_of(resource) =~= s.history_of(resource));
    }
    assert(t.history_of(resource).take(n) =~= s.history_of(resource));
    assert(t.history_of(resource).skip(n) =~= if resource == event_resource(e) {
        seq![HistoryEntryModel { label: event_label(e), summary: event_summary(e) }]
    } else {
        seq![]
    });
}

/// An event never changes a rule set, a data set or an analysis that is there, unless it brings one
/// with the same number; new numbers are fresh.
pub proof fn entities_are_immutable(s: StateModel, e: EventModel, id: Id)
    requires
        event_id(e) != Some(id),
    ensures
        s.rulesets.contains_key(id) ==> applied(s, e).rulesets.contains_key(id) && applied(
            s,
            e,
        ).rulesets[id] == s.rulesets[id],
        s.datasets.contains_key(id) ==> applied(s, e).datasets.contains_key(id) && applied(
            s,
            e,
        ).datasets[id] == s.datasets[id],
        s.analyses.contains_key(id) ==> applied(s, e).analyses.contains_key(id) && applied(
            s,
            e,
        ).analyses[id] == s.analyses[id],
{
}

/// New rule sets and upgraded tables leave every plan as it is.
pub proof fn plans_stay_with_their_rules(s: StateModel, e: EventModel)
    requires
        e is RulesetCreated || e is TableUpgraded || e is DatasetImported || e is AnalysisBuilt,
    ensures
        applied(s, e).plans == s.plans,
        applied(s, e).committed == s.committed,
{
}

/// A response that was stored for a key stays until an import carries the same key.
pub proof fn responses_are_kept(s: StateModel, e: EventModel, key: Seq<char>)
    requires
        s.idempotency.entries.contains_key(key),
        !(e is DatasetImported && e->idempotency_key == Some(key)),
    ensures
        applied(s, e).idempotency.entries.contains_key(key),
        applied(s, e).idempotency.entries[key] == s.idempotency.entries[key],
{
}

/// The analysis of a record.
pub open spec fn analyzed_record(
    record: ImportedRecordModel,
    cfg: RuleConfigModel,
) -> AnalyzedRecordModel {
    AnalyzedRecordModel {
        record_no: record.record_no,
        raw: record.raw,
        trace: unicode::trace_of(record.raw, cfg),
    }
}

/// The analyses of records.
pub open spec fn analyzed_records(
    records: Seq<ImportedRecordModel>,
    cfg: RuleConfigModel,
) -> Seq<AnalyzedRecordModel> {
    Seq::new(records.len(), |i: int| analyzed_record(records[i], cfg))
}

/// The canonical values of records.
pub open spec fn canonical_values(records: Seq<AnalyzedRecordModel>) -> Set<Seq<char>> {
    Set::new(
        |c: Seq<char>|
            exists|i: int| 0 <= i < records.len() && (#[trigger] records[i]).trace.canonical == c,
    )
}

/// The records with a canonical value, in order.
pub open spec fn members(records: Seq<AnalyzedRecordModel>, canonical: Seq<char>) -> Seq<
    AnalyzedRecordModel,
>
    decreases records.len(),
{
    if records.len() == 0 {
        seq![]
    } else {
        let before = members(records.drop_last(), canonical);
        if records.last().trace.canonical == canonical {
            before.push(records.last())
        } else {
            before
        }
    }
}

/// The numbers of records.
pub open spec fn numbers(records: Seq<AnalyzedRecordModel>) -> Seq<Seq<char>> {
    Seq::new(records.len(), |i: int| records[i].record_no)
}

/// All records have the same original bytes.
pub open spec fn same_originals(records: Seq<AnalyzedRecordModel>) -> bool {
    forall|i: int| 0 <= i < records.len() ==> (#[trigger] records[i]).raw == records[0].raw
}

/// The bucket of a canonical value.
pub open spec fn bucket_of(records: Seq<AnalyzedRecordModel>, canonical: Seq<char>) -> BucketModel {
    let found = members(records, canonical);
    BucketModel {
        canonical,
        canonical_cps: found[0].trace.canonical_cps,
        bucket_hex: hex_bytes::hex_text(vstd::utf8::encode_utf8(canonical)),
        record_nos: sorting::sorted::<String>(numbers(found)),
        identical_originals: same_originals(found),
    }
}

/// The buckets of records, in ascending order of their canonical values.
pub open spec fn buckets_of(records: Seq<AnalyzedRecordModel>) -> Seq<BucketModel> {
    let values = order::in_order(canonical_values(records));
    Seq::new(values.len(), |i: int| bucket_of(records, values[i]))
}

/// Positions hold exactly the records with a canonical value, in order.
spec fn positions_of(
    records: Seq<AnalyzedRecordModel>,
    canonical: Seq<char>,
    positions: Seq<usize>,
) -> bool {
    let found = members(records, canonical);
    &&& positions.len() == found.len()
    &&& forall|k: int|
        0 <= k < positions.len() ==> (#[trigger] positions[k]) < records.len()
            && records[positions[k] as int] == found[k]
}

fn bytes_equal(a: &Vec<u8>, b: &Vec<u8>) -> (r: bool)
    ensures
        r == (a@ == b@),
{
    if a.len() != b.len() {
        return false;
    }
    for i in 0..a.len()
        invariant
            a@.len() == b@.len(),
            forall|k: int| 0 <= k < i ==> a@[k] == b@[k],
    {
        if a[i] != b[i] {
            return false;
        }
    }
    proof {
        assert(a@ =~= b@);
    }
    true
}

proof fn lemma_members(records: Seq<AnalyzedRecordModel>, canonical: Seq<char>)
    ensures
        canonical_values(records).contains(canonical) <==> members(records, canonical).len() > 0,
    decreases records.len(),
{
    if records.len() > 0 {
        let front = records.drop_last();
        lemma_members(front, canonical);
        if canonical_values(front).contains(canonical) {
            let i = choose|i: int|
                0 <= i < front.len() && (#[trigger] front[i]).trace.canonical == canonical;
            assert(records[i] == front[i]);
        }
        if records.last().trace.canonical == canonical {
            assert(records[records.len() - 1].trace.canonical == canonical);
        }
        if canonical_values(records).contains(canonical) {
            let i = choose|i: int|
                0 <= i < records.len() && (#[trigger] records[i]).trace.canonical == canonical;
            if i < front.len() {
                assert(front[i] == records[i]);
            }
        }
    }
}

fn group_records(records: &Vec<AnalyzedRecord>) -> (groups: StringMap<Vec<usize>>)
    ensures
        groups@.dom() == canonical_values(records.deep_view()),
        forall|c: Seq<char>| #[trigger]
            groups@.contains_key(c) ==> positions_of(records.deep_view(), c, groups@[c]@),
{
    let mut groups: StringMap<Vec<usize>> = StringMap::new();
    let ghost model = records.deep_view();
    proof {
        assert(model.take(0) =~= Seq::<AnalyzedRecordModel>::empty());
        assert(groups@.dom() =~= canonical_values(model.take(0)));
    }
    for i in 0..records.len()
        invariant
            model == records.deep_view(),
            groups@.dom() == canonical_values(model.take(i as int)),
            forall|c: Seq<char>| #[trigger]
                groups@.contains_key(c) ==> positions_of(model.take(i as int), c, groups@[c]@),
    {
        let canonical = &records[i].trace.canonical;
        let ghost before = model.take(i as int);
        let ghost after = model.take(i + 1);
        let ghost old_groups = groups@;
        let mut positions = match groups.remove(canonical.as_str()) {
            Some(positions) => positions,
            None => Vec::new(),
        };
        let ghost old_positions = positions@;
        proof {
            assert(after.drop_last() =~= before);
            assert(after.last() == model[i as int]);
            assert(model[i as int].trace.canonical == canonical@);
            lemma_members(before, canonical@);
            assert(positions_of(before, canonical@, positions@)) by {
                if !old_groups.contains_key(canonical@) {
                    assert(!canonical_values(before).contains(canonical@));
                }
            }
        }
        positions.push(i);
        let ghost new_positions = positions@;
        groups.insert(canonical.clone(), positions);
        proof {
            assert forall|c: Seq<char>| canonical_values(after).contains(c) <==> canonical_values(
                before,
            ).contains(c) || c == canonical@ by {
                lemma_members(before, c);
                lemma_members(after, c);
            }
            assert(groups@.dom() =~= canonical_values(after));
            assert forall|c: Seq<char>| #[trigger] groups@.contains_key(c) implies positions_of(
                after,
                c,
                groups@[c]@,
            ) by {
                let p = if c == canonical@ {
                    old_positions
                } else {
                    groups@[c]@
                };
                if c != canonical@ {
                    assert(old_groups.contains_key(c));
                }
                assert(positions_of(before, c, p));
                let found = members(before, c);
                assert forall|k: int| 0 <= k < p.len() implies (#[trigger] p[k]) < after.len()
                    && after[p[k] as int] == found[k] by {
                    assert(before[p[k] as int] == found[k]);
                }
                assert forall|k: int| 0 <= k < groups@[c]@.len() implies (
                #[trigger] groups@[c]@[k]) < after.len() && after[groups@[c]@[k] as int] == members(
                    after,
                    c,
                )[k] by {
                    if k < p.len() {
                        assert(groups@[c]@[k] == p[k]);
                        assert(members(after, c)[k] == found[k]);
                    }
                }
            }
        }
    }
    proof {
        assert(model.take(model.len() as int) =~= model);
    }
    groups
}

fn make_bucket(records: &Vec<AnalyzedRecord>, canonical: &String, positions: &Vec<usize>) -> (r:
    Bucket)
    requires
        positions_of(records.deep_view(), canonical@, positions@),
        positions@.len() > 0,
    ensures
        r.deep_view() == bucket_of(records.deep_view(), canonical@),
{
    let ghost model = records.deep_view();
    let ghost found = members(model, canonical@);
    let mut names: Vec<String> = Vec::new();
    let mut identical = true;
    proof {
        assert(positions@[0] < model.len());
        assert(model[positions@[0] as int] == found[0]);
    }
    let first = &records[positions[0]];
    for k in 0..positions.len()
        invariant
            model == records.deep_view(),
            found == members(model, canonical@),
            positions_of(model, canonical@, positions@),
            first.deep_view() == found[0],
            names@.len() == k,
            forall|j: int| 0 <= j < k ==> (#[trigger] names@[j])@ == found[j].record_no,
            identical == (forall|j: int| 0 <= j < k ==> (#[trigger] found[j]).raw == found[0].raw),
    {
        proof {
            assert(positions@[k as int] < model.len());
            assert(model[positions@[k as int] as int] == found[k as int]);
        }
        let record = &records[positions[k]];
        names.push(record.record_no.clone());
        let same = bytes_equal(&record.raw, &first.raw);
        proof {
            assert(same == (found[k as int].raw == found[0].raw));
        }
        identical = identical && same;
    }
    proof {
        assert(names.deep_view() =~= numbers(found));
    }
    let bucket_hex = to_hex(canonical.as_str().as_bytes());
    let canonical_cps = first.trace.canonical_cps.duplicate();
    proof {
        assert(canonical_cps.deep_view() =~= first.trace.canonical_cps@);
    }
    Bucket {
        canonical: canonical.clone(),
        canonical_cps,
        bucket_hex,
        record_nos: sort_by_key(names),
        identical_originals: identical,
    }
}

/// Sorts analyzed records into buckets by their canonical values.
pub fn bucket_records(records: &Vec<AnalyzedRecord>) -> (r: Vec<Bucket>)
    ensures
        r.deep_view() == buckets_of(records.deep_view()),
{
    let ghost model = records.deep_view();
    let groups = group_records(records);
    let n = groups.len();
    let ghost keys = groups.keys();
    let mut out: Vec<Bucket> = Vec::new();
    let mut i: usize = 0;
    while i < n
        invariant
            model == records.deep_view(),
            n == keys.len(),
            keys == groups.keys(),
            i <= n,
            groups@.dom() == canonical_values(model),
            forall|c: Seq<char>| #[trigger]
                groups@.contains_key(c) ==> positions_of(model, c, groups@[c]@),
            out@.len() == i,
            forall|k: int|
                0 <= k < i ==> (#[trigger] out@[k]).deep_view() == bucket_of(model, keys[k]),
        decreases n - i,
    {
        let canonical = groups.key_at(i);
        let positions = groups.value_at(i);
        proof {
            assert(groups@.dom().contains(canonical@));
            lemma_members(model, canonical@);
        }
        out.push(make_bucket(records, canonical, positions));
        i += 1;
    }
    proof {
        assert(out.deep_view() =~= buckets_of(model));
    }
    out
}

/// Analyzes the records of a data set under a rule set, and sorts them into buckets.
pub fn build_analysis_records(dataset: &Dataset, ruleset: &Ruleset) -> (r: (
    Vec<AnalyzedRecord>,
    Vec<Bucket>,
))
    ensures
        r.0.deep_view() == analyzed_records(
            dataset.deep_view().records,
            ruleset.config.deep_view(),
        ),
        r.1.deep_view() == buckets_of(r.0.deep_view()),
{
    let ghost inputs = dataset.deep_view().records;
    let ghost cfg = ruleset.config.deep_view();
    let mut records: Vec<AnalyzedRecord> = Vec::new();
    for i in 0..dataset.records.len()
        invariant
            inputs == dataset.deep_view().records,
            cfg == ruleset.config.deep_view(),
            records@.len() == i,
            forall|k: int|
                0 <= k < i ==> (#[trigger] records@[k]).deep_view() == analyzed_record(
                    inputs[k],
                    cfg,
                ),
    {
        let record = &dataset.records[i];
        let copy = record.duplicate();
        let trace = analyze(record.raw.as_slice(), &ruleset.config);
        records.push(AnalyzedRecord { record_no: copy.record_no, raw: copy.raw, trace });
    }
    proof {
        assert(records.deep_view() =~= analyzed_records(inputs, cfg));
    }
    let buckets = bucket_records(&records);
    (records, buckets)
}

/// Refuses rules that are restricted to an unknown script.
pub fn validate_rule_config(cfg: &RuleConfig) -> (r: Result<(), String>)
    ensures
        r is Ok <==> unicode::config_valid(cfg.deep_view()),
        r is Err ==> r->Err_0@ == unicode::unknown_script_text(cfg.restrict_script->0@),
{
    cfg.validate()
}

/// The versions of the linked tables.
pub fn current_tables() -> (r: TableVersions)
    ensures
        r.deep_view() == unicode::linked_tables(),
{
    table_versions()
}

/// The canonical values of records can be listed.
pub proof fn lemma_values_listed(records: Seq<AnalyzedRecordModel>)
    ensures
        order::lists_in_order(
            order::in_order(canonical_values(records)),
            canonical_values(records),
        ),
{
    let values = Seq::new(records.len(), |i: int| records[i].trace.canonical);
    order::lemma_listed(values);
    assert(values.to_set() =~= canonical_values(records)) by {
        assert forall|c: Seq<char>| values.contains(c) <==> canonical_values(records).contains(
            c,
        ) by {
            if values.contains(c) {
                let i = choose|i: int| 0 <= i < values.len() && values[i] == c;
                assert(records[i].trace.canonical == c);
            }
            if canonical_values(records).contains(c) {
                let i = choose|i: int|
                    0 <= i < records.len() && (#[trigger] records[i]).trace.canonical == c;
                assert(values[i] == c);
            }
        }
    }
}

/// Buckets stand in ascending order of their ids.
pub proof fn buckets_ascend_by_id(records: Seq<AnalyzedRecordModel>, a: int, b: int)
    requires
        0 <= a < b < buckets_of(records).len(),
    ensures
        order::text_less(buckets_of(records)[a].bucket_hex, buckets_of(records)[b].bucket_hex),
        order::text_less(buckets_of(records)[a].canonical, buckets_of(records)[b].canonical),
{
    let values = order::in_order(canonical_values(records));
    lemma_values_listed(records);
    assert(order::text_less(values[a], values[b]));
    hex_bytes::hex_keeps_order(
        vstd::utf8::encode_utf8(values[a]),
        vstd::utf8::encode_utf8(values[b]),
    );
}

proof fn lemma_member_numbers(records: Seq<AnalyzedRecordModel>, c: Seq<char>, no: Seq<char>)
    ensures
        numbers(members(records, c)).contains(no) <==> exists|i: int|
            0 <= i < records.len() && (#[trigger] records[i]).trace.canonical == c
                && records[i].record_no == no,
    decreases records.len(),
{
    let found = numbers(members(records, c));
    if records.len() > 0 {
        let front = records.drop_last();
        let last = records.last();
        let before = numbers(members(front, c));
        lemma_member_numbers(front, c, no);
        if before.contains(no) {
            let k = choose|k: int| 0 <= k < before.len() && before[k] == no;
            assert(found[k] == no);
            let i = choose|i: int|
                0 <= i < front.len() && (#[trigger] front[i]).trace.canonical == c
                    && front[i].record_no == no;
            assert(records[i] == front[i]);
        }
        if last.trace.canonical == c && last.record_no == no {
            assert(found[found.len() - 1] == no);
            assert(records[records.len() - 1] == last);
        }
        if found.contains(no) && !before.contains(no) {
            let k = choose|k: int| 0 <= k < found.len() && found[k] == no;
            if k < before.len() {
                assert(before[k] == no);
            }
        }
        if exists|i: int|
            0 <= i < records.len() && (#[trigger] records[i]).trace.canonical == c
                && records[i].record_no == no {
            let i = choose|i: int|
                0 <= i < records.len() && (#[trigger] records[i]).trace.canonical == c
                    && records[i].record_no == no;
            if i < front.len() {
                assert(front[i] == records[i]);
            }
        }
    }
}

/// Every record is in the bucket of its canonical value, and a bucket holds no other records:
/// nothing is dropped, and values that differ are never merged.
pub proof fn buckets_hold_every_record(records: Seq<AnalyzedRecordModel>)
    ensures
        ({
            let buckets = buckets_of(records);
            &&& forall|i: int|
                0 <= i < records.len() ==> exists|b: int|
                    0 <= b < buckets.len() && (#[trigger] buckets[b]).canonical == (
                    #[trigger] records[i]).trace.canonical && buckets[b].record_nos.contains(
                        records[i].record_no,
                    )
            &&& forall|b: int, no: Seq<char>|
                0 <= b < buckets.len() && #[trigger] buckets[b].record_nos.contains(no)
                    ==> exists|i: int|
                    0 <= i < records.len() && (#[trigger] records[i]).trace.canonical
                        == buckets[b].canonical && records[i].record_no == no
        }),
{
    let buckets = buckets_of(records);
    let values = order::in_order(canonical_values(records));
    lemma_values_listed(records);
    assert forall|i: int| 0 <= i < records.len() implies exists|b: int|
        0 <= b < buckets.len() && (#[trigger] buckets[b]).canonical == (
        #[trigger] records[i]).trace.canonical && buckets[b].record_nos.contains(
            records[i].record_no,
        ) by {
        let c = records[i].trace.canonical;
        assert(canonical_values(records).contains(c));
        assert(values.contains(c));
        let b = choose|b: int| 0 <= b < values.len() && values[b] == c;
        lemma_member_numbers(records, c, records[i].record_no);
        lemma_sorted_members(numbers(members(records, c)), records[i].record_no);
        assert(buckets[b].canonical == c);
    }
    assert forall|b: int, no: Seq<char>|
        0 <= b < buckets.len() && #[trigger] buckets[b].record_nos.contains(no) implies exists|
        i: int,
    |
        0 <= i < records.len() && (#[trigger] records[i]).trace.canonical == buckets[b].canonical
            && records[i].record_no == no by {
        lemma_member_numbers(records, values[b], no);
        lemma_sorted_members(numbers(members(records, values[b])), no);
    }
}

proof fn lemma_sorted_members(s: Seq<Seq<char>>, x: Seq<char>)
    ensures
        sorting::sorted::<String>(s).contains(x) <==> s.contains(x),
{
    broadcast use vstd::seq_lib::group_to_multiset_ensures;

    sorting::sorting_sorts::<String>(s);
    let t = sorting::sorted::<String>(s);
    assert(t.to_multiset().count(x) == s.to_multiset().count(x));
    assert(t.contains(x) <==> t.to_multiset().count(x) > 0);
    assert(s.contains(x) <==> s.to_multiset().count(x) > 0);
}

} // verus!
