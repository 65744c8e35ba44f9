//! What a plan comes to: the mapping of every record, and the cycles that its aliases would close.

use vstd::prelude::*;

use crate::cycles;
use crate::cycles::{find_cycle, Graph};
use crate::engine;
use crate::engine::{analyze_text, AnalyzedRecord, RecordModel, RuleConfig, RuleConfigModel};
use crate::import;
use crate::import::analysis_for;
use crate::ledger::{
    Dataset, DatasetModel, GroupDecision, GroupDecisionModel, Plan, PlanDetails, PlanDetailsModel,
    PlanModel, State, StateModel, StoredMapping, StoredMappingModel, StoredRecord,
};
use crate::order;
use crate::requests;
use crate::requests::{ServiceError, ServiceErrorModel};
use crate::sorting;
use crate::sorting::sort_by_key;
use crate::strmap::{StringMap, StringSet};
use crate::text;
use crate::text::{is_blank, str_eq, Duplicate};

verus! {

/// The part of a data set that was there at some version.
pub open spec fn dataset_at(dataset: DatasetModel, version: u64) -> DatasetModel {
    DatasetModel {
        records: Map::new(
            |id: Seq<char>|
                dataset.records.contains_key(id) && dataset.records[id].source_version <= version,
            |id: Seq<char>| dataset.records[id],
        ),
        ..dataset
    }
}

fn records_at(records: &StringMap<StoredRecord>, version: u64) -> (r: StringMap<StoredRecord>)
    ensures
        r.deep_view() == Map::new(
            |id: Seq<char>|
                records.deep_view().contains_key(id) && records.deep_view()[id].source_version
                    <= version,
            |id: Seq<char>| records.deep_view()[id],
        ),
{
    let mut out: StringMap<StoredRecord> = StringMap::new();
    let n = records.len();
    let ghost keys = records.keys();
    let mut i: usize = 0;
    while i < n
        invariant
            n == keys.len(),
            keys == records.keys(),
            order::lists_in_order(keys, records@.dom()),
            i <= n,
            forall|id: Seq<char>| #[trigger]
                out@.contains_key(id) <==> keys.take(i as int).contains(id)
                    && records@[id].source_version <= version,
            forall|id: Seq<char>| #[trigger]
                out@.contains_key(id) ==> records@.contains_key(id) && out@[id].deep_view()
                    == records@[id].deep_view(),
        decreases n - i,
    {
        let id = records.key_at(i);
        let record = records.value_at(i);
        let ghost before = out@;
        if record.source_version <= version {
            out.insert(id.clone(), record.duplicate());
        }
        proof {
            let upto = keys.take(i + 1);
            assert forall|x: Seq<char>| #[trigger] upto.contains(x) <==> keys.take(
                i as int,
            ).contains(x) || x == id@ by {
                if keys.take(i as int).contains(x) {
                    let part = keys.take(i as int);
                    let k = choose|k: int| 0 <= k < part.len() && part[k] == x;
                    assert(upto[k] == x);
                }
                if x == id@ {
                    assert(upto[i as int] == x);
                }
                if upto.contains(x) {
                    let k = choose|k: int| 0 <= k < upto.len() && upto[k] == x;
                    if k < i {
                        assert(keys.take(i as int)[k] == x);
                    }
                }
            }
            assert forall|x: Seq<char>| #[trigger] out@.contains_key(x) <==> upto.contains(x)
                && records@[x].source_version <= version by {
                assert(before.contains_key(x) <==> keys.take(i as int).contains(x)
                    && records@[x].source_version <= version);
            }
            assert forall|x: Seq<char>| #[trigger] out@.contains_key(
                x,
            ) implies records@.contains_key(x) && out@[x].deep_view() == records@[x].deep_view() by {
                if x != id@ {
                    assert(before.contains_key(x));
                }
            }
        }
        i += 1;
    }
    proof {
        assert(keys.take(n as int) =~= keys);
        let want = Map::new(
            |id: Seq<char>|
                records.deep_view().contains_key(id) && records.deep_view()[id].source_version
                    <= version,
            |id: Seq<char>| records.deep_view()[id],
        );
        assert forall|x: Seq<char>| #[trigger] out.deep_view().contains_key(x)
            <==> want.contains_key(x) by {
            assert(records@.dom().contains(x) <==> keys.contains(x));
            assert(out@.contains_key(x) <==> keys.contains(x) && records@[x].source_version
                <= version);
        }
        assert forall|x: Seq<char>| #[trigger] out.deep_view().contains_key(
            x,
        ) implies out.deep_view()[x] == want[x] by {
            assert(out@.contains_key(x));
        }
        assert(out.deep_view() =~= want);
    }
    out
}

/// The canonical values of the eligible records, by record id.
pub open spec fn canonical_by_id(records: Seq<RecordModel>) -> Map<Seq<char>, Seq<char>>
    decreases records.len(),
{
    if records.len() == 0 {
        Map::empty()
    } else {
        let before = canonical_by_id(records.drop_last());
        if records.last().eligible {
            before.insert(records.last().record_id, records.last().canonical)
        } else {
            before
        }
    }
}

/// The canonical values of the eligible records, by record id.
pub fn canonical_by_record(records: &Vec<AnalyzedRecord>) -> (r: StringMap<String>)
    ensures
        r.deep_view() == canonical_by_id(records.deep_view()),
{
    broadcast use text::lemma_map_models_insert;

    let ghost model = records.deep_view();
    let mut out: StringMap<String> = StringMap::new();
    proof {
        assert(model.take(0) =~= Seq::<RecordModel>::empty());
        assert(out.deep_view() =~= Map::<Seq<char>, Seq<char>>::empty());
    }
    for i in 0..records.len()
        invariant
            model == records.deep_view(),
            out.deep_view() == canonical_by_id(model.take(i as int)),
    {
        proof {
            assert(model.take(i + 1).drop_last() =~= model.take(i as int));
            assert(model.take(i + 1).last() == records@[i as int].deep_view());
        }
        if records[i].eligible {
            out.insert(records[i].record_id.clone(), records[i].canonical.clone());
        }
    }
    proof {
        assert(model.take(model.len() as int) =~= model);
    }
    out
}

/// The value that a replacement text comes to under the rules of a plan, or why it is refused.
pub open spec fn replacement_value(rules: RuleConfigModel, content: Seq<char>) -> Result<
    Seq<char>,
    Seq<char>,
> {
    match engine::unknown_script(rules) {
        Some(name) => Err(engine::unknown_script_text(name)),
        None => {
            let record = engine::record_of(rules, engine::query_input(content));
            if record.eligible && record.canonical.len() > 0 {
                Ok(record.canonical)
            } else {
                Err("replacement is not eligible under target rules"@)
            }
        },
    }
}

/// The value that a replacement text comes to under the rules of a plan.
pub fn canonical_text(rules: &RuleConfig, content: &str) -> (r: Result<String, String>)
    ensures
        match replacement_value(rules.deep_view(), content@) {
            Ok(value) => r is Ok && r->Ok_0@ == value,
            Err(message) => r is Err && r->Err_0@ == message,
        },
{
    match analyze_text(rules, content) {
        Ok(analysis) => {
            proof {
                assert(analysis.records.deep_view().len() == 1);
                assert(analysis.records.deep_view()[0] == analysis.records@[0].deep_view());
            }
            let record = &analysis.records[0];
            if !record.eligible || record.canonical.as_str().is_empty() {
                Err("replacement is not eligible under target rules".to_owned())
            } else {
                Ok(record.canonical.clone())
            }
        },
        Err(message) => Err(message),
    }
}

/// The value of a key, or another text where it has none.
pub open spec fn value_or(m: Map<Seq<char>, Seq<char>>, key: Seq<char>, other: Seq<char>) -> Seq<
    char,
> {
    if m.contains_key(key) {
        m[key]
    } else {
        other
    }
}

fn get_or(m: &StringMap<String>, key: &str, other: &str) -> (r: String)
    ensures
        r@ == value_or(m.deep_view(), key@, other@),
{
    match m.get(key) {
        Some(value) => value.clone(),
        None => other.to_owned(),
    }
}

/// A mapping.
pub open spec fn mapping(
    record_id: Seq<char>,
    old_canonical: Seq<char>,
    new_canonical: Seq<char>,
    action: Seq<char>,
) -> StoredMappingModel {
    StoredMappingModel { record_id, old_canonical, new_canonical, action }
}

/// The mappings of a bucket whose records keep their old values as aliases of one new value.
pub open spec fn alias_mappings(
    ids: Seq<Seq<char>>,
    source: Map<Seq<char>, Seq<char>>,
    canonical: Seq<char>,
    value: Seq<char>,
) -> Seq<StoredMappingModel> {
    Seq::new(
        ids.len(),
        |i: int| mapping(ids[i], value_or(source, ids[i], canonical), value, "keep-alias"@),
    )
}

/// The new value of a record that is renamed, or why it cannot be.
pub open spec fn renamed_value(
    rules: RuleConfigModel,
    decision: GroupDecisionModel,
    id: Seq<char>,
) -> Result<Seq<char>, Seq<char>> {
    if !decision.replacements.contains_key(id) {
        Err("missing replacement for conflict record"@)
    } else if text::blank(decision.replacements[id]) {
        Err("replacement must not be empty"@)
    } else {
        replacement_value(rules, decision.replacements[id])
    }
}

/// Mappings with those of one more record that is renamed, or why it cannot be.
pub open spec fn renamed_too(
    rules: RuleConfigModel,
    decision: GroupDecisionModel,
    source: Map<Seq<char>, Seq<char>>,
    canonical: Seq<char>,
    before: Seq<StoredMappingModel>,
    id: Seq<char>,
) -> Result<Seq<StoredMappingModel>, Seq<char>> {
    match renamed_value(rules, decision, id) {
        Err(message) => Err(message),
        Ok(value) => {
            let renamed = before.push(
                mapping(id, value_or(source, id, canonical), value, "rename"@),
            );
            if decision.keep_old_alias {
                Ok(renamed.push(mapping(id, canonical, value, "old-alias"@)))
            } else {
                Ok(renamed)
            }
        },
    }
}

/// The mappings of records of a bucket that are renamed, or why they cannot be.
pub open spec fn rename_mappings(
    rules: RuleConfigModel,
    decision: GroupDecisionModel,
    source: Map<Seq<char>, Seq<char>>,
    canonical: Seq<char>,
    ids: Seq<Seq<char>>,
) -> Result<Seq<StoredMappingModel>, Seq<char>>
    decreases ids.len(),
{
    if ids.len() == 0 {
        Ok(seq![])
    } else {
        let id = ids.last();
        match rename_mappings(rules, decision, source, canonical, ids.drop_last()) {
            Err(message) => Err(message),
            Ok(before) => renamed_too(rules, decision, source, canonical, before, id),
        }
    }
}

/// A text in backquotes after some words.
pub open spec fn named_text(words: Seq<char>, name: Seq<char>) -> Seq<char> {
    words + name + "`"@
}

/// The mappings of one bucket by the decision on it, or why there are none.
pub open spec fn bucket_mappings(
    plan: PlanModel,
    source: Map<Seq<char>, Seq<char>>,
    target: Map<Seq<char>, Seq<char>>,
    canonical: Seq<char>,
) -> Result<Seq<StoredMappingModel>, Seq<char>> {
    let ids = plan.groups[canonical];
    if !plan.decisions.contains_key(canonical) {
        Err(named_text("missing decision for bucket `"@, canonical))
    } else {
        let decision = plan.decisions[canonical];
        if decision.action == "reject"@ {
            Ok(seq![])
        } else if decision.action == "keep-alias"@ {
            match decision.primary_record_id {
                None => Err("keep-alias requires primary_record_id"@),
                Some(primary) => if !ids.contains(primary) {
                    Err("primary record is outside its conflict group"@)
                } else if !target.contains_key(primary) {
                    Err("primary record is not eligible"@)
                } else {
                    Ok(alias_mappings(ids, source, canonical, target[primary]))
                },
            }
        } else if decision.action == "rename"@ {
            if order::in_order(decision.replacements.dom()).len() != ids.len() {
                Err("rename requires one replacement per conflict record"@)
            } else {
                rename_mappings(plan.rules, decision, source, canonical, ids)
            }
        } else {
            Err(named_text("unknown action `"@, decision.action))
        }
    }
}

/// The mappings of some buckets, or why the first that has none has none.
pub open spec fn all_bucket_mappings(
    plan: PlanModel,
    source: Map<Seq<char>, Seq<char>>,
    target: Map<Seq<char>, Seq<char>>,
    buckets: Seq<Seq<char>>,
) -> Result<Seq<StoredMappingModel>, Seq<char>>
    decreases buckets.len(),
{
    if buckets.len() == 0 {
        Ok(seq![])
    } else {
        match all_bucket_mappings(plan, source, target, buckets.drop_last()) {
            Err(message) => Err(message),
            Ok(before) => match bucket_mappings(plan, source, target, buckets.last()) {
                Err(message) => Err(message),
                Ok(more) => Ok(before + more),
            },
        }
    }
}

/// The records that are renamed to a value.
pub open spec fn renamed_to(mappings: Seq<StoredMappingModel>, value: Seq<char>) -> Set<Seq<char>> {
    Set::new(
        |id: Seq<char>|
            exists|i: int|
                0 <= i < mappings.len() && (#[trigger] mappings[i]).action == "rename"@
                    && mappings[i].new_canonical == value && mappings[i].record_id == id,
    )
}

/// The values that records are renamed to.
pub open spec fn rename_values(mappings: Seq<StoredMappingModel>) -> Set<Seq<char>> {
    Set::new(
        |value: Seq<char>|
            exists|i: int|
                0 <= i < mappings.len() && (#[trigger] mappings[i]).action == "rename"@
                    && mappings[i].new_canonical == value,
    )
}

/// The bucket of a value holds the record.
pub open spec fn in_bucket(plan: PlanModel, value: Seq<char>, id: Seq<char>) -> bool {
    plan.groups.contains_key(value) && plan.groups[value].contains(id)
}

/// The decision on the bucket of a value moves the record away from it.
pub open spec fn moved_away(plan: PlanModel, value: Seq<char>, id: Seq<char>) -> bool {
    &&& in_bucket(plan, value, id)
    &&& plan.decisions.contains_key(value)
    &&& plan.decisions[value].action == "rename"@
}

/// A record has a value, is not the given record, and is not moved away from the value.
pub open spec fn owns_value(
    plan: PlanModel,
    target: Map<Seq<char>, Seq<char>>,
    value: Seq<char>,
    id: Seq<char>,
    owner: Seq<char>,
) -> bool {
    target.contains_key(owner) && target[owner] == value && owner != id && !moved_away(
        plan,
        value,
        owner,
    )
}

/// The value that a record is renamed to is taken: another record has it and keeps it.
pub open spec fn value_taken(
    plan: PlanModel,
    target: Map<Seq<char>, Seq<char>>,
    value: Seq<char>,
    id: Seq<char>,
) -> bool {
    exists|owner: Seq<char>| owns_value(plan, target, value, id, owner)
}

/// Why no record can be renamed to a value, if so.
pub open spec fn value_error(
    plan: PlanModel,
    target: Map<Seq<char>, Seq<char>>,
    mappings: Seq<StoredMappingModel>,
    value: Seq<char>,
) -> Option<Seq<char>> {
    let ids = order::in_order(renamed_to(mappings, value));
    if ids.len() > 1 {
        Some(named_text("rename targets collide at `"@, value))
    } else if value_taken(plan, target, value, ids[0]) {
        Some("rename target `"@ + value + "` collides with an existing value"@)
    } else {
        None
    }
}

/// Why records cannot be renamed to some values, for the first value of which that holds.
pub open spec fn first_value_error(
    plan: PlanModel,
    target: Map<Seq<char>, Seq<char>>,
    mappings: Seq<StoredMappingModel>,
    values: Seq<Seq<char>>,
) -> Option<Seq<char>>
    decreases values.len(),
{
    if values.len() == 0 {
        None
    } else {
        match first_value_error(plan, target, mappings, values.drop_last()) {
            Some(message) => Some(message),
            None => value_error(plan, target, mappings, values.last()),
        }
    }
}

/// The mappings that the decisions of a plan ask for, or why they cannot be had.
pub open spec fn requested(
    plan: PlanModel,
    source: Map<Seq<char>, Seq<char>>,
    target: Map<Seq<char>, Seq<char>>,
) -> Result<Seq<StoredMappingModel>, Seq<char>> {
    match all_bucket_mappings(plan, source, target, order::in_order(plan.groups.dom())) {
        Err(message) => Err(message),
        Ok(mappings) => match first_value_error(
            plan,
            target,
            mappings,
            order::in_order(rename_values(mappings)),
        ) {
            Some(message) => Err(message),
            None => Ok(mappings),
        },
    }
}

/// Some mapping is about the record.
pub open spec fn handled(mappings: Seq<StoredMappingModel>, id: Seq<char>) -> bool {
    exists|i: int| 0 <= i < mappings.len() && (#[trigger] mappings[i]).record_id == id
}

/// A bucket whose migration was rejected holds the record.
pub open spec fn rejected_in(plan: PlanModel, bucket: Seq<char>, id: Seq<char>) -> bool {
    &&& in_bucket(plan, bucket, id)
    &&& plan.decisions.contains_key(bucket)
    &&& plan.decisions[bucket].action == "reject"@
}

/// The record is left out of the migration: the decision on its bucket rejects it.
pub open spec fn left_out(plan: PlanModel, id: Seq<char>) -> bool {
    exists|bucket: Seq<char>| rejected_in(plan, bucket, id)
}

/// The record was there when the plan was made up: some mapping is about it, or it is left out.
pub open spec fn known(plan: PlanModel, mappings: Seq<StoredMappingModel>, id: Seq<char>) -> bool {
    handled(mappings, id) || left_out(plan, id)
}

/// The mappings of the records, among some, that the decisions are not about.
pub open spec fn auto_mappings(
    plan: PlanModel,
    mappings: Seq<StoredMappingModel>,
    source: Map<Seq<char>, Seq<char>>,
    target: Map<Seq<char>, Seq<char>>,
    ids: Seq<Seq<char>>,
) -> Seq<StoredMappingModel>
    decreases ids.len(),
{
    if ids.len() == 0 {
        seq![]
    } else {
        let before = auto_mappings(plan, mappings, source, target, ids.drop_last());
        let id = ids.last();
        if known(plan, mappings, id) {
            before
        } else {
            before.push(mapping(id, value_or(source, id, seq![]), target[id], "auto"@))
        }
    }
}

/// The mappings of all records that are not left out, in ascending order of their ids, or why they
/// cannot be had.
pub open spec fn completed(
    plan: PlanModel,
    source: Map<Seq<char>, Seq<char>>,
    target: Map<Seq<char>, Seq<char>>,
) -> Result<Seq<StoredMappingModel>, Seq<char>> {
    match requested(plan, source, target) {
        Err(message) => Err(message),
        Ok(mappings) => Ok(
            sorting::sorted::<StoredMapping>(
                mappings + auto_mappings(
                    plan,
                    mappings,
                    source,
                    target,
                    order::in_order(target.dom()),
                ),
            ),
        ),
    }
}

fn make_mapping(
    record_id: &String,
    old_canonical: String,
    new_canonical: &String,
    action: &str,
) -> (r: StoredMapping)
    ensures
        r.deep_view() == mapping(record_id@, old_canonical@, new_canonical@, action@),
{
    StoredMapping {
        record_id: record_id.clone(),
        old_canonical,
        new_canonical: new_canonical.clone(),
        action: action.to_owned(),
    }
}

fn named(words: &str, name: &str) -> (r: String)
    ensures
        r@ == named_text(words@, name@),
{
    let mut out = words.to_owned();
    out.push_str(name);
    out.push_str("`");
    out
}

fn holds(ids: &Vec<String>, id: &str) -> (r: bool)
    ensures
        r == ids.deep_view().contains(id@),
{
    for i in 0..ids.len()
        invariant
            forall|k: int| 0 <= k < i ==> ids.deep_view()[k] != id@,
    {
        if str_eq(ids[i].as_str(), id) {
            proof {
                assert(ids.deep_view()[i as int] == id@);
            }
            return true;
        }
    }
    false
}

fn keep_aliases(
    ids: &Vec<String>,
    source: &StringMap<String>,
    canonical: &String,
    value: &String,
) -> (r: Vec<StoredMapping>)
    ensures
        r.deep_view() == alias_mappings(
            ids.deep_view(),
            source.deep_view(),
            canonical@,
            value@,
        ),
{
    let mut out: Vec<StoredMapping> = Vec::new();
    let ghost want = alias_mappings(ids.deep_view(), source.deep_view(), canonical@, value@);
    for i in 0..ids.len()
        invariant
            want == alias_mappings(ids.deep_view(), source.deep_view(), canonical@, value@),
            out@.len() == i,
            forall|k: int| 0 <= k < i ==> (#[trigger] out@[k]).deep_view() == want[k],
    {
        let old = get_or(source, ids[i].as_str(), canonical.as_str());
        out.push(make_mapping(&ids[i], old, value, "keep-alias"));
    }
    proof {
        assert(out.deep_view() =~= want);
    }
    out
}

proof fn lemma_rename_refused(
    rules: RuleConfigModel,
    decision: GroupDecisionModel,
    source: Map<Seq<char>, Seq<char>>,
    canonical: Seq<char>,
    ids: Seq<Seq<char>>,
    n: int,
)
    requires
        0 <= n <= ids.len(),
        rename_mappings(rules, decision, source, canonical, ids.take(n)) is Err,
    ensures
        rename_mappings(rules, decision, source, canonical, ids) == rename_mappings(
            rules,
            decision,
            source,
            canonical,
            ids.take(n),
        ),
    decreases ids.len() - n,
{
    if n == ids.len() {
        assert(ids.take(n) =~= ids);
    } else {
        assert(ids.take(n + 1).drop_last() =~= ids.take(n));
        lemma_rename_refused(rules, decision, source, canonical, ids, n + 1);
    }
}

fn rename_record(rules: &RuleConfig, decision: &GroupDecision, id: &str) -> (r: Result<
    String,
    String,
>)
    ensures
        match renamed_value(rules.deep_view(), decision.deep_view(), id@) {
            Ok(value) => r is Ok && r->Ok_0@ == value,
            Err(message) => r is Err && r->Err_0@ == message,
        },
{
    match decision.replacements.get(id) {
        Some(replacement) => {
            if is_blank(replacement.as_str()) {
                Err("replacement must not be empty".to_owned())
            } else {
                canonical_text(rules, replacement.as_str())
            }
        },
        None => Err("missing replacement for conflict record".to_owned()),
    }
}

/// Adds the mappings of one more record that is renamed; says why where it cannot be.
fn push_renamed(
    rules: &RuleConfig,
    decision: &GroupDecision,
    source: &StringMap<String>,
    canonical: &String,
    id: &String,
    out: &mut Vec<StoredMapping>,
) -> (refusal: Option<String>)
    ensures
        match renamed_too(
            rules.deep_view(),
            decision.deep_view(),
            source.deep_view(),
            canonical@,
            old(out).deep_view(),
            id@,
        ) {
            Ok(model) => refusal is None && final(out).deep_view() == model,
            Err(message) => refusal is Some && refusal->0@ == message,
        },
{
    broadcast use {text::lemma_models_push, text::lemma_vec_model};

    let value = match rename_record(rules, decision, id.as_str()) {
        Ok(value) => value,
        Err(message) => {
            return Some(message);
        },
    };
    let old = get_or(source, id.as_str(), canonical.as_str());
    out.push(make_mapping(id, old, &value, "rename"));
    if decision.keep_old_alias {
        out.push(make_mapping(id, canonical.clone(), &value, "old-alias"));
    }
    None
}

fn rename_records(
    rules: &RuleConfig,
    decision: &GroupDecision,
    source: &StringMap<String>,
    canonical: &String,
    ids: &Vec<String>,
) -> (r: Result<Vec<StoredMapping>, String>)
    ensures
        match rename_mappings(
            rules.deep_view(),
            decision.deep_view(),
            source.deep_view(),
            canonical@,
            ids.deep_view(),
        ) {
            Ok(model) => r is Ok && r->Ok_0.deep_view() == model,
            Err(message) => r is Err && r->Err_0@ == message,
        },
{
    let ghost cfg = rules.deep_view();
    let ghost d = decision.deep_view();
    let ghost from = source.deep_view();
    let ghost model = ids.deep_view();
    let mut out: Vec<StoredMapping> = Vec::new();
    proof {
        assert(model.take(0) =~= Seq::<Seq<char>>::empty());
        assert(out.deep_view() =~= Seq::<StoredMappingModel>::empty());
    }
    for i in 0..ids.len()
        invariant
            cfg == rules.deep_view(),
            d == decision.deep_view(),
            from == source.deep_view(),
            model == ids.deep_view(),
            rename_mappings(cfg, d, from, canonical@, model.take(i as int)) == Ok::<_, Seq<char>>(
                out.deep_view(),
            ),
    {
        proof {
            assert(model.take(i + 1).drop_last() =~= model.take(i as int));
            assert(model.take(i + 1).last() == ids@[i as int]@);
        }
        if let Some(message) = push_renamed(rules, decision, source, canonical, &ids[i], &mut out) {
            proof {
                lemma_rename_refused(cfg, d, from, canonical@, model, i + 1);
            }
            return Err(message);
        }
    }
    proof {
        assert(model.take(model.len() as int) =~= model);
    }
    Ok(out)
}

fn map_bucket(
    plan: &Plan,
    source: &StringMap<String>,
    target: &StringMap<String>,
    canonical: &String,
    ids: &Vec<String>,
) -> (r: Result<Vec<StoredMapping>, String>)
    requires
        plan.deep_view().groups[canonical@] == ids.deep_view(),
    ensures
        match bucket_mappings(
            plan.deep_view(),
            source.deep_view(),
            target.deep_view(),
            canonical@,
        ) {
            Ok(model) => r is Ok && r->Ok_0.deep_view() == model,
            Err(message) => r is Err && r->Err_0@ == message,
        },
{
    let decision = match plan.decisions.get(canonical.as_str()) {
        Some(decision) => decision,
        None => {
            return Err(named("missing decision for bucket `", canonical.as_str()));
        },
    };
    let action = decision.action.as_str();
    if str_eq(action, "reject") {
        let none: Vec<StoredMapping> = Vec::new();
        proof {
            assert(none.deep_view() =~= Seq::<StoredMappingModel>::empty());
        }
        Ok(none)
    } else if str_eq(action, "keep-alias") {
        match &decision.primary_record_id {
            None => Err("keep-alias requires primary_record_id".to_owned()),
            Some(primary) => {
                if !holds(ids, primary.as_str()) {
                    return Err("primary record is outside its conflict group".to_owned());
                }
                match target.get(primary.as_str()) {
                    None => Err("primary record is not eligible".to_owned()),
                    Some(value) => Ok(keep_aliases(ids, source, canonical, value)),
                }
            },
        }
    } else if str_eq(action, "rename") {
        proof {
            assert(decision.deep_view().replacements.dom() =~= decision.replacements@.dom());
        }
        if decision.replacements.len() != ids.len() {
            Err("rename requires one replacement per conflict record".to_owned())
        } else {
            rename_records(&plan.rules, decision, source, canonical, ids)
        }
    } else {
        Err(named("unknown action `", action))
    }
}

proof fn lemma_buckets_refused(
    plan: PlanModel,
    source: Map<Seq<char>, Seq<char>>,
    target: Map<Seq<char>, Seq<char>>,
    buckets: Seq<Seq<char>>,
    n: int,
)
    requires
        0 <= n <= buckets.len(),
        all_bucket_mappings(plan, source, target, buckets.take(n)) is Err,
    ensures
        all_bucket_mappings(plan, source, target, buckets) == all_bucket_mappings(
            plan,
            source,
            target,
            buckets.take(n),
        ),
    decreases buckets.len() - n,
{
    if n == buckets.len() {
        assert(buckets.take(n) =~= buckets);
    } else {
        assert(buckets.take(n + 1).drop_last() =~= buckets.take(n));
        lemma_buckets_refused(plan, source, target, buckets, n + 1);
    }
}

fn map_buckets(plan: &Plan, source: &StringMap<String>, target: &StringMap<String>) -> (r: Result<
    Vec<StoredMapping>,
    String,
>)
    ensures
        match all_bucket_mappings(
            plan.deep_view(),
            source.deep_view(),
            target.deep_view(),
            order::in_order(plan.deep_view().groups.dom()),
        ) {
            Ok(model) => r is Ok && r->Ok_0.deep_view() == model,
            Err(message) => r is Err && r->Err_0@ == message,
        },
{
    let ghost p = plan.deep_view();
    let ghost from = source.deep_view();
    let ghost to = target.deep_view();
    let n = plan.groups.len();
    let ghost keys = plan.groups.keys();
    let mut out: Vec<StoredMapping> = Vec::new();
    proof {
        assert(p.groups.dom() =~= plan.groups@.dom());
        assert(keys.take(0) =~= Seq::<Seq<char>>::empty());
        assert(out.deep_view() =~= Seq::<StoredMappingModel>::empty());
    }
    let mut i: usize = 0;
    while i < n
        invariant
            p == plan.deep_view(),
            from == source.deep_view(),
            to == target.deep_view(),
            n == keys.len(),
            keys == plan.groups.keys(),
            keys == order::in_order(p.groups.dom()),
            i <= n,
            all_bucket_mappings(p, from, to, keys.take(i as int)) == Ok::<_, Seq<char>>(
                out.deep_view(),
            ),
        decreases n - i,
    {
        let canonical = plan.groups.key_at(i);
        let ids = plan.groups.value_at(i);
        let ghost before = out.deep_view();
        proof {
            assert(keys.take(i + 1).drop_last() =~= keys.take(i as int));
            assert(keys.take(i + 1).last() == canonical@);
        }
        match map_bucket(plan, source, target, canonical, ids) {
            Ok(more) => {
                let ghost added = more.deep_view();
                let mut more = more;
                out.append(&mut more);
                proof {
                    assert(out.deep_view() =~= before + added);
                }
            },
            Err(message) => {
                proof {
                    lemma_buckets_refused(p, from, to, keys, i + 1);
                }
                return Err(message);
            },
        }
        i += 1;
    }
    proof {
        assert(keys.take(n as int) =~= keys);
    }
    Ok(out)
}

proof fn lemma_rename_sets(mappings: Seq<StoredMappingModel>)
    requires
        mappings.len() > 0,
    ensures
        ({
            let front = mappings.drop_last();
            let last = mappings.last();
            let counts = last.action == "rename"@;
            &&& forall|v: Seq<char>| #[trigger]
                rename_values(mappings).contains(v) <==> rename_values(front).contains(v) || (counts
                    && v == last.new_canonical)
            &&& forall|v: Seq<char>, id: Seq<char>| #[trigger]
                renamed_to(mappings, v).contains(id) <==> renamed_to(front, v).contains(id) || (
                counts && v == last.new_canonical && id == last.record_id)
        }),
{
    let front = mappings.drop_last();
    let last = mappings.last();
    let counts = last.action == "rename"@;
    assert(mappings[mappings.len() - 1] == last);
    assert forall|v: Seq<char>| #[trigger]
        rename_values(mappings).contains(v) <==> rename_values(front).contains(v) || (counts && v
            == last.new_canonical) by {
        if rename_values(front).contains(v) {
            let i = choose|i: int|
                0 <= i < front.len() && (#[trigger] front[i]).action == "rename"@
                    && front[i].new_canonical == v;
            assert(mappings[i] == front[i]);
        }
        if rename_values(mappings).contains(v) {
            let i = choose|i: int|
                0 <= i < mappings.len() && (#[trigger] mappings[i]).action == "rename"@
                    && mappings[i].new_canonical == v;
            if i < front.len() {
                assert(front[i] == mappings[i]);
            }
        }
    }
    assert forall|v: Seq<char>, id: Seq<char>| #[trigger]
        renamed_to(mappings, v).contains(id) <==> renamed_to(front, v).contains(id) || (counts && v
            == last.new_canonical && id == last.record_id) by {
        if renamed_to(front, v).contains(id) {
            let i = choose|i: int|
                0 <= i < front.len() && (#[trigger] front[i]).action == "rename"@
                    && front[i].new_canonical == v && front[i].record_id == id;
            assert(mappings[i] == front[i]);
        }
        if renamed_to(mappings, v).contains(id) {
            let i = choose|i: int|
                0 <= i < mappings.len() && (#[trigger] mappings[i]).action == "rename"@
                    && mappings[i].new_canonical == v && mappings[i].record_id == id;
            if i < front.len() {
                assert(front[i] == mappings[i]);
            }
        }
    }
}

fn gather_targets(mappings: &Vec<StoredMapping>) -> (r: StringMap<StringSet>)
    ensures
        r@.dom() == rename_values(mappings.deep_view()),
        forall|v: Seq<char>| #[trigger]
            r@.contains_key(v) ==> r@[v]@ == renamed_to(mappings.deep_view(), v),
{
    let ghost model = mappings.deep_view();
    let mut out: StringMap<StringSet> = StringMap::new();
    proof {
        assert(model.take(0) =~= Seq::<StoredMappingModel>::empty());
        assert(out@.dom() =~= rename_values(model.take(0)));
    }
    for i in 0..mappings.len()
        invariant
            model == mappings.deep_view(),
            out@.dom() == rename_values(model.take(i as int)),
            forall|v: Seq<char>| #[trigger]
                out@.contains_key(v) ==> out@[v]@ == renamed_to(model.take(i as int), v),
    {
        let m = &mappings[i];
        let ghost before = model.take(i as int);
        let ghost after = model.take(i + 1);
        let ghost old_out = out@;
        proof {
            assert(after.drop_last() =~= before);
            assert(after.last() == m.deep_view());
            lemma_rename_sets(after);
        }
        if str_eq(m.action.as_str(), "rename") {
            let mut ids = match out.remove(m.new_canonical.as_str()) {
                Some(ids) => ids,
                None => StringSet::new(),
            };
            proof {
                assert(ids@ =~= renamed_to(before, m.new_canonical@)) by {
                    if !old_out.contains_key(m.new_canonical@) {
                        assert(!rename_values(before).contains(m.new_canonical@));
                        assert forall|id: Seq<char>| !renamed_to(
                            before,
                            m.new_canonical@,
                        ).contains(id) by {
                            if renamed_to(before, m.new_canonical@).contains(id) {
                                let k = choose|k: int|
                                    0 <= k < before.len() && (#[trigger] before[k]).action
                                        == "rename"@ && before[k].new_canonical == m.new_canonical@
                                        && before[k].record_id == id;
                                assert(before[k].new_canonical == m.new_canonical@);
                            }
                        }
                    }
                }
            }
            ids.insert(m.record_id.clone());
            out.insert(m.new_canonical.clone(), ids);
        }
        proof {
            assert(out@.dom() =~= rename_values(after));
            assert forall|v: Seq<char>| #[trigger] out@.contains_key(v) implies out@[v]@
                == renamed_to(after, v) by {
                if old_out.contains_key(v) {
                    assert(old_out[v]@ == renamed_to(before, v));
                }
                assert(out@[v]@ =~= renamed_to(after, v));
            }
        }
    }
    proof {
        assert(model.take(model.len() as int) =~= model);
    }
    out
}

fn is_moved_away(plan: &Plan, value: &str, id: &str) -> (r: bool)
    ensures
        r == moved_away(plan.deep_view(), value@, id@),
{
    match plan.groups.get(value) {
        Some(ids) => match plan.decisions.get(value) {
            Some(decision) => str_eq(decision.action.as_str(), "rename") && holds(ids, id),
            None => false,
        },
        None => false,
    }
}

fn is_value_taken(plan: &Plan, target: &StringMap<String>, value: &str, id: &str) -> (r: bool)
    ensures
        r == value_taken(plan.deep_view(), target.deep_view(), value@, id@),
{
    let ghost p = plan.deep_view();
    let ghost to = target.deep_view();
    let n = target.len();
    let ghost keys = target.keys();
    let mut i: usize = 0;
    while i < n
        invariant
            p == plan.deep_view(),
            to == target.deep_view(),
            n == keys.len(),
            keys == target.keys(),
            i <= n,
            forall|k: int| 0 <= k < i ==> !owns_value(p, to, value@, id@, #[trigger] keys[k]),
        decreases n - i,
    {
        let owner = target.key_at(i);
        if str_eq(target.value_at(i).as_str(), value) && !str_eq(owner.as_str(), id)
            && !is_moved_away(plan, value, owner.as_str()) {
            proof {
                assert(owns_value(p, to, value@, id@, owner@));
            }
            return true;
        }
        i += 1;
    }
    proof {
        assert forall|owner: Seq<char>| !owns_value(p, to, value@, id@, owner) by {
            if to.contains_key(owner) {
                assert(target@.dom().contains(owner));
                assert(keys.contains(owner));
            }
        }
    }
    false
}

proof fn lemma_value_refused(
    plan: PlanModel,
    target: Map<Seq<char>, Seq<char>>,
    mappings: Seq<StoredMappingModel>,
    values: Seq<Seq<char>>,
    n: int,
)
    requires
        0 <= n <= values.len(),
        first_value_error(plan, target, mappings, values.take(n)) is Some,
    ensures
        first_value_error(plan, target, mappings, values) == first_value_error(
            plan,
            target,
            mappings,
            values.take(n),
        ),
    decreases values.len() - n,
{
    if n == values.len() {
        assert(values.take(n) =~= values);
    } else {
        assert(values.take(n + 1).drop_last() =~= values.take(n));
        lemma_value_refused(plan, target, mappings, values, n + 1);
    }
}

/// A value that a record is renamed to has a record that is renamed to it.
proof fn lemma_renamed_some(mappings: Seq<StoredMappingModel>, value: Seq<char>)
    requires
        rename_values(mappings).contains(value),
        order::lists_in_order(
            order::in_order(renamed_to(mappings, value)),
            renamed_to(mappings, value),
        ),
    ensures
        order::in_order(renamed_to(mappings, value)).len() > 0,
{
    let i = choose|i: int|
        0 <= i < mappings.len() && (#[trigger] mappings[i]).action == "rename"@
            && mappings[i].new_canonical == value;
    assert(renamed_to(mappings, value).contains(mappings[i].record_id));
    assert(order::in_order(renamed_to(mappings, value)).contains(mappings[i].record_id));
}

fn check_targets(plan: &Plan, target: &StringMap<String>, mappings: &Vec<StoredMapping>) -> (r:
    Option<String>)
    ensures
        r.deep_view() == first_value_error(
            plan.deep_view(),
            target.deep_view(),
            mappings.deep_view(),
            order::in_order(rename_values(mappings.deep_view())),
        ),
{
    let ghost p = plan.deep_view();
    let ghost to = target.deep_view();
    let ghost model = mappings.deep_view();
    let targets = gather_targets(mappings);
    let n = targets.len();
    let ghost keys = targets.keys();
    proof {
        assert(keys.take(0) =~= Seq::<Seq<char>>::empty());
    }
    let mut i: usize = 0;
    while i < n
        invariant
            p == plan.deep_view(),
            to == target.deep_view(),
            model == mappings.deep_view(),
            n == keys.len(),
            keys == targets.keys(),
            keys == order::in_order(rename_values(model)),
            targets@.dom() == rename_values(model),
            forall|v: Seq<char>| #[trigger]
                targets@.contains_key(v) ==> targets@[v]@ == renamed_to(model, v),
            i <= n,
            first_value_error(p, to, model, keys.take(i as int)) is None,
        decreases n - i,
    {
        let value = targets.key_at(i);
        let ids = targets.value_at(i);
        let count = ids.len();
        proof {
            assert(keys.take(i + 1).drop_last() =~= keys.take(i as int));
            assert(keys.take(i + 1).last() == value@);
            assert(targets@.contains_key(value@));
            assert(targets@.dom().contains(value@));
            assert(ids@ == renamed_to(model, value@));
            lemma_renamed_some(model, value@);
        }
        if count > 1 {
            proof {
                lemma_value_refused(p, to, model, keys, i + 1);
            }
            return Some(named("rename targets collide at `", value.as_str()));
        }
        if is_value_taken(plan, target, value.as_str(), ids.at(0).as_str()) {
            let mut message = "rename target `".to_owned();
            message.push_str(value.as_str());
            message.push_str("` collides with an existing value");
            proof {
                lemma_value_refused(p, to, model, keys, i + 1);
            }
            return Some(message);
        }
        i += 1;
    }
    proof {
        assert(keys.take(n as int) =~= keys);
    }
    None
}

/// The mappings that the decisions of a plan ask for.
pub fn requested_mappings(
    plan: &Plan,
    source: &StringMap<String>,
    target: &StringMap<String>,
) -> (r: Result<Vec<StoredMapping>, String>)
    ensures
        match requested(plan.deep_view(), source.deep_view(), target.deep_view()) {
            Ok(model) => r is Ok && r->Ok_0.deep_view() == model,
            Err(message) => r is Err && r->Err_0@ == message,
        },
{
    match map_buckets(plan, source, target) {
        Err(message) => Err(message),
        Ok(mappings) => match check_targets(plan, target, &mappings) {
            Some(message) => Err(message),
            None => Ok(mappings),
        },
    }
}

/// The records that some mapping is about.
pub fn gather_handled(mappings: &Vec<StoredMapping>) -> (r: StringSet)
    ensures
        forall|id: Seq<char>| #[trigger]
            r@.contains(id) <==> handled(mappings.deep_view(), id),
{
    let ghost model = mappings.deep_view();
    let mut out = StringSet::new();
    for i in 0..mappings.len()
        invariant
            model == mappings.deep_view(),
            forall|id: Seq<char>| #[trigger]
                out@.contains(id) <==> handled(model.take(i as int), id),
    {
        let ghost before = model.take(i as int);
        let ghost after = model.take(i + 1);
        let ghost old_out = out@;
        out.insert(mappings[i].record_id.clone());
        proof {
            assert forall|id: Seq<char>| #[trigger] out@.contains(id) <==> handled(after, id) by {
                assert(old_out.contains(id) <==> handled(before, id));
                if handled(before, id) {
                    let k = choose|k: int|
                        0 <= k < before.len() && (#[trigger] before[k]).record_id == id;
                    assert(after[k].record_id == id);
                }
                if handled(after, id) {
                    let k = choose|k: int|
                        0 <= k < after.len() && (#[trigger] after[k]).record_id == id;
                    if k < before.len() {
                        assert(before[k].record_id == id);
                    }
                }
                assert(after[i as int].record_id == mappings@[i as int].record_id@);
            }
        }
    }
    proof {
        assert(model.take(model.len() as int) =~= model);
    }
    out
}

proof fn lemma_left_out(plan: PlanModel, buckets: Seq<Seq<char>>, id: Seq<char>)
    requires
        order::lists_in_order(buckets, plan.groups.dom()),
    ensures
        left_out(plan, id) <==> exists|k: int|
            0 <= k < buckets.len() && rejected_in(plan, #[trigger] buckets[k], id),
{
    if left_out(plan, id) {
        let bucket = choose|bucket: Seq<char>| rejected_in(plan, bucket, id);
        assert(plan.groups.dom().contains(bucket));
        assert(buckets.contains(bucket));
    }
}

fn add_ids(set: &mut StringSet, ids: &Vec<String>)
    ensures
        forall|id: Seq<char>| #[trigger]
            final(set)@.contains(id) <==> old(set)@.contains(id) || ids.deep_view().contains(id),
{
    let ghost start = set@;
    let ghost model = ids.deep_view();
    for i in 0..ids.len()
        invariant
            model == ids.deep_view(),
            forall|id: Seq<char>| #[trigger]
                set@.contains(id) <==> start.contains(id) || model.take(i as int).contains(id),
    {
        let ghost before = model.take(i as int);
        let ghost after = model.take(i + 1);
        let ghost was = set@;
        set.insert(ids[i].clone());
        proof {
            assert(after =~= before.push(model[i as int]));
            assert forall|id: Seq<char>| #[trigger] set@.contains(id) <==> start.contains(id)
                || after.contains(id) by {
                assert(was.contains(id) <==> start.contains(id) || before.contains(id));
                if before.contains(id) {
                    let k = choose|k: int| 0 <= k < before.len() && before[k] == id;
                    assert(after[k] == id);
                }
                if after.contains(id) {
                    let k = choose|k: int| 0 <= k < after.len() && after[k] == id;
                    if k < before.len() {
                        assert(before[k] == id);
                    }
                }
                assert(after[i as int] == model[i as int]);
            }
        }
    }
    proof {
        assert(model.take(model.len() as int) =~= model);
    }
}

/// The records that some mapping is about or that the decisions of a plan leave out.
pub fn gather_known(plan: &Plan, mappings: &Vec<StoredMapping>) -> (r: StringSet)
    ensures
        forall|id: Seq<char>| #[trigger]
            r@.contains(id) <==> known(plan.deep_view(), mappings.deep_view(), id),
{
    let ghost p = plan.deep_view();
    let ghost m = mappings.deep_view();
    let mut out = gather_handled(mappings);
    let n = plan.groups.len();
    let ghost keys = plan.groups.keys();
    proof {
        assert(p.groups.dom() =~= plan.groups@.dom());
    }
    let mut i: usize = 0;
    while i < n
        invariant
            p == plan.deep_view(),
            n == keys.len(),
            keys == plan.groups.keys(),
            i <= n,
            forall|id: Seq<char>| #[trigger]
                out@.contains(id) <==> handled(m, id) || exists|k: int|
                    0 <= k < i && rejected_in(p, #[trigger] keys[k], id),
        decreases n - i,
    {
        let bucket = plan.groups.key_at(i);
        let ids = plan.groups.value_at(i);
        let ghost was = out@;
        let rejected = match plan.decisions.get(bucket.as_str()) {
            Some(decision) => str_eq(decision.action.as_str(), "reject"),
            None => false,
        };
        if rejected {
            add_ids(&mut out, ids);
        }
        proof {
            assert(p.groups[bucket@] == ids.deep_view());
            assert forall|id: Seq<char>| #[trigger] out@.contains(id) <==> handled(m, id)
                || exists|k: int| 0 <= k < i + 1 && rejected_in(p, #[trigger] keys[k], id) by {
                assert(was.contains(id) <==> handled(m, id) || exists|k: int|
                    0 <= k < i && rejected_in(p, #[trigger] keys[k], id));
                assert(keys[i as int] == bucket@);
                assert(rejected_in(p, keys[i as int], id) <==> rejected
                    && ids.deep_view().contains(id));
            }
        }
        i += 1;
    }
    proof {
        assert forall|id: Seq<char>| #[trigger] out@.contains(id) <==> known(p, m, id) by {
            lemma_left_out(p, keys, id);
        }
    }
    out
}

/// The mappings of all records that are not left out, in ascending order of their ids.
pub fn complete_mappings(
    plan: &Plan,
    source: &StringMap<String>,
    target: &StringMap<String>,
) -> (r: Result<Vec<StoredMapping>, String>)
    ensures
        match completed(plan.deep_view(), source.deep_view(), target.deep_view()) {
            Ok(model) => r is Ok && r->Ok_0.deep_view() == model,
            Err(message) => r is Err && r->Err_0@ == message,
        },
{
    broadcast use {text::lemma_models_push, text::lemma_vec_model};

    let ghost p = plan.deep_view();
    let ghost from = source.deep_view();
    let ghost to = target.deep_view();
    let mut mappings = match requested_mappings(plan, source, target) {
        Ok(mappings) => mappings,
        Err(message) => {
            return Err(message);
        },
    };
    let ghost asked = mappings.deep_view();
    let done = gather_known(plan, &mappings);
    let n = target.len();
    let ghost keys = target.keys();
    proof {
        assert(to.dom() =~= target@.dom());
        assert(keys.take(0) =~= Seq::<Seq<char>>::empty());
        assert(asked + auto_mappings(p, asked, from, to, keys.take(0)) =~= asked);
    }
    let mut i: usize = 0;
    while i < n
        invariant
            from == source.deep_view(),
            to == target.deep_view(),
            n == keys.len(),
            keys == target.keys(),
            keys == order::in_order(to.dom()),
            forall|id: Seq<char>| #[trigger] done@.contains(id) <==> known(p, asked, id),
            i <= n,
            text::models(mappings@) == asked + auto_mappings(
                p,
                asked,
                from,
                to,
                keys.take(i as int),
            ),
        decreases n - i,
    {
        let id = target.key_at(i);
        let ghost before = auto_mappings(p, asked, from, to, keys.take(i as int));
        proof {
            assert(keys.take(i + 1).drop_last() =~= keys.take(i as int));
            assert(keys.take(i + 1).last() == id@);
            assert(done@.contains(id@) <==> known(p, asked, id@));
        }
        if !done.contains(id.as_str()) {
            let old = get_or(source, id.as_str(), "");
            proof {
                reveal_strlit("");
                assert(""@ =~= Seq::<char>::empty());
            }
            let added = make_mapping(id, old, target.value_at(i), "auto");
            let ghost upto = text::models(mappings@);
            mappings.push(added);
            proof {
                assert(text::models(mappings@) == upto.push(added.deep_view()));
                assert(text::models(mappings@) =~= asked + before.push(added.deep_view()));
            }
        }
        i += 1;
    }
    proof {
        assert(keys.take(n as int) =~= keys);
    }
    Ok(sort_by_key(mappings))
}

/// The links from old to new values that mappings make.
pub open spec fn alias_links(mappings: Seq<StoredMappingModel>) -> Graph {
    Set::new(
        |e: (Seq<char>, Seq<char>)|
            e.0 != e.1 && exists|i: int|
                0 <= i < mappings.len() && (#[trigger] mappings[i]).old_canonical == e.0
                    && mappings[i].new_canonical == e.1,
    )
}

/// The links from old to new values that all migrations make, and some mappings more.
pub open spec fn alias_graph(s: StateModel, mappings: Seq<StoredMappingModel>) -> Graph {
    Set::new(
        |e: (Seq<char>, Seq<char>)|
            alias_links(mappings).contains(e) || exists|id: Seq<char>| #[trigger]
                s.migrations.contains_key(id) && alias_links(s.migrations[id].mappings).contains(e),
    )
}

/// The cycle that some mappings would close, if they would close one: the first in the order of
/// strings.
pub open spec fn closed_cycle(s: StateModel, mappings: Seq<StoredMappingModel>) -> Option<
    Seq<Seq<char>>,
> {
    let g = alias_graph(s, mappings);
    if exists|p: Seq<Seq<char>>| cycles::cycle(g, p) {
        Some(choose|p: Seq<Seq<char>>| cycles::first_cycle(g, p))
    } else {
        None
    }
}

fn add_links(edges: &mut StringMap<StringSet>, mappings: &Vec<StoredMapping>)
    ensures
        cycles::graph_of(final(edges)@) == cycles::graph_of(old(edges)@).union(
            alias_links(mappings.deep_view()),
        ),
{
    let ghost model = mappings.deep_view();
    let ghost start = cycles::graph_of(edges@);
    proof {
        assert(start.union(alias_links(model.take(0))) =~= start);
    }
    for i in 0..mappings.len()
        invariant
            model == mappings.deep_view(),
            cycles::graph_of(edges@) == start.union(alias_links(model.take(i as int))),
    {
        let m = &mappings[i];
        let ghost before = model.take(i as int);
        let ghost after = model.take(i + 1);
        let ghost old_edges = edges@;
        let ghost link = (m.old_canonical@, m.new_canonical@);
        proof {
            assert forall|e: (Seq<char>, Seq<char>)| #[trigger]
                alias_links(after).contains(e) <==> alias_links(before).contains(e) || (e == link
                    && link.0 != link.1) by {
                if alias_links(before).contains(e) {
                    let k = choose|k: int|
                        0 <= k < before.len() && (#[trigger] before[k]).old_canonical == e.0
                            && before[k].new_canonical == e.1;
                    assert(after[k] == before[k]);
                }
                if alias_links(after).contains(e) {
                    let k = choose|k: int|
                        0 <= k < after.len() && (#[trigger] after[k]).old_canonical == e.0
                            && after[k].new_canonical == e.1;
                    if k < before.len() {
                        assert(before[k] == after[k]);
                    }
                }
                assert(after[i as int] == m.deep_view());
            }
        }
        if !str_eq(m.old_canonical.as_str(), m.new_canonical.as_str()) {
            let mut next = match edges.remove(m.old_canonical.as_str()) {
                Some(next) => next,
                None => StringSet::new(),
            };
            let ghost old_next = next@;
            next.insert(m.new_canonical.clone());
            edges.insert(m.old_canonical.clone(), next);
            proof {
                assert forall|e: (Seq<char>, Seq<char>)| #[trigger]
                    cycles::graph_of(edges@).contains(e) <==> cycles::graph_of(old_edges).contains(
                        e,
                    ) || e == link by {
                    if e.0 == link.0 {
                        assert(edges@[e.0]@ == old_next.insert(link.1));
                    } else {
                        assert(edges@.contains_key(e.0) <==> old_edges.contains_key(e.0));
                    }
                }
            }
        }
        proof {
            assert(cycles::graph_of(edges@) =~= start.union(alias_links(after)));
        }
    }
    proof {
        assert(model.take(model.len() as int) =~= model);
    }
}

/// The cycle that some mappings would close together with all migrations, if they would close one.
pub fn alias_cycle(state: &State, mappings: &Vec<StoredMapping>) -> (r: Option<Vec<String>>)
    ensures
        r.deep_view() == closed_cycle(state.deep_view(), mappings.deep_view()),
        r is Some <==> exists|p: Seq<Seq<char>>| #[trigger]
            cycles::cycle(alias_graph(state.deep_view(), mappings.deep_view()), p),
{
    let ghost s = state.deep_view();
    let ghost model = mappings.deep_view();
    let mut edges: StringMap<StringSet> = StringMap::new();
    let n = state.migrations.len();
    let ghost keys = state.migrations.keys();
    let mut i: usize = 0;
    while i < n
        invariant
            s == state.deep_view(),
            n == keys.len(),
            keys == state.migrations.keys(),
            order::lists_in_order(keys, state.migrations@.dom()),
            i <= n,
            forall|e: (Seq<char>, Seq<char>)| #[trigger]
                cycles::graph_of(edges@).contains(e) <==> exists|k: int|
                    0 <= k < i && alias_links(s.migrations[#[trigger] keys[k]].mappings).contains(
                        e,
                    ),
        decreases n - i,
    {
        let migration = state.migrations.value_at(i);
        let ghost before = cycles::graph_of(edges@);
        add_links(&mut edges, &migration.mappings);
        proof {
            let links = alias_links(migration.mappings.deep_view());
            assert(s.migrations[keys[i as int]] == migration.deep_view());
            assert forall|e: (Seq<char>, Seq<char>)| #[trigger]
                cycles::graph_of(edges@).contains(e) <==> exists|k: int|
                    0 <= k < i + 1 && alias_links(
                        s.migrations[#[trigger] keys[k]].mappings,
                    ).contains(e) by {
                if before.contains(e) {
                    let k = choose|k: int|
                        0 <= k < i && alias_links(
                            s.migrations[#[trigger] keys[k]].mappings,
                        ).contains(e);
                    assert(alias_links(s.migrations[keys[k]].mappings).contains(e));
                }
                if links.contains(e) {
                    assert(alias_links(s.migrations[keys[i as int]].mappings).contains(e));
                }
                if exists|k: int|
                    0 <= k < i + 1 && alias_links(
                        s.migrations[#[trigger] keys[k]].mappings,
                    ).contains(e) {
                    let k = choose|k: int|
                        0 <= k < i + 1 && alias_links(
                            s.migrations[#[trigger] keys[k]].mappings,
                        ).contains(e);
                    if k < i {
                        assert(alias_links(s.migrations[keys[k]].mappings).contains(e));
                    }
                }
            }
        }
        i += 1;
    }
    let ghost stored = cycles::graph_of(edges@);
    add_links(&mut edges, mappings);
    let ghost g = alias_graph(s, model);
    proof {
        assert forall|e: (Seq<char>, Seq<char>)| #[trigger]
            cycles::graph_of(edges@).contains(e) <==> g.contains(e) by {
            if stored.contains(e) {
                let k = choose|k: int|
                    0 <= k < n && alias_links(s.migrations[#[trigger] keys[k]].mappings).contains(e);
                assert(keys.contains(keys[k]));
                assert(state.migrations@.dom().contains(keys[k]));
                assert(s.migrations.contains_key(keys[k]));
            }
            if exists|id: Seq<char>| #[trigger]
                s.migrations.contains_key(id) && alias_links(s.migrations[id].mappings).contains(e) {
                let id = choose|id: Seq<char>| #[trigger]
                    s.migrations.contains_key(id) && alias_links(
                        s.migrations[id].mappings,
                    ).contains(e);
                assert(state.migrations@.dom().contains(id));
                assert(keys.contains(id));
                let k = choose|k: int| 0 <= k < keys.len() && keys[k] == id;
                assert(alias_links(s.migrations[keys[k]].mappings).contains(e));
            }
        }
        assert(cycles::graph_of(edges@) =~= g);
        cycles::cycles_are_walks_into_themselves(g);
    }
    match find_cycle(&edges) {
        Some(path) => {
            proof {
                cycles::first_cycle_is_unique(
                    g,
                    path.deep_view(),
                    closed_cycle(s, model)->0,
                );
            }
            Some(path)
        },
        None => {
            proof {
                assert forall|p: Seq<Seq<char>>| !cycles::first_cycle(g, p) by {
                    assert(!cycles::runs_into_itself(g, p));
                }
            }
            None
        },
    }
}

/// What a plan comes to: the analyses of its data set under the old and the new rules, and the
/// mappings of all records; or why that cannot be said.
pub open spec fn plan_outcome(s: StateModel, plan: PlanModel) -> Result<
    PlanDetailsModel,
    ServiceErrorModel,
> {
    if !s.datasets.contains_key(plan.dataset_id) {
        Err(requests::not_found("dataset not found"@))
    } else {
        let dataset = dataset_at(s.datasets[plan.dataset_id], plan.dataset_version);
        match import::dataset_analysis(dataset, plan.from_rules) {
            Err(message) => Err(requests::bad_request(message)),
            Ok(source_analysis) => match import::dataset_analysis(dataset, plan.rules) {
                Err(message) => Err(requests::bad_request(message)),
                Ok(target_analysis) => match completed(
                    plan,
                    canonical_by_id(source_analysis.records),
                    canonical_by_id(target_analysis.records),
                ) {
                    Err(message) => Err(requests::bad_request(message)),
                    Ok(mappings) => Ok(
                        PlanDetailsModel { source_analysis, target_analysis, mappings },
                    ),
                },
            },
        }
    }
}

/// What a plan comes to.
pub fn plan_data(state: &State, plan: &Plan) -> (r: Result<PlanDetails, ServiceError>)
    ensures
        match plan_outcome(state.deep_view(), plan.deep_view()) {
            Ok(details) => r is Ok && r->Ok_0.deep_view() == details,
            Err(error) => r is Err && r->Err_0.deep_view() == error,
        },
{
    let dataset = match state.datasets.get(plan.dataset_id.as_str()) {
        Some(dataset) => dataset,
        None => {
            return Err(ServiceError::not_found("dataset not found"));
        },
    };
    let snapshot = Dataset {
        id: dataset.id.clone(),
        name: dataset.name.clone(),
        version: dataset.version,
        records: records_at(&dataset.records, plan.dataset_version),
    };
    proof {
        assert(snapshot.deep_view() =~= dataset_at(dataset.deep_view(), plan.dataset_version));
    }
    let source_analysis = match analysis_for(&snapshot, &plan.from_rules) {
        Ok(analysis) => analysis,
        Err(error) => {
            return Err(error);
        },
    };
    let target_analysis = match analysis_for(&snapshot, &plan.rules) {
        Ok(analysis) => analysis,
        Err(error) => {
            return Err(error);
        },
    };
    let source = canonical_by_record(&source_analysis.records);
    let target = canonical_by_record(&target_analysis.records);
    match complete_mappings(plan, &source, &target) {
        Ok(mappings) => Ok(PlanDetails { source_analysis, target_analysis, mappings }),
        Err(message) => Err(ServiceError::bad_request(message)),
    }
}

/// A record is mapped without a decision exactly if nothing else is known of it.
pub proof fn lemma_auto_mapped(
    plan: PlanModel,
    mappings: Seq<StoredMappingModel>,
    source: Map<Seq<char>, Seq<char>>,
    target: Map<Seq<char>, Seq<char>>,
    ids: Seq<Seq<char>>,
    id: Seq<char>,
)
    requires
        ids.contains(id),
    ensures
        known(plan, mappings, id) <==> !handled(
            auto_mappings(plan, mappings, source, target, ids),
            id,
        ),
    decreases ids.len(),
{
    let all = auto_mappings(plan, mappings, source, target, ids);
    let front = ids.drop_last();
    let before = auto_mappings(plan, mappings, source, target, front);
    lemma_auto_unknown(plan, mappings, source, target, ids, id);
    let k = choose|k: int| 0 <= k < ids.len() && ids[k] == id;
    if !known(plan, mappings, id) {
        if k < front.len() {
            assert(front[k] == id);
            lemma_auto_mapped(plan, mappings, source, target, front, id);
            let j = choose|j: int| 0 <= j < before.len() && (#[trigger] before[j]).record_id == id;
            assert(all[j] == before[j]);
        } else {
            assert(all[all.len() - 1].record_id == id);
        }
    }
}

proof fn lemma_auto_unknown(
    plan: PlanModel,
    mappings: Seq<StoredMappingModel>,
    source: Map<Seq<char>, Seq<char>>,
    target: Map<Seq<char>, Seq<char>>,
    ids: Seq<Seq<char>>,
    id: Seq<char>,
)
    ensures
        handled(auto_mappings(plan, mappings, source, target, ids), id) ==> !known(
            plan,
            mappings,
            id,
        ),
    decreases ids.len(),
{
    let all = auto_mappings(plan, mappings, source, target, ids);
    if ids.len() > 0 && handled(all, id) {
        let before = auto_mappings(plan, mappings, source, target, ids.drop_last());
        lemma_auto_unknown(plan, mappings, source, target, ids.drop_last(), id);
        let j = choose|j: int| 0 <= j < all.len() && (#[trigger] all[j]).record_id == id;
        if j < before.len() {
            assert(before[j] == all[j]);
        }
    }
}

/// The mappings of all records are about the records that the decisions or their lack map.
proof fn lemma_completed_handles(
    plan: PlanModel,
    source: Map<Seq<char>, Seq<char>>,
    target: Map<Seq<char>, Seq<char>>,
    id: Seq<char>,
)
    requires
        completed(plan, source, target) is Ok,
    ensures
        ({
            let asked = requested(plan, source, target)->Ok_0;
            let ids = order::in_order(target.dom());
            handled(completed(plan, source, target)->Ok_0, id) <==> handled(asked, id) || handled(
                auto_mappings(plan, asked, source, target, ids),
                id,
            )
        }),
        sorting::keys_ascend::<StoredMapping>(completed(plan, source, target)->Ok_0),
{
    broadcast use vstd::seq_lib::group_to_multiset_ensures;

    let asked = requested(plan, source, target)->Ok_0;
    let auto = auto_mappings(plan, asked, source, target, order::in_order(target.dom()));
    let all = asked + auto;
    let sorted = sorting::sorted::<StoredMapping>(all);
    sorting::sorting_sorts::<StoredMapping>(all);
    if handled(asked, id) || handled(auto, id) {
        let m = if handled(asked, id) {
            let k = choose|k: int| 0 <= k < asked.len() && (#[trigger] asked[k]).record_id == id;
            assert(all[k] == asked[k]);
            all[k]
        } else {
            let k = choose|k: int| 0 <= k < auto.len() && (#[trigger] auto[k]).record_id == id;
            assert(all[asked.len() + k] == auto[k]);
            all[asked.len() + k]
        };
        assert(all.contains(m));
        assert(all.to_multiset().count(m) > 0);
        assert(sorted.contains(m));
        let k = choose|k: int| 0 <= k < sorted.len() && sorted[k] == m;
        assert(sorted[k].record_id == id);
    }
    if handled(sorted, id) {
        let k = choose|k: int| 0 <= k < sorted.len() && (#[trigger] sorted[k]).record_id == id;
        let m = sorted[k];
        assert(sorted.contains(m));
        assert(sorted.to_multiset().count(m) > 0);
        assert(all.contains(m));
        let j = choose|j: int| 0 <= j < all.len() && all[j] == m;
        if j < asked.len() {
            assert(asked[j].record_id == id);
        } else {
            assert(auto[j - asked.len()].record_id == id);
        }
    }
}

/// Every record that is eligible under the new rules, and that no decision leaves out, is mapped;
/// the mappings stand in ascending order of the record ids.
pub proof fn every_eligible_record_is_mapped(
    plan: PlanModel,
    source: Map<Seq<char>, Seq<char>>,
    target: Map<Seq<char>, Seq<char>>,
    id: Seq<char>,
)
    requires
        completed(plan, source, target) is Ok,
        target.contains_key(id),
        target.dom().finite(),
        !left_out(plan, id),
    ensures
        handled(completed(plan, source, target)->Ok_0, id),
        sorting::keys_ascend::<StoredMapping>(completed(plan, source, target)->Ok_0),
{
    let asked = requested(plan, source, target)->Ok_0;
    order::lemma_finite_listed(target.dom());
    assert(target.dom().contains(id));
    lemma_auto_mapped(plan, asked, source, target, order::in_order(target.dom()), id);
    lemma_completed_handles(plan, source, target, id);
}

proof fn lemma_renamed_ids(
    rules: RuleConfigModel,
    decision: GroupDecisionModel,
    source: Map<Seq<char>, Seq<char>>,
    canonical: Seq<char>,
    ids: Seq<Seq<char>>,
    id: Seq<char>,
)
    requires
        rename_mappings(rules, decision, source, canonical, ids) is Ok,
        handled(rename_mappings(rules, decision, source, canonical, ids)->Ok_0, id),
    ensures
        ids.contains(id),
    decreases ids.len(),
{
    let all = rename_mappings(rules, decision, source, canonical, ids)->Ok_0;
    let j = choose|j: int| 0 <= j < all.len() && (#[trigger] all[j]).record_id == id;
    let front = ids.drop_last();
    let before = rename_mappings(rules, decision, source, canonical, front)->Ok_0;
    if j < before.len() {
        assert(before[j] == all[j]);
        lemma_renamed_ids(rules, decision, source, canonical, front, id);
        let k = choose|k: int| 0 <= k < front.len() && front[k] == id;
        assert(ids[k] == id);
    } else {
        assert(all[j].record_id == ids.last());
        assert(ids[ids.len() - 1] == id);
    }
}

/// What the decisions map is in a bucket that was not rejected.
proof fn lemma_asked_not_rejected(
    plan: PlanModel,
    source: Map<Seq<char>, Seq<char>>,
    target: Map<Seq<char>, Seq<char>>,
    buckets: Seq<Seq<char>>,
    id: Seq<char>,
)
    requires
        all_bucket_mappings(plan, source, target, buckets) is Ok,
        handled(all_bucket_mappings(plan, source, target, buckets)->Ok_0, id),
    ensures
        exists|k: int|
            0 <= k < buckets.len() && plan.groups[#[trigger] buckets[k]].contains(id)
                && !rejected_in(plan, buckets[k], id),
    decreases buckets.len(),
{
    let all = all_bucket_mappings(plan, source, target, buckets)->Ok_0;
    let j = choose|j: int| 0 <= j < all.len() && (#[trigger] all[j]).record_id == id;
    let front = buckets.drop_last();
    let before = all_bucket_mappings(plan, source, target, front)->Ok_0;
    if j < before.len() {
        assert(before[j] == all[j]);
        lemma_asked_not_rejected(plan, source, target, front, id);
        let k = choose|k: int|
            0 <= k < front.len() && plan.groups[#[trigger] front[k]].contains(id) && !rejected_in(
                plan,
                front[k],
                id,
            );
        assert(buckets[k] == front[k]);
    } else {
        let bucket = buckets.last();
        let ids = plan.groups[bucket];
        let more = bucket_mappings(plan, source, target, bucket)->Ok_0;
        let decision = plan.decisions[bucket];
        assert(more[j - before.len()].record_id == id);
        assert(decision.action != "reject"@);
        if decision.action == "keep-alias"@ {
            assert(ids[j - before.len()] == id);
        } else {
            assert(handled(more, id));
            lemma_renamed_ids(plan.rules, decision, source, bucket, ids, id);
        }
        assert(buckets[buckets.len() - 1] == bucket);
    }
}

/// No record is in two buckets of a plan.
pub open spec fn disjoint_groups(plan: PlanModel) -> bool {
    forall|a: Seq<char>, b: Seq<char>, id: Seq<char>| #[trigger]
        in_bucket(plan, a, id) && #[trigger] in_bucket(plan, b, id) ==> a == b
}

/// No record of a bucket whose migration is rejected is mapped: it does not become part of what is
/// approved or carried out.
pub proof fn rejected_records_are_not_mapped(
    plan: PlanModel,
    source: Map<Seq<char>, Seq<char>>,
    target: Map<Seq<char>, Seq<char>>,
    bucket: Seq<char>,
    id: Seq<char>,
)
    requires
        completed(plan, source, target) is Ok,
        rejected_in(plan, bucket, id),
        disjoint_groups(plan),
        plan.groups.dom().finite(),
    ensures
        !handled(completed(plan, source, target)->Ok_0, id),
{
    let asked = requested(plan, source, target)->Ok_0;
    let buckets = order::in_order(plan.groups.dom());
    let ids = order::in_order(target.dom());
    order::lemma_finite_listed(plan.groups.dom());
    lemma_completed_handles(plan, source, target, id);
    lemma_auto_unknown(plan, asked, source, target, ids, id);
    if handled(asked, id) {
        lemma_asked_not_rejected(plan, source, target, buckets, id);
        let k = choose|k: int|
            0 <= k < buckets.len() && plan.groups[#[trigger] buckets[k]].contains(id)
                && !rejected_in(plan, buckets[k], id);
        assert(buckets.contains(buckets[k]));
        assert(plan.groups.dom().contains(buckets[k]));
        assert(in_bucket(plan, buckets[k], id));
    }
}

proof fn lemma_no_value_error(
    plan: PlanModel,
    target: Map<Seq<char>, Seq<char>>,
    mappings: Seq<StoredMappingModel>,
    values: Seq<Seq<char>>,
    k: int,
)
    requires
        first_value_error(plan, target, mappings, values) is None,
        0 <= k < values.len(),
    ensures
        value_error(plan, target, mappings, values[k]) is None,
    decreases values.len(),
{
    if k < values.len() - 1 {
        lemma_no_value_error(plan, target, mappings, values.drop_last(), k);
        assert(values.drop_last()[k] == values[k]);
    }
}

/// No two records are renamed to the same value.
pub proof fn renamed_records_never_share_a_value(
    plan: PlanModel,
    source: Map<Seq<char>, Seq<char>>,
    target: Map<Seq<char>, Seq<char>>,
    i: int,
    j: int,
)
    requires
        requested(plan, source, target) is Ok,
        ({
            let m = requested(plan, source, target)->Ok_0;
            &&& 0 <= i < m.len()
            &&& 0 <= j < m.len()
            &&& m[i].action == "rename"@
            &&& m[j].action == "rename"@
            &&& m[i].new_canonical == m[j].new_canonical
        }),
    ensures
        ({
            let m = requested(plan, source, target)->Ok_0;
            m[i].record_id == m[j].record_id
        }),
{
    let m = requested(plan, source, target)->Ok_0;
    let value = m[i].new_canonical;
    lemma_rename_sets_listed(m, value);
    let values = order::in_order(rename_values(m));
    assert(rename_values(m).contains(value));
    assert(values.contains(value));
    let k = choose|k: int| 0 <= k < values.len() && values[k] == value;
    lemma_no_value_error(plan, target, m, values, k);
    let ids = order::in_order(renamed_to(m, value));
    assert(renamed_to(m, value).contains(m[i].record_id));
    assert(renamed_to(m, value).contains(m[j].record_id));
    assert(ids.contains(m[i].record_id) && ids.contains(m[j].record_id));
}

/// No record is renamed to the value of another record, unless that record is moved away from it.
pub proof fn renames_never_take_a_value(
    plan: PlanModel,
    source: Map<Seq<char>, Seq<char>>,
    target: Map<Seq<char>, Seq<char>>,
    i: int,
    owner: Seq<char>,
)
    requires
        requested(plan, source, target) is Ok,
        ({
            let m = requested(plan, source, target)->Ok_0;
            &&& 0 <= i < m.len()
            &&& m[i].action == "rename"@
            &&& target.contains_key(owner)
            &&& target[owner] == m[i].new_canonical
        }),
    ensures
        ({
            let m = requested(plan, source, target)->Ok_0;
            owner == m[i].record_id || moved_away(plan, m[i].new_canonical, owner)
        }),
{
    let m = requested(plan, source, target)->Ok_0;
    let value = m[i].new_canonical;
    lemma_rename_sets_listed(m, value);
    let values = order::in_order(rename_values(m));
    assert(rename_values(m).contains(value));
    assert(values.contains(value));
    let k = choose|k: int| 0 <= k < values.len() && values[k] == value;
    lemma_no_value_error(plan, target, m, values, k);
    let ids = order::in_order(renamed_to(m, value));
    assert(renamed_to(m, value).contains(m[i].record_id));
    assert(ids.contains(m[i].record_id));
    assert(ids[0] == m[i].record_id);
    assert(!owns_value(plan, target, value, m[i].record_id, owner));
}

/// The buckets of a plan are the conflicts among some values: a bucket holds records of its value,
/// and records that share a value are in its bucket.
pub open spec fn groups_fit(plan: PlanModel, target: Map<Seq<char>, Seq<char>>) -> bool {
    &&& forall|b: Seq<char>, id: Seq<char>| #[trigger]
        in_bucket(plan, b, id) ==> target.contains_key(id) && target[id] == b
    &&& forall|x: Seq<char>, y: Seq<char>| #[trigger]
        target.contains_key(x) && #[trigger] target.contains_key(y) && x != y && target[x]
            == target[y] ==> in_bucket(plan, target[x], x)
}

/// The decision on a bucket keeps its value for all of its records, of which this is one.
pub open spec fn aliased(plan: PlanModel, bucket: Seq<char>, id: Seq<char>) -> bool {
    &&& in_bucket(plan, bucket, id)
    &&& plan.decisions.contains_key(bucket)
    &&& plan.decisions[bucket].action == "keep-alias"@
}

proof fn lemma_renamed_to_grows(
    some: Seq<StoredMappingModel>,
    all: Seq<StoredMappingModel>,
    value: Seq<char>,
    id: Seq<char>,
    from: int,
)
    requires
        renamed_to(some, value).contains(id),
        0 <= from <= all.len() - some.len(),
        some == all.subrange(from, from + some.len()),
    ensures
        renamed_to(all, value).contains(id),
{
    let k = choose|k: int|
        0 <= k < some.len() && (#[trigger] some[k]).action == "rename"@ && some[k].new_canonical
            == value && some[k].record_id == id;
    assert(all[from + k] == some[k]);
}

/// Every mapping of a record that is renamed goes to the value that it is renamed to, and every
/// record is renamed.
proof fn lemma_rename_origin(
    rules: RuleConfigModel,
    decision: GroupDecisionModel,
    source: Map<Seq<char>, Seq<char>>,
    canonical: Seq<char>,
    ids: Seq<Seq<char>>,
)
    requires
        rename_mappings(rules, decision, source, canonical, ids) is Ok,
    ensures
        ({
            let all = rename_mappings(rules, decision, source, canonical, ids)->Ok_0;
            &&& forall|j: int|
                0 <= j < all.len() ==> renamed_to(all, (#[trigger] all[j]).new_canonical).contains(
                    all[j].record_id,
                )
            &&& forall|i: int| 0 <= i < ids.len() ==> handled(all, #[trigger] ids[i])
        }),
    decreases ids.len(),
{
    if ids.len() > 0 {
        let front = ids.drop_last();
        let id = ids.last();
        let all = rename_mappings(rules, decision, source, canonical, ids)->Ok_0;
        let before = rename_mappings(rules, decision, source, canonical, front)->Ok_0;
        lemma_rename_origin(rules, decision, source, canonical, front);
        let value = renamed_value(rules, decision, id)->Ok_0;
        let n = before.len() as int;
        assert(all[n] == mapping(id, value_or(source, id, canonical), value, "rename"@));
        assert(renamed_to(all, value).contains(id));
        assert(all.subrange(0, n) =~= before);
        assert forall|j: int| 0 <= j < all.len() implies renamed_to(
            all,
            (#[trigger] all[j]).new_canonical,
        ).contains(all[j].record_id) by {
            if j < n {
                assert(before[j] == all[j]);
                lemma_renamed_to_grows(before, all, all[j].new_canonical, all[j].record_id, 0);
            }
        }
        assert forall|i: int| 0 <= i < ids.len() implies handled(all, #[trigger] ids[i]) by {
            if i < front.len() {
                assert(front[i] == ids[i]);
                let k = choose|k: int|
                    0 <= k < before.len() && (#[trigger] before[k]).record_id == ids[i];
                assert(all[k].record_id == ids[i]);
            } else {
                assert(all[n].record_id == ids[i]);
            }
        }
    }
}

/// What a mapping that a decision asks for goes back to: the value of a bucket is kept, or the
/// record is renamed.
pub open spec fn asked_for(
    plan: PlanModel,
    all: Seq<StoredMappingModel>,
    value: Seq<char>,
    id: Seq<char>,
) -> bool {
    aliased(plan, value, id) || renamed_to(all, value).contains(id)
}

proof fn lemma_bucket_origin(
    plan: PlanModel,
    source: Map<Seq<char>, Seq<char>>,
    target: Map<Seq<char>, Seq<char>>,
    bucket: Seq<char>,
)
    requires
        bucket_mappings(plan, source, target, bucket) is Ok,
        groups_fit(plan, target),
        plan.groups.contains_key(bucket),
    ensures
        ({
            let all = bucket_mappings(plan, source, target, bucket)->Ok_0;
            &&& forall|j: int|
                0 <= j < all.len() ==> asked_for(
                    plan,
                    all,
                    (#[trigger] all[j]).new_canonical,
                    all[j].record_id,
                )
            &&& forall|id: Seq<char>| #[trigger]
                in_bucket(plan, bucket, id) ==> known(plan, all, id)
        }),
{
    let all = bucket_mappings(plan, source, target, bucket)->Ok_0;
    let ids = plan.groups[bucket];
    let decision = plan.decisions[bucket];
    if decision.action == "reject"@ {
        assert forall|id: Seq<char>| #[trigger] in_bucket(plan, bucket, id) implies known(
            plan,
            all,
            id,
        ) by {
            assert(rejected_in(plan, bucket, id));
        }
    } else if decision.action == "keep-alias"@ {
        let primary = decision.primary_record_id->0;
        assert(in_bucket(plan, bucket, primary));
        assert forall|j: int| 0 <= j < all.len() implies asked_for(
            plan,
            all,
            (#[trigger] all[j]).new_canonical,
            all[j].record_id,
        ) by {
            assert(ids.contains(ids[j]));
            assert(aliased(plan, bucket, ids[j]));
        }
        assert forall|id: Seq<char>| #[trigger] in_bucket(plan, bucket, id) implies known(
            plan,
            all,
            id,
        ) by {
            let i = choose|i: int| 0 <= i < ids.len() && ids[i] == id;
            assert(all[i].record_id == id);
        }
    } else {
        lemma_rename_origin(plan.rules, decision, source, bucket, ids);
        assert forall|id: Seq<char>| #[trigger] in_bucket(plan, bucket, id) implies known(
            plan,
            all,
            id,
        ) by {
            let i = choose|i: int| 0 <= i < ids.len() && ids[i] == id;
            assert(handled(all, ids[i]));
        }
    }
}

proof fn lemma_known_grows(
    plan: PlanModel,
    some: Seq<StoredMappingModel>,
    all: Seq<StoredMappingModel>,
    id: Seq<char>,
    from: int,
)
    requires
        known(plan, some, id),
        0 <= from <= all.len() - some.len(),
        some == all.subrange(from, from + some.len()),
    ensures
        known(plan, all, id),
{
    if handled(some, id) {
        let k = choose|k: int| 0 <= k < some.len() && (#[trigger] some[k]).record_id == id;
        assert(all[from + k].record_id == id);
    }
}

proof fn lemma_asked_for_grows(
    plan: PlanModel,
    some: Seq<StoredMappingModel>,
    all: Seq<StoredMappingModel>,
    value: Seq<char>,
    id: Seq<char>,
    from: int,
)
    requires
        asked_for(plan, some, value, id),
        0 <= from <= all.len() - some.len(),
        some == all.subrange(from, from + some.len()),
    ensures
        asked_for(plan, all, value, id),
{
    if renamed_to(some, value).contains(id) {
        lemma_renamed_to_grows(some, all, value, id, from);
    }
}

/// What the decisions map is kept at the value of its bucket or renamed, and every record of a bucket is
/// known.
pub proof fn lemma_asked_origin(
    plan: PlanModel,
    source: Map<Seq<char>, Seq<char>>,
    target: Map<Seq<char>, Seq<char>>,
    buckets: Seq<Seq<char>>,
)
    requires
        all_bucket_mappings(plan, source, target, buckets) is Ok,
        groups_fit(plan, target),
        forall|k: int| 0 <= k < buckets.len() ==> plan.groups.contains_key(#[trigger] buckets[k]),
    ensures
        ({
            let all = all_bucket_mappings(plan, source, target, buckets)->Ok_0;
            &&& forall|j: int|
                0 <= j < all.len() ==> asked_for(
                    plan,
                    all,
                    (#[trigger] all[j]).new_canonical,
                    all[j].record_id,
                )
            &&& forall|k: int, id: Seq<char>|
                0 <= k < buckets.len() && #[trigger] in_bucket(plan, buckets[k], id) ==> known(
                    plan,
                    all,
                    id,
                )
        }),
    decreases buckets.len(),
{
    if buckets.len() > 0 {
        let front = buckets.drop_last();
        let bucket = buckets[buckets.len() - 1];
        assert forall|k: int| 0 <= k < front.len() implies plan.groups.contains_key(
            #[trigger] front[k],
        ) by {
            assert(front[k] == buckets[k]);
        }
        lemma_asked_origin(plan, source, target, front);
        lemma_bucket_origin(plan, source, target, bucket);
        let all = all_bucket_mappings(plan, source, target, buckets)->Ok_0;
        let before = all_bucket_mappings(plan, source, target, front)->Ok_0;
        let more = bucket_mappings(plan, source, target, bucket)->Ok_0;
        let n = before.len() as int;
        assert(all == before + more);
        assert(all.subrange(0, n) =~= before);
        assert(all.subrange(n, n + more.len()) =~= more);
        assert forall|j: int| 0 <= j < all.len() implies asked_for(
            plan,
            all,
            (#[trigger] all[j]).new_canonical,
            all[j].record_id,
        ) by {
            let (value, id) = (all[j].new_canonical, all[j].record_id);
            if j < n {
                assert(before[j] == all[j]);
                lemma_asked_for_grows(plan, before, all, value, id, 0);
            } else {
                assert(more[j - n] == all[j]);
                lemma_asked_for_grows(plan, more, all, value, id, n);
            }
        }
        assert forall|k: int, id: Seq<char>|
            0 <= k < buckets.len() && #[trigger] in_bucket(plan, buckets[k], id) implies known(
            plan,
            all,
            id,
        ) by {
            if k < front.len() {
                assert(in_bucket(plan, front[k], id));
                lemma_known_grows(plan, before, all, id, 0);
            } else {
                lemma_known_grows(plan, more, all, id, n);
            }
        }
    }
}

/// What is mapped without a decision is not known otherwise, and goes to its value.
pub proof fn lemma_auto_origin(
    plan: PlanModel,
    mappings: Seq<StoredMappingModel>,
    source: Map<Seq<char>, Seq<char>>,
    target: Map<Seq<char>, Seq<char>>,
    ids: Seq<Seq<char>>,
    j: int,
)
    requires
        0 <= j < auto_mappings(plan, mappings, source, target, ids).len(),
    ensures
        ({
            let m = auto_mappings(plan, mappings, source, target, ids)[j];
            &&& ids.contains(m.record_id)
            &&& !known(plan, mappings, m.record_id)
            &&& m.new_canonical == target[m.record_id]
        }),
    decreases ids.len(),
{
    if ids.len() > 0 {
        let front = ids.drop_last();
        let before = auto_mappings(plan, mappings, source, target, front);
        let all = auto_mappings(plan, mappings, source, target, ids);
        if j < before.len() {
            lemma_auto_origin(plan, mappings, source, target, front, j);
            let k = choose|k: int| 0 <= k < front.len() && front[k] == all[j].record_id;
            assert(ids[k] == all[j].record_id);
        } else {
            assert(ids[ids.len() - 1] == all[j].record_id);
        }
    }
}

/// What a mapping of all records goes back to: a decision, or its lack.
spec fn accounted_for(
    plan: PlanModel,
    asked: Seq<StoredMappingModel>,
    target: Map<Seq<char>, Seq<char>>,
    m: StoredMappingModel,
) -> bool {
    asked_for(plan, asked, m.new_canonical, m.record_id) || (target.contains_key(m.record_id)
        && target[m.record_id] == m.new_canonical && !known(plan, asked, m.record_id))
}

proof fn lemma_accounted_for(
    plan: PlanModel,
    source: Map<Seq<char>, Seq<char>>,
    target: Map<Seq<char>, Seq<char>>,
    i: int,
)
    requires
        completed(plan, source, target) is Ok,
        groups_fit(plan, target),
        plan.groups.dom().finite(),
        target.dom().finite(),
        0 <= i < completed(plan, source, target)->Ok_0.len(),
    ensures
        accounted_for(
            plan,
            requested(plan, source, target)->Ok_0,
            target,
            completed(plan, source, target)->Ok_0[i],
        ),
{
    broadcast use vstd::seq_lib::group_to_multiset_ensures;

    let asked = requested(plan, source, target)->Ok_0;
    let ids = order::in_order(target.dom());
    let buckets = order::in_order(plan.groups.dom());
    let auto = auto_mappings(plan, asked, source, target, ids);
    let all = asked + auto;
    let sorted = sorting::sorted::<StoredMapping>(all);
    sorting::sorting_sorts::<StoredMapping>(all);
    order::lemma_finite_listed(target.dom());
    lemma_listed_buckets(plan);
    lemma_asked_origin(plan, source, target, buckets);
    let m = sorted[i];
    assert(sorted.contains(m));
    assert(sorted.to_multiset().count(m) > 0);
    assert(all.contains(m));
    let j = choose|j: int| 0 <= j < all.len() && all[j] == m;
    if j < asked.len() {
        assert(asked[j] == m);
    } else {
        assert(auto[j - asked.len()] == m);
        lemma_auto_origin(plan, asked, source, target, ids, j - asked.len());
        assert(target.dom().contains(m.record_id));
    }
}

/// The buckets of a plan can be listed.
pub proof fn lemma_listed_buckets(plan: PlanModel)
    requires
        plan.groups.dom().finite(),
    ensures
        ({
            let buckets = order::in_order(plan.groups.dom());
            &&& forall|k: int|
                0 <= k < buckets.len() ==> plan.groups.contains_key(#[trigger] buckets[k])
            &&& forall|b: Seq<char>| #[trigger] plan.groups.contains_key(b) ==> buckets.contains(b)
        }),
{
    let buckets = order::in_order(plan.groups.dom());
    order::lemma_finite_listed(plan.groups.dom());
    assert forall|k: int| 0 <= k < buckets.len() implies plan.groups.contains_key(
        #[trigger] buckets[k],
    ) by {
        assert(buckets.contains(buckets[k]));
        assert(plan.groups.dom().contains(buckets[k]));
    }
    assert forall|b: Seq<char>| #[trigger] plan.groups.contains_key(b) implies buckets.contains(
        b,
    ) by {
        assert(plan.groups.dom().contains(b));
    }
}

/// A record that has its value by a decision or by the lack of one is not renamed onto by another.
proof fn lemma_not_renamed_onto(
    plan: PlanModel,
    source: Map<Seq<char>, Seq<char>>,
    target: Map<Seq<char>, Seq<char>>,
    value: Seq<char>,
    id: Seq<char>,
    owner: Seq<char>,
)
    requires
        requested(plan, source, target) is Ok,
        groups_fit(plan, target),
        plan.groups.dom().finite(),
        renamed_to(requested(plan, source, target)->Ok_0, value).contains(id),
        aliased(plan, value, owner) || (target.contains_key(owner) && target[owner] == value
            && !known(plan, requested(plan, source, target)->Ok_0, owner)),
    ensures
        id == owner,
{
    let asked = requested(plan, source, target)->Ok_0;
    let buckets = order::in_order(plan.groups.dom());
    let i = choose|i: int|
        0 <= i < asked.len() && (#[trigger] asked[i]).action == "rename"@ && asked[i].new_canonical
            == value && asked[i].record_id == id;
    if aliased(plan, value, owner) {
        assert(in_bucket(plan, value, owner));
    }
    renames_never_take_a_value(plan, source, target, i, owner);
    if id != owner {
        assert(moved_away(plan, value, owner));
        reveal_strlit("keep-alias");
        reveal_strlit("rename");
        assert("keep-alias"@.len() != "rename"@.len());
        lemma_listed_buckets(plan);
        lemma_asked_origin(plan, source, target, buckets);
        let k = choose|k: int| 0 <= k < buckets.len() && buckets[k] == value;
        assert(in_bucket(plan, buckets[k], owner));
    }
}

/// Two records that come out with one value are in one bucket whose value the decision keeps; a plan
/// never brings records of different buckets together.
pub proof fn values_are_shared_by_aliases_alone(
    plan: PlanModel,
    source: Map<Seq<char>, Seq<char>>,
    target: Map<Seq<char>, Seq<char>>,
    i: int,
    j: int,
)
    requires
        completed(plan, source, target) is Ok,
        groups_fit(plan, target),
        plan.groups.dom().finite(),
        target.dom().finite(),
        ({
            let m = completed(plan, source, target)->Ok_0;
            &&& 0 <= i < m.len()
            &&& 0 <= j < m.len()
            &&& m[i].new_canonical == m[j].new_canonical
            &&& m[i].record_id != m[j].record_id
        }),
    ensures
        ({
            let m = completed(plan, source, target)->Ok_0;
            &&& aliased(plan, m[i].new_canonical, m[i].record_id)
            &&& aliased(plan, m[i].new_canonical, m[j].record_id)
        }),
{
    let m = completed(plan, source, target)->Ok_0;
    let asked = requested(plan, source, target)->Ok_0;
    let buckets = order::in_order(plan.groups.dom());
    let value = m[i].new_canonical;
    let (x, y) = (m[i].record_id, m[j].record_id);
    lemma_accounted_for(plan, source, target, i);
    lemma_accounted_for(plan, source, target, j);
    lemma_listed_buckets(plan);
    lemma_asked_origin(plan, source, target, buckets);
    if renamed_to(asked, value).contains(x) && renamed_to(asked, value).contains(y) {
        let a = choose|a: int|
            0 <= a < asked.len() && (#[trigger] asked[a]).action == "rename"@
                && asked[a].new_canonical == value && asked[a].record_id == x;
        let b = choose|b: int|
            0 <= b < asked.len() && (#[trigger] asked[b]).action == "rename"@
                && asked[b].new_canonical == value && asked[b].record_id == y;
        renamed_records_never_share_a_value(plan, source, target, a, b);
    } else if renamed_to(asked, value).contains(x) {
        lemma_not_renamed_onto(plan, source, target, value, x, y);
    } else if renamed_to(asked, value).contains(y) {
        lemma_not_renamed_onto(plan, source, target, value, y, x);
    } else {
        if aliased(plan, value, x) {
            assert(in_bucket(plan, value, x));
        }
        if aliased(plan, value, y) {
            assert(in_bucket(plan, value, y));
        }
        assert(target.contains_key(x) && target.contains_key(y) && target[x] == value && target[y]
            == value);
        assert(in_bucket(plan, value, x) && in_bucket(plan, value, y));
        let k = choose|k: int| 0 <= k < buckets.len() && buckets[k] == value;
        assert(in_bucket(plan, buckets[k], x) && in_bucket(plan, buckets[k], y));
    }
}

/// The values that records are renamed to, and the records that are renamed to a value, can be
/// listed in ascending order.
proof fn lemma_rename_sets_listed(mappings: Seq<StoredMappingModel>, value: Seq<char>)
    ensures
        order::lists_in_order(order::in_order(rename_values(mappings)), rename_values(mappings)),
        order::lists_in_order(
            order::in_order(renamed_to(mappings, value)),
            renamed_to(mappings, value),
        ),
    decreases mappings.len(),
{
    let empty = Seq::<Seq<char>>::empty();
    if mappings.len() == 0 {
        assert(order::lists_in_order(empty, rename_values(mappings)));
        assert(order::lists_in_order(empty, renamed_to(mappings, value)));
    } else {
        let front = mappings.drop_last();
        let last = mappings.last();
        lemma_rename_sets_listed(front, value);
        lemma_rename_sets(mappings);
        if last.action == "rename"@ {
            assert(rename_values(mappings) =~= rename_values(front).insert(last.new_canonical));
            order::lemma_insert_in_order(rename_values(front), last.new_canonical);
        } else {
            assert(rename_values(mappings) =~= rename_values(front));
        }
        if last.action == "rename"@ && last.new_canonical == value {
            assert(renamed_to(mappings, value) =~= renamed_to(front, value).insert(
                last.record_id,
            ));
            order::lemma_insert_in_order(renamed_to(front, value), last.record_id);
        } else {
            assert(renamed_to(mappings, value) =~= renamed_to(front, value));
        }
    }
}

} // verus!
