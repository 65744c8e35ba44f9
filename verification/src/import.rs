//! Import of records, and the analysis of what was imported.

use vstd::prelude::*;
use vstd::utf8::*;

use crate::base64;
use crate::base64::{base64_decode, base64_encode};
use crate::engine;
use crate::engine::{
    analyze_records, validate_config, Analysis, AnalysisModel, EngineInput, InputModel, RuleConfig,
    RuleConfigModel,
};
use crate::json;
use crate::ledger::{
    Dataset, DatasetModel, StoredRecord, StoredRecordKind, StoredRecordModel,
};
use crate::order;
use crate::requests;
use crate::requests::{ImportRecord, ImportRecordModel, ServiceError};
use crate::strmap::StringSet;
use crate::text;
use crate::text::is_blank;

verus! {

/// In how many forms the source of a record is given.
pub open spec fn source_forms(record: ImportRecordModel) -> int {
    (if record.text is Some {
        1int
    } else {
        0
    }) + (if record.raw_base64 is Some {
        1int
    } else {
        0
    }) + (if record.codepoints is Some {
        1int
    } else {
        0
    })
}

/// All numbers lie in the Unicode codespace.
pub open spec fn in_codespace(codepoints: Seq<u32>) -> bool {
    forall|i: int| 0 <= i < codepoints.len() ==> #[trigger] codepoints[i] <= 0x10ffff
}

/// A record as it is stored, or why it is refused.
#[verifier::opaque]
pub open spec fn stored(record: ImportRecordModel, version: u64) -> Result<
    StoredRecordModel,
    Seq<char>,
> {
    if source_forms(record) != 1 {
        Err("each record requires exactly one source form"@)
    } else if let Some(content) = record.text {
        Ok(
            StoredRecordModel {
                id: record.id,
                kind: StoredRecordKind::Text,
                original_text: Some(content),
                original_bytes_base64: base64::base64_text(encode_utf8(content)),
                source_version: version,
            },
        )
    } else if let Some(raw) = record.raw_base64 {
        match base64::base64_value(raw) {
            Some(_) => Ok(
                StoredRecordModel {
                    id: record.id,
                    kind: StoredRecordKind::RawBase64,
                    original_text: None,
                    original_bytes_base64: raw,
                    source_version: version,
                },
            ),
            None => Err("invalid base64"@),
        }
    } else {
        let codepoints = record.codepoints->0;
        if in_codespace(codepoints) {
            Ok(
                StoredRecordModel {
                    id: record.id,
                    kind: StoredRecordKind::Codepoints,
                    original_text: None,
                    original_bytes_base64: json::list_text(json::decimals(codepoints)),
                    source_version: version,
                },
            )
        } else {
            Err("codepoint outside Unicode codespace"@)
        }
    }
}

/// Some record has the id.
pub open spec fn id_taken(records: Seq<ImportRecordModel>, id: Seq<char>) -> bool {
    exists|i: int| 0 <= i < records.len() && (#[trigger] records[i]).id == id
}

/// A record that follows others as it is stored, or why it is refused.
pub open spec fn stored_next(
    before: Seq<ImportRecordModel>,
    record: ImportRecordModel,
    version: u64,
) -> Result<StoredRecordModel, Seq<char>> {
    if text::blank(record.id) || id_taken(before, record.id) {
        Err("record id must be non-empty and unique"@)
    } else {
        stored(record, version)
    }
}

/// Records as they are stored, or why the first that is refused is refused: its id is blank or was
/// there before, or its source cannot be taken.
pub open spec fn stored_all(records: Seq<ImportRecordModel>, version: u64) -> Result<
    Seq<StoredRecordModel>,
    Seq<char>,
>
    decreases records.len(),
{
    if records.len() == 0 {
        Ok(seq![])
    } else {
        let front = records.drop_last();
        let last = records.last();
        match stored_all(front, version) {
            Err(message) => Err(message),
            Ok(done) => match stored_next(front, last, version) {
                Err(message) => Err(message),
                Ok(record) => Ok(done.push(record)),
            },
        }
    }
}

/// A refusal stays when more records follow.
proof fn lemma_refused(records: Seq<ImportRecordModel>, version: u64, n: int)
    requires
        0 <= n <= records.len(),
        stored_all(records.take(n), version) is Err,
    ensures
        stored_all(records, version) == stored_all(records.take(n), version),
    decreases records.len() - n,
{
    if n == records.len() {
        assert(records.take(n) =~= records);
    } else {
        assert(records.take(n + 1).drop_last() =~= records.take(n));
        lemma_refused(records, version, n + 1);
    }
}

/// The source bytes of a stored record.
pub open spec fn payload(record: StoredRecordModel) -> Option<Seq<u8>> {
    if record.kind == StoredRecordKind::Codepoints {
        Some(encode_utf8(record.original_bytes_base64))
    } else {
        base64::base64_value(record.original_bytes_base64)
    }
}

/// The source of a record can be had back from what is stored: the UTF-8 bytes of a text, the bytes
/// that a base64 text stands for, and the numbers of a list of code points.
#[verifier::opaque]
pub open spec fn keeps_source(record: ImportRecordModel, kept: StoredRecordModel) -> bool {
    &&& kept.id == record.id
    &&& payload(kept) is Some
    &&& record.text matches Some(content) ==> payload(kept)->0 == encode_utf8(content)
    &&& record.raw_base64 matches Some(raw) ==> base64::base64_text(payload(kept)->0) == raw
    &&& record.codepoints matches Some(codepoints) ==> json::json_numbers(payload(kept)->0) == Some(
        codepoints,
    )
}

proof fn lemma_taken(records: Seq<ImportRecordModel>, id: Seq<char>)
    requires
        records.len() > 0,
    ensures
        id_taken(records, id) <==> id_taken(records.drop_last(), id) || id == records.last().id,
{
    let front = records.drop_last();
    if id_taken(front, id) {
        let k = choose|k: int| 0 <= k < front.len() && (#[trigger] front[k]).id == id;
        assert(records[k].id == id);
    }
    if id == records.last().id {
        assert(records[records.len() - 1].id == id);
    }
    if id_taken(records, id) {
        let k = choose|k: int| 0 <= k < records.len() && (#[trigger] records[k]).id == id;
        if k < front.len() {
            assert(front[k].id == id);
        }
    }
}

fn store_record(record: &ImportRecord, version: u64) -> (r: Result<StoredRecord, String>)
    ensures
        match stored(record.deep_view(), version) {
            Ok(model) => r is Ok && r->Ok_0.deep_view() == model && keeps_source(
                record.deep_view(),
                model,
            ),
            Err(message) => r is Err && r->Err_0@ == message,
        },
{
    proof {
        reveal(keeps_source);
        reveal(stored);
    }
    let forms: u8 = (if record.text.is_some() {
        1u8
    } else {
        0u8
    }) + (if record.raw_base64.is_some() {
        1u8
    } else {
        0u8
    }) + (if record.codepoints.is_some() {
        1u8
    } else {
        0u8
    });
    if forms != 1 {
        return Err("each record requires exactly one source form".to_owned());
    }
    if let Some(content) = &record.text {
        proof {
            base64::base64_reads_back(encode_utf8(content@));
        }
        return Ok(
            StoredRecord {
                id: record.id.clone(),
                kind: StoredRecordKind::Text,
                original_text: Some(content.clone()),
                original_bytes_base64: base64_encode(content.as_str().as_bytes()),
                source_version: version,
            },
        );
    }
    if let Some(raw) = &record.raw_base64 {
        return match base64_decode(raw.as_str()) {
            Ok(bytes) => Ok(
                StoredRecord {
                    id: record.id.clone(),
                    kind: StoredRecordKind::RawBase64,
                    original_text: None,
                    original_bytes_base64: base64_encode(bytes.as_slice()),
                    source_version: version,
                },
            ),
            Err(message) => Err(message),
        };
    }
    if let Some(codepoints) = &record.codepoints {
        proof {
            assert(codepoints.deep_view() =~= codepoints@);
        }
        for i in 0..codepoints.len()
            invariant
                forall|k: int| 0 <= k < i ==> #[trigger] codepoints@[k] <= 0x10ffff,
                codepoints.deep_view() == codepoints@,
                record.codepoints == Some(*codepoints),
                record.text is None,
                record.raw_base64 is None,
        {
            if codepoints[i] > 0x10ffff {
                proof {
                    reveal(stored);
                }
                return Err("codepoint outside Unicode codespace".to_owned());
            }
        }
        return Ok(
            StoredRecord {
                id: record.id.clone(),
                kind: StoredRecordKind::Codepoints,
                original_text: None,
                original_bytes_base64: json::numbers_to_json(codepoints),
                source_version: version,
            },
        );
    }
    Err("each record requires exactly one source form".to_owned())
}

/// The ids of some records.
spec fn ids_are(seen: Set<Seq<char>>, records: Seq<ImportRecordModel>) -> bool {
    forall|id: Seq<char>| #[trigger] seen.contains(id) <==> id_taken(records, id)
}

fn store_next(
    seen: &mut StringSet,
    record: &ImportRecord,
    version: u64,
    before: Ghost<Seq<ImportRecordModel>>,
) -> (r: Result<StoredRecord, String>)
    requires
        ids_are(old(seen)@, before@),
    ensures
        match stored_next(before@, record.deep_view(), version) {
            Ok(model) => {
                &&& r is Ok && r->Ok_0.deep_view() == model
                &&& keeps_source(record.deep_view(), model)
                &&& ids_are(final(seen)@, before@.push(record.deep_view()))
            },
            Err(message) => r is Err && r->Err_0@ == message,
        },
{
    proof {
        assert(seen@.contains(record.id@) <==> id_taken(before@, record.id@));
    }
    if is_blank(record.id.as_str()) || !seen.insert(record.id.clone()) {
        return Err("record id must be non-empty and unique".to_owned());
    }
    proof {
        let after = before@.push(record.deep_view());
        assert(after.drop_last() =~= before@);
        assert forall|id: Seq<char>| #[trigger] seen@.contains(id) <==> id_taken(after, id) by {
            assert(old(seen)@.contains(id) <==> id_taken(before@, id));
            lemma_taken(after, id);
        }
    }
    store_record(record, version)
}

/// Turns records to import into records to store. Their sources are kept.
pub fn convert_records(records: &Vec<ImportRecord>, source_version: u64) -> (r: Result<
    Vec<StoredRecord>,
    ServiceError,
>)
    ensures
        match stored_all(records.deep_view(), source_version) {
            Ok(model) => {
                &&& r is Ok && r->Ok_0.deep_view() == model
                &&& model.len() == records@.len()
                &&& forall|k: int|
                    0 <= k < model.len() ==> keeps_source(
                        records.deep_view()[k],
                        #[trigger] model[k],
                    )
            },
            Err(message) => r is Err && r->Err_0.deep_view() == requests::bad_request(message),
        },
{
    broadcast use {text::lemma_models_push, text::lemma_vec_model};

    let ghost model = records.deep_view();
    let mut seen = StringSet::new();
    let mut out: Vec<StoredRecord> = Vec::new();
    proof {
        assert(model.take(0) =~= Seq::<ImportRecordModel>::empty());
        assert(text::models(out@) =~= Seq::<StoredRecordModel>::empty());
        assert(ids_are(seen@, model.take(0)));
    }
    for i in 0..records.len()
        invariant
            model == records.deep_view(),
            stored_all(model.take(i as int), source_version) == Ok::<_, Seq<char>>(
                text::models(out@),
            ),
            ids_are(seen@, model.take(i as int)),
            out@.len() == i,
            forall|k: int|
                0 <= k < i ==> keeps_source(model[k], (#[trigger] out@[k]).deep_view()),
    {
        let ghost before = model.take(i as int);
        proof {
            assert(model.take(i + 1) =~= before.push(records@[i as int].deep_view()));
            assert(model.take(i + 1).drop_last() =~= before);
            assert(model.take(i + 1).last() == records@[i as int].deep_view());
        }
        match store_next(&mut seen, &records[i], source_version, Ghost(before)) {
            Ok(stored) => {
                let ghost done = text::models(out@);
                out.push(stored);
                proof {
                    assert(text::models(out@) == done.push(stored.deep_view()));
                }
            },
            Err(message) => {
                proof {
                    lemma_refused(model, source_version, i + 1);
                }
                return Err(ServiceError::bad_request(message));
            },
        }
    }
    proof {
        assert(model.take(model.len() as int) =~= model);
        assert forall|k: int| 0 <= k < out@.len() implies keeps_source(
            model[k],
            #[trigger] out.deep_view()[k],
        ) by {
            assert(out.deep_view()[k] == out@[k].deep_view());
        }
    }
    Ok(out)
}

fn copy_bytes(bytes: &[u8]) -> (r: Vec<u8>)
    ensures
        r@ == bytes@,
{
    let mut out: Vec<u8> = Vec::new();
    for i in 0..bytes.len()
        invariant
            out@ == bytes@.take(i as int),
    {
        out.push(bytes[i]);
        proof {
            assert(out@ =~= bytes@.take(i + 1));
        }
    }
    proof {
        assert(bytes@.take(bytes@.len() as int) =~= bytes@);
    }
    out
}

/// The source bytes of a stored record.
pub fn record_payload(record: &StoredRecord) -> (r: Result<Vec<u8>, ServiceError>)
    ensures
        match payload(record.deep_view()) {
            Some(bytes) => r is Ok && r->Ok_0@ == bytes,
            None => r is Err && r->Err_0.deep_view() == requests::bad_request("invalid base64"@),
        },
{
    if record.kind == StoredRecordKind::Codepoints {
        Ok(copy_bytes(record.original_bytes_base64.as_str().as_bytes()))
    } else {
        match base64_decode(record.original_bytes_base64.as_str()) {
            Ok(bytes) => Ok(bytes),
            Err(message) => Err(ServiceError::bad_request(message)),
        }
    }
}

/// The records of a data set, in ascending order of their ids.
pub open spec fn records_in_order(dataset: DatasetModel) -> Seq<StoredRecordModel> {
    let ids = order::in_order(dataset.records.dom());
    Seq::new(ids.len(), |i: int| dataset.records[ids[i]])
}

/// A record with its source bytes, to be analyzed.
pub open spec fn record_input(record: StoredRecordModel) -> InputModel {
    InputModel {
        record_id: record.id,
        source_version: record.source_version,
        original_text: record.original_text,
        original_bytes: payload(record)->0,
        codepoint_source: record.kind == StoredRecordKind::Codepoints,
    }
}

/// Records with their source bytes, to be analyzed.
pub open spec fn record_inputs(records: Seq<StoredRecordModel>) -> Seq<InputModel> {
    Seq::new(records.len(), |i: int| record_input(records[i]))
}

/// The analysis of a data set, or why there is none.
pub open spec fn dataset_analysis(dataset: DatasetModel, rules: RuleConfigModel) -> Result<
    AnalysisModel,
    Seq<char>,
> {
    let records = records_in_order(dataset);
    match engine::unknown_script(rules) {
        Some(name) => Err(engine::unknown_script_text(name)),
        None => if forall|i: int| 0 <= i < records.len() ==> payload(#[trigger] records[i]) is Some {
            Ok(engine::analysis_of(rules, record_inputs(records)))
        } else {
            Err("invalid base64"@)
        },
    }
}

/// Analyzes the records of a data set.
pub fn analysis_for(dataset: &Dataset, rules: &RuleConfig) -> (r: Result<Analysis, ServiceError>)
    ensures
        match dataset_analysis(dataset.deep_view(), rules.deep_view()) {
            Ok(analysis) => r is Ok && r->Ok_0.deep_view() == analysis,
            Err(message) => r is Err && r->Err_0.deep_view() == requests::bad_request(message),
        },
{
    let ghost model = dataset.deep_view();
    let ghost cfg = rules.deep_view();
    let ghost wanted = records_in_order(model);
    let resolved = match validate_config(rules) {
        Ok(resolved) => resolved,
        Err(message) => {
            return Err(ServiceError::bad_request(message));
        },
    };
    let n = dataset.records.len();
    let ghost keys = dataset.records.keys();
    proof {
        assert(model.records.dom() =~= dataset.records@.dom());
    }
    let mut payloads: Vec<Vec<u8>> = Vec::new();
    let mut i: usize = 0;
    while i < n
        invariant
            model == dataset.deep_view(),
            keys == dataset.records.keys(),
            keys == order::in_order(model.records.dom()),
            n == keys.len(),
            i <= n,
            wanted == records_in_order(model),
            cfg == rules.deep_view(),
            engine::unknown_script(cfg) is None,
            payloads@.len() == i,
            forall|k: int|
                0 <= k < i ==> payload(wanted[k]) == Some((#[trigger] payloads@[k])@),
        decreases n - i,
    {
        let record = dataset.records.value_at(i);
        proof {
            assert(wanted[i as int] == record.deep_view());
        }
        match record_payload(record) {
            Ok(bytes) => {
                payloads.push(bytes);
            },
            Err(error) => {
                proof {
                    assert(payload(wanted[i as int]) is None);
                }
                return Err(error);
            },
        }
        i += 1;
    }
    let mut inputs: Vec<EngineInput<'_>> = Vec::new();
    let mut i: usize = 0;
    while i < n
        invariant
            model == dataset.deep_view(),
            keys == dataset.records.keys(),
            keys == order::in_order(model.records.dom()),
            n == keys.len(),
            n == payloads@.len(),
            i <= n,
            wanted == records_in_order(model),
            forall|k: int|
                0 <= k < n ==> payload(wanted[k]) == Some((#[trigger] payloads@[k])@),
            inputs@.len() == i,
            forall|k: int|
                0 <= k < i ==> (#[trigger] inputs@[k]).deep_view() == record_input(wanted[k]),
        decreases n - i,
    {
        let record = dataset.records.value_at(i);
        proof {
            assert(wanted[i as int] == record.deep_view());
            assert(payload(wanted[i as int]) == Some(payloads@[i as int]@));
        }
        let input = EngineInput {
            record_id: record.id.as_str(),
            source_version: record.source_version,
            original_text: match &record.original_text {
                Some(content) => Some(content.as_str()),
                None => None,
            },
            original_bytes: payloads[i].as_slice(),
            codepoint_source: record.kind == StoredRecordKind::Codepoints,
        };
        proof {
            assert(input.deep_view() =~= record_input(wanted[i as int]));
        }
        inputs.push(input);
        i += 1;
    }
    proof {
        assert(engine::inputs_of(inputs@) =~= record_inputs(wanted));
        engine::resolving_changes_nothing(cfg, record_inputs(wanted));
        assert forall|k: int| 0 <= k < wanted.len() implies payload(
            #[trigger] wanted[k],
        ) is Some by {
            assert(payload(wanted[k]) == Some(payloads@[k]@));
        }
    }
    match analyze_records(&resolved, inputs.as_slice()) {
        Ok(analysis) => Ok(analysis),
        Err(message) => Err(ServiceError::bad_request(message)),
    }
}

} // verus!
