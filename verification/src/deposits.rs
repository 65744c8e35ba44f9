//! What imports and additions of records store, told by the records that were sent.

use vstd::prelude::*;
use vstd::utf8::*;

use crate::base64;
use crate::consistency;
use crate::import;
use crate::json;
use crate::ledger;
use crate::ledger::{
    ResponseModel, StateModel, StoredRecordKind, StoredRecordModel,
};
use crate::order;
use crate::readings;
use crate::readings::Json;
use crate::requests::{
    AppendRecordsReqModel, CreateDatasetModel, ImportRecordModel,
};
use crate::service;
use crate::shapes;
use crate::text;

verus! {

/// A record gives its source in one form, and this can be taken: any text, base64 that can be read,
/// or numbers of the Unicode codespace.
pub open spec fn sound_source(record: ImportRecordModel) -> bool {
    match (record.text, record.raw_base64, record.codepoints) {
        (Some(_), None, None) => true,
        (None, Some(raw), None) => base64::base64_value(raw) is Some,
        (None, None, Some(numbers)) => forall|i: int|
            0 <= i < numbers.len() ==> #[trigger] numbers[i] <= 0x10ffff,
        _ => false,
    }
}

/// The record has an id with a character that is no white space.
pub open spec fn named(record: ImportRecordModel) -> bool {
    exists|i: int| 0 <= i < record.id.len() && !text::white_space(#[trigger] record.id[i])
}

/// All records can be taken: each has an id of its own and a source that can be taken.
pub open spec fn acceptable(records: Seq<ImportRecordModel>) -> bool {
    &&& forall|i: int|
        0 <= i < records.len() ==> named(#[trigger] records[i]) && sound_source(records[i])
    &&& forall|i: int, j: int|
        0 <= i < j < records.len() ==> (#[trigger] records[i]).id != (#[trigger] records[j]).id
}

/// A record is kept with its source: a text as it is and as its UTF-8 bytes, base64 as it is, and
/// numbers as a list that reads as these numbers.
pub open spec fn kept(record: ImportRecordModel, version: u64, as_stored: StoredRecordModel) -> bool {
    &&& as_stored.id == record.id
    &&& as_stored.source_version == version
    &&& as_stored.original_text == record.text
    &&& record.text matches Some(content) ==> {
        &&& as_stored.kind == StoredRecordKind::Text
        &&& base64::base64_value(as_stored.original_bytes_base64) == Some(encode_utf8(content))
    }
    &&& record.raw_base64 matches Some(raw) ==> {
        &&& as_stored.kind == StoredRecordKind::RawBase64
        &&& as_stored.original_bytes_base64 == raw
    }
    &&& record.codepoints matches Some(numbers) ==> {
        &&& as_stored.kind == StoredRecordKind::Codepoints
        &&& readings::read(as_stored.original_bytes_base64) == Some(
            Json::List(Seq::new(numbers.len(), |i: int| Json::Number(numbers[i] as nat))),
        )
    }
}

proof fn lemma_numbers_read(numbers: Seq<u32>)
    ensures
        readings::read(json::list_text(json::decimals(numbers))) == Some(
            Json::List(Seq::new(numbers.len(), |i: int| Json::Number(numbers[i] as nat))),
        ),
{
    let parts = json::decimals(numbers);
    let values = Seq::new(numbers.len(), |i: int| Json::Number(numbers[i] as nat));
    assert forall|i: int| 0 <= i < parts.len() implies readings::says(
        #[trigger] parts[i],
        values[i],
    ) by {
        readings::lemma_number_says(numbers[i] as nat);
    }
    readings::lemma_list_says(parts, values);
    readings::lemma_read(json::list_text(parts), Json::List(values));
}

proof fn lemma_stored(record: ImportRecordModel, version: u64)
    ensures
        import::stored(record, version) is Ok <==> sound_source(record),
        import::stored(record, version) matches Ok(as_stored) ==> kept(record, version, as_stored),
{
    reveal(import::stored);
    if let Some(content) = record.text {
        base64::base64_reads_back(encode_utf8(content));
    }
    if let Some(numbers) = record.codepoints {
        lemma_numbers_read(numbers);
    }
}

proof fn lemma_acceptable_front(records: Seq<ImportRecordModel>)
    requires
        records.len() > 0,
    ensures
        acceptable(records) <==> acceptable(records.drop_last()) && named(records.last())
            && sound_source(records.last()) && !import::id_taken(
            records.drop_last(),
            records.last().id,
        ),
{
    let front = records.drop_last();
    let last = records.len() - 1;
    assert forall|i: int| 0 <= i < front.len() implies #[trigger] front[i] == records[i] by {}
    if acceptable(records) {
        assert(named(records[last]) && sound_source(records[last]));
        if import::id_taken(front, records.last().id) {
            let i = choose|i: int| 0 <= i < front.len() && (#[trigger] front[i]).id == records.last().id;
            assert(records[i].id != records[last].id);
        }
        assert forall|i: int| 0 <= i < front.len() implies named(#[trigger] front[i])
            && sound_source(front[i]) by {
            assert(named(records[i]) && sound_source(records[i]));
        }
        assert forall|i: int, j: int| 0 <= i < j < front.len() implies (#[trigger] front[i]).id != (
        #[trigger] front[j]).id by {
            assert(records[i].id != records[j].id);
        }
    }
    if acceptable(front) && named(records.last()) && sound_source(records.last())
        && !import::id_taken(front, records.last().id) {
        assert forall|i: int| 0 <= i < records.len() implies named(#[trigger] records[i])
            && sound_source(records[i]) by {
            if i < last {
                assert(named(front[i]) && sound_source(front[i]));
            }
        }
        assert forall|i: int, j: int| 0 <= i < j < records.len() implies (#[trigger] records[i]).id
            != (#[trigger] records[j]).id by {
            if j < last {
                assert(front[i].id != front[j].id);
            } else {
                assert(front[i].id != records.last().id);
            }
        }
    }
}

/// Records are taken exactly if all of them can be, and each is then kept with its source.
pub proof fn lemma_stored_all(records: Seq<ImportRecordModel>, version: u64)
    ensures
        import::stored_all(records, version) is Ok <==> acceptable(records),
        import::stored_all(records, version) matches Ok(done) ==> done.len() == records.len()
            && forall|i: int|
            0 <= i < records.len() ==> kept(#[trigger] records[i], version, done[i]),
    decreases records.len(),
{
    if records.len() > 0 {
        let front = records.drop_last();
        let last = records.last();
        lemma_stored_all(front, version);
        lemma_stored(last, version);
        lemma_acceptable_front(records);
        assert(text::blank(last.id) <==> !named(last)) by {
            if text::blank(last.id) && named(last) {
                let i = choose|i: int|
                    0 <= i < last.id.len() && !text::white_space(#[trigger] last.id[i]);
                assert(text::white_space(last.id[i]));
            }
        }
        if import::stored_all(records, version) is Ok {
            let done = import::stored_all(records, version)->Ok_0;
            assert forall|i: int| 0 <= i < records.len() implies kept(
                #[trigger] records[i],
                version,
                done[i],
            ) by {
                if i < front.len() {
                    assert(kept(front[i], version, import::stored_all(front, version)->Ok_0[i]));
                }
            }
        }
    }
}

/// Some record has the id.
pub open spec fn sent(records: Seq<ImportRecordModel>, id: Seq<char>) -> bool {
    exists|i: int| 0 <= i < records.len() && (#[trigger] records[i]).id == id
}

/// After records were sent, there are those from before, as they were, and those that were sent, with
/// their sources, and no others.
pub open spec fn holds(
    now: Map<Seq<char>, StoredRecordModel>,
    before: Map<Seq<char>, StoredRecordModel>,
    records: Seq<ImportRecordModel>,
    version: u64,
) -> bool {
    &&& forall|r: Seq<char>| #[trigger]
        now.contains_key(r) <==> before.contains_key(r) || sent(records, r)
    &&& forall|i: int|
        0 <= i < records.len() ==> kept(#[trigger] records[i], version, now[records[i].id])
    &&& forall|r: Seq<char>| #[trigger] before.contains_key(r) ==> now[r] == before[r]
    &&& forall|i: int| 0 <= i < records.len() ==> !before.contains_key((#[trigger] records[i]).id)
}

proof fn lemma_holds(
    before: Map<Seq<char>, StoredRecordModel>,
    records: Seq<ImportRecordModel>,
    done: Seq<StoredRecordModel>,
    version: u64,
)
    requires
        acceptable(records),
        done.len() == records.len(),
        forall|i: int| 0 <= i < records.len() ==> kept(#[trigger] records[i], version, done[i]),
        forall|i: int| 0 <= i < records.len() ==> !before.contains_key((#[trigger] records[i]).id),
        before.dom().finite(),
    ensures
        holds(ledger::with_records(before, done), before, records, version),
        ledger::with_records(before, done).dom().finite(),
        ledger::with_records(before, done).dom().len() == before.dom().len() + records.len(),
    decreases records.len(),
{
    let now = ledger::with_records(before, done);
    if records.len() > 0 {
        let front = records.drop_last();
        let less = done.drop_last();
        let last = records.len() - 1;
        let then = ledger::with_records(before, less);
        lemma_acceptable_front(records);
        assert forall|i: int| 0 <= i < front.len() implies kept(#[trigger] front[i], version, less[i])
            && !before.contains_key(front[i].id) by {
            assert(kept(records[i], version, done[i]));
            assert(!before.contains_key(records[i].id));
        }
        lemma_holds(before, front, less, version);
        assert(kept(records[last], version, done[last]));
        assert(done.last().id == records.last().id);
        assert(!before.contains_key(records[last].id));
        assert(!sent(front, records.last().id));
        assert(!then.contains_key(records.last().id));
        assert forall|r: Seq<char>| sent(records, r) <==> sent(front, r) || r
            == records.last().id by {
            if sent(front, r) {
                let i = choose|i: int| 0 <= i < front.len() && (#[trigger] front[i]).id == r;
                assert(records[i].id == r);
            }
            if r == records.last().id {
                assert(records[last].id == r);
            }
            if sent(records, r) {
                let i = choose|i: int| 0 <= i < records.len() && (#[trigger] records[i]).id == r;
                if i < last {
                    assert(front[i].id == r);
                }
            }
        }
        assert forall|i: int| 0 <= i < records.len() implies kept(
            #[trigger] records[i],
            version,
            now[records[i].id],
        ) by {
            if i < last {
                assert(kept(front[i], version, then[front[i].id]));
                assert(records[i].id != records[last].id);
            }
        }
    }
}

proof fn lemma_no_existing(
    before: Map<Seq<char>, StoredRecordModel>,
    records: Seq<ImportRecordModel>,
    done: Seq<StoredRecordModel>,
    version: u64,
)
    requires
        done.len() == records.len(),
        forall|i: int| 0 <= i < records.len() ==> kept(#[trigger] records[i], version, done[i]),
    ensures
        service::first_existing(before, done) is None <==> forall|i: int|
            0 <= i < records.len() ==> !before.contains_key((#[trigger] records[i]).id),
    decreases records.len(),
{
    if records.len() > 0 {
        let front = records.drop_last();
        let less = done.drop_last();
        let last = records.len() - 1;
        assert forall|i: int| 0 <= i < front.len() implies kept(#[trigger] front[i], version, less[i]) by {
            assert(kept(records[i], version, done[i]));
        }
        lemma_no_existing(before, front, less, version);
        assert(kept(records[last], version, done[last]));
        if service::first_existing(before, done) is None {
            assert forall|i: int| 0 <= i < records.len() implies !before.contains_key(
                (#[trigger] records[i]).id,
            ) by {
                if i < last {
                    assert(!before.contains_key(front[i].id));
                }
            }
        }
        if forall|i: int| 0 <= i < records.len() ==> !before.contains_key((#[trigger] records[i]).id) {
            assert forall|i: int| 0 <= i < front.len() implies !before.contains_key(
                (#[trigger] front[i]).id,
            ) by {
                assert(!before.contains_key(records[i].id));
            }
            assert(!before.contains_key(records[last].id));
        }
    }
}

/// A new data set of the state holds what was sent, under an id that was free, and nothing else
/// changed but the receipts.
pub open spec fn deposited(
    s: StateModel,
    t: StateModel,
    id: Seq<char>,
    request: CreateDatasetModel,
    response: ResponseModel,
) -> bool {
    &&& !s.datasets.contains_key(id)
    &&& t.datasets == s.datasets.insert(id, t.datasets[id])
    &&& t.datasets[id].id == id
    &&& t.datasets[id].name == request.name
    &&& t.datasets[id].version == 1
    &&& holds(
        t.datasets[id].records,
        Map::<Seq<char>, StoredRecordModel>::empty(),
        request.records,
        1,
    )
    &&& t.plans == s.plans
    &&& t.plan_changes == s.plan_changes
    &&& t.migrations == s.migrations
    &&& response == ResponseModel::Dataset {
        id,
        name: request.name,
        version: 1,
        record_count: request.records.len() as usize,
    }
}

/// An import that is stored makes a data set of the first version that holds exactly the records that
/// were sent; the answer tells its id, its name and how many records it has.
pub proof fn new_data_sets_hold_what_was_sent(
    s: StateModel,
    request: CreateDatasetModel,
    key: Option<Seq<char>>,
)
    requires
        s.datasets.dom().finite(),
        service::dataset_creation(s, request, key) matches Ok(step) && step is Commit,
    ensures
        ({
            let step = service::dataset_creation(s, request, key)->Ok_0;
            let t = ledger::applied(s, step->Commit_event);
            exists|id: Seq<char>| #[trigger] deposited(s, t, id, request, step->Commit_response)
        }),
{
    let step = service::dataset_creation(s, request, key)->Ok_0;
    let t = ledger::applied(s, step->Commit_event);
    let done = import::stored_all(request.records, 1)->Ok_0;
    let before = Map::<Seq<char>, StoredRecordModel>::empty();
    let id = step->Commit_event.change->DatasetCreated_dataset.id;
    lemma_stored_all(request.records, 1);
    lemma_holds(before, request.records, done, 1);
    service::free_ids_are_free(
        s.datasets.dom(),
        service::dataset_id(request.name, shapes::records_shape(done)),
    );
    order::lemma_listed_len(t.datasets[id].records.dom());
    assert(deposited(s, t, id, request, step->Commit_response));
}

/// An import is refused exactly if one of its records cannot be taken or its key stands for another
/// request; a record that cannot be taken is a bad request.
pub proof fn imports_are_refused_for_their_records(
    s: StateModel,
    request: CreateDatasetModel,
    key: Option<Seq<char>>,
)
    ensures
        !acceptable(request.records) ==> service::dataset_creation(s, request, key) is Err
            && service::dataset_creation(s, request, key)->Err_0.status == 400,
        acceptable(request.records) && (key matches Some(k) ==> !s.commands.contains_key(k))
            ==> service::dataset_creation(s, request, key) is Ok,
        acceptable(request.records) && key is None ==> service::dataset_creation(
            s,
            request,
            key,
        )->Ok_0 is Commit,
{
    lemma_stored_all(request.records, 1);
}

/// Records that are added to a data set are there from its next version on, beside those from before;
/// nothing else changes but the receipts, and the answer tells how many there are.
pub proof fn additions_hold_what_was_sent(
    s: StateModel,
    id: Seq<char>,
    request: AppendRecordsReqModel,
    key: Option<Seq<char>>,
)
    requires
        consistency::consistent(s),
        s.datasets.contains_key(id) ==> s.datasets[id].version < u64::MAX,
        service::records_addition(s, id, request, key) matches Ok(step) && step is Commit,
    ensures
        ({
            let step = service::records_addition(s, id, request, key)->Ok_0;
            let t = ledger::applied(s, step->Commit_event);
            let before = s.datasets[id];
            let now = t.datasets[id];
            &&& s.datasets.contains_key(id)
            &&& before.version == request.expected_version
            &&& t.datasets == s.datasets.insert(id, now)
            &&& now.id == id
            &&& now.name == before.name
            &&& now.version == before.version + 1
            &&& holds(now.records, before.records, request.records, now.version)
            &&& t.plans == s.plans
            &&& t.plan_changes == s.plan_changes
            &&& t.migrations == s.migrations
            &&& step->Commit_response == ResponseModel::Dataset {
                id,
                name: before.name,
                version: now.version,
                record_count: (before.records.dom().len() + request.records.len()) as usize,
            }
        }),
{
    let step = service::records_addition(s, id, request, key)->Ok_0;
    let t = ledger::applied(s, step->Commit_event);
    let before = s.datasets[id];
    let next = (before.version + 1) as u64;
    let done = import::stored_all(request.records, next)->Ok_0;
    assert(consistency::sound_dataset(id, before));
    lemma_stored_all(request.records, next);
    lemma_no_existing(before.records, request.records, done, next);
    lemma_holds(before.records, request.records, done, next);
    order::lemma_listed_len(t.datasets[id].records.dom());
}

/// Records are added exactly if the data set is there, is of the version that the request is based on
/// and has none of their ids, all of them can be taken, and the key stands for no other request.
pub proof fn additions_are_refused_for_a_reason(
    s: StateModel,
    id: Seq<char>,
    request: AppendRecordsReqModel,
    key: Option<Seq<char>>,
)
    requires
        s.datasets.contains_key(id) ==> s.datasets[id].version < u64::MAX,
    ensures
        ({
            let outcome = service::records_addition(s, id, request, key);
            let taken = exists|i: int|
                0 <= i < request.records.len() && s.datasets[id].records.contains_key(
                    (#[trigger] request.records[i]).id,
                );
            if !s.datasets.contains_key(id) {
                outcome is Err && outcome->Err_0.status == 404
            } else if s.datasets[id].version != request.expected_version {
                outcome is Err && outcome->Err_0.status == 409
            } else if !acceptable(request.records) {
                outcome is Err && outcome->Err_0.status == 400
            } else if taken {
                outcome is Err && outcome->Err_0.status == 409
            } else {
                (key matches Some(k) ==> !s.commands.contains_key(k)) ==> outcome is Ok
                    && outcome->Ok_0 is Commit
            }
        }),
{
    if s.datasets.contains_key(id) {
        let next = (s.datasets[id].version + 1) as u64;
        lemma_stored_all(request.records, next);
        if import::stored_all(request.records, next) is Ok {
            lemma_no_existing(
                s.datasets[id].records,
                request.records,
                import::stored_all(request.records, next)->Ok_0,
                next,
            );
        }
    }
}

/// An id that is free stays as it is; one that is taken gets the first number, counted from one, that makes
/// it free.
pub proof fn repeated_ids_are_counted(taken: Set<Seq<char>>, id: Seq<char>)
    requires
        taken.finite(),
    ensures
        !taken.contains(service::free_id(taken, id)),
        !taken.contains(id) ==> service::free_id(taken, id) == id,
        taken.contains(id) ==> exists|n: nat|
            {
                &&& n >= 1
                &&& service::free_id(taken, id) == id + "-"@ + #[trigger] text::decimal_text(n)
                &&& forall|k: nat|
                    1 <= k < n ==> taken.contains(id + "-"@ + #[trigger] text::decimal_text(k))
            },
{
    service::free_ids_are_free(taken, id);
    if taken.contains(id) {
        let limit = order::in_order(taken).len();
        order::lemma_finite_listed(taken);
        assert(order::in_order(taken).contains(id));
        service::lemma_free_number(taken, id, 1, limit);
        let n = service::free_number(taken, id, 1, limit);
        assert forall|k: nat| 1 <= k < n implies taken.contains(
            id + "-"@ + #[trigger] text::decimal_text(k),
        ) by {
            assert(taken.contains(service::repeat_id(id, k)));
        }
        assert(service::free_id(taken, id) == id + "-"@ + text::decimal_text(n));
    }
}

} // verus!
