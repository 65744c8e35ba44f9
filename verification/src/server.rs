//! The HTTP face of the journal: reading of requests, choice of the route, and what is shown of the
//! state.

use vstd::prelude::*;

use crate::hex_bytes;
use crate::hex_bytes::to_hex;
use crate::http;
use crate::http::{read_request_line, read_target};
use crate::model::{
    Analysis, AnalysisModel, AnalyzedRecord, AnalyzedRecordModel, Bucket, BucketModel, Dataset, Id,
    Plan, PlanModel, PlanStatus,
};
use crate::order;
use crate::scan;
use crate::scan::{
    eq_ignore_case, parse_number, split_text, split_text_once, trim, trim_start_matches,
};
use crate::store;
use crate::store::{Journal, State, StateModel, WalRecord};
use crate::strmap::StringMap;
use crate::text;
use crate::text::{lossy_string, lowercase, push_decimal, str_eq, Duplicate};
use crate::unicode::{
    Issue, IssueModel, RuleConfig, RuleConfigModel, StageModel, StageView, TableVersions,
    TableVersionsModel,
};
use crate::urls;
use crate::urls::query_params;

verus! {

/// The longest head of a request that is read.
pub const MAX_HEAD: usize = 65536;

/// The longest body of a request that is read.
pub const MAX_BODY: usize = 8388608;

/// The state of the workbench that is served.
#[derive(Debug)]
pub struct App {
    pub journal: Journal,
}

/// Opens the workbench from what was stored: a snapshot, if there is one, and the log.
pub fn open_app(snapshot: Option<State>, log: &Vec<WalRecord>) -> (r: App)
    requires
        store::log_admitted(stored_state(snapshot), log.deep_view()),
    ensures
        r.journal.state.deep_view() == store::replayed(stored_state(snapshot), log.deep_view()),
        r.journal.since_compact == store::fresh_records(stored_state(snapshot), log.deep_view()),
{
    let ghost start = stored_state(snapshot);
    let n = log.len();
    let state = match snapshot {
        Some(state) => state,
        None => State::default(),
    };
    proof {
        assert(state.deep_view() == start);
        assert(n <= u64::MAX);
    }
    let mut journal = Journal::from_snapshot(state);
    journal.replay_all(log);
    App { journal }
}

/// The state that a snapshot holds; nothing without one.
pub open spec fn stored_state(snapshot: Option<State>) -> StateModel {
    match snapshot {
        Some(state) => state.deep_view(),
        None => store::empty_state(),
    }
}

/// A server of the workbench.
#[derive(Debug)]
pub struct HttpServer {
    pub app: App,
}

impl HttpServer {
    /// A server of an opened workbench.
    pub fn new(app: App) -> (r: Self)
        ensures
            r.app == app,
    {
        HttpServer { app }
    }
}

/// How far the head of a request is read.
#[derive(Clone, Copy, Debug, PartialEq, Eq, Structural)]
pub enum HeadProgress {
    Open,
    Complete,
    TooLarge,
}

/// How far a head is read with these bytes.
pub open spec fn head_progress(bytes: Seq<u8>) -> HeadProgress {
    let n = bytes.len() as int;
    if n > MAX_HEAD {
        HeadProgress::TooLarge
    } else if n >= 4 && bytes.skip(n - 4) == seq![0x0du8, 0x0a, 0x0d, 0x0a] {
        HeadProgress::Complete
    } else {
        HeadProgress::Open
    }
}

/// Adds a byte to the head of a request.
pub fn add_to_head(head: &mut Vec<u8>, byte: u8) -> (r: HeadProgress)
    ensures
        final(head)@ == old(head)@.push(byte),
        r == head_progress(final(head)@),
{
    head.push(byte);
    let n = head.len();
    if n > MAX_HEAD {
        return HeadProgress::TooLarge;
    }
    if n < 4 {
        return HeadProgress::Open;
    }
    let complete = head[n - 4] == 0x0d && head[n - 3] == 0x0a && head[n - 2] == 0x0d && head[n - 1]
        == 0x0a;
    proof {
        let tail = head@.skip(n - 4);
        let wanted = seq![0x0du8, 0x0a, 0x0d, 0x0a];
        assert(tail.len() == 4 && wanted.len() == 4);
        assert(tail[0] == head@[n - 4] && tail[1] == head@[n - 3] && tail[2] == head@[n - 2]
            && tail[3] == head@[n - 1]);
        if complete {
            assert(tail =~= wanted);
        } else {
            assert(wanted[0] == 0x0d && wanted[1] == 0x0a && wanted[2] == 0x0d && wanted[3]
                == 0x0a);
        }
    }
    if complete {
        HeadProgress::Complete
    } else {
        HeadProgress::Open
    }
}

/// The head of a request.
#[derive(Debug)]
pub struct Head {
    pub method: String,
    pub path: String,
    pub query: String,
    /// The headers by their names in lower case.
    pub headers: StringMap<String>,
}

/// The model of [`Head`].
#[verifier::ext_equal]
pub struct HeadModel {
    pub method: Seq<char>,
    pub path: Seq<char>,
    pub query: Seq<char>,
    pub headers: Map<Seq<char>, Seq<char>>,
}

impl DeepView for Head {
    type V = HeadModel;

    open spec fn deep_view(&self) -> HeadModel {
        HeadModel {
            method: self.method@,
            path: self.path@,
            query: self.query@,
            headers: self.headers.deep_view(),
        }
    }
}

/// The headers that lines give; of several with one name the last counts.
pub open spec fn headers_in(lines: Seq<Seq<char>>) -> Map<Seq<char>, Seq<char>>
    decreases lines.len(),
{
    if lines.len() == 0 {
        Map::empty()
    } else {
        let before = headers_in(lines.drop_last());
        match scan::split_once(lines.last(), ":"@) {
            Some(parts) => before.insert(
                text::lowercase_text(scan::trimmed(parts.0)),
                scan::trimmed(parts.1),
            ),
            None => before,
        }
    }
}

/// The head that a text holds.
pub open spec fn head_in(head: Seq<char>) -> HeadModel {
    let lines = scan::split(head, "\r\n"@);
    let (method, target) = http::request_line(lines[0]);
    let (path, query) = http::target_parts(target);
    HeadModel { method, path, query, headers: headers_in(lines.skip(1)) }
}

fn read_headers(lines: &Vec<String>) -> (r: StringMap<String>)
    requires
        lines@.len() > 0,
    ensures
        r.deep_view() == headers_in(lines.deep_view().skip(1)),
{
    broadcast use text::lemma_map_models_insert;

    let ghost model = lines.deep_view().skip(1);
    let mut headers: StringMap<String> = StringMap::new();
    let n = lines.len();
    proof {
        assert(model.take(0) =~= Seq::<Seq<char>>::empty());
        assert(headers.deep_view() =~= Map::<Seq<char>, Seq<char>>::empty());
    }
    for i in 1..n
        invariant
            n == lines@.len(),
            model == lines.deep_view().skip(1),
            headers.deep_view() == headers_in(model.take(i - 1)),
    {
        proof {
            assert(model.take(i as int).drop_last() =~= model.take(i - 1));
            assert(model.take(i as int).last() == lines@[i as int]@);
        }
        if let Some(parts) = split_text_once(lines[i].as_str(), ":") {
            let name = lowercase(trim(parts.0.as_str()).as_str());
            headers.insert(name, trim(parts.1.as_str()));
        }
    }
    proof {
        assert(model.take(n - 1) =~= model);
    }
    headers
}

/// Reads the text of a head.
pub fn parse_head_text(head: &str) -> (r: Head)
    ensures
        r.deep_view() == head_in(head@),
{
    proof {
        reveal_strlit("\r\n");
    }
    let lines = split_text(head, "\r\n");
    proof {
        assert(lines.deep_view()[0] == lines@[0]@);
    }
    let (method, target) = read_request_line(lines[0].as_str());
    let (path, query) = read_target(target.as_str());
    let headers = read_headers(&lines);
    Head { method, path, query, headers }
}

/// Reads the head of a request.
pub fn parse_head(head: &[u8]) -> (r: Head)
    ensures
        r.deep_view() == head_in(text::lossy_text(head@)),
{
    parse_head_text(lossy_string(head).as_str())
}

/// The length of the body that headers announce: zero where they announce none that can be read, and
/// nothing where it is more than is read.
pub open spec fn body_length_of(headers: Map<Seq<char>, Seq<char>>) -> Option<nat> {
    if headers.contains_key("content-length"@) {
        match scan::number_in(headers["content-length"@], usize::MAX as nat) {
            Ok(length) => if length > MAX_BODY {
                None
            } else {
                Some(length)
            },
            Err(_) => Some(0),
        }
    } else {
        Some(0)
    }
}

/// The first key, in order, that is a name but for the case of its letters.
pub open spec fn key_like(headers: Map<Seq<char>, Seq<char>>, name: Seq<char>, key: Seq<char>) -> bool {
    &&& headers.contains_key(key)
    &&& scan::same_ignoring_case(key, name)
    &&& forall|other: Seq<char>|
        #![trigger headers.contains_key(other)]
        headers.contains_key(other) && scan::same_ignoring_case(other, name) ==> other == key
            || order::text_less(key, other)
}

impl Head {
    /// The length of the body, unless it is more than is read.
    pub fn body_length(&self) -> (r: Option<usize>)
        ensures
            match body_length_of(self.headers.deep_view()) {
                Some(length) => r is Some && r->0 == length,
                None => r is None,
            },
    {
        match self.headers.get("content-length") {
            Some(value) => match parse_number(value.as_str(), usize::MAX as u64) {
                Ok(length) => if length > MAX_BODY as u64 {
                    None
                } else {
                    Some(length as usize)
                },
                Err(_) => Some(0),
            },
            None => Some(0),
        }
    }

    /// The idempotency key of the request.
    pub fn idempotency_key(&self) -> (r: Option<String>)
        ensures
            match r {
                Some(value) => exists|key: Seq<char>|
                    {
                        &&& #[trigger] key_like(
                            self.headers.deep_view(),
                            "idempotency-key"@,
                            key,
                        )
                        &&& value@ == self.headers.deep_view()[key]
                    },
                None => forall|key: Seq<char>|
                    #[trigger] self.headers.deep_view().contains_key(key)
                        ==> !scan::same_ignoring_case(key, "idempotency-key"@),
            },
    {
        let ghost keys = self.headers.keys();
        let n = self.headers.len();
        for i in 0..n
            invariant
                n == keys.len(),
                keys == self.headers.keys(),
                order::lists_in_order(keys, self.headers@.dom()),
                forall|k: int|
                    0 <= k < i ==> !scan::same_ignoring_case(
                        #[trigger] keys[k],
                        "idempotency-key"@,
                    ),
        {
            if eq_ignore_case(self.headers.key_at(i).as_str(), "idempotency-key") {
                proof {
                    let headers = self.headers.deep_view();
                    assert forall|other: Seq<char>|
                        #![trigger headers.contains_key(other)]
                        headers.contains_key(other) && scan::same_ignoring_case(
                            other,
                            "idempotency-key"@,
                        ) implies other == keys[i as int] || order::text_less(
                        keys[i as int],
                        other,
                    ) by {
                        assert(keys.contains(other));
                    }
                    assert(key_like(headers, "idempotency-key"@, keys[i as int]));
                }
                return Some(self.headers.value_at(i).clone());
            }
        }
        None
    }
}

/// The words that go with a status.
pub open spec fn reason_of(status: u16) -> Seq<char> {
    if status == 201 {
        "Created"@
    } else if status == 400 {
        "Bad Request"@
    } else if status == 404 {
        "Not Found"@
    } else if status == 405 {
        "Method Not Allowed"@
    } else if status == 409 {
        "Conflict"@
    } else if status == 500 {
        "Internal Server Error"@
    } else {
        "OK"@
    }
}

/// The words that go with a status.
pub fn reason_phrase(status: u16) -> (r: &'static str)
    ensures
        r@ == reason_of(status),
{
    if status == 201 {
        "Created"
    } else if status == 400 {
        "Bad Request"
    } else if status == 404 {
        "Not Found"
    } else if status == 405 {
        "Method Not Allowed"
    } else if status == 409 {
        "Conflict"
    } else if status == 500 {
        "Internal Server Error"
    } else {
        "OK"
    }
}

/// The head of a response.
pub open spec fn head_text(status: u16, content_type: Seq<char>, length: nat) -> Seq<char> {
    "HTTP/1.1 "@ + text::decimal_text(status as nat) + " "@ + reason_of(status)
        + "\r\nContent-Type: "@ + content_type + "\r\nContent-Length: "@ + text::decimal_text(length)
        + "\r\nCache-Control: no-store\r\nConnection: close\r\n\r\n"@
}

/// The head of a response.
pub fn response_head(status: u16, content_type: &str, length: usize) -> (r: String)
    ensures
        r@ == head_text(status, content_type@, length as nat),
{
    let mut out = "HTTP/1.1 ".to_owned();
    push_decimal(&mut out, status as u64);
    out.push_str(" ");
    out.push_str(reason_phrase(status));
    out.push_str("\r\nContent-Type: ");
    out.push_str(content_type);
    out.push_str("\r\nContent-Length: ");
    push_decimal(&mut out, length as u64);
    out.push_str("\r\nCache-Control: no-store\r\nConnection: close\r\n\r\n");
    proof {
        assert(out@ =~= head_text(status, content_type@, length as nat));
    }
    out
}

/// Why a request is not answered.
#[derive(Clone, Debug, PartialEq, Eq)]
pub enum ApiError {
    BadRequest { message: String },
    NotFound { message: String },
}

/// The model of [`ApiError`].
#[verifier::ext_equal]
pub enum ApiErrorModel {
    BadRequest { message: Seq<char> },
    NotFound { message: Seq<char> },
}

impl DeepView for ApiError {
    type V = ApiErrorModel;

    open spec fn deep_view(&self) -> ApiErrorModel {
        match self {
            ApiError::BadRequest { message } => ApiErrorModel::BadRequest {
                message: message@,
            },
            ApiError::NotFound { message } => ApiErrorModel::NotFound {
                message: message@,
            },
        }
    }
}

impl ApiError {
    /// The status of the response.
    pub fn status(&self) -> (r: u16)
        ensures
            r == (match self.deep_view() {
                ApiErrorModel::BadRequest { .. } => 400u16,
                ApiErrorModel::NotFound { .. } => 404u16,
            }),
    {
        match self {
            ApiError::BadRequest { .. } => 400,
            ApiError::NotFound { .. } => 404,
        }
    }
}

/// A request for something that is not there.
pub open spec fn not_found(message: Seq<char>) -> ApiErrorModel {
    ApiErrorModel::NotFound { message }
}

/// A request that makes no sense.
pub open spec fn bad_request(message: Seq<char>) -> ApiErrorModel {
    ApiErrorModel::BadRequest { message }
}

fn missing(message: &str) -> (r: ApiError)
    ensures
        r.deep_view() == not_found(message@),
{
    ApiError::NotFound { message: message.to_owned() }
}

/// Which records of an analysis are shown, and which of their stages.
#[derive(Debug, Clone)]
pub struct RecordFilter {
    /// Only the stage of this name.
    pub stage: Option<String>,
    /// Only records with issues.
    pub issue_only: bool,
    /// Only the record of this number.
    pub record: Option<String>,
}

/// The model of [`RecordFilter`].
#[verifier::ext_equal]
pub struct RecordFilterModel {
    pub stage: Option<Seq<char>>,
    pub issue_only: bool,
    pub record: Option<Seq<char>>,
}

impl DeepView for RecordFilter {
    type V = RecordFilterModel;

    open spec fn deep_view(&self) -> RecordFilterModel {
        RecordFilterModel {
            stage: self.stage.deep_view(),
            issue_only: self.issue_only,
            record: self.record.deep_view(),
        }
    }
}

/// What a request asks for.
#[derive(Debug, Clone)]
pub enum Route {
    Index,
    Script,
    Styles,
    Version,
    Overview,
    CreateRuleset,
    UpgradeTables,
    ImportDataset,
    BuildAnalysis,
    GetAnalysis { id: Id, filter: RecordFilter },
    CreatePlan,
    GetPlan { id: Id },
    SetDecisions { id: Id },
    Simulate { id: Id },
    Approve { id: Id },
    ExportPlan { id: Id },
    Search { id: Id, text: String },
    Compare { a: Id, b: Id },
}

/// The model of [`Route`].
#[verifier::ext_equal]
pub enum RouteModel {
    Index,
    Script,
    Styles,
    Version,
    Overview,
    CreateRuleset,
    UpgradeTables,
    ImportDataset,
    BuildAnalysis,
    GetAnalysis { id: Id, filter: RecordFilterModel },
    CreatePlan,
    GetPlan { id: Id },
    SetDecisions { id: Id },
    Simulate { id: Id },
    Approve { id: Id },
    ExportPlan { id: Id },
    Search { id: Id, text: Seq<char> },
    Compare { a: Id, b: Id },
}

impl DeepView for Route {
    type V = RouteModel;

    open spec fn deep_view(&self) -> RouteModel {
        match self {
            Route::Index => RouteModel::Index,
            Route::Script => RouteModel::Script,
            Route::Styles => RouteModel::Styles,
            Route::Version => RouteModel::Version,
            Route::Overview => RouteModel::Overview,
            Route::CreateRuleset => RouteModel::CreateRuleset,
            Route::UpgradeTables => RouteModel::UpgradeTables,
            Route::ImportDataset => RouteModel::ImportDataset,
            Route::BuildAnalysis => RouteModel::BuildAnalysis,
            Route::GetAnalysis { id, filter } => RouteModel::GetAnalysis {
                id: *id,
                filter: filter.deep_view(),
            },
            Route::CreatePlan => RouteModel::CreatePlan,
            Route::GetPlan { id } => RouteModel::GetPlan {
                id: *id,
            },
            Route::SetDecisions { id } => RouteModel::SetDecisions {
                id: *id,
            },
            Route::Simulate { id } => RouteModel::Simulate {
                id: *id,
            },
            Route::Approve { id } => RouteModel::Approve {
                id: *id,
            },
            Route::ExportPlan { id } => RouteModel::ExportPlan {
                id: *id,
            },
            Route::Search { id, text } => RouteModel::Search {
                id: *id,
                text: text@,
            },
            Route::Compare { a, b } => RouteModel::Compare {
                a: *a,
                b: *b,
            },
        }
    }
}

/// The number that a text stands for, if it stands for one.
pub open spec fn id_in(s: Seq<char>) -> Option<Id> {
    match scan::number_in(s, u64::MAX as nat) {
        Ok(value) => Some(value as Id),
        Err(_) => None,
    }
}

/// The value of a parameter.
pub open spec fn param(params: Map<Seq<char>, Seq<char>>, key: Seq<char>) -> Option<Seq<char>> {
    if params.contains_key(key) {
        Some(params[key])
    } else {
        None
    }
}

/// The number that a parameter stands for, if it is there and stands for one.
pub open spec fn id_param(params: Map<Seq<char>, Seq<char>>, key: Seq<char>) -> Option<Id> {
    match param(params, key) {
        Some(value) => id_in(value),
        None => None,
    }
}

/// The parts of a path.
pub open spec fn segments(path: Seq<char>) -> Seq<Seq<char>> {
    scan::split(scan::trim_start_of(path, '/'), "/"@)
}

/// A path below `/api` that begins with a part.
pub open spec fn below(segs: Seq<Seq<char>>, part: Seq<char>) -> bool {
    segs.len() >= 2 && segs[0] == "api"@ && segs[1] == part
}

/// What a request on plans asks for.
pub open spec fn plan_route_of(
    method: Seq<char>,
    path: Seq<char>,
    segs: Seq<Seq<char>>,
) -> Result<RouteModel, ApiErrorModel> {
    let get = method == "GET"@;
    let post = method == "POST"@;
    if post && segs.len() == 2 {
        Ok(RouteModel::CreatePlan)
    } else if segs.len() < 3 || id_in(segs[2]) is None {
        Err(not_found("bad plan id"@))
    } else {
        let id = id_in(segs[2])->0;
        if get && segs.len() == 3 {
            Ok(RouteModel::GetPlan { id })
        } else if method == "PUT"@ && segs.len() == 4 && segs[3] == "decisions"@ {
            Ok(RouteModel::SetDecisions { id })
        } else if post && segs.len() == 4 && segs[3] == "simulate"@ {
            Ok(RouteModel::Simulate { id })
        } else if post && segs.len() == 4 && segs[3] == "approve"@ {
            Ok(RouteModel::Approve { id })
        } else if get && segs.len() == 4 && segs[3] == "export"@ {
            Ok(RouteModel::ExportPlan { id })
        } else {
            Err(not_found("no plan route for "@ + method + " "@ + path))
        }
    }
}

/// What a request with numbers in its path or query asks for.
pub open spec fn dynamic_route_of(
    method: Seq<char>,
    path: Seq<char>,
    query: Seq<char>,
) -> Result<RouteModel, ApiErrorModel> {
    let segs = segments(path);
    let params = urls::query_map(query);
    let get = method == "GET"@;
    if get && segs.len() == 3 && below(segs, "analyses"@) {
        match id_in(segs[2]) {
            None => Err(not_found("bad id"@)),
            Some(id) => Ok(
                RouteModel::GetAnalysis {
                    id,
                    filter: RecordFilterModel {
                        stage: param(params, "stage"@),
                        issue_only: params.contains_key("issue"@),
                        record: param(params, "record"@),
                    },
                },
            ),
        }
    } else if below(segs, "plans"@) {
        plan_route_of(method, path, segs)
    } else if get && segs.len() == 3 && below(segs, "search"@) {
        match id_in(segs[2]) {
            None => Err(not_found("bad id"@)),
            Some(id) => Ok(
                RouteModel::Search {
                    id,
                    text: match param(params, "q"@) {
                        Some(value) => value,
                        None => seq![],
                    },
                },
            ),
        }
    } else if get && path == "/api/compare"@ {
        match id_param(params, "a"@) {
            None => Err(bad_request("missing a"@)),
            Some(a) => match id_param(params, "b"@) {
                None => Err(bad_request("missing b"@)),
                Some(b) => Ok(RouteModel::Compare { a, b }),
            },
        }
    } else {
        Err(not_found("no route for "@ + method + " "@ + path))
    }
}

/// What a request asks for, by its method, path and query.
pub open spec fn route_of(method: Seq<char>, path: Seq<char>, query: Seq<char>) -> Result<
    RouteModel,
    ApiErrorModel,
> {
    let get = method == "GET"@;
    let post = method == "POST"@;
    if get && (path == "/"@ || path == "/index.html"@) {
        Ok(RouteModel::Index)
    } else if get && path == "/static/app.js"@ {
        Ok(RouteModel::Script)
    } else if get && path == "/static/styles.css"@ {
        Ok(RouteModel::Styles)
    } else if get && path == "/api/version"@ {
        Ok(RouteModel::Version)
    } else if get && path == "/api/state"@ {
        Ok(RouteModel::Overview)
    } else if post && path == "/api/rulesets"@ {
        Ok(RouteModel::CreateRuleset)
    } else if post && path == "/api/tables/upgrade"@ {
        Ok(RouteModel::UpgradeTables)
    } else if post && path == "/api/datasets"@ {
        Ok(RouteModel::ImportDataset)
    } else if post && path == "/api/analyses"@ {
        Ok(RouteModel::BuildAnalysis)
    } else {
        dynamic_route_of(method, path, query)
    }
}

fn read_id(s: &str) -> (r: Option<Id>)
    ensures
        r == id_in(s@),
{
    match parse_number(s, u64::MAX) {
        Ok(value) => Some(value),
        Err(_) => None,
    }
}

fn read_param(params: &StringMap<String>, key: &str) -> (r: Option<String>)
    ensures
        r.deep_view() == param(params.deep_view(), key@),
{
    match params.get(key) {
        Some(value) => Some(value.clone()),
        None => None,
    }
}

fn read_id_param(params: &StringMap<String>, key: &str) -> (r: Option<Id>)
    ensures
        r == id_param(params.deep_view(), key@),
{
    match params.get(key) {
        Some(value) => read_id(value.as_str()),
        None => None,
    }
}

fn part_is(segs: &Vec<String>, i: usize, part: &str) -> (r: bool)
    requires
        i < segs@.len(),
    ensures
        r == (segs.deep_view()[i as int] == part@),
{
    str_eq(segs[i].as_str(), part)
}

fn is_below(segs: &Vec<String>, part: &str) -> (r: bool)
    ensures
        r == below(segs.deep_view(), part@),
{
    segs.len() >= 2 && part_is(segs, 0, "api") && part_is(segs, 1, part)
}

fn no_route(what: &str, method: &str, path: &str) -> (r: ApiError)
    ensures
        r.deep_view() == not_found(what@ + method@ + " "@ + path@),
{
    let mut message = what.to_owned();
    message.push_str(method);
    message.push_str(" ");
    message.push_str(path);
    ApiError::NotFound { message }
}

/// The model of an answer or of the reason why there is none.
pub open spec fn outcome<T: DeepView>(r: Result<T, ApiError>) -> Result<T::V, ApiErrorModel> {
    match r {
        Ok(value) => Ok(value.deep_view()),
        Err(error) => Err(error.deep_view()),
    }
}

fn route_plans(method: &str, path: &str, segs: &Vec<String>) -> (r: Result<Route, ApiError>)
    requires
        segs@.len() >= 2,
    ensures
        outcome(r) == plan_route_of(method@, path@, segs.deep_view()),
{
    let get = str_eq(method, "GET");
    let post = str_eq(method, "POST");
    if post && segs.len() == 2 {
        return Ok(Route::CreatePlan);
    }
    if segs.len() < 3 {
        return Err(missing("bad plan id"));
    }
    proof {
        assert(segs.deep_view()[2] == segs@[2]@);
    }
    let id: Id = match read_id(segs[2].as_str()) {
        Some(id) => id,
        None => {
            return Err(missing("bad plan id"));
        },
    };
    if get && segs.len() == 3 {
        Ok(Route::GetPlan { id })
    } else if str_eq(method, "PUT") && segs.len() == 4 && part_is(segs, 3, "decisions") {
        Ok(Route::SetDecisions { id })
    } else if post && segs.len() == 4 && part_is(segs, 3, "simulate") {
        Ok(Route::Simulate { id })
    } else if post && segs.len() == 4 && part_is(segs, 3, "approve") {
        Ok(Route::Approve { id })
    } else if get && segs.len() == 4 && part_is(segs, 3, "export") {
        Ok(Route::ExportPlan { id })
    } else {
        Err(no_route("no plan route for ", method, path))
    }
}

fn route_dynamic(method: &str, path: &str, query: &str) -> (r: Result<Route, ApiError>)
    ensures
        outcome(r) == dynamic_route_of(method@, path@, query@),
{
    proof {
        reveal_strlit("/");
    }
    let trimmed = trim_start_matches(path, '/');
    let segs = split_text(trimmed.as_str(), "/");
    proof {
        if segs@.len() > 2 {
            assert(segs.deep_view()[2] == segs@[2]@);
        }
    }
    let params = query_params(query);
    let get = str_eq(method, "GET");
    if get && segs.len() == 3 && is_below(&segs, "analyses") {
        return match read_id(segs[2].as_str()) {
            None => Err(missing("bad id")),
            Some(id) => Ok(
                Route::GetAnalysis {
                    id,
                    filter: RecordFilter {
                        stage: read_param(&params, "stage"),
                        issue_only: params.contains_key("issue"),
                        record: read_param(&params, "record"),
                    },
                },
            ),
        };
    }
    if is_below(&segs, "plans") {
        return route_plans(method, path, &segs);
    }
    if get && segs.len() == 3 && is_below(&segs, "search") {
        return match read_id(segs[2].as_str()) {
            None => Err(missing("bad id")),
            Some(id) => {
                let text = match read_param(&params, "q") {
                    Some(value) => value,
                    None => String::new(),
                };
                Ok(Route::Search { id, text })
            },
        };
    }
    if get && str_eq(path, "/api/compare") {
        let a: Id = match read_id_param(&params, "a") {
            Some(a) => a,
            None => {
                return Err(ApiError::BadRequest { message: "missing a".to_owned() });
            },
        };
        return match read_id_param(&params, "b") {
            Some(b) => Ok(Route::Compare { a, b }),
            None => Err(ApiError::BadRequest { message: "missing b".to_owned() }),
        };
    }
    Err(no_route("no route for ", method, path))
}

/// Chooses what a request asks for.
pub fn route(method: &str, path: &str, query: &str) -> (r: Result<Route, ApiError>)
    ensures
        outcome(r) == route_of(method@, path@, query@),
{
    let get = str_eq(method, "GET");
    let post = str_eq(method, "POST");
    if get && (str_eq(path, "/") || str_eq(path, "/index.html")) {
        Ok(Route::Index)
    } else if get && str_eq(path, "/static/app.js") {
        Ok(Route::Script)
    } else if get && str_eq(path, "/static/styles.css") {
        Ok(Route::Styles)
    } else if get && str_eq(path, "/api/version") {
        Ok(Route::Version)
    } else if get && str_eq(path, "/api/state") {
        Ok(Route::Overview)
    } else if post && str_eq(path, "/api/rulesets") {
        Ok(Route::CreateRuleset)
    } else if post && str_eq(path, "/api/tables/upgrade") {
        Ok(Route::UpgradeTables)
    } else if post && str_eq(path, "/api/datasets") {
        Ok(Route::ImportDataset)
    } else if post && str_eq(path, "/api/analyses") {
        Ok(Route::BuildAnalysis)
    } else {
        route_dynamic(method, path, query)
    }
}

/// A data set in an overview.
#[derive(Debug, Clone)]
pub struct DatasetSummary {
    pub id: Id,
    pub label: String,
    pub count: usize,
}

/// The model of [`DatasetSummary`].
#[verifier::ext_equal]
pub struct DatasetSummaryModel {
    pub id: Id,
    pub label: Seq<char>,
    pub count: usize,
}

impl DeepView for DatasetSummary {
    type V = DatasetSummaryModel;

    open spec fn deep_view(&self) -> DatasetSummaryModel {
        DatasetSummaryModel {
            id: self.id,
            label: self.label@,
            count: self.count,
        }
    }
}

/// An analysis in an overview.
#[derive(Clone, Copy, Debug, PartialEq, Eq)]
pub struct AnalysisSummary {
    pub id: Id,
    pub dataset_id: Id,
    pub ruleset_id: Id,
    pub ruleset_revision: u32,
    pub buckets: usize,
    /// The buckets whose members differ.
    pub conflict_buckets: usize,
}

/// The model of [`AnalysisSummary`].
#[verifier::ext_equal]
pub struct AnalysisSummaryModel {
    pub id: Id,
    pub dataset_id: Id,
    pub ruleset_id: Id,
    pub ruleset_revision: u32,
    pub buckets: usize,
    pub conflict_buckets: usize,
}

impl DeepView for AnalysisSummary {
    type V = AnalysisSummaryModel;

    open spec fn deep_view(&self) -> AnalysisSummaryModel {
        AnalysisSummaryModel {
            id: self.id,
            dataset_id: self.dataset_id,
            ruleset_id: self.ruleset_id,
            ruleset_revision: self.ruleset_revision,
            buckets: self.buckets,
            conflict_buckets: self.conflict_buckets,
        }
    }
}

/// A plan in an overview.
#[derive(Clone, Copy, Debug, PartialEq, Eq)]
pub struct PlanSummary {
    pub id: Id,
    pub analysis_id: Id,
    pub status: PlanStatus,
    pub decisions: usize,
}

/// The model of [`PlanSummary`].
#[verifier::ext_equal]
pub struct PlanSummaryModel {
    pub id: Id,
    pub analysis_id: Id,
    pub status: PlanStatus,
    pub decisions: usize,
}

impl DeepView for PlanSummary {
    type V = PlanSummaryModel;

    open spec fn deep_view(&self) -> PlanSummaryModel {
        PlanSummaryModel {
            id: self.id,
            analysis_id: self.analysis_id,
            status: self.status,
            decisions: self.decisions,
        }
    }
}

/// A bucket with members that differ.
pub open spec fn conflicting(bucket: BucketModel) -> bool {
    bucket.record_nos.len() > 1 && !bucket.identical_originals
}

/// A data set in an overview.
pub fn dataset_summary(d: &Dataset) -> (r: DatasetSummary)
    ensures
        r.id == d.id,
        r.label@ == d.label@,
        r.count == d.records@.len(),
{
    DatasetSummary { id: d.id, label: d.label.clone(), count: d.records.len() }
}

fn conflict_count(buckets: &Vec<Bucket>) -> (r: usize)
    ensures
        r == buckets.deep_view().filter(|b: BucketModel| conflicting(b)).len(),
{
    let ghost model = buckets.deep_view();
    let ghost wanted = |b: BucketModel| conflicting(b);
    let mut n: usize = 0;
    proof {
        reveal(Seq::filter);
        assert(model.take(0) =~= Seq::<BucketModel>::empty());
    }
    for i in 0..buckets.len()
        invariant
            model == buckets.deep_view(),
            wanted == (|b: BucketModel| conflicting(b)),
            n == model.take(i as int).filter(wanted).len(),
            n <= i,
    {
        proof {
            reveal(Seq::filter);
            assert(model.take(i + 1).drop_last() =~= model.take(i as int));
            assert(model.take(i + 1).last() == buckets@[i as int].deep_view());
        }
        if buckets[i].record_nos.len() > 1 && !buckets[i].identical_originals {
            n = n + 1;
        }
    }
    proof {
        assert(model.take(model.len() as int) =~= model);
    }
    n
}

/// An analysis in an overview.
pub fn analysis_summary(a: &Analysis) -> (r: AnalysisSummary)
    ensures
        r.id == a.id,
        r.dataset_id == a.dataset_id,
        r.ruleset_id == a.ruleset_id,
        r.ruleset_revision == a.ruleset_revision,
        r.buckets == a.buckets@.len(),
        r.conflict_buckets == a.buckets.deep_view().filter(
            |b: BucketModel| conflicting(b),
        ).len(),
{
    AnalysisSummary {
        id: a.id,
        dataset_id: a.dataset_id,
        ruleset_id: a.ruleset_id,
        ruleset_revision: a.ruleset_revision,
        buckets: a.buckets.len(),
        conflict_buckets: conflict_count(&a.buckets),
    }
}

/// A plan in an overview.
pub fn plan_summary(p: &Plan) -> (r: PlanSummary)
    ensures
        r.id == p.id,
        r.analysis_id == p.analysis_id,
        r.status == p.status,
        r.decisions == p.decisions.keys().len(),
{
    PlanSummary {
        id: p.id,
        analysis_id: p.analysis_id,
        status: p.status,
        decisions: p.decisions.len(),
    }
}

/// A record of an analysis as it is shown.
#[derive(Debug, Clone)]
pub struct RecordView {
    pub record_no: String,
    pub raw_hex: String,
    pub canonical: String,
    pub canonical_cps: Vec<u32>,
    pub scripts: Vec<String>,
    pub mixed_script: bool,
    pub restriction_violated: bool,
    pub issues: Vec<Issue>,
    pub stages: Vec<StageView>,
}

/// The model of [`RecordView`].
#[verifier::ext_equal]
pub struct RecordViewModel {
    pub record_no: Seq<char>,
    pub raw_hex: Seq<char>,
    pub canonical: Seq<char>,
    pub canonical_cps: Seq<u32>,
    pub scripts: Seq<Seq<char>>,
    pub mixed_script: bool,
    pub restriction_violated: bool,
    pub issues: Seq<IssueModel>,
    pub stages: Seq<StageModel>,
}

impl DeepView for RecordView {
    type V = RecordViewModel;

    open spec fn deep_view(&self) -> RecordViewModel {
        RecordViewModel {
            record_no: self.record_no@,
            raw_hex: self.raw_hex@,
            canonical: self.canonical@,
            canonical_cps: self.canonical_cps.deep_view(),
            scripts: self.scripts.deep_view(),
            mixed_script: self.mixed_script,
            restriction_violated: self.restriction_violated,
            issues: self.issues.deep_view(),
            stages: self.stages.deep_view(),
        }
    }
}

/// An analysis as it is shown.
#[derive(Debug, Clone)]
pub struct AnalysisPage {
    pub id: Id,
    pub dataset_id: Id,
    pub ruleset_id: Id,
    pub ruleset_revision: u32,
    pub config: RuleConfig,
    pub tables: TableVersions,
    pub buckets: Vec<Bucket>,
    pub records: Vec<RecordView>,
}

/// The model of [`AnalysisPage`].
#[verifier::ext_equal]
pub struct AnalysisPageModel {
    pub id: Id,
    pub dataset_id: Id,
    pub ruleset_id: Id,
    pub ruleset_revision: u32,
    pub config: RuleConfigModel,
    pub tables: TableVersionsModel,
    pub buckets: Seq<BucketModel>,
    pub records: Seq<RecordViewModel>,
}

impl DeepView for AnalysisPage {
    type V = AnalysisPageModel;

    open spec fn deep_view(&self) -> AnalysisPageModel {
        AnalysisPageModel {
            id: self.id,
            dataset_id: self.dataset_id,
            ruleset_id: self.ruleset_id,
            ruleset_revision: self.ruleset_revision,
            config: self.config.deep_view(),
            tables: self.tables.deep_view(),
            buckets: self.buckets.deep_view(),
            records: self.records.deep_view(),
        }
    }
}

/// A plan as it is shown, with what it was made for if that is known.
#[derive(Debug, Clone)]
pub struct PlanPage {
    pub plan: Plan,
    pub version: u64,
    pub buckets: Option<Vec<Bucket>>,
    pub config: Option<RuleConfig>,
}

/// The model of [`PlanPage`].
#[verifier::ext_equal]
pub struct PlanPageModel {
    pub plan: PlanModel,
    pub version: u64,
    pub buckets: Option<Seq<BucketModel>>,
    pub config: Option<RuleConfigModel>,
}

impl DeepView for PlanPage {
    type V = PlanPageModel;

    open spec fn deep_view(&self) -> PlanPageModel {
        PlanPageModel {
            plan: self.plan.deep_view(),
            version: self.version,
            buckets: self.buckets.deep_view(),
            config: self.config.deep_view(),
        }
    }
}

/// A record that a filter lets through.
pub open spec fn is_shown(record: AnalyzedRecordModel, filter: RecordFilterModel) -> bool {
    &&& (filter.record matches Some(no) ==> record.record_no == no)
    &&& (filter.issue_only ==> record.trace.issues.len() > 0)
}

/// The stages that a filter lets through.
pub open spec fn shown_stages(stages: Seq<StageModel>, name: Option<Seq<char>>) -> Seq<StageModel> {
    stages.filter(|stage: StageModel| name matches Some(n) ==> stage.name == n)
}

/// A record as it is shown.
pub open spec fn record_view(record: AnalyzedRecordModel, filter: RecordFilterModel) -> RecordViewModel {
    RecordViewModel {
        record_no: record.record_no,
        raw_hex: hex_bytes::hex_text(record.raw),
        canonical: record.trace.canonical,
        canonical_cps: record.trace.canonical_cps,
        scripts: record.trace.scripts,
        mixed_script: record.trace.mixed_script,
        restriction_violated: record.trace.restriction_violated,
        issues: record.trace.issues,
        stages: shown_stages(record.trace.stages, filter.stage),
    }
}

/// The records of an analysis as they are shown.
pub open spec fn record_views(
    records: Seq<AnalyzedRecordModel>,
    filter: RecordFilterModel,
) -> Seq<RecordViewModel> {
    records.filter(|record: AnalyzedRecordModel| is_shown(record, filter)).map_values(
        |record: AnalyzedRecordModel| record_view(record, filter),
    )
}

/// An analysis as it is shown.
pub open spec fn analysis_page_of(analysis: AnalysisModel, filter: RecordFilterModel) -> AnalysisPageModel {
    AnalysisPageModel {
        id: analysis.id,
        dataset_id: analysis.dataset_id,
        ruleset_id: analysis.ruleset_id,
        ruleset_revision: analysis.ruleset_revision,
        config: analysis.config,
        tables: analysis.tables,
        buckets: analysis.buckets,
        records: record_views(analysis.records, filter),
    }
}

fn is_named(stage: &StageView, name: &Option<String>) -> (r: bool)
    ensures
        r == (name.deep_view() matches Some(n) ==> stage.deep_view().name == n),
{
    match name {
        Some(n) => str_eq(stage.name.as_str(), n.as_str()),
        None => true,
    }
}

fn show_stages(stages: &Vec<StageView>, name: &Option<String>) -> (r: Vec<StageView>)
    ensures
        r.deep_view() == shown_stages(stages.deep_view(), name.deep_view()),
{
    broadcast use {text::lemma_models_push, text::lemma_vec_model};

    let ghost model = stages.deep_view();
    let ghost chosen = name.deep_view();
    let ghost wanted = |stage: StageModel| chosen matches Some(n) ==> stage.name == n;
    let mut out: Vec<StageView> = Vec::new();
    proof {
        reveal(Seq::filter);
        assert(model.take(0) =~= Seq::<StageModel>::empty());
        assert(text::models(out@) =~= Seq::<StageModel>::empty());
    }
    for i in 0..stages.len()
        invariant
            model == stages.deep_view(),
            chosen == name.deep_view(),
            wanted == (|stage: StageModel| chosen matches Some(n) ==> stage.name == n),
            text::models(out@) == model.take(i as int).filter(wanted),
    {
        proof {
            reveal(Seq::filter);
            assert(model.take(i + 1).drop_last() =~= model.take(i as int));
            assert(model.take(i + 1).last() == stages@[i as int].deep_view());
        }
        if is_named(&stages[i], name) {
            out.push(stages[i].duplicate());
        }
    }
    proof {
        assert(model.take(model.len() as int) =~= model);
    }
    out
}

fn is_record_shown(record: &AnalyzedRecord, filter: &RecordFilter) -> (r: bool)
    ensures
        r == is_shown(record.deep_view(), filter.deep_view()),
{
    let right = match &filter.record {
        Some(no) => str_eq(record.record_no.as_str(), no.as_str()),
        None => true,
    };
    right && (!filter.issue_only || record.trace.issues.len() > 0)
}

fn show_record(record: &AnalyzedRecord, filter: &RecordFilter) -> (r: RecordView)
    ensures
        r.deep_view() == record_view(record.deep_view(), filter.deep_view()),
{
    let canonical_cps = record.trace.canonical_cps.duplicate();
    proof {
        assert(record.trace.canonical_cps@ =~= record.trace.canonical_cps.deep_view());
    }
    RecordView {
        record_no: record.record_no.clone(),
        raw_hex: to_hex(record.raw.as_slice()),
        canonical: record.trace.canonical.clone(),
        canonical_cps,
        scripts: record.trace.scripts.duplicate(),
        mixed_script: record.trace.mixed_script,
        restriction_violated: record.trace.restriction_violated,
        issues: record.trace.issues.duplicate(),
        stages: show_stages(&record.trace.stages, &filter.stage),
    }
}

/// Shows records of an analysis.
pub fn show_records(records: &Vec<AnalyzedRecord>, filter: &RecordFilter) -> (r: Vec<RecordView>)
    ensures
        r.deep_view() == record_views(records.deep_view(), filter.deep_view()),
{
    broadcast use {text::lemma_models_push, text::lemma_vec_model};

    let ghost model = records.deep_view();
    let ghost f = filter.deep_view();
    let ghost wanted = |record: AnalyzedRecordModel| is_shown(record, f);
    let ghost view = |record: AnalyzedRecordModel| record_view(record, f);
    let mut out: Vec<RecordView> = Vec::new();
    proof {
        reveal(Seq::filter);
        assert(model.take(0) =~= Seq::<AnalyzedRecordModel>::empty());
        assert(text::models(out@) =~= model.take(0).filter(wanted).map_values(view));
    }
    for i in 0..records.len()
        invariant
            model == records.deep_view(),
            f == filter.deep_view(),
            wanted == (|record: AnalyzedRecordModel| is_shown(record, f)),
            view == (|record: AnalyzedRecordModel| record_view(record, f)),
            text::models(out@) == model.take(i as int).filter(wanted).map_values(view),
    {
        let ghost before = model.take(i as int).filter(wanted);
        proof {
            reveal(Seq::filter);
            assert(model.take(i + 1).drop_last() =~= model.take(i as int));
            assert(model.take(i + 1).last() == records@[i as int].deep_view());
            assert(before.push(model[i as int]).map_values(view) =~= before.map_values(view).push(
                view(model[i as int]),
            ));
        }
        if is_record_shown(&records[i], filter) {
            out.push(show_record(&records[i], filter));
        }
    }
    proof {
        assert(model.take(model.len() as int) =~= model);
    }
    out
}

/// Shows an analysis.
pub fn show_analysis(analysis: &Analysis, filter: &RecordFilter) -> (r: AnalysisPage)
    ensures
        r.deep_view() == analysis_page_of(analysis.deep_view(), filter.deep_view()),
{
    AnalysisPage {
        id: analysis.id,
        dataset_id: analysis.dataset_id,
        ruleset_id: analysis.ruleset_id,
        ruleset_revision: analysis.ruleset_revision,
        config: analysis.config.duplicate(),
        tables: analysis.tables.duplicate(),
        buckets: analysis.buckets.duplicate(),
        records: show_records(&analysis.records, filter),
    }
}

/// A plan as it is shown.
pub open spec fn plan_page_of(s: StateModel, plan: PlanModel, id: Id) -> PlanPageModel {
    let known = s.analyses.contains_key(plan.analysis_id);
    PlanPageModel {
        plan,
        version: s.version_of(store::resource_name("plan:"@, id)),
        buckets: if known {
            Some(s.analyses[plan.analysis_id].buckets)
        } else {
            None
        },
        config: if known {
            Some(s.analyses[plan.analysis_id].config)
        } else {
            None
        },
    }
}

impl App {
    /// Shows an analysis.
    pub fn analysis_page(&self, id: Id, filter: &RecordFilter) -> (r: Result<
        AnalysisPage,
        ApiError,
    >)
        ensures
            outcome(r) == ({
                let s = self.journal.state.deep_view();
                if s.analyses.contains_key(id) {
                    Ok(analysis_page_of(s.analyses[id], filter.deep_view()))
                } else {
                    Err(not_found("analysis not found"@))
                }
            }),
    {
        match self.journal.state.analyses.get(&id) {
            Some(analysis) => Ok(show_analysis(analysis, filter)),
            None => Err(missing("analysis not found")),
        }
    }

    /// Shows a plan.
    pub fn plan_page(&self, id: Id) -> (r: Result<PlanPage, ApiError>)
        ensures
            outcome(r) == ({
                let s = self.journal.state.deep_view();
                if s.plans.contains_key(id) {
                    Ok(plan_page_of(s, s.plans[id], id))
                } else {
                    Err(not_found("plan not found"@))
                }
            }),
    {
        let plan = match self.journal.state.plans.get(&id) {
            Some(plan) => plan,
            None => {
                return Err(missing("plan not found"));
            },
        };
        let mut resource = "plan:".to_owned();
        push_decimal(&mut resource, id);
        let version = self.journal.state.version_of(resource.as_str());
        match self.journal.state.analyses.get(&plan.analysis_id) {
            Some(analysis) => Ok(
                PlanPage {
                    plan: plan.duplicate(),
                    version,
                    buckets: Some(analysis.buckets.duplicate()),
                    config: Some(analysis.config.duplicate()),
                },
            ),
            None => Ok(PlanPage { plan: plan.duplicate(), version, buckets: None, config: None }),
        }
    }
}

} // verus!
