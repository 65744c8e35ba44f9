//! The HTTP face of the collision workbench: reading of requests, choice of the route, and heads of
//! responses.

use vstd::prelude::*;
use vstd::utf8::*;

use crate::scan;
use crate::scan::{
    eq_ignore_case, has_prefix, has_suffix, middle, parse_number, split_text, split_text_once,
    take_word, trim, trim_end_matches, NumberError,
};
use crate::text;
use crate::text::{lossy_string, push_decimal, str_eq};
use crate::urls;
use crate::urls::values_of;

verus! {

/// The headers: all that stands before the first empty line.
pub open spec fn headers_of(initial: Seq<char>) -> Seq<char> {
    scan::split(initial, "\r\n\r\n"@)[0]
}

/// The beginning of the body: all that stands behind the first empty line.
pub open spec fn body_of(initial: Seq<char>) -> Seq<char> {
    match scan::split_once(initial, "\r\n\r\n"@) {
        Some(parts) => parts.1,
        None => seq![],
    }
}

/// The value of a header line with the given name, the case of which does not matter.
pub open spec fn header_value(line: Seq<char>, name: Seq<char>) -> Option<Seq<char>> {
    match scan::split_once(line, ":"@) {
        Some(parts) if scan::same_ignoring_case(parts.0, name) => Some(scan::trimmed(parts.1)),
        _ => None,
    }
}

/// The length that header lines announce: that of the last line that announces one, zero where none
/// does, or what is wrong with the first that is wrong.
pub open spec fn announced_length(lines: Seq<Seq<char>>) -> Result<nat, NumberError>
    decreases lines.len(),
{
    if lines.len() == 0 {
        Ok(0)
    } else {
        match announced_length(lines.drop_last()) {
            Err(error) => Err(error),
            Ok(before) => match header_value(lines.last(), "content-length"@) {
                Some(value) => scan::number_in(value, usize::MAX as nat),
                None => Ok(before),
            },
        }
    }
}

/// Parts of a request as it comes in: its headers, and the body so far.
#[derive(Debug)]
pub struct Incoming {
    pub headers: String,
    pub body: Vec<u8>,
    pub content_length: usize,
}

proof fn lemma_length_refused(lines: Seq<Seq<char>>, n: int)
    requires
        0 <= n <= lines.len(),
        announced_length(lines.take(n)) is Err,
    ensures
        announced_length(lines) == announced_length(lines.take(n)),
    decreases lines.len() - n,
{
    if n == lines.len() {
        assert(lines.take(n) =~= lines);
    } else {
        assert(lines.take(n + 1).drop_last() =~= lines.take(n));
        lemma_length_refused(lines, n + 1);
    }
}

fn find_header(line: &str, name: &str) -> (r: Option<String>)
    ensures
        r.deep_view() == header_value(line@, name@),
{
    match split_text_once(line, ":") {
        Some(parts) => {
            if eq_ignore_case(parts.0.as_str(), name) {
                Some(trim(parts.1.as_str()))
            } else {
                None
            }
        },
        None => None,
    }
}

fn content_length(headers: &str) -> (r: Result<usize, NumberError>)
    ensures
        match announced_length(scan::split(headers@, "\r\n"@)) {
            Ok(value) => r is Ok && r->Ok_0 == value,
            Err(error) => r is Err && r->Err_0 == error,
        },
{
    proof {
        reveal_strlit("\r\n");
    }
    let lines = split_text(headers, "\r\n");
    let ghost model = lines.deep_view();
    let mut length: usize = 0;
    proof {
        assert(model.take(0) =~= Seq::<Seq<char>>::empty());
    }
    for i in 0..lines.len()
        invariant
            model == lines.deep_view(),
            model == scan::split(headers@, "\r\n"@),
            announced_length(model.take(i as int)) == Ok::<nat, NumberError>(length as nat),
    {
        proof {
            assert(model.take(i + 1).drop_last() =~= model.take(i as int));
            assert(model.take(i + 1).last() == lines@[i as int]@);
        }
        if let Some(value) = find_header(lines[i].as_str(), "content-length") {
            match parse_number(value.as_str(), usize::MAX as u64) {
                Ok(v) => {
                    length = v as usize;
                },
                Err(error) => {
                    proof {
                        lemma_length_refused(model, i + 1);
                    }
                    return Err(error);
                },
            }
        }
    }
    proof {
        assert(model.take(model.len() as int) =~= model);
    }
    Ok(length)
}

fn copy_bytes(bytes: &[u8]) -> (r: Vec<u8>)
    ensures
        r@ == bytes@,
{
    let mut out: Vec<u8> = Vec::new();
    for i in 0..bytes.len()
        invariant
            out@ == bytes@.take(i as int),
    {
        out.push(bytes[i]);
        proof {
            assert(out@ =~= bytes@.take(i + 1));
        }
    }
    proof {
        assert(bytes@.take(bytes@.len() as int) =~= bytes@);
    }
    out
}

/// What the first piece of a request tells: its headers, the beginning of its body and the length
/// that is announced.
pub open spec fn begins_as(initial: Seq<char>, r: Result<Incoming, NumberError>) -> bool {
    match announced_length(scan::split(headers_of(initial), "\r\n"@)) {
        Ok(length) => {
            &&& r is Ok
            &&& r->Ok_0.headers@ == headers_of(initial)
            &&& r->Ok_0.body@ == encode_utf8(body_of(initial))
            &&& r->Ok_0.content_length == length
        },
        Err(error) => r is Err && r->Err_0 == error,
    }
}

/// Takes the text of the first piece of a request apart.
pub fn begin_request_text(initial: &str) -> (r: Result<Incoming, NumberError>)
    ensures
        begins_as(initial@, r),
{
    proof {
        reveal_strlit("\r\n\r\n");
    }
    let parts = split_text(initial, "\r\n\r\n");
    let headers = parts[0].clone();
    proof {
        assert(parts.deep_view()[0] == parts@[0]@);
    }
    let length = match content_length(headers.as_str()) {
        Ok(length) => length,
        Err(error) => {
            return Err(error);
        },
    };
    let body = match split_text_once(initial, "\r\n\r\n") {
        Some(parts) => copy_bytes(parts.1.as_str().as_bytes()),
        None => Vec::new(),
    };
    proof {
        if scan::split_once(initial@, "\r\n\r\n"@) is None {
            assert(encode_utf8(Seq::<char>::empty()) =~= Seq::<u8>::empty());
        }
    }
    Ok(Incoming { headers, body, content_length: length })
}

/// Takes the first bytes of a request apart.
pub fn begin_request(initial: &[u8]) -> (r: Result<Incoming, NumberError>)
    ensures
        begins_as(text::lossy_text(initial@), r),
{
    begin_request_text(lossy_string(initial).as_str())
}

impl Incoming {
    /// Whether more of the body is to be read.
    pub fn is_open(&self) -> (r: bool)
        ensures
            r == (self.body@.len() < self.content_length),
    {
        self.body.len() < self.content_length
    }

    /// Adds what was read of the body.
    pub fn extend(&mut self, chunk: &Vec<u8>)
        ensures
            final(self).body@ == old(self).body@ + chunk@,
            final(self).headers == old(self).headers,
            final(self).content_length == old(self).content_length,
    {
        let ghost start = self.body@;
        for i in 0..chunk.len()
            invariant
                self.body@ == start + chunk@.take(i as int),
                self.headers == old(self).headers,
                self.content_length == old(self).content_length,
        {
            self.body.push(chunk[i]);
            proof {
                assert(self.body@ =~= start + chunk@.take(i + 1));
            }
        }
        proof {
            assert(chunk@.take(chunk@.len() as int) =~= chunk@);
        }
    }
}

/// A request.
#[derive(Debug)]
pub struct Request {
    pub method: String,
    pub path: String,
    pub query: String,
    pub body: String,
    pub idempotency_key: Option<String>,
}

/// The model of a [`Request`].
#[verifier::ext_equal]
pub struct RequestModel {
    pub method: Seq<char>,
    pub path: Seq<char>,
    pub query: Seq<char>,
    pub body: Seq<char>,
    pub idempotency_key: Option<Seq<char>>,
}

impl DeepView for Request {
    type V = RequestModel;

    open spec fn deep_view(&self) -> RequestModel {
        RequestModel {
            method: self.method@,
            path: self.path@,
            query: self.query@,
            body: self.body@,
            idempotency_key: self.idempotency_key.deep_view(),
        }
    }
}

/// The method and the target of a request line.
pub open spec fn request_line(line: Seq<char>) -> (Seq<char>, Seq<char>) {
    match scan::first_word(line) {
        None => (seq![], "/"@),
        Some((method, rest)) => match scan::first_word(rest) {
            None => (method, "/"@),
            Some((target, _)) => (method, target),
        },
    }
}

/// The path and the query of a target.
pub open spec fn target_parts(target: Seq<char>) -> (Seq<char>, Seq<char>) {
    match scan::split_once(target, "?"@) {
        Some(parts) => parts,
        None => (target, seq![]),
    }
}

/// The value of a line that holds an idempotency key.
pub open spec fn key_in(line: Seq<char>) -> Option<Seq<char>> {
    match scan::split_once(line, ":"@) {
        Some(parts) if scan::same_ignoring_case(
            scan::trimmed(parts.0),
            "idempotency-key"@,
        ) => Some(scan::trimmed(parts.1)),
        _ => None,
    }
}

/// The idempotency key in lines from a place on, up to the first empty one; of several the last.
pub open spec fn key_from(lines: Seq<Seq<char>>, i: int, found: Option<Seq<char>>) -> Option<
    Seq<char>,
>
    decreases lines.len() - i,
{
    if i >= lines.len() || lines[i].len() == 0 {
        found
    } else {
        key_from(
            lines,
            i + 1,
            match key_in(lines[i]) {
                Some(key) => Some(key),
                None => found,
            },
        )
    }
}

/// The request in a text of headers and body with an empty line between them. The body goes up to the
/// next empty line.
pub open spec fn request_in(raw: Seq<char>) -> RequestModel {
    let lines = scan::split(raw, "\r\n"@);
    let (method, target) = request_line(lines[0]);
    let (path, query) = target_parts(target);
    let parts = scan::split(raw, "\r\n\r\n"@);
    RequestModel {
        method,
        path,
        query,
        body: if parts.len() > 1 {
            parts[1]
        } else {
            seq![]
        },
        idempotency_key: key_from(lines, 1, None),
    }
}

fn find_key(lines: &Vec<String>) -> (r: Option<String>)
    ensures
        r.deep_view() == key_from(lines.deep_view(), 1, None),
{
    let ghost model = lines.deep_view();
    let mut found: Option<String> = None;
    let mut i: usize = 1;
    while i < lines.len() && !lines[i].as_str().is_empty()
        invariant
            model == lines.deep_view(),
            1 <= i,
            key_from(model, 1, None) == key_from(model, i as int, found.deep_view()),
        decreases lines@.len() - i,
    {
        if let Some(parts) = split_text_once(lines[i].as_str(), ":") {
            if eq_ignore_case(trim(parts.0.as_str()).as_str(), "idempotency-key") {
                found = Some(trim(parts.1.as_str()));
            }
        }
        i += 1;
    }
    found
}

pub(crate) fn read_request_line(line: &str) -> (r: (String, String))
    ensures
        (r.0@, r.1@) == request_line(line@),
{
    match take_word(line) {
        None => (String::new(), "/".to_owned()),
        Some((method, rest)) => match take_word(rest.as_str()) {
            None => (method, "/".to_owned()),
            Some((target, _)) => (method, target),
        },
    }
}

pub(crate) fn read_target(target: &str) -> (r: (String, String))
    ensures
        (r.0@, r.1@) == target_parts(target@),
{
    match split_text_once(target, "?") {
        Some(parts) => parts,
        None => (target.to_owned(), String::new()),
    }
}

/// Reads a request from its headers and the text of its body.
pub fn parse_request(headers: &str, body: &str) -> (r: Request)
    ensures
        r.deep_view() == request_in(headers@ + "\r\n\r\n"@ + body@),
{
    let mut raw = headers.to_owned();
    raw.push_str("\r\n\r\n");
    raw.push_str(body);
    proof {
        reveal_strlit("\r\n\r\n");
        reveal_strlit("\r\n");
    }
    let lines = split_text(raw.as_str(), "\r\n");
    proof {
        assert(lines.deep_view()[0] == lines@[0]@);
    }
    let (method, target) = read_request_line(lines[0].as_str());
    let (path, query) = read_target(target.as_str());
    let idempotency_key = find_key(&lines);
    let parts = split_text(raw.as_str(), "\r\n\r\n");
    let body = if parts.len() > 1 {
        parts[1].clone()
    } else {
        String::new()
    };
    proof {
        if parts@.len() > 1 {
            assert(parts.deep_view()[1] == parts@[1]@);
        }
    }
    Request { method, path, query, body, idempotency_key }
}

impl Incoming {
    /// The request, once its body is complete.
    pub fn request(&self) -> (r: Request)
        ensures
            r.deep_view() == request_in(
                self.headers@ + "\r\n\r\n"@ + text::lossy_text(self.body@),
            ),
    {
        parse_request(self.headers.as_str(), lossy_string(self.body.as_slice()).as_str())
    }
}

/// What a request asks for.
#[derive(Debug, PartialEq, Eq)]
pub enum Route {
    Index,
    Rules,
    Analyze,
    CreateDataset,
    ListDatasets,
    GetDataset { id: String },
    AnalyzeDataset { id: String },
    AppendRecords { id: String },
    CreatePlan,
    ListPlans,
    GetPlan { id: String },
    ExportPlan { id: String },
    UpdatePlan { id: String },
    ApplyPlan { id: String },
    /// Something that is not there below a resource.
    NotFound,
    /// A path that leads nowhere.
    NoSuchPath { path: String },
}

/// The model of a [`Route`].
#[verifier::ext_equal]
pub enum RouteModel {
    Index,
    Rules,
    Analyze,
    CreateDataset,
    ListDatasets,
    GetDataset { id: Seq<char> },
    AnalyzeDataset { id: Seq<char> },
    AppendRecords { id: Seq<char> },
    CreatePlan,
    ListPlans,
    GetPlan { id: Seq<char> },
    ExportPlan { id: Seq<char> },
    UpdatePlan { id: Seq<char> },
    ApplyPlan { id: Seq<char> },
    NotFound,
    NoSuchPath { path: Seq<char> },
}

impl DeepView for Route {
    type V = RouteModel;

    open spec fn deep_view(&self) -> RouteModel {
        match self {
            Route::Index => RouteModel::Index,
            Route::Rules => RouteModel::Rules,
            Route::Analyze => RouteModel::Analyze,
            Route::CreateDataset => RouteModel::CreateDataset,
            Route::ListDatasets => RouteModel::ListDatasets,
            Route::GetDataset { id } => RouteModel::GetDataset { id: id@ },
            Route::AnalyzeDataset { id } => RouteModel::AnalyzeDataset { id: id@ },
            Route::AppendRecords { id } => RouteModel::AppendRecords { id: id@ },
            Route::CreatePlan => RouteModel::CreatePlan,
            Route::ListPlans => RouteModel::ListPlans,
            Route::GetPlan { id } => RouteModel::GetPlan { id: id@ },
            Route::ExportPlan { id } => RouteModel::ExportPlan { id: id@ },
            Route::UpdatePlan { id } => RouteModel::UpdatePlan { id: id@ },
            Route::ApplyPlan { id } => RouteModel::ApplyPlan { id: id@ },
            Route::NotFound => RouteModel::NotFound,
            Route::NoSuchPath { path } => RouteModel::NoSuchPath { path: path@ },
        }
    }
}

/// The id and the rest of a path below a resource.
pub open spec fn id_and_rest(path: Seq<char>, prefix: Seq<char>) -> (Seq<char>, Seq<char>) {
    let below = path.skip(prefix.len() as int);
    match scan::split_once(below, "/"@) {
        Some(parts) => parts,
        None => (below, seq![]),
    }
}

/// The id between a prefix and a suffix of a path, without slashes at its end.
pub open spec fn id_between(path: Seq<char>, prefix: Seq<char>, suffix: Seq<char>) -> Seq<char> {
    scan::trim_end_of(path.subrange(prefix.len() as int, path.len() - suffix.len()), '/')
}

/// A path that begins with a prefix and ends with a suffix.
pub open spec fn framed(path: Seq<char>, prefix: Seq<char>, suffix: Seq<char>) -> bool {
    scan::begins_with(path, prefix) && scan::ends_with(path, suffix)
}

/// A prefix and a suffix of a path do not overlap.
pub open spec fn apart(path: Seq<char>, prefix: Seq<char>, suffix: Seq<char>) -> bool {
    framed(path, prefix, suffix) ==> prefix.len() + suffix.len() <= path.len()
}

/// No prefix of the path overlaps the suffix that goes with it.
pub open spec fn routable(method: Seq<char>, path: Seq<char>) -> bool {
    method == "POST"@ ==> {
        &&& apart(path, "/api/datasets/"@, "/records"@)
        &&& apart(path, "/api/plans/"@, "/decisions"@)
        &&& apart(path, "/api/plans/"@, "/apply"@)
    }
}

/// What a request asks for, by its method and path.
pub open spec fn route_of(method: Seq<char>, path: Seq<char>) -> RouteModel {
    let get = method == "GET"@;
    let post = method == "POST"@;
    if get && path == "/"@ {
        RouteModel::Index
    } else if get && path == "/api/rules"@ {
        RouteModel::Rules
    } else if post && path == "/api/analyze"@ {
        RouteModel::Analyze
    } else if post && path == "/api/datasets"@ {
        RouteModel::CreateDataset
    } else if get && path == "/api/datasets"@ {
        RouteModel::ListDatasets
    } else if get && scan::begins_with(path, "/api/datasets/"@) {
        let (id, rest) = id_and_rest(path, "/api/datasets/"@);
        if rest.len() == 0 {
            RouteModel::GetDataset { id }
        } else if rest == "analyze"@ {
            RouteModel::AnalyzeDataset { id }
        } else {
            RouteModel::NotFound
        }
    } else if post && framed(path, "/api/datasets/"@, "/records"@) {
        RouteModel::AppendRecords { id: id_between(path, "/api/datasets/"@, "/records"@) }
    } else if post && path == "/api/plans"@ {
        RouteModel::CreatePlan
    } else if get && path == "/api/plans"@ {
        RouteModel::ListPlans
    } else if get && scan::begins_with(path, "/api/plans/"@) {
        let (id, rest) = id_and_rest(path, "/api/plans/"@);
        if rest.len() == 0 {
            RouteModel::GetPlan { id }
        } else if rest == "export"@ {
            RouteModel::ExportPlan { id }
        } else {
            RouteModel::NotFound
        }
    } else if post && framed(path, "/api/plans/"@, "/decisions"@) {
        RouteModel::UpdatePlan { id: id_between(path, "/api/plans/"@, "/decisions"@) }
    } else if post && framed(path, "/api/plans/"@, "/apply"@) {
        RouteModel::ApplyPlan { id: id_between(path, "/api/plans/"@, "/apply"@) }
    } else {
        RouteModel::NoSuchPath { path }
    }
}

fn is_framed(path: &str, prefix: &str, suffix: &str) -> (r: bool)
    ensures
        r == framed(path@, prefix@, suffix@),
{
    has_prefix(path, prefix) && has_suffix(path, suffix)
}

fn char_count(s: &str) -> (r: usize)
    ensures
        r == s@.len(),
{
    text::chars_of(s).len()
}

fn is_apart(path: &str, prefix: &str, suffix: &str) -> (r: bool)
    ensures
        r == apart(path@, prefix@, suffix@),
{
    if !is_framed(path, prefix, suffix) {
        return true;
    }
    let all = char_count(path);
    let first = char_count(prefix);
    first <= all && char_count(suffix) <= all - first
}

/// Whether no prefix of the path overlaps the suffix that goes with it.
pub fn is_routable(method: &str, path: &str) -> (r: bool)
    ensures
        r == routable(method@, path@),
{
    !str_eq(method, "POST") || (is_apart(path, "/api/datasets/", "/records") && is_apart(
        path,
        "/api/plans/",
        "/decisions",
    ) && is_apart(path, "/api/plans/", "/apply"))
}

fn take_id(path: &str, prefix: &str) -> (r: (String, String))
    requires
        scan::begins_with(path@, prefix@),
    ensures
        (r.0@, r.1@) == id_and_rest(path@, prefix@),
{
    let below = middle(path, char_count(prefix), 0);
    proof {
        assert(below@ =~= path@.skip(prefix@.len() as int));
    }
    match split_text_once(below.as_str(), "/") {
        Some(parts) => parts,
        None => (below, String::new()),
    }
}

fn take_between(path: &str, prefix: &str, suffix: &str) -> (r: String)
    requires
        prefix@.len() + suffix@.len() <= path@.len(),
    ensures
        r@ == id_between(path@, prefix@, suffix@),
{
    let inner = middle(path, char_count(prefix), char_count(suffix));
    trim_end_matches(inner.as_str(), '/')
}

/// Chooses what a request asks for.
pub fn route(method: &str, path: &str) -> (r: Route)
    requires
        routable(method@, path@),
    ensures
        r.deep_view() == route_of(method@, path@),
{
    let get = str_eq(method, "GET");
    let post = str_eq(method, "POST");
    if get && str_eq(path, "/") {
        Route::Index
    } else if get && str_eq(path, "/api/rules") {
        Route::Rules
    } else if post && str_eq(path, "/api/analyze") {
        Route::Analyze
    } else if post && str_eq(path, "/api/datasets") {
        Route::CreateDataset
    } else if get && str_eq(path, "/api/datasets") {
        Route::ListDatasets
    } else if get && has_prefix(path, "/api/datasets/") {
        let (id, rest) = take_id(path, "/api/datasets/");
        if rest.as_str().is_empty() {
            Route::GetDataset { id }
        } else if str_eq(rest.as_str(), "analyze") {
            Route::AnalyzeDataset { id }
        } else {
            Route::NotFound
        }
    } else if post && is_framed(path, "/api/datasets/", "/records") {
        Route::AppendRecords { id: take_between(path, "/api/datasets/", "/records") }
    } else if post && str_eq(path, "/api/plans") {
        Route::CreatePlan
    } else if get && str_eq(path, "/api/plans") {
        Route::ListPlans
    } else if get && has_prefix(path, "/api/plans/") {
        let (id, rest) = take_id(path, "/api/plans/");
        if rest.as_str().is_empty() {
            Route::GetPlan { id }
        } else if str_eq(rest.as_str(), "export") {
            Route::ExportPlan { id }
        } else {
            Route::NotFound
        }
    } else if post && is_framed(path, "/api/plans/", "/decisions") {
        Route::UpdatePlan { id: take_between(path, "/api/plans/", "/decisions") }
    } else if post && is_framed(path, "/api/plans/", "/apply") {
        Route::ApplyPlan { id: take_between(path, "/api/plans/", "/apply") }
    } else {
        Route::NoSuchPath { path: path.to_owned() }
    }
}

/// The decoded texts of the rules in a query, in order; the last counts.
pub fn rules_from_query(query: &str) -> (r: Vec<String>)
    ensures
        r.deep_view() == urls::values_in(scan::split(query@, "&"@), "rules"@),
{
    values_of(query, "rules")
}

/// The words that go with a status.
pub open spec fn status_words(status: u16) -> Seq<char> {
    if status == 200 {
        "OK"@
    } else if status == 400 {
        "Bad Request"@
    } else if status == 404 {
        "Not Found"@
    } else if status == 409 {
        "Conflict"@
    } else if status == 422 {
        "Unprocessable Entity"@
    } else if status == 500 {
        "Internal Server Error"@
    } else {
        "Error"@
    }
}

/// The status and the words that go with it.
pub fn status_line(status: u16) -> (r: String)
    ensures
        r@ == text::decimal_text(status as nat) + " "@ + status_words(status),
{
    let words = if status == 200 {
        "OK"
    } else if status == 400 {
        "Bad Request"
    } else if status == 404 {
        "Not Found"
    } else if status == 409 {
        "Conflict"
    } else if status == 422 {
        "Unprocessable Entity"
    } else if status == 500 {
        "Internal Server Error"
    } else {
        "Error"
    };
    let mut out = String::new();
    push_decimal(&mut out, status as u64);
    out.push_str(" ");
    out.push_str(words);
    proof {
        assert(out@ =~= text::decimal_text(status as nat) + " "@ + status_words(status));
    }
    out
}

/// The head of a response.
pub open spec fn head_text(
    status: Seq<char>,
    content_type: Seq<char>,
    length: nat,
    disposition: Option<Seq<char>>,
) -> Seq<char> {
    "HTTP/1.1 "@ + status + "\r\nContent-Type: "@ + content_type + "\r\nContent-Length: "@
        + text::decimal_text(length) + "\r\nConnection: close\r\n"@ + (match disposition {
        Some(value) => "Content-Disposition: "@ + value + "\r\n"@,
        None => seq![],
    }) + "\r\n"@
}

/// The head of a response.
pub fn response_head(
    status: &str,
    content_type: &str,
    length: usize,
    disposition: Option<String>,
) -> (r: String)
    ensures
        r@ == head_text(status@, content_type@, length as nat, disposition.deep_view()),
{
    let mut out = "HTTP/1.1 ".to_owned();
    out.push_str(status);
    out.push_str("\r\nContent-Type: ");
    out.push_str(content_type);
    out.push_str("\r\nContent-Length: ");
    push_decimal(&mut out, length as u64);
    out.push_str("\r\nConnection: close\r\n");
    if let Some(value) = &disposition {
        out.push_str("Content-Disposition: ");
        out.push_str(value.as_str());
        out.push_str("\r\n");
    }
    out.push_str("\r\n");
    proof {
        assert(out@ =~= head_text(status@, content_type@, length as nat, disposition.deep_view()));
    }
    out
}

/// The disposition of a download.
pub fn attachment(name: &str) -> (r: String)
    ensures
        r@ == "attachment; filename=\""@ + name@ + "\""@,
{
    let mut out = "attachment; filename=\"".to_owned();
    out.push_str(name);
    out.push_str("\"");
    out
}

proof fn lemma_no_slash(s: Seq<char>, tail: Seq<char>, from: int)
    requires
        forall|i: int| 0 <= i < s.len() ==> s[i] != '/',
        0 <= from <= s.len(),
    ensures
        scan::find_from(s, "/"@, from) is None,
        tail.len() > 0 && tail[0] == '/' ==> scan::find_from(s + tail, "/"@, from) == Some(
            s.len() as int,
        ),
    decreases s.len() - from,
{
    reveal_strlit("/");
    let all = s + tail;
    if from < s.len() {
        lemma_no_slash(s, tail, from + 1);
        assert(all[from] == s[from]);
        assert(s.subrange(from, from + 1)[0] == s[from]);
        assert(all.subrange(from, from + 1)[0] == s[from]);
        assert("/"@[0] == '/');
    } else if tail.len() > 0 && tail[0] == '/' {
        assert(all[from] == '/');
        assert(all.subrange(from, from + 1) =~= "/"@);
    }
}

/// A path that is made for an id leads to what it names, and to that id.
pub proof fn paths_lead_back_to_ids(id: Seq<char>)
    requires
        forall|i: int| 0 <= i < id.len() ==> id[i] != '/',
    ensures
        route_of("GET"@, "/api/datasets/"@ + id) == (RouteModel::GetDataset { id }),
        route_of("GET"@, "/api/datasets/"@ + id + "/analyze"@) == (RouteModel::AnalyzeDataset {
            id,
        }),
        routable("POST"@, "/api/datasets/"@ + id + "/records"@),
        route_of("POST"@, "/api/datasets/"@ + id + "/records"@) == (RouteModel::AppendRecords {
            id,
        }),
        route_of("GET"@, "/api/plans/"@ + id) == (RouteModel::GetPlan { id }),
        route_of("GET"@, "/api/plans/"@ + id + "/export"@) == (RouteModel::ExportPlan { id }),
        routable("POST"@, "/api/plans/"@ + id + "/decisions"@),
        route_of("POST"@, "/api/plans/"@ + id + "/decisions"@) == (RouteModel::UpdatePlan { id }),
        routable("POST"@, "/api/plans/"@ + id + "/apply"@),
        route_of("POST"@, "/api/plans/"@ + id + "/apply"@) == (RouteModel::ApplyPlan { id }),
{
    lemma_dataset_paths(id);
    lemma_plan_paths(id);
    lemma_posted_paths(id);
}

proof fn lemma_below(path: Seq<char>, prefix: Seq<char>, id: Seq<char>, tail: Seq<char>)
    requires
        path == prefix + id + tail,
        forall|i: int| 0 <= i < id.len() ==> id[i] != '/',
        tail.len() == 0 || tail[0] == '/',
    ensures
        scan::begins_with(path, prefix),
        id_and_rest(path, prefix) == (id, if tail.len() == 0 {
            tail
        } else {
            tail.skip(1)
        }),
{
    reveal_strlit("/");
    assert(path.take(prefix.len() as int) =~= prefix);
    assert(path.skip(prefix.len() as int) =~= id + tail);
    lemma_no_slash(id, tail, 0);
    if tail.len() == 0 {
        assert(id + tail =~= id);
    } else {
        assert((id + tail).take(id.len() as int) =~= id);
        assert((id + tail).skip(id.len() as int + 1) =~= tail.skip(1));
    }
}

proof fn lemma_between(path: Seq<char>, prefix: Seq<char>, id: Seq<char>, suffix: Seq<char>)
    requires
        path == prefix + id + suffix,
        forall|i: int| 0 <= i < id.len() ==> id[i] != '/',
    ensures
        framed(path, prefix, suffix),
        id_between(path, prefix, suffix) == id,
{
    assert(path.take(prefix.len() as int) =~= prefix);
    assert(path.skip(path.len() - suffix.len()) =~= suffix);
    assert(path.subrange(prefix.len() as int, path.len() - suffix.len()) =~= id);
}

proof fn lemma_dataset_paths(id: Seq<char>)
    requires
        forall|i: int| 0 <= i < id.len() ==> id[i] != '/',
    ensures
        route_of("GET"@, "/api/datasets/"@ + id) == (RouteModel::GetDataset { id }),
        route_of("GET"@, "/api/datasets/"@ + id + "/analyze"@) == (RouteModel::AnalyzeDataset {
            id,
        }),
{
    reveal_strlit("GET");
    reveal_strlit("POST");
    reveal_strlit("/");
    reveal_strlit("/api/rules");
    reveal_strlit("/api/datasets");
    reveal_strlit("/api/datasets/");
    reveal_strlit("/analyze");
    reveal_strlit("analyze");
    assert("GET"@ != "POST"@) by {
        assert("GET"@[0] != "POST"@[0]);
    }
    let prefix = "/api/datasets/"@;
    let plain = prefix + id;
    let long = prefix + id + "/analyze"@;
    assert(plain =~= prefix + id + Seq::<char>::empty());
    lemma_below(plain, prefix, id, seq![]);
    lemma_below(long, prefix, id, "/analyze"@);
    assert("/analyze"@.skip(1) =~= "analyze"@);
    assert(plain[5] == 'd' && long[5] == 'd');
    assert("/api/rules"@[5] == 'r');
}

proof fn lemma_plan_paths(id: Seq<char>)
    requires
        forall|i: int| 0 <= i < id.len() ==> id[i] != '/',
    ensures
        route_of("GET"@, "/api/plans/"@ + id) == (RouteModel::GetPlan { id }),
        route_of("GET"@, "/api/plans/"@ + id + "/export"@) == (RouteModel::ExportPlan { id }),
{
    reveal_strlit("GET");
    reveal_strlit("POST");
    reveal_strlit("/");
    reveal_strlit("/api/rules");
    reveal_strlit("/api/datasets");
    reveal_strlit("/api/datasets/");
    reveal_strlit("/api/plans");
    reveal_strlit("/api/plans/");
    reveal_strlit("/export");
    reveal_strlit("export");
    assert("GET"@ != "POST"@) by {
        assert("GET"@[0] != "POST"@[0]);
    }
    let prefix = "/api/plans/"@;
    let plain = prefix + id;
    let long = prefix + id + "/export"@;
    assert(plain =~= prefix + id + Seq::<char>::empty());
    lemma_below(plain, prefix, id, seq![]);
    lemma_below(long, prefix, id, "/export"@);
    assert("/export"@.skip(1) =~= "export"@);
    assert(plain[5] == 'p' && long[5] == 'p');
    assert("/api/rules"@[5] == 'r' && "/api/datasets"@[5] == 'd' && "/api/datasets/"@[5] == 'd');
    assert(!scan::begins_with(plain, "/api/datasets/"@)) by {
        if scan::begins_with(plain, "/api/datasets/"@) {
            assert(plain.take(14)[5] == 'p');
        }
    }
    assert(!scan::begins_with(long, "/api/datasets/"@)) by {
        if scan::begins_with(long, "/api/datasets/"@) {
            assert(long.take(14)[5] == 'p');
        }
    }
}

proof fn lemma_posted_paths(id: Seq<char>)
    requires
        forall|i: int| 0 <= i < id.len() ==> id[i] != '/',
    ensures
        routable("POST"@, "/api/datasets/"@ + id + "/records"@),
        route_of("POST"@, "/api/datasets/"@ + id + "/records"@) == (RouteModel::AppendRecords {
            id,
        }),
        routable("POST"@, "/api/plans/"@ + id + "/decisions"@),
        route_of("POST"@, "/api/plans/"@ + id + "/decisions"@) == (RouteModel::UpdatePlan { id }),
        routable("POST"@, "/api/plans/"@ + id + "/apply"@),
        route_of("POST"@, "/api/plans/"@ + id + "/apply"@) == (RouteModel::ApplyPlan { id }),
{
    reveal_strlit("GET");
    reveal_strlit("POST");
    reveal_strlit("/api/analyze");
    reveal_strlit("/api/datasets");
    reveal_strlit("/api/datasets/");
    reveal_strlit("/api/plans");
    reveal_strlit("/api/plans/");
    reveal_strlit("/records");
    reveal_strlit("/decisions");
    reveal_strlit("/apply");
    assert("GET"@ != "POST"@) by {
        assert("GET"@[0] != "POST"@[0]);
    }
    let records = "/api/datasets/"@ + id + "/records"@;
    let decisions = "/api/plans/"@ + id + "/decisions"@;
    let apply = "/api/plans/"@ + id + "/apply"@;
    lemma_between(records, "/api/datasets/"@, id, "/records"@);
    lemma_between(decisions, "/api/plans/"@, id, "/decisions"@);
    lemma_between(apply, "/api/plans/"@, id, "/apply"@);
    assert(records[5] == 'd' && decisions[5] == 'p' && apply[5] == 'p');
    assert("/api/analyze"@[5] == 'a' && "/api/datasets"@[5] == 'd' && "/api/plans"@[5] == 'p');
    assert(!scan::begins_with(records, "/api/plans/"@)) by {
        if scan::begins_with(records, "/api/plans/"@) {
            assert(records.take(11)[5] == 'd');
        }
    }
    assert(!scan::begins_with(decisions, "/api/datasets/"@)) by {
        if scan::begins_with(decisions, "/api/datasets/"@) {
            assert(decisions.take(14)[5] == 'p');
        }
    }
    assert(!scan::begins_with(apply, "/api/datasets/"@)) by {
        if scan::begins_with(apply, "/api/datasets/"@) {
            assert(apply.take(14)[5] == 'p');
        }
    }
    assert(decisions[decisions.len() - 1] == 's' && apply[apply.len() - 1] == 'y');
    assert(!scan::ends_with(decisions, "/apply"@)) by {
        if scan::ends_with(decisions, "/apply"@) {
            assert(decisions.skip(decisions.len() - 6)[5] == 's');
        }
    }
    assert(!scan::ends_with(apply, "/decisions"@)) by {
        if scan::ends_with(apply, "/decisions"@) {
            assert(apply.skip(apply.len() - 10)[9] == 'y');
        }
    }
}

} // verus!
