//! Requests, routes and heads of responses.

use collision_workbench::cli::parse_args;
use collision_workbench::http;
use collision_workbench::http::{begin_request, is_routable, parse_request, rules_from_query};
use collision_workbench::scan::{parse_number, NumberError};
use collision_workbench::server;
use collision_workbench::server::{add_to_head, parse_head, ApiError, HeadProgress, MAX_HEAD};
use collision_workbench::urls::{hexval, query_params, url_decode, urldecode};

#[test]
fn requests_are_read_piece_by_piece() {
    let first = b"POST /api/datasets?x=1 HTTP/1.1\r\nContent-LENGTH:  5 \r\n Idempotency-Key : k\r\n\r\nab";
    let mut incoming = begin_request(first).unwrap();
    assert_eq!(incoming.content_length, 5);
    assert_eq!(incoming.body, b"ab");
    assert!(incoming.is_open());
    incoming.extend(&b"cde".to_vec());
    assert!(!incoming.is_open());
    let request = incoming.request();
    assert_eq!(request.method, "POST");
    assert_eq!(request.path, "/api/datasets");
    assert_eq!(request.query, "x=1");
    assert_eq!(request.body, "abcde");
    assert_eq!(request.idempotency_key.as_deref(), Some("k"));
}

#[test]
fn wrong_lengths_are_refused() {
    let error = begin_request(b"GET / HTTP/1.1\r\ncontent-length: x\r\n\r\n").unwrap_err();
    assert_eq!(error, NumberError::InvalidDigit);
    assert_eq!(error.message(), "invalid digit found in string");
    let empty = begin_request(b"GET / HTTP/1.1\r\ncontent-length:\r\n\r\n").unwrap_err();
    assert_eq!(empty.message(), "cannot parse integer from empty string");
    let large = begin_request(b"G /\r\ncontent-length: 99999999999999999999\r\n\r\n").unwrap_err();
    assert_eq!(large.message(), "number too large to fit in target type");
    assert_eq!(begin_request(b"").unwrap().content_length, 0);
}

#[test]
fn bodies_end_at_the_next_empty_line() {
    let request = parse_request("GET", "a\r\n\r\nb");
    assert_eq!(request.target_and_body(), ("/".to_string(), "a".to_string()));
    assert_eq!(parse_request("", "").method, "");
    // The key after the first empty line is part of the body.
    let request = parse_request("GET / HTTP/1.1", "idempotency-key: k");
    assert_eq!(request.idempotency_key, None);
}

trait TargetAndBody {
    fn target_and_body(&self) -> (String, String);
}

impl TargetAndBody for http::Request {
    fn target_and_body(&self) -> (String, String) {
        (self.path.clone(), self.body.clone())
    }
}

#[test]
fn ledger_routes() {
    let to = |method: &str, path: &str| {
        assert!(is_routable(method, path));
        http::route(method, path)
    };
    let id = || "ds-1".to_string();
    assert_eq!(to("GET", "/"), http::Route::Index);
    assert_eq!(to("GET", "/api/rules"), http::Route::Rules);
    assert_eq!(to("POST", "/api/analyze"), http::Route::Analyze);
    assert_eq!(to("POST", "/api/datasets"), http::Route::CreateDataset);
    assert_eq!(to("GET", "/api/datasets"), http::Route::ListDatasets);
    assert_eq!(to("GET", "/api/datasets/ds-1"), http::Route::GetDataset { id: id() });
    assert_eq!(to("GET", "/api/datasets/ds-1/analyze"), http::Route::AnalyzeDataset { id: id() });
    assert_eq!(to("GET", "/api/datasets/ds-1/other"), http::Route::NotFound);
    assert_eq!(to("POST", "/api/datasets/ds-1//records"), http::Route::AppendRecords { id: id() });
    assert_eq!(to("POST", "/api/plans"), http::Route::CreatePlan);
    assert_eq!(to("GET", "/api/plans"), http::Route::ListPlans);
    assert_eq!(to("GET", "/api/plans/ds-1"), http::Route::GetPlan { id: id() });
    assert_eq!(to("GET", "/api/plans/ds-1/export"), http::Route::ExportPlan { id: id() });
    assert_eq!(to("POST", "/api/plans/ds-1/decisions"), http::Route::UpdatePlan { id: id() });
    assert_eq!(to("POST", "/api/plans/ds-1/apply"), http::Route::ApplyPlan { id: id() });
    assert_eq!(
        to("PUT", "/api/plans"),
        http::Route::NoSuchPath { path: "/api/plans".to_string() }
    );
    assert!(!is_routable("POST", "/api/datasets/records"));
    assert!(!is_routable("POST", "/api/plans/apply"));
    assert!(is_routable("GET", "/api/plans/apply"));
}

#[test]
fn journal_routes() {
    let to = |method: &str, path: &str, query: &str| format!("{:?}", server::route(method, path, query));
    let ok = |route: server::Route| format!("{:?}", Ok::<server::Route, ApiError>(route));
    let missing = |message: &str| {
        let message = message.to_string();
        format!("{:?}", Err::<server::Route, ApiError>(ApiError::NotFound { message }))
    };
    let bad = |message: &str| {
        let message = message.to_string();
        format!("{:?}", Err::<server::Route, ApiError>(ApiError::BadRequest { message }))
    };
    assert_eq!(to("GET", "/index.html", ""), ok(server::Route::Index));
    assert_eq!(to("GET", "/static/app.js", ""), ok(server::Route::Script));
    assert_eq!(to("GET", "/static/styles.css", ""), ok(server::Route::Styles));
    assert_eq!(to("GET", "/api/version", ""), ok(server::Route::Version));
    assert_eq!(to("GET", "/api/state", ""), ok(server::Route::Overview));
    assert_eq!(to("POST", "/api/rulesets", ""), ok(server::Route::CreateRuleset));
    assert_eq!(to("POST", "/api/tables/upgrade", ""), ok(server::Route::UpgradeTables));
    assert_eq!(to("POST", "/api/datasets", ""), ok(server::Route::ImportDataset));
    assert_eq!(to("POST", "/api/analyses", ""), ok(server::Route::BuildAnalysis));
    assert_eq!(to("POST", "/api/plans", ""), ok(server::Route::CreatePlan));
    assert_eq!(to("POST", "api/plans", ""), ok(server::Route::CreatePlan));
    assert_eq!(to("GET", "/api/plans/7", ""), ok(server::Route::GetPlan { id: 7 }));
    assert_eq!(to("PUT", "/api/plans/7/decisions", ""), ok(server::Route::SetDecisions { id: 7 }));
    assert_eq!(to("POST", "/api/plans/999/simulate", ""), ok(server::Route::Simulate { id: 999 }));
    assert_eq!(to("POST", "/api/plans/7/approve", ""), ok(server::Route::Approve { id: 7 }));
    assert_eq!(to("GET", "/api/plans/7/export", ""), ok(server::Route::ExportPlan { id: 7 }));
    assert_eq!(
        to("GET", "/api/search/3", "q=a%20b"),
        ok(server::Route::Search { id: 3, text: "a b".to_string() })
    );
    assert_eq!(to("GET", "/api/compare", "a=1&b=2"), ok(server::Route::Compare { a: 1, b: 2 }));
    assert_eq!(to("GET", "/api/compare", "b=2"), bad("missing a"));
    assert_eq!(to("GET", "/api/compare", "a=1&b=x"), bad("missing b"));
    assert_eq!(to("GET", "/api/analyses/x", ""), missing("bad id"));
    assert_eq!(to("GET", "/api/plans", ""), missing("bad plan id"));
    assert_eq!(to("GET", "/api/plans/7/else", ""), missing("no plan route for GET /api/plans/7/else"));
    assert_eq!(to("DELETE", "/x", ""), missing("no route for DELETE /x"));
}

#[test]
fn heads_are_read_up_to_the_empty_line() {
    let mut head = Vec::new();
    let bytes = b"PUT /p?q=1 HTTP/1.1\r\nContent-Length: 12\r\nIDEMPOTENCY-Key: k\r\n\r\n";
    for (i, byte) in bytes.iter().enumerate() {
        let progress = add_to_head(&mut head, *byte);
        let last = i + 1 == bytes.len();
        assert_eq!(progress, if last { HeadProgress::Complete } else { HeadProgress::Open });
    }
    let head = parse_head(&head);
    assert_eq!((head.method.as_str(), head.path.as_str(), head.query.as_str()), ("PUT", "/p", "q=1"));
    assert_eq!(head.body_length(), Some(12));
    assert_eq!(head.idempotency_key().as_deref(), Some("k"));
    assert_eq!(parse_head(b"GET /\r\n\r\n").idempotency_key(), None);
    assert_eq!(parse_head(b"GET /\r\n\r\n").body_length(), Some(0));
    assert_eq!(parse_head(b"GET /\r\ncontent-length: x\r\n\r\n").body_length(), Some(0));
    assert_eq!(parse_head(b"GET /\r\ncontent-length: 8388608\r\n\r\n").body_length(), Some(8388608));
    assert_eq!(parse_head(b"GET /\r\ncontent-length: 8388609\r\n\r\n").body_length(), None);
    let mut long = vec![b'a'; MAX_HEAD - 1];
    assert_eq!(add_to_head(&mut long, b'a'), HeadProgress::Open);
    assert_eq!(add_to_head(&mut long, b'a'), HeadProgress::TooLarge);
}

#[test]
fn heads_of_responses() {
    assert_eq!(http::status_line(200), "200 OK");
    assert_eq!(http::status_line(400), "400 Bad Request");
    assert_eq!(http::status_line(404), "404 Not Found");
    assert_eq!(http::status_line(409), "409 Conflict");
    assert_eq!(http::status_line(422), "422 Unprocessable Entity");
    assert_eq!(http::status_line(500), "500 Internal Server Error");
    assert_eq!(http::status_line(418), "418 Error");
    assert_eq!(
        http::response_head("200 OK", "application/json", 10, Some(http::attachment("p.json"))),
        "HTTP/1.1 200 OK\r\nContent-Type: application/json\r\nContent-Length: 10\r\n\
         Connection: close\r\nContent-Disposition: attachment; filename=\"p.json\"\r\n\r\n"
    );
    assert_eq!(
        http::response_head("404 Not Found", "t", 0, None),
        "HTTP/1.1 404 Not Found\r\nContent-Type: t\r\nContent-Length: 0\r\nConnection: close\r\n\r\n"
    );
    assert_eq!(
        server::response_head(201, "t", 3),
        "HTTP/1.1 201 Created\r\nContent-Type: t\r\nContent-Length: 3\r\n\
         Cache-Control: no-store\r\nConnection: close\r\n\r\n"
    );
    assert_eq!(server::reason_phrase(405), "Method Not Allowed");
    assert_eq!(server::reason_phrase(418), "OK");
}

#[test]
fn queries_are_decoded() {
    assert_eq!(url_decode("a+b%20c%2"), "a b c%2");
    assert_eq!(url_decode("%41%zz"), "A%zz");
    assert_eq!(urldecode("x%41"), "xA");
    assert_eq!(urldecode("x%4"), "x%4");
    assert_eq!(url_decode("%FFx"), "\u{fffd}x");
    assert_eq!(hexval(b'f'), Some(15));
    assert_eq!(hexval(b'g'), None);
    let params = query_params("a=1&&b&a=2&%63x=d%20e");
    assert_eq!(params.get("a").map(String::as_str), Some("2"));
    assert_eq!(params.get("b").map(String::as_str), Some(""));
    assert_eq!(params.get("cx").map(String::as_str), Some("d e"));
    assert_eq!(rules_from_query("rules=%7B%7D&x=1&rules=b"), ["{}", "b"]);
}

#[test]
fn numbers_are_decimal() {
    assert_eq!(parse_number("+12", 99), Ok(12));
    assert_eq!(parse_number("100", 99), Err(NumberError::TooLarge));
    assert_eq!(parse_number("-1", 99), Err(NumberError::InvalidDigit));
    assert_eq!(parse_number("+", 99), Err(NumberError::InvalidDigit));
    assert_eq!(parse_number("", 99), Err(NumberError::Empty));
}

#[test]
fn command_lines() {
    let parse = |args: &[&str]| {
        let argv = std::iter::once("server").chain(args.iter().copied());
        parse_args(argv.map(str::to_string).collect()).map(|a| (a.listen, a.data_dir))
    };
    let pair = |a: &str, b: &str| Ok((a.to_string(), b.to_string()));
    assert_eq!(parse(&[]), pair("127.0.0.1:5213", "workbench-data"));
    assert_eq!(parse(&["--listen", "x", "--data-dir", "d", "--listen", "y"]), pair("y", "d"));
    assert_eq!(parse(&["--listen"]), Err("missing value for --listen".to_string()));
    assert_eq!(parse(&["--data-dir"]), Err("missing value for --data-dir".to_string()));
    assert_eq!(parse(&["-x"]), Err("unknown argument: -x".to_string()));
}
