use veilid_vc::web::{
    finish_request, head_end, intake, parse_head, parse_query, percent_decode, reason, Intake, Query,
    Request, Response, MAX_BODY, MAX_HEADERS,
};


#[test]
fn query_strings_decode_escapes_and_plus() {
    let q = parse_query("key=VLD0%3Aabc&name=ada+lovelace&bare");
    assert_eq!(q.get("key").unwrap(), "VLD0:abc");
    assert_eq!(q.get("name").unwrap(), "ada lovelace");
    assert_eq!(q.get("bare").unwrap(), "");
}

#[test]
fn a_stray_percent_is_kept_rather_than_swallowed() {
    assert_eq!(percent_decode("100%"), "100%");
    assert_eq!(percent_decode("%zz"), "%zz");
}

#[test]
fn percent_decoding_handles_multibyte_utf8() {
    assert_eq!(percent_decode("caf%C3%A9"), "café");
}

#[test]
fn a_missing_json_field_reads_as_empty() {
    let req = Request {
        method: "POST".into(),
        path: "/api/post".into(),
        query: Query::new(),
        body: br#"{"text":"  hi  "}"#.to_vec(),
    };
    assert_eq!(req.field("text"), "hi", "fields are trimmed");
    assert_eq!(req.field("absent"), "");
}

#[test]
fn a_non_json_body_does_not_panic() {
    let req = Request {
        method: "POST".into(),
        path: "/x".into(),
        query: Query::new(),
        body: b"not json at all".to_vec(),
    };
    assert_eq!(req.field("anything"), "");
}

#[test]
fn only_two_hexadecimal_digits_make_an_escape() {
    assert_eq!(percent_decode("%+5"), "% 5");
    assert_eq!(percent_decode("%a"), "%a");
    assert_eq!(percent_decode("%aé"), "%aé");
    assert_eq!(percent_decode("%2B%2b+%"), "++ %");
    assert_eq!(percent_decode("%ff"), "\u{fffd}");
}

#[test]
fn the_last_of_several_arguments_counts() {
    let q = parse_query("a=1&&a=2&b=x=y&");
    assert_eq!(q.get("a").unwrap(), "2");
    assert_eq!(q.get("b").unwrap(), "x=y");
    assert!(q.get("").is_none());
    assert!(Query::new().get("a").is_none());
}

#[test]
fn headers_end_at_the_first_blank_line() {
    assert_eq!(head_end(b"GET / HTTP/1.1\r\n\r\nbody\r\n\r\n"), Some(18));
    assert_eq!(head_end(b"GET / HTTP/1.1\r\n"), None);
    assert!(intake(b"GET") == Intake::More);
    assert!(intake(b"\r\n\r\n") == Intake::Head(4));
    assert!(intake(&vec![b'x'; MAX_HEADERS + 1]) == Intake::Reject);
    assert!(intake(&vec![b'x'; MAX_HEADERS]) == Intake::More);
}

#[test]
fn a_head_is_read() {
    let h = parse_head(b"POST  /api/post?x=1 HTTP/1.1\r\nHost: a\r\nCONTENT-length: +12\r\n\r\n").unwrap();
    assert_eq!((h.method.as_str(), h.path.as_str(), h.content_length), ("POST", "/api/post", 12));
    assert_eq!(h.query.get("x").unwrap(), "1");
    let h = parse_head(b"GET /\r\ncontent-length: x\r\ncontent-length: 3\r\ncontent-length: 9\r\n\r\n").unwrap();
    assert_eq!((h.path.as_str(), h.content_length), ("/", 3));
    assert_eq!(parse_head(b"GET /\r\n\r\n").unwrap().content_length, 0);
}

#[test]
fn a_head_that_makes_no_sense_is_not_read() {
    assert!(parse_head(b"").is_none());
    assert!(parse_head(b"GET\r\n\r\n").is_none());
    assert!(parse_head(b"\r\n\r\n").is_none());
    let head = |n: usize| format!("GET / x\r\nContent-Length: {n}\r\n\r\n");
    assert!(parse_head(head(MAX_BODY).as_bytes()).is_some());
    assert!(parse_head(head(MAX_BODY + 1).as_bytes()).is_none());
    // More than the machine counts is no length at all.
    assert_eq!(
        parse_head(b"GET / x\r\nContent-Length: 99999999999999999999999\r\n\r\n").unwrap().content_length,
        0
    );
}

#[test]
fn a_body_is_cut_to_its_announced_length() {
    let head = || parse_head(b"POST /x HTTP/1.1\r\nContent-Length: 3\r\n\r\n").unwrap();
    assert_eq!(finish_request(head(), b"abcdef").body, b"abc");
    assert_eq!(finish_request(head(), b"ab").body, b"ab");
    assert_eq!(finish_request(head(), b"").method, "POST");
}

#[test]
fn responses_are_laid_out() {
    let r = Response::error(404, "no such endpoint");
    assert_eq!(r.status, 404);
    assert_eq!(r.content_type, "application/json; charset=utf-8");
    let v: serde_json::Value = serde_json::from_slice(&r.body).unwrap();
    assert_eq!(v["error"], "no such endpoint");
    let page = Response::asset("text/html; charset=utf-8", "<p>é</p>");
    assert_eq!(page.body, "<p>é</p>".as_bytes());
    assert_eq!(
        page.head(),
        "HTTP/1.1 200 OK\r\nContent-Type: text/html; charset=utf-8\r\nContent-Length: 9\r\nConnection: close\r\nCache-Control: no-store\r\nX-Content-Type-Options: nosniff\r\n\r\n"
    );
    assert_eq!(Response::json_body(b"[]".to_vec()).body, b"[]");
    assert_eq!(reason(400), "Bad Request");
    assert_eq!(reason(413), "Payload Too Large");
    assert_eq!(reason(500), "Internal Server Error");
    assert_eq!(reason(299), "OK");
}

#[test]
fn the_last_of_several_fields_counts() {
    let req = Request {
        method: "POST".into(),
        path: "/x".into(),
        query: Query::new(),
        body: br#"{"a":"1","n":5,"a":"2"}"#.to_vec(),
    };
    assert_eq!(req.field("a"), "2");
    assert_eq!(req.field("n"), "", "a number is no text");
    assert_eq!(Request { body: br#"["a"]"#.to_vec(), ..req }.field("a"), "");
}
