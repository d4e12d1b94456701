use choki::request::{
    parse_boundary, parse_cookies, parse_encoding, parse_encodings, parse_milli, parse_quality,
    strip_range, BodyReader, Request,
};
use choki::strmap::StringMap;
use choki::structs::{ContentType, Cookie, Encoding, EncodingType, Header};
use choki::text::chars_of;

fn parse(lines: &[&str]) -> Request {
    Request::parse(&lines.to_vec(), None, None).unwrap()
}

#[test]
fn new_request_keeps_its_parts() {
    let mut query = StringMap::new();
    query.insert("q".to_string(), "1".to_string());
    let req = Request::new(
        query,
        StringMap::new(),
        vec![Header::new("A", "b")],
        vec![Cookie::new_simple("c".to_string(), "d".to_string())],
        Some("127.0.0.1".to_string()),
        Some("agent".to_string()),
        Some(vec![Encoding::new(EncodingType::Gzip, None)]),
        7,
        Some(ContentType::Json),
        None,
    );
    assert_eq!(req.query.get("q").map(|s| s.as_str()), Some("1"));
    assert!(req.params.is_empty());
    assert_eq!(req.headers, vec![Header::new("A", "b")]);
    assert_eq!(req.cookies.len(), 1);
    assert_eq!(req.ip, Some("127.0.0.1".to_string()));
    assert_eq!(req.user_agent, Some("agent".to_string()));
    assert_eq!(req.content_length, 7);
    assert_eq!(req.content_type, Some(ContentType::Json));
    assert_eq!(req.boudary, None);
    assert!(req.body().is_empty());
}

#[test]
fn decodes_a_full_header_block() {
    let req = parse(&[
        "POST /submit HTTP/1.1",
        "Host: example.com",
        "User-Agent: curl/8.0",
        "Content-Length: 12",
        "Accept-Encoding: gzip;q=0.8, *;q=0.25, br",
        "Content-Type: multipart/form-data; boundary=XYZ",
        "Cookie: a=1; b=2; bad; c=x=y",
        "X-Custom: a: b",
    ]);
    assert_eq!(req.user_agent, Some("curl/8.0".to_string()));
    assert_eq!(req.content_length, 12);
    assert_eq!(
        req.content_encoding,
        Some(vec![
            Encoding::new(EncodingType::Gzip, Some(800)),
            Encoding::new(EncodingType::Any, Some(250)),
            Encoding::new(EncodingType::Unknown, None),
        ])
    );
    assert_eq!(req.content_type, Some(ContentType::MultipartForm));
    assert_eq!(req.boudary, Some("XYZ".to_string()));
    assert_eq!(
        req.cookies,
        vec![
            Cookie::new_simple("a".to_string(), "1".to_string()),
            Cookie::new_simple("b".to_string(), "2".to_string()),
            Cookie::new_simple("c".to_string(), "x=y".to_string()),
        ]
    );
    assert_eq!(
        req.headers,
        vec![Header::new("Host", "example.com"), Header::new("X-Custom", "a: b")]
    );
    assert_eq!(req.ip, None);
    assert!(req.query.is_empty());
    assert!(req.params.is_empty());
}

#[test]
fn takes_the_given_query_and_parameters() {
    let mut query = StringMap::new();
    query.insert("x".to_string(), "1".to_string());
    let mut params = StringMap::new();
    params.insert("id".to_string(), "7".to_string());
    let req = Request::parse(&vec!["GET / HTTP/1.1"], Some(query), Some(params)).unwrap();
    assert_eq!(req.query.get("x").map(|s| s.as_str()), Some("1"));
    assert_eq!(req.params.get("id").map(|s| s.as_str()), Some("7"));
}

#[test]
fn header_names_match_whatever_their_case() {
    let req = parse(&["content-length: 5", "USER-AGENT: x", "cOOKIE: k=v"]);
    assert_eq!(req.content_length, 5);
    assert_eq!(req.user_agent, Some("x".to_string()));
    assert_eq!(req.cookies, vec![Cookie::new_simple("k".to_string(), "v".to_string())]);
    assert!(req.headers.is_empty());
}

#[test]
fn a_content_length_that_is_no_number_is_zero() {
    assert_eq!(parse(&["Content-Length: abc"]).content_length, 0);
    assert_eq!(parse(&["Content-Length: -5"]).content_length, 0);
    assert_eq!(parse(&["Content-Length: 99999999999999999999999999"]).content_length, 0);
    assert_eq!(parse(&["Content-Length: "]).content_length, 0);
    assert_eq!(parse(&["Content-Length:5"]).content_length, 0);
    assert_eq!(parse(&["Content-Length: +7"]).content_length, 7);
    assert_eq!(parse(&["Content-Length: 10 20"]).content_length, 0);
    assert_eq!(parse(&["Content-Length:  5"]).content_length, 0);
    assert_eq!(parse(&["Content-Length: 18446744073709551615"]).content_length, usize::MAX);
}

#[test]
fn a_later_header_overrides_an_earlier_one() {
    let req = parse(&["Content-Length: 5", "Content-Length: 9", "User-Agent: a", "User-Agent: b"]);
    assert_eq!(req.content_length, 9);
    assert_eq!(req.user_agent, Some("b".to_string()));
}

#[test]
fn a_recognized_line_that_is_too_short_is_skipped() {
    let req =
        parse(&["User-Agent:", "Cookie:", "Accept-Encoding:", "Content-Type:", "Content-Length:"]);
    assert_eq!(req.user_agent, None);
    assert_eq!(req.content_length, 0);
    assert!(req.headers.is_empty());
    assert!(req.cookies.is_empty());
    assert_eq!(req.content_encoding, None);
    assert_eq!(req.content_type, None);
}

#[test]
fn a_recognized_line_with_an_empty_value() {
    let req = parse(&["User-Agent: ", "Content-Type: "]);
    assert_eq!(req.user_agent, Some("".to_string()));
    assert_eq!(req.content_type, Some(ContentType::Other("".to_string())));
}

#[test]
fn lines_without_a_colon_and_blank_are_skipped() {
    let req = parse(&["GET / HTTP/1.1", "garbage", "NoSpace:value", ""]);
    assert!(req.headers.is_empty());
}

#[test]
fn a_content_type_without_a_boundary() {
    let req = parse(&["Content-Type: application/json"]);
    assert_eq!(req.content_type, Some(ContentType::Json));
    assert_eq!(req.boudary, None);
}

#[test]
fn only_a_boundary_parameter_gives_a_boundary() {
    let req = parse(&["Content-Type: text/html; charset=utf-8"]);
    assert_eq!(req.content_type, Some(ContentType::Html));
    assert_eq!(req.boudary, None);
    let req = parse(&["Content-Type: multipart/form-data; charset=utf-8; boundary=B1; boundary=B2"]);
    assert_eq!(req.content_type, Some(ContentType::MultipartForm));
    assert_eq!(req.boudary, Some("B1".to_string()));
    let req = parse(&["Content-Type: multipart/form-data; boundary="]);
    assert_eq!(req.boudary, Some("".to_string()));
    let req = parse(&["Content-Type: multipart/form-data; boundary=X", "Content-Type: text/css"]);
    assert_eq!(req.content_type, Some(ContentType::Css));
    assert_eq!(req.boudary, Some("X".to_string()));
    assert_eq!(parse_boundary(&chars_of("a/b; boundary=--x=y")), Some("--x=y".to_string()));
    assert_eq!(parse_boundary(&chars_of("boundary=x")), None);
}

#[test]
fn a_content_type_with_a_blank_fails_the_request() {
    let e = Request::parse(&vec!["Host: a", "Content-Type: text/ html"], None, None).err().unwrap();
    assert_eq!(e.reason, "Content Type can't contain blank spaces.");
}

#[test]
fn apply_header_takes_the_lower_case_form_as_given() {
    let mut req = parse(&[]);
    req.apply_header("Content-Length: 3", "content-length: 3").unwrap();
    assert_eq!(req.content_length, 3);
    req.apply_header("Content-Length: 4", "something else").unwrap();
    assert_eq!(req.content_length, 3);
    assert_eq!(req.headers, vec![Header::new("Content-Length", "4")]);
}

#[test]
fn qualities_in_thousandths() {
    assert_eq!(parse_milli(&chars_of("1")), Some(1000));
    assert_eq!(parse_milli(&chars_of("0")), Some(0));
    assert_eq!(parse_milli(&chars_of("0.0")), Some(0));
    assert_eq!(parse_milli(&chars_of("1.0")), Some(1000));
    assert_eq!(parse_milli(&chars_of("0.5")), Some(500));
    assert_eq!(parse_milli(&chars_of("0.25")), Some(250));
    assert_eq!(parse_milli(&chars_of("0.123")), Some(123));
    assert_eq!(parse_milli(&chars_of("0.1239")), Some(123));
    assert_eq!(parse_milli(&chars_of("00.007")), Some(7));
    assert_eq!(parse_milli(&chars_of(".5")), Some(500));
    assert_eq!(parse_milli(&chars_of("0.")), Some(0));
    assert_eq!(parse_milli(&chars_of("1.5")), Some(1000));
    assert_eq!(parse_milli(&chars_of("27")), Some(1000));
    assert_eq!(parse_milli(&chars_of("")), None);
    assert_eq!(parse_milli(&chars_of(".")), None);
    assert_eq!(parse_milli(&chars_of("abc")), None);
    assert_eq!(parse_milli(&chars_of("0.5x")), None);
    assert_eq!(parse_milli(&chars_of("-0.5")), None);
    assert_eq!(parse_milli(&chars_of("0.5.1")), None);
}

#[test]
fn quality_parameter() {
    assert_eq!(parse_quality(&chars_of("q=0.8")), Some(800));
    assert_eq!(parse_quality(&chars_of("0.3")), Some(300));
    assert_eq!(parse_quality(&chars_of("q=")), None);
    assert_eq!(parse_quality(&chars_of("q=abc")), None);
    assert_eq!(parse_quality(&chars_of(" q=0.8")), None);
    assert_eq!(parse_quality(&chars_of("Q=0.8")), None);
}

#[test]
fn encoding_tokens() {
    assert_eq!(parse_encoding(&chars_of("gzip")), Encoding::new(EncodingType::Gzip, None));
    assert_eq!(parse_encoding(&chars_of("GZIP;q=1")), Encoding::new(EncodingType::Gzip, Some(1000)));
    assert_eq!(parse_encoding(&chars_of("*;q=0")), Encoding::new(EncodingType::Any, Some(0)));
    assert_eq!(parse_encoding(&chars_of("br;q=0.9")), Encoding::new(EncodingType::Unknown, Some(900)));
    assert_eq!(parse_encoding(&chars_of("gzip;")), Encoding::new(EncodingType::Gzip, None));
    assert_eq!(parse_encoding(&chars_of("gzip;q=0.5;x")), Encoding::new(EncodingType::Gzip, Some(500)));
    assert_eq!(parse_encoding(&chars_of("")), Encoding::new(EncodingType::Unknown, None));
    assert_eq!(parse_encoding(&chars_of(" gzip ")), Encoding::new(EncodingType::Gzip, None));
    assert_eq!(parse_encoding(&chars_of("gzip; q=0.8")), Encoding::new(EncodingType::Gzip, Some(800)));
    assert_eq!(parse_encoding(&chars_of(" * ;q=0.1 ")), Encoding::new(EncodingType::Any, Some(100)));
}

#[test]
fn encoding_lists_keep_their_order() {
    assert_eq!(
        parse_encodings(&chars_of("deflate, gzip;q=1.0, *;q=0.5")),
        vec![
            Encoding::new(EncodingType::Unknown, None),
            Encoding::new(EncodingType::Gzip, Some(1000)),
            Encoding::new(EncodingType::Any, Some(500)),
        ]
    );
    assert_eq!(parse_encodings(&chars_of("")), vec![Encoding::new(EncodingType::Unknown, None)]);
    assert_eq!(
        parse_encodings(&chars_of("gzip,br;q=0.5")),
        vec![
            Encoding::new(EncodingType::Gzip, None),
            Encoding::new(EncodingType::Unknown, Some(500)),
        ]
    );
    assert_eq!(
        parse_encodings(&chars_of("gzip,,*")),
        vec![
            Encoding::new(EncodingType::Gzip, None),
            Encoding::new(EncodingType::Unknown, None),
            Encoding::new(EncodingType::Any, None),
        ]
    );
}

#[test]
fn cookie_values() {
    assert_eq!(
        parse_cookies(&chars_of("a=1; b=2")),
        vec![
            Cookie::new_simple("a".to_string(), "1".to_string()),
            Cookie::new_simple("b".to_string(), "2".to_string()),
        ]
    );
    assert_eq!(parse_cookies(&chars_of("")), Vec::<Cookie>::new());
    assert_eq!(
        parse_cookies(&chars_of("a; b=c=d; =")),
        vec![
            Cookie::new_simple("b".to_string(), "c=d".to_string()),
            Cookie::new_simple("".to_string(), "".to_string()),
        ]
    );
    assert_eq!(
        parse_cookies(&chars_of("token=YWJj==")),
        vec![Cookie::new_simple("token".to_string(), "YWJj==".to_string())]
    );
}

#[test]
fn reader_takes_the_declared_length_in_chunks() {
    let mut reader = BodyReader::new(10000);
    assert!(!reader.is_finished());
    assert_eq!(reader.next_read(), 4096);
    reader.record(4096);
    assert_eq!(reader.total(), 4096);
    assert_eq!(reader.next_read(), 4096);
    reader.record(4096);
    assert_eq!(reader.total(), 8192);
    assert!(!reader.is_finished());
    assert_eq!(reader.next_read(), 1808);
    reader.record(1808);
    assert!(reader.is_finished());
    assert_eq!(reader.total(), 10000);
    assert_eq!(reader.next_read(), 0);
    reader.record(100);
    assert_eq!(reader.total(), 10000);
}

#[test]
fn reader_takes_short_reads() {
    let mut reader = BodyReader::new(10);
    assert_eq!(reader.next_read(), 10);
    reader.record(3);
    assert_eq!(reader.total(), 3);
    assert_eq!(reader.next_read(), 7);
    reader.record(7);
    assert!(reader.is_finished());
    assert_eq!(reader.total(), 10);
}

#[test]
fn reader_stops_at_the_end_of_the_stream() {
    let mut reader = BodyReader::new(100);
    reader.record(40);
    reader.record(0);
    assert!(reader.is_finished());
    assert_eq!(reader.total(), 40);
    assert_eq!(reader.next_read(), 0);
}

#[test]
fn reader_never_counts_more_than_it_asked_for() {
    let mut reader = BodyReader::new(5000);
    reader.record(5000);
    assert_eq!(reader.total(), 4096);
    assert!(!reader.is_finished());
    reader.record(5000);
    assert_eq!(reader.total(), 5000);
    assert!(reader.is_finished());
}

#[test]
fn reader_of_no_body_is_finished() {
    let reader = BodyReader::new(0);
    assert!(reader.is_finished());
    assert_eq!(reader.next_read(), 0);
    assert_eq!(reader.total(), 0);
}

#[test]
fn the_reader_of_a_request_has_its_declared_length() {
    let req = parse(&["Content-Length: 5000"]);
    let mut reader = req.read_only_body();
    let mut drained = 0;
    while !reader.is_finished() {
        let want = reader.next_read();
        reader.record(want);
        drained += want;
    }
    assert_eq!(drained, 5000);
    assert_eq!(reader.total(), 5000);
}

#[test]
fn strips_blanks_at_both_ends() {
    assert_eq!(strip_range(&chars_of("  a b ")), (2, 5));
    assert_eq!(strip_range(&chars_of("ab")), (0, 2));
    let (a, b) = strip_range(&chars_of("   "));
    assert_eq!(a, b);
    assert_eq!(strip_range(&chars_of("")), (0, 0));
    assert_eq!(strip_range(&chars_of("\ta ")), (0, 2));
}
