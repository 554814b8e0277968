use dapil::flow::Upload;
use dapil::dict::Dict;
use dapil::params::{ParamDef, ParamType, ParamValue, Source};
use dapil::response::{
    error_response, handler_response, response_head, response_status, structured_sendable,
    violation_response, Content, ErrorInfo, HandlerReturn, StructuredReturn,
};
use dapil::validate::{validate, value_kind, ValueKind};
use dapil::json::{JsonNumber, JsonValue};

fn s(x: &str) -> String {
    x.to_string()
}

fn text_param(name: &str, min: Option<usize>, max: Option<usize>, pattern: Option<&str>) -> ParamDef {
    ParamDef {
        name: s(name),
        source: Source::Query,
        param_type: ParamType::Str,
        min_length: min,
        max_length: max,
        pattern: pattern.map(s),
    }
}

#[test]
fn status_codes_outside_range_become_500() {
    assert_eq!(response_status(200), 200);
    assert_eq!(response_status(100), 100);
    assert_eq!(response_status(999), 999);
    assert_eq!(response_status(99), 500);
    assert_eq!(response_status(1000), 500);
}

#[test]
fn response_head_skips_invalid_and_replaces_repeated_headers() {
    let (status, headers) = response_head(
        201,
        &vec![
            (s("X-A"), s("1")),
            (s("bad name"), s("2")),
            (s("x-b"), s("bad\nvalue")),
            (s("x-a"), s("3")),
        ],
    );
    assert_eq!(status, 201);
    let pairs: Vec<(String, Vec<u8>)> =
        headers.unwrap().iter().map(|(k, v)| (k.as_str().to_string(), v.as_bytes().to_vec())).collect();
    assert_eq!(pairs, vec![(s("x-a"), b"3".to_vec())]);
}

#[test]
fn handler_text_and_bytes_results() {
    let r = handler_response(HandlerReturn::Text(s("héllo")));
    assert_eq!(r.status, 200);
    assert_eq!(r.headers, vec![(s("content-type"), s("text/plain"))]);
    assert_eq!(r.body, "héllo".as_bytes().to_vec());
    let r = handler_response(HandlerReturn::Bytes(vec![1, 2]));
    assert_eq!(r.headers, vec![(s("content-type"), s("application/octet-stream"))]);
    assert_eq!(r.body, vec![1, 2]);
    let r = handler_response(HandlerReturn::Missing);
    assert_eq!((r.status, r.body), (500, b"Internal Error".to_vec()));
    let r = handler_response(HandlerReturn::Unsupported);
    assert_eq!((r.status, r.body), (500, b"Unsupported result".to_vec()));
}

#[test]
fn structured_result_keeps_status_headers_and_chunks() {
    let st = StructuredReturn {
        status: Some(201),
        headers: vec![Some((s("X-One"), s("1"))), None, Some((s("X-One"), s("2")))],
        content: Content::Chunks(vec![Some(b"ab".to_vec()), None, Some(b"cd".to_vec())]),
    };
    assert!(structured_sendable(&st));
    let r = handler_response(HandlerReturn::Structured(st));
    assert_eq!(r.status, 201);
    assert_eq!(r.headers, vec![(s("X-One"), s("1")), (s("X-One"), s("2"))]);
    assert_eq!(r.body, b"abcd".to_vec());
    let st = StructuredReturn { status: None, headers: vec![], content: Content::Empty };
    let r = handler_response(HandlerReturn::Structured(st));
    assert_eq!((r.status, r.body.len()), (200, 0));
}

#[test]
fn structured_result_that_cannot_be_sent() {
    let bad_status = StructuredReturn { status: Some(42), headers: vec![], content: Content::Empty };
    assert!(!structured_sendable(&bad_status));
    let bad_header = StructuredReturn {
        status: None,
        headers: vec![Some((s("ok"), s("1"))), Some((s("not ok"), s("2")))],
        content: Content::Text(s("x")),
    };
    assert!(!structured_sendable(&bad_header));
}

#[test]
fn error_responses() {
    let r = error_response(ErrorInfo::Exception { status: Some(404), detail: Some(s("Not found")) });
    assert_eq!(r.status, 404);
    assert_eq!(r.headers, vec![(s("content-type"), s("text/plain"))]);
    assert_eq!(r.body, b"Not found".to_vec());
    let r = error_response(ErrorInfo::Exception { status: None, detail: None });
    assert_eq!((r.status, r.body), (500, b"Internal Error".to_vec()));
    let r = error_response(ErrorInfo::Fatal);
    assert_eq!((r.status, r.body), (500, b"Internal Server Error".to_vec()));
    let r = violation_response("x is bad");
    assert_eq!((r.status, r.body, r.headers.len()), (422, b"x is bad".to_vec(), 0));
}

#[test]
fn value_kinds() {
    assert!(matches!(value_kind(&ParamValue::Bool(true)), ValueKind::Integer(1)));
    assert!(matches!(value_kind(&ParamValue::Int(-3)), ValueKind::Integer(-3)));
    assert!(matches!(value_kind(&ParamValue::Float(s("1.5"))), ValueKind::Real(t) if t == "1.5"));
    assert!(matches!(value_kind(&ParamValue::Str(s("a"))), ValueKind::Text(t) if t == "a"));
    let up = Upload { name: s("f"), filename: None, content_type: None, data: vec![1] };
    assert!(matches!(value_kind(&ParamValue::File(up)), ValueKind::Unchecked));
    let n = JsonValue::Number(JsonNumber { integer: None, text: s("2.5") });
    assert!(matches!(value_kind(&ParamValue::Json(n)), ValueKind::Real(t) if t == "2.5"));
    assert!(matches!(value_kind(&ParamValue::Json(JsonValue::Null)), ValueKind::Unchecked));
    assert!(matches!(value_kind(&ParamValue::Json(JsonValue::Bool(false))), ValueKind::Integer(0)));
    assert!(matches!(value_kind(&ParamValue::Json(JsonValue::Array(vec![]))), ValueKind::Unchecked));
}

#[test]
fn validation_reports_first_violation_in_schema_order() {
    let schema = vec![
        text_param("name", Some(3), Some(5), None),
        text_param("code", None, None, Some("^[0-9]+$")),
        text_param("age", None, None, None),
    ];
    let mut args: Dict<ParamValue> = Dict::new();
    args.insert(s("name"), ParamValue::Str(s("ab")));
    args.insert(s("code"), ParamValue::Str(s("12x")));
    args.insert(s("age"), ParamValue::Int(5));
    let verdicts = vec![None, None, Some(s("age must be greater than 10"))];
    assert_eq!(validate(&schema, &args, &verdicts), Some(s("name length must be at least 3")));

    args.insert(s("name"), ParamValue::Str(s("abcdef")));
    assert_eq!(validate(&schema, &args, &verdicts), Some(s("name length must be at most 5")));

    args.insert(s("name"), ParamValue::Str(s("hééé")));
    assert_eq!(validate(&schema, &args, &verdicts), Some(s("name length must be at most 5")));

    args.insert(s("name"), ParamValue::Str(s("abcd")));
    assert_eq!(validate(&schema, &args, &verdicts), Some(s("code does not match pattern ^[0-9]+$")));

    args.insert(s("code"), ParamValue::Str(s("123")));
    assert_eq!(validate(&schema, &args, &verdicts), Some(s("age must be greater than 10")));

    let ok = vec![None, None, None];
    assert_eq!(validate(&schema, &args, &ok), None);
}

#[test]
fn invalid_pattern_is_ignored() {
    let schema = vec![text_param("p", None, None, Some("("))];
    let mut args: Dict<ParamValue> = Dict::new();
    args.insert(s("p"), ParamValue::Str(s("anything")));
    assert_eq!(validate(&schema, &args, &vec![None]), None);
}

#[test]
fn response_head_keeps_first_position_and_utf8_values() {
    let (_, headers) = response_head(
        200,
        &vec![(s("a"), s("1")), (s("B"), s("é")), (s("A"), s("2")), (s("c"), s("x"))],
    );
    let pairs: Vec<(String, Vec<u8>)> =
        headers.unwrap().iter().map(|(k, v)| (k.as_str().to_string(), v.as_bytes().to_vec())).collect();
    assert_eq!(
        pairs,
        vec![(s("a"), b"2".to_vec()), (s("b"), "é".as_bytes().to_vec()), (s("c"), b"x".to_vec())]
    );
}

#[test]
fn response_head_with_many_distinct_headers_still_builds_the_map() {
    let pairs: Vec<(String, String)> = (0..3000).map(|i| (format!("x-h{}", i), s("v"))).collect();
    let (_, headers) = response_head(200, &pairs);
    assert_eq!(headers.unwrap().len(), 3000);
}

#[test]
fn response_head_with_many_pairs_of_one_name_still_builds_the_map() {
    let pairs: Vec<(String, String)> = (0..4000).map(|i| (s("x-same"), format!("{}", i))).collect();
    let (_, headers) = response_head(200, &pairs);
    let m = headers.unwrap();
    assert_eq!(m.len(), 1);
    assert_eq!(m.get("x-same").unwrap().as_bytes(), b"3999");
}
