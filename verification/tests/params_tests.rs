use dapil::flow::request_uploads;
use axum::http::{HeaderMap, HeaderName, HeaderValue};
use dapil::json::JsonValue;
use dapil::params::{
    collect_arguments, needs_body, needs_json, needs_query, ParamDef, ParamType, ParamValue, RequestData, Source,
};

fn s(x: &str) -> String {
    x.to_string()
}

fn hmap(pairs: &[(&str, &[u8])]) -> HeaderMap {
    let mut m = HeaderMap::new();
    for (k, v) in pairs {
        m.append(HeaderName::from_bytes(k.as_bytes()).unwrap(), HeaderValue::from_bytes(v).unwrap());
    }
    m
}

fn def(name: &str, source: &str, ty: &str) -> ParamDef {
    ParamDef {
        name: s(name),
        source: Source::from_name(source),
        param_type: ParamType::from_name(ty),
        min_length: None,
        max_length: None,
        pattern: None,
    }
}

fn data() -> RequestData {
    RequestData {
        path_params: vec![(s("id"), s("42")), (s("slug"), s("hello")), (s("ratio"), s("2.5"))],
        query_string: s("q=rust&n=5&n=7&flag=true"),
        headers: hmap(&[
            ("x-token", b"abc"),
            ("user_agent", b"exact"),
            ("cookie", b"session=xyz; theme=dark"),
            ("cookie", b"session=other"),
        ]),
        body: br#"{"count": 3, "price": 9.5, "ok": true, "title": "hi", "tags": []}"#.to_vec(),
    }
}

fn arg<'a>(args: &'a [(String, ParamValue)], name: &str) -> Option<&'a ParamValue> {
    args.iter().find(|(k, _)| k == name).map(|(_, v)| v)
}

#[test]
fn sources_and_types_from_names() {
    assert!(matches!(Source::from_name("path"), Source::Path));
    assert!(matches!(Source::from_name("cookie"), Source::Cookie));
    assert!(matches!(Source::from_name("PATH"), Source::Other));
    assert!(matches!(ParamType::from_name("float"), ParamType::Float));
    assert!(matches!(ParamType::from_name("list"), ParamType::Other));
}

#[test]
fn schema_needs() {
    let a = vec![def("id", "path", "int"), def("q", "query", "str")];
    assert!(!needs_body(&a));
    assert!(needs_query(&a));
    let b = vec![def("f", "form", "str")];
    assert!(needs_body(&b));
    assert!(!needs_query(&b));
    let c = vec![def("up", "file", "str")];
    assert!(needs_body(&c));
    assert!(!needs_json(&c));
    assert!(needs_json(&vec![def("x", "body", "int")]));
}

#[test]
fn path_and_query_values_are_converted_by_type() {
    let schema = vec![
        def("id", "path", "int"),
        def("slug", "path", "int"),
        def("ratio", "path", "float"),
        def("n", "query", "int"),
        def("flag", "query", "bool"),
        def("q", "query", "str"),
        def("missing", "query", "str"),
    ];
    let args = collect_arguments(&schema, &data()).into_entries();
    assert!(matches!(arg(&args, "id"), Some(ParamValue::Int(42))));
    assert!(arg(&args, "slug").is_none());
    assert!(matches!(arg(&args, "ratio"), Some(ParamValue::Float(t)) if t == "2.5"));
    assert!(matches!(arg(&args, "n"), Some(ParamValue::Int(7))));
    assert!(matches!(arg(&args, "flag"), Some(ParamValue::Bool(true))));
    assert!(matches!(arg(&args, "q"), Some(ParamValue::Str(t)) if t == "rust"));
    assert!(arg(&args, "missing").is_none());
    let names: Vec<&str> = args.iter().map(|(k, _)| k.as_str()).collect();
    assert_eq!(names, vec!["id", "ratio", "n", "flag", "q"]);
}

#[test]
fn body_values_come_from_json_members() {
    let schema = vec![
        def("count", "body", "int"),
        def("price", "body", "int"),
        def("price2", "body", "float"),
        def("ok", "body", "bool"),
        def("title", "body", "str"),
        def("tags", "body", "list"),
        def("payload", "body", "json"),
    ];
    let args = collect_arguments(&schema, &data()).into_entries();
    assert!(matches!(arg(&args, "count"), Some(ParamValue::Int(3))));
    assert!(arg(&args, "price").is_none());
    assert!(arg(&args, "price2").is_none());
    assert!(matches!(arg(&args, "ok"), Some(ParamValue::Bool(true))));
    assert!(matches!(arg(&args, "title"), Some(ParamValue::Str(t)) if t == "hi"));
    assert!(matches!(arg(&args, "tags"), Some(ParamValue::Json(JsonValue::Array(v))) if v.is_empty()));
    match arg(&args, "payload") {
        Some(ParamValue::Json(JsonValue::Object(m))) => {
            let mut names: Vec<&str> = m.iter().map(|(k, _)| k.as_str()).collect();
            names.sort();
            assert_eq!(names, vec!["count", "ok", "price", "tags", "title"]);
        },
        _ => panic!("the whole body was expected"),
    }
}

#[test]
fn json_number_as_float() {
    let schema = vec![def("price", "body", "float")];
    let args = collect_arguments(&schema, &data()).into_entries();
    assert!(matches!(arg(&args, "price"), Some(ParamValue::Float(t)) if t == "9.5"));
}

#[test]
fn empty_body_gives_no_body_values() {
    let mut d = data();
    d.body = vec![];
    let schema = vec![def("count", "body", "int"), def("payload", "body", "json"), def("f", "form", "str")];
    let args = collect_arguments(&schema, &d).into_entries();
    assert!(args.is_empty());
}

#[test]
fn header_cookie_form_and_file_values() {
    let mut d = data();
    d.body = b"name=Ann+Lee&name=Bob&x=1".to_vec();
    let schema = vec![
        def("x_token", "header", "str"),
        def("user_agent", "header", "str"),
        def("session", "cookie", "str"),
        def("theme", "cookie", "str"),
        def("name", "form", "str"),
        def("doc", "file", "str"),
        def("other", "nowhere", "str"),
    ];
    let args = collect_arguments(&schema, &d).into_entries();
    assert!(matches!(arg(&args, "x_token"), Some(ParamValue::Str(t)) if t == "abc"));
    assert!(matches!(arg(&args, "user_agent"), Some(ParamValue::Str(t)) if t == "exact"));
    assert!(matches!(arg(&args, "session"), Some(ParamValue::Str(t)) if t == "xyz"));
    assert!(matches!(arg(&args, "theme"), Some(ParamValue::Str(t)) if t == "dark"));
    assert!(matches!(arg(&args, "name"), Some(ParamValue::Str(t)) if t == "Ann Lee"));
    assert!(arg(&args, "doc").is_none());
    assert!(arg(&args, "other").is_none());
}

#[test]
fn later_parameter_of_same_name_replaces_value() {
    let schema = vec![def("v", "path", "int"), def("v", "query", "str"), def("v", "query", "int")];
    let mut d = data();
    d.path_params = vec![(s("v"), s("1"))];
    d.query_string = s("v=abc");
    let args = collect_arguments(&schema, &d).into_entries();
    assert_eq!(args.len(), 1);
    assert!(matches!(arg(&args, "v"), Some(ParamValue::Str(t)) if t == "abc"));
}

#[test]
fn cookie_parts_that_do_not_parse_are_skipped() {
    let mut d = data();
    d.headers = hmap(&[("cookie", b"junk; =x; theme=light; theme=dark")]);
    let schema = vec![def("theme", "cookie", "str"), def("junk", "cookie", "str")];
    let args = collect_arguments(&schema, &d).into_entries();
    assert!(matches!(arg(&args, "theme"), Some(ParamValue::Str(t)) if t == "light"));
    assert!(arg(&args, "junk").is_none());
}

#[test]
fn cookie_header_that_is_not_text_gives_nothing() {
    let mut d = data();
    d.headers = hmap(&[("cookie", &[b't', b'=', 0xff])]);
    let schema = vec![def("t", "cookie", "str")];
    assert!(collect_arguments(&schema, &d).into_entries().is_empty());
}

#[test]
fn body_that_is_not_json_gives_no_body_values() {
    let mut d = data();
    d.body = b"count=3".to_vec();
    let schema = vec![def("count", "body", "int"), def("payload", "body", "json")];
    assert!(collect_arguments(&schema, &d).into_entries().is_empty());
}

#[test]
fn body_that_is_not_an_object_gives_only_the_whole() {
    let mut d = data();
    d.body = b"[1, 2]".to_vec();
    let schema = vec![def("count", "body", "int"), def("payload", "body", "json")];
    let args = collect_arguments(&schema, &d).into_entries();
    assert!(arg(&args, "count").is_none());
    assert!(matches!(arg(&args, "payload"), Some(ParamValue::Json(JsonValue::Array(v))) if v.len() == 2));
}

#[test]
fn nested_json_member_is_kept_whole() {
    let mut d = data();
    d.body = br#"{"meta": {"a": [true, null], "b": -4}, "big": 18446744073709551615}"#.to_vec();
    let schema = vec![def("meta", "body", "dict"), def("big", "body", "int"), def("big", "body", "float")];
    let args = collect_arguments(&schema, &d).into_entries();
    match arg(&args, "meta") {
        Some(ParamValue::Json(JsonValue::Object(m))) => {
            assert_eq!(m.len(), 2);
            let a = m.iter().find(|(k, _)| k == "a").map(|(_, v)| v);
            assert!(matches!(a, Some(JsonValue::Array(items))
                if items.len() == 2 && matches!(items[0], JsonValue::Bool(true)) && matches!(items[1], JsonValue::Null)));
            let b = m.iter().find(|(k, _)| k == "b").map(|(_, v)| v);
            assert!(matches!(b, Some(JsonValue::Number(n)) if n.integer == Some(-4) && n.text == "-4"));
        },
        _ => panic!("the member was expected"),
    }
    assert!(matches!(arg(&args, "big"), Some(ParamValue::Float(t)) if t == "18446744073709551615"));
}

fn render(v: &JsonValue) -> String {
    match v {
        JsonValue::Null => s("null"),
        JsonValue::Bool(b) => format!("{}", b),
        JsonValue::Number(n) => format!("{:?}/{}", n.integer, n.text),
        JsonValue::Str(t) => format!("{:?}", t),
        JsonValue::Array(items) => format!("[{}]", items.iter().map(render).collect::<Vec<_>>().join(",")),
        JsonValue::Object(m) => format!(
            "{{{}}}",
            m.iter().map(|(k, x)| format!("{:?}:{}", k, render(x))).collect::<Vec<_>>().join(",")
        ),
    }
}

#[test]
fn json_parameter_equals_request_json() {
    let d = data();
    let req = dapil::request::Request {
        method: s("POST"),
        path: s("/"),
        query_string: s(""),
        headers: HeaderMap::new(),
        body_bytes: d.body.clone(),
    };
    let whole = req.json().ok().unwrap();
    let args = collect_arguments(&vec![def("payload", "body", "json")], &d).into_entries();
    match arg(&args, "payload") {
        Some(ParamValue::Json(j)) => assert_eq!(render(j), render(&whole)),
        _ => panic!("the whole body was expected"),
    }
    assert_eq!(
        render(&whole),
        r#"{"count":Some(3)/3,"ok":true,"price":None/9.5,"tags":[],"title":"hi"}"#
    );
}

const MULTIPART: &[u8] = b"--XyZ\r\nContent-Disposition: form-data; name=\"doc\"; filename=\"a.txt\"\r\nContent-Type: text/plain\r\n\r\nfirst\r\n--XyZ\r\nContent-Disposition: form-data; name=\"img\"\r\n\r\nimage\r\n--XyZ\r\nContent-Disposition: form-data; name=\"doc\"\r\n\r\nsecond\r\n--XyZ--\r\n";

fn multipart_data() -> RequestData {
    let mut d = data();
    d.headers = hmap(&[("content-type", b"multipart/form-data; boundary=XyZ")]);
    d.body = MULTIPART.to_vec();
    d
}

#[test]
fn request_uploads_are_the_named_fields() {
    let d = multipart_data();
    let ups = request_uploads(true, &d.body, &d.headers);
    assert_eq!(ups.len(), 3);
    assert_eq!(ups[0].name, "doc");
    assert_eq!(ups[0].filename.as_deref(), Some("a.txt"));
    assert_eq!(ups[0].content_type.as_deref(), Some("text/plain"));
    assert_eq!(ups[0].data, b"first".to_vec());
    assert_eq!(ups[1].name, "img");
    assert!(ups[1].filename.is_none() && ups[1].content_type.is_none());
    assert_eq!(ups[2].data, b"second".to_vec());
    assert!(request_uploads(false, &d.body, &d.headers).is_empty());
    assert!(request_uploads(true, &[], &d.headers).is_empty());
    assert!(request_uploads(true, &d.body, &hmap(&[("content-type", b"text/plain")])).is_empty());
}

#[test]
fn file_parameter_takes_the_last_upload_of_its_name() {
    let d = multipart_data();
    let schema = vec![def("doc", "file", "str"), def("img", "file", "str"), def("none", "file", "str")];
    let args = collect_arguments(&schema, &d).into_entries();
    assert!(matches!(arg(&args, "doc"), Some(ParamValue::File(u)) if u.data == b"second".to_vec() && u.filename.is_none()));
    assert!(matches!(arg(&args, "img"), Some(ParamValue::File(u)) if u.name == "img" && u.data == b"image".to_vec()));
    assert!(arg(&args, "none").is_none());
}

#[test]
fn file_parameter_without_multipart_body_gives_nothing() {
    let mut d = multipart_data();
    d.headers = hmap(&[("content-type", b"application/octet-stream")]);
    let args = collect_arguments(&vec![def("doc", "file", "str")], &d).into_entries();
    assert!(args.is_empty());
}
