use axum::http::{HeaderMap, HeaderName, HeaderValue};
use dapil::headers::{get_header_text, header_value_text};
use dapil::json::JsonValue;
use dapil::request::Request;

fn s(x: &str) -> String {
    x.to_string()
}

fn hmap(pairs: &[(&str, &[u8])]) -> HeaderMap {
    let mut m = HeaderMap::new();
    for (k, v) in pairs {
        m.append(HeaderName::from_bytes(k.as_bytes()).unwrap(), HeaderValue::from_bytes(v).unwrap());
    }
    m
}

fn sample() -> Request {
    Request {
        method: s("GET"),
        path: s("/items/3"),
        query_string: s("a=1&b=x+y&a=2&c=%41"),
        headers: hmap(&[
            ("host", b"example.com"),
            ("x-bin", &[0xff, 0x41]),
            ("accept", b"text/html"),
            ("accept", b"*/*"),
        ]),
        body_bytes: b"{\"k\": 1}".to_vec(),
    }
}

#[test]
fn request_headers_skip_non_text_and_keep_last_value() {
    let d = sample().headers();
    assert_eq!(
        d.into_entries(),
        vec![(s("host"), s("example.com")), (s("accept"), s("*/*"))]
    );
}

#[test]
fn request_query_params_decode_and_keep_last_value() {
    let d = sample().query_params();
    assert_eq!(
        d.into_entries(),
        vec![(s("a"), s("2")), (s("b"), s("x y")), (s("c"), s("A"))]
    );
}

#[test]
fn request_url_has_path_then_query() {
    let d = sample().url();
    assert_eq!(
        d.into_entries(),
        vec![(s("path"), s("/items/3")), (s("query"), s("a=1&b=x+y&a=2&c=%41"))]
    );
}

#[test]
fn request_body_is_the_bytes() {
    assert_eq!(sample().body(), b"{\"k\": 1}".to_vec());
}

#[test]
fn header_lookup_is_case_insensitive_and_first_value() {
    let r = sample();
    assert_eq!(get_header_text(&r.headers, "Accept"), Some(s("text/html")));
    assert_eq!(get_header_text(&r.headers, "HOST"), Some(s("example.com")));
    assert_eq!(get_header_text(&r.headers, "bad key"), None);
    assert_eq!(get_header_text(&r.headers, ""), None);
    assert_eq!(get_header_text(&r.headers, "x-bin"), None);
    assert_eq!(get_header_text(&r.headers, "host"), Some(s("example.com")));
}

#[test]
fn header_value_text_accepts_visible_ascii_and_tab() {
    assert_eq!(header_value_text(b"a\tb ~"), Some(s("a\tb ~")));
    assert_eq!(header_value_text(b"a\x7f"), None);
    assert_eq!(header_value_text(b"\xc3\xa9"), None);
    assert_eq!(header_value_text(b""), Some(s("")));
}

#[test]
fn header_lookup_normalizes_the_key() {
    let headers = hmap(&[("content-type", b"text/plain"), ("x-custom_header", b"1")]);
    assert_eq!(get_header_text(&headers, "Content-Type"), Some(s("text/plain")));
    assert_eq!(get_header_text(&headers, "X-Custom_Header"), Some(s("1")));
    assert_eq!(get_header_text(&headers, "no space"), None);
}

#[test]
fn query_params_decode_plus_and_percent_and_skip_empty_parts() {
    let mut r = sample();
    r.query_string = s("a=1+2&&b=%41%42&flag");
    assert_eq!(
        r.query_params().into_entries(),
        vec![(s("a"), s("1 2")), (s("b"), s("AB")), (s("flag"), s(""))]
    );
    r.query_string = s("");
    assert!(r.query_params().into_entries().is_empty());
}

#[test]
fn request_json_gives_the_document() {
    match sample().json() {
        Ok(JsonValue::Object(m)) => {
            assert_eq!(m.len(), 1);
            assert_eq!(m[0].0, "k");
            assert!(matches!(&m[0].1, JsonValue::Number(n) if n.integer == Some(1) && n.text == "1"));
        },
        _ => panic!("an object was expected"),
    }
}

#[test]
fn request_json_error_carries_the_message() {
    let mut r = sample();
    r.body_bytes = b"{\"k\": ".to_vec();
    match r.json() {
        Err(e) => assert!(e.contains("EOF"), "{}", e),
        Ok(_) => panic!("a parse error was expected"),
    }
    r.body_bytes = Vec::new();
    assert!(r.json().is_err());
}
