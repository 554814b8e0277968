//! The calls this library makes into outside crates and into std, each
//! behind a small trusted item whose contract says what the library relies on.
use vstd::prelude::*;
use futures_util::FutureExt;
use crate::dict::{entries_insert, keys_unique};
use crate::flow::{Upload, UploadView, uploads_view};
use crate::headers::{header_entries, lookup_header};
use crate::json::{JsonNumber, JsonValue, JsonView};

verus! {

// ---------------------------------------------------------------- std

/// What `str::to_uppercase` returns for a string: Unicode upper-casing,
/// given by tables, named here rather than written out.
pub uninterp spec fn unicode_upper(s: Seq<char>) -> Seq<char>;

/// Text of ASCII characters only.
pub open spec fn is_ascii_text(s: Seq<char>) -> bool {
    forall|i: int| 0 <= i < s.len() ==> (#[trigger] s[i] as u32) < 128
}

/// ASCII letters `a` to `z` raised to `A` to `Z`; other characters unchanged.
pub open spec fn ascii_upper(s: Seq<char>) -> Seq<char> {
    s.map_values(|c: char| if 'a' <= c <= 'z' { ((c as u32) - 32) as char } else { c })
}

/// std `str::to_uppercase`: the contract claims that the result is the
/// named upper-casing of the argument, and that on ASCII text (where
/// Unicode's upper-case mapping is the ASCII one) each of `a` to `z` becomes
/// `A` to `Z` and every other character is kept.
#[verifier::external_body]
pub(crate) fn to_uppercase(s: &str) -> (r: String)
    ensures
        r@ == unicode_upper(s@),
        is_ascii_text(s@) ==> r@ == ascii_upper(s@),
{
    s.to_uppercase()
}

// ---------------------------------------------------------------- form_urlencoded

/// What `form_urlencoded::parse` yields for a byte string: its `&`-separated,
/// non-empty parts split at the first `=` into name and value, each
/// `+`-to-space replaced, percent-decoded and decoded as lossy UTF-8.
pub uninterp spec fn form_urlencoded_parse(input: Seq<u8>) -> Seq<(Seq<char>, Seq<char>)>;

/// The view of a vector of string pairs.
pub open spec fn pairs_view(v: Seq<(String, String)>) -> Seq<(Seq<char>, Seq<char>)> {
    v.map_values(|p: (String, String)| (p.0@, p.1@))
}

/// `form_urlencoded::parse`, collected: the contract claims the pairs are the
/// named parse of the input, in the order the iterator yields them.
#[verifier::external_body]
pub(crate) fn form_pairs(input: &[u8]) -> (r: Vec<(String, String)>)
    ensures
        pairs_view(r@) == form_urlencoded_parse(input@),
{
    form_urlencoded::parse(input).into_owned().collect()
}

// ---------------------------------------------------------------- cookie

/// What `cookie::Cookie::split_parse` yields for a `Cookie` header: for each
/// non-blank `;`-separated part, the parsed name and value, or nothing where
/// that part does not parse.
pub uninterp spec fn cookie_split_parse(header: Seq<char>) -> Seq<Option<(Seq<char>, Seq<char>)>>;

pub open spec fn cookie_results_view(v: Seq<Option<(String, String)>>) -> Seq<Option<(Seq<char>, Seq<char>)>> {
    v.map_values(
        |o: Option<(String, String)>|
            match o {
                Some(p) => Some((p.0@, p.1@)),
                None => None,
            },
    )
}

/// `cookie::Cookie::split_parse`, collected: each parse result becomes the
/// cookie's name and value, or `None` for a parse error; the contract claims
/// the results are the named split of the header, in order.
#[verifier::external_body]
pub(crate) fn cookie_pairs(header: &str) -> (r: Vec<Option<(String, String)>>)
    ensures
        cookie_results_view(r@) == cookie_split_parse(header@),
{
    cookie::Cookie::split_parse(header).map(
        |res| match res {
            Ok(c) => Some((c.name().to_string(), c.value().to_string())),
            Err(_) => None,
        },
    ).collect()
}

// ---------------------------------------------------------------- regex

/// `regex::Regex`, carried opaquely inside a compiled pattern.
#[verifier::external_type_specification]
#[verifier::external_body]
pub struct ExRegex(regex::Regex);

/// Whether `regex::Regex::new` accepts a pattern.
pub uninterp spec fn regex_compiles(pattern: Seq<char>) -> bool;

/// Whether the regex compiled from `pattern` matches somewhere in `text`.
pub uninterp spec fn regex_is_match(pattern: Seq<char>, text: Seq<char>) -> bool;

/// A compiled pattern together with the text it was compiled from.
pub(crate) struct CompiledPattern {
    source: String,
    regex: regex::Regex,
}

impl CompiledPattern {
    pub(crate) closed spec fn source(&self) -> Seq<char> {
        self.source@
    }
}

/// `regex::Regex::new`: the contract claims a compiled pattern comes back
/// exactly when the named predicate accepts the pattern, and that it
/// remembers the pattern's text.
#[verifier::external_body]
pub(crate) fn compile_pattern(pattern: &str) -> (r: Option<CompiledPattern>)
    ensures
        r is Some <==> regex_compiles(pattern@),
        r matches Some(c) ==> c.source() == pattern@,
{
    match regex::Regex::new(pattern) {
        Ok(regex) => Some(CompiledPattern { source: pattern.to_string(), regex }),
        Err(_) => None,
    }
}

/// `regex::Regex::is_match`: the contract claims the answer is the named
/// match relation between the pattern's text and the haystack.
#[verifier::external_body]
pub(crate) fn pattern_is_match(p: &CompiledPattern, text: &str) -> (r: bool)
    ensures
        r == regex_is_match(p.source(), text@),
{
    p.regex.is_match(text)
}

// ---------------------------------------------------------------- http (through axum)

/// A byte that may stand in an HTTP header name (RFC 7230 `tchar`).
pub open spec fn is_tchar(b: u8) -> bool {
    ||| 48 <= b <= 57
    ||| 65 <= b <= 90
    ||| 97 <= b <= 122
    ||| b == 33 || b == 35 || b == 36 || b == 37 || b == 38 || b == 39 || b == 42
    ||| b == 43 || b == 45 || b == 46 || b == 94 || b == 95 || b == 96 || b == 124 || b == 126
}

/// The bytes that `HeaderName::from_bytes` accepts: one to 65535 `tchar`s.
pub open spec fn valid_header_name(b: Seq<u8>) -> bool {
    &&& 1 <= b.len() <= 65535
    &&& forall|i: int| 0 <= i < b.len() ==> is_tchar(#[trigger] b[i])
}

pub open spec fn lower_byte(b: u8) -> u8 {
    if 65 <= b <= 90 {
        (b + 32) as u8
    } else {
        b
    }
}

/// The text of the header name made from valid bytes: ASCII lower case.
pub open spec fn normalized_header_name(b: Seq<u8>) -> Seq<char> {
    b.map_values(|x: u8| lower_byte(x) as char)
}

/// `axum::http::HeaderName::from_bytes` followed by `as_str`: the contract
/// claims a name comes back exactly for valid bytes, and that it is the
/// bytes in ASCII lower case (as the crate's `HEADER_CHARS` table maps them).
#[verifier::external_body]
pub(crate) fn header_name(b: &[u8]) -> (r: Option<String>)
    ensures
        r is Some <==> valid_header_name(b@),
        r matches Some(s) ==> s@ == normalized_header_name(b@),
{
    match axum::http::HeaderName::from_bytes(b) {
        Ok(n) => Some(n.as_str().to_string()),
        Err(_) => None,
    }
}

/// `axum::http::HeaderValue`, carried opaquely inside a header map.
#[verifier::external_type_specification]
#[verifier::external_body]
pub struct ExHeaderValue(axum::http::HeaderValue);

/// `axum::http::HeaderMap`, the headers of a request or a response.
#[verifier::external_type_specification]
#[verifier::external_body]
#[verifier::reject_recursive_types(T)]
pub struct ExHeaderMap<T>(axum::http::HeaderMap<T>);

/// What a header map holds, in the order `HeaderMap::iter` yields it: each
/// name (as `HeaderName::as_str` gives it, lower case) once per value, with
/// the value's bytes; the values of one name come in the order they were
/// added.
pub uninterp spec fn header_map_entries(m: axum::http::HeaderMap) -> Seq<(Seq<char>, Seq<u8>)>;

/// `HeaderMap::iter`, collected: the contract claims the pairs are the
/// map's entries in iteration order.
#[verifier::external_body]
pub(crate) fn header_map_pairs(m: &axum::http::HeaderMap) -> (r: Vec<(String, Vec<u8>)>)
    ensures
        header_entries(r@) == header_map_entries(*m),
{
    m.iter().map(|(k, v)| (k.as_str().to_string(), v.as_bytes().to_vec())).collect()
}

/// `HeaderMap::get` with a string key: the contract claims that the key is
/// read as `HeaderName::from_bytes` reads it, an invalid key finds nothing,
/// and a valid one finds the first value stored under its lower-case form.
#[verifier::external_body]
pub(crate) fn get_header(m: &axum::http::HeaderMap, key: &str) -> (r: Option<Vec<u8>>)
    ensures
        match lookup_header(header_map_entries(*m), vstd::utf8::encode_utf8(key@)) {
            Some(b) => r matches Some(v) && v@ == b,
            None => r is None,
        },
{
    m.get(key).map(|v| v.as_bytes().to_vec())
}

/// The bytes that `HeaderValue::from_str` accepts: no control byte but tab.
pub open spec fn valid_header_value_bytes(b: Seq<u8>) -> bool {
    forall|i: int| 0 <= i < b.len() ==> ((#[trigger] b[i] >= 32 && b[i] != 127) || b[i] == 9)
}

/// `axum::http::HeaderValue::from_str` succeeds: the contract claims this
/// happens exactly when no byte of the UTF-8 text is a control byte but tab.
#[verifier::external_body]
pub(crate) fn header_value_accepted(s: &str) -> (r: bool)
    ensures
        r == valid_header_value_bytes(vstd::utf8::encode_utf8(s@)),
{
    axum::http::HeaderValue::from_str(s).is_ok()
}

/// `HeaderMap::new`: the contract claims the new map holds nothing.
#[verifier::external_body]
pub(crate) fn header_map_new() -> (r: axum::http::HeaderMap)
    ensures
        header_map_entries(r) == Seq::<(Seq<char>, Seq<u8>)>::empty(),
{
    axum::http::HeaderMap::new()
}

/// `HeaderMap::try_insert` (the fallible form of `insert`), its name and
/// value made by `HeaderName::from_bytes` and `HeaderValue::from_str` from
/// text they accept. On a map that holds each name once, the contract claims:
/// on success the value replaces the one stored under the name, where it
/// stood, or else comes last; on failure (the table would grow past its
/// `MAX_SIZE` of 32768 slots) the entries are unchanged; and a map of fewer
/// than 3277 entries never fails, since its table has at most 16384 slots
/// and may still double.
#[verifier::external_body]
pub(crate) fn header_map_insert(m: &mut axum::http::HeaderMap, name: &str, value: &str) -> (r: bool)
    requires
        valid_header_name(vstd::utf8::encode_utf8(name@)),
        valid_header_value_bytes(vstd::utf8::encode_utf8(value@)),
        keys_unique(header_map_entries(*old(m))),
    ensures
        r ==> header_map_entries(*final(m)) == entries_insert(
            header_map_entries(*old(m)),
            normalized_header_name(vstd::utf8::encode_utf8(name@)),
            vstd::utf8::encode_utf8(value@),
        ),
        !r ==> header_map_entries(*final(m)) == header_map_entries(*old(m)),
        header_map_entries(*old(m)).len() < 3277 ==> r,
{
    match (axum::http::HeaderName::from_bytes(name.as_bytes()), axum::http::HeaderValue::from_str(value)) {
        (Ok(k), Ok(v)) => m.try_insert(k, v).is_ok(),
        _ => false,
    }
}

/// `axum::http::StatusCode::from_u16` succeeds: the contract claims this
/// happens exactly for 100 to 999.
#[verifier::external_body]
pub(crate) fn status_code_accepted(code: u16) -> (r: bool)
    ensures
        r == (100 <= code <= 999),
{
    axum::http::StatusCode::from_u16(code).is_ok()
}

// ---------------------------------------------------------------- serde_json

/// `serde_json::Value`, carried opaquely from the parse to its conversion.
#[verifier::external_type_specification]
#[verifier::external_body]
pub struct ExJsonValue(serde_json::Value);

/// What `serde_json::from_slice::<serde_json::Value>` gives for a byte
/// string: the JSON document it holds (each number with its `as_i64` and its
/// text as `Number` displays it), or the text of the error that stopped the
/// parse.
pub uninterp spec fn json_parse(input: Seq<u8>) -> Result<JsonView, Seq<char>>;

/// `serde_json::from_slice::<serde_json::Value>`, its value converted to
/// plain values and its error to its message: the contract claims the result
/// is the named parse of the input.
#[verifier::external_body]
pub(crate) fn parse_json(input: &[u8]) -> (r: Result<JsonValue, String>)
    ensures
        match r {
            Ok(v) => json_parse(input@) == Ok::<JsonView, Seq<char>>(v.view()),
            Err(e) => json_parse(input@) == Err::<JsonView, Seq<char>>(e@),
        },
{
    match serde_json::from_slice::<serde_json::Value>(input) {
        Ok(v) => Ok(json_tree(&v)),
        Err(e) => Err(e.to_string()),
    }
}

/// The conversion that `parse_json` applies to the parsed document: each
/// `serde_json::Value` variant becomes the `JsonValue` variant of the same
/// name, holding the same contents. Nothing is claimed of it on its own; what
/// it yields is part of the value that `parse_json` names.
#[verifier::external_body]
fn json_tree(v: &serde_json::Value) -> JsonValue {
    match v {
        serde_json::Value::Null => JsonValue::Null,
        serde_json::Value::Bool(b) => JsonValue::Bool(*b),
        serde_json::Value::Number(n) => JsonValue::Number(JsonNumber { integer: n.as_i64(), text: n.to_string() }),
        serde_json::Value::String(s) => JsonValue::Str(s.clone()),
        serde_json::Value::Array(a) => JsonValue::Array(a.iter().map(json_tree).collect()),
        serde_json::Value::Object(o) => JsonValue::Object(o.iter().map(|(k, x)| (k.clone(), json_tree(x))).collect()),
    }
}

// ---------------------------------------------------------------- multer

/// What `multer::Multipart` reads from a body held in memory, split at a
/// boundary: each field that has a name, in order, with its name, its file
/// name and content type where its headers give them, and its bytes (none
/// where reading them failed); reading stops at the end or at the first
/// field that cannot be read.
pub uninterp spec fn multipart_parse(body: Seq<u8>, boundary: Seq<char>) -> Seq<UploadView>;

/// `multer::Multipart::new` over the body as a one-chunk stream, then
/// `next_field` until it yields no field or an error, keeping each named
/// field with `file_name`, `content_type` (as text) and `bytes` (empty on an
/// error). The stream is ready at once, so each future is polled to its end
/// by `now_or_never`. The contract claims the uploads are the named parse of
/// the body at the boundary.
#[verifier::external_body]
pub(crate) fn multipart_fields(body: &[u8], boundary: &str) -> (r: Vec<Upload>)
    ensures
        uploads_view(r@) == multipart_parse(body@, boundary@),
{
    let chunks = futures_util::stream::iter([Ok::<_, std::io::Error>(body.to_vec())]);
    let mut parts = multer::Multipart::new(chunks, boundary);
    let mut out = Vec::new();
    while let Some(Ok(Some(f))) = parts.next_field().now_or_never() {
        if let Some(name) = f.name().map(String::from) {
            let filename = f.file_name().map(String::from);
            let content_type = f.content_type().map(|m| m.to_string());
            let data = f.bytes().now_or_never().and_then(|b| b.ok()).unwrap_or_default();
            out.push(Upload { name, filename, content_type, data: data.to_vec() });
        }
    }
    out
}

} // verus!
