//! Route parameters: where each comes from, how its text is converted, and
//! how the arguments of one request are gathered.
use vstd::prelude::*;
use crate::dict::{
    Dict, entries_insert, key_index, lemma_key_index, lemma_key_index_is_last, lemma_insert_map,
    map_entry_values,
};
use crate::foreign::{
    cookie_pairs, cookie_results_view, cookie_split_parse, form_pairs, form_urlencoded_parse,
    get_header, header_map_entries, json_parse, pairs_view, parse_json,
};
use axum::http::HeaderMap;
use crate::headers::{
    ascii_text, get_header_text, header_value_text, lookup_header, lookup_header_text, visible_ascii,
};
use crate::flow::{Upload, UploadView, request_uploads, uploads_spec, uploads_view};
use crate::json::{JsonValue, JsonView, json_member};
use crate::text::{
    chars_of, float_syntax, is_float_text, parse_bool, parse_bool_spec, parse_i64,
    parse_i64_spec, str_eq, string_from_chars,
};

verus! {

/// Where a parameter's value is taken from.
pub enum Source {
    Path,
    Query,
    Body,
    Header,
    Cookie,
    Form,
    File,
    Other,
}

/// The declared type of a parameter.
pub enum ParamType {
    Int,
    Float,
    Bool,
    Str,
    Json,
    Other,
}

pub open spec fn source_of_name(s: Seq<char>) -> Source {
    if s == seq!['p', 'a', 't', 'h'] {
        Source::Path
    } else if s == seq!['q', 'u', 'e', 'r', 'y'] {
        Source::Query
    } else if s == seq!['b', 'o', 'd', 'y'] {
        Source::Body
    } else if s == seq!['h', 'e', 'a', 'd', 'e', 'r'] {
        Source::Header
    } else if s == seq!['c', 'o', 'o', 'k', 'i', 'e'] {
        Source::Cookie
    } else if s == seq!['f', 'o', 'r', 'm'] {
        Source::Form
    } else if s == seq!['f', 'i', 'l', 'e'] {
        Source::File
    } else {
        Source::Other
    }
}

pub open spec fn type_of_name(s: Seq<char>) -> ParamType {
    if s == seq!['i', 'n', 't'] {
        ParamType::Int
    } else if s == seq!['f', 'l', 'o', 'a', 't'] {
        ParamType::Float
    } else if s == seq!['b', 'o', 'o', 'l'] {
        ParamType::Bool
    } else if s == seq!['s', 't', 'r'] {
        ParamType::Str
    } else if s == seq!['j', 's', 'o', 'n'] {
        ParamType::Json
    } else {
        ParamType::Other
    }
}

impl Source {
    /// The source a schema names: `path`, `query`, `body`, `header`,
    /// `cookie`, `form` or `file`; any other name takes nothing.
    pub fn from_name(s: &str) -> (r: Source)
        ensures
            r == source_of_name(s@),
    {
        proof {
            reveal_strlit("path");
            reveal_strlit("query");
            reveal_strlit("body");
            reveal_strlit("header");
            reveal_strlit("cookie");
            reveal_strlit("form");
            reveal_strlit("file");
            assert("path"@ =~= seq!['p', 'a', 't', 'h']);
            assert("query"@ =~= seq!['q', 'u', 'e', 'r', 'y']);
            assert("body"@ =~= seq!['b', 'o', 'd', 'y']);
            assert("header"@ =~= seq!['h', 'e', 'a', 'd', 'e', 'r']);
            assert("cookie"@ =~= seq!['c', 'o', 'o', 'k', 'i', 'e']);
            assert("form"@ =~= seq!['f', 'o', 'r', 'm']);
            assert("file"@ =~= seq!['f', 'i', 'l', 'e']);
        }
        if str_eq(s, "path") {
            Source::Path
        } else if str_eq(s, "query") {
            Source::Query
        } else if str_eq(s, "body") {
            Source::Body
        } else if str_eq(s, "header") {
            Source::Header
        } else if str_eq(s, "cookie") {
            Source::Cookie
        } else if str_eq(s, "form") {
            Source::Form
        } else if str_eq(s, "file") {
            Source::File
        } else {
            Source::Other
        }
    }
}

impl ParamType {
    /// The type a schema names: `int`, `float`, `bool`, `str` or `json`.
    pub fn from_name(s: &str) -> (r: ParamType)
        ensures
            r == type_of_name(s@),
    {
        proof {
            reveal_strlit("int");
            reveal_strlit("float");
            reveal_strlit("bool");
            reveal_strlit("str");
            reveal_strlit("json");
            assert("int"@ =~= seq!['i', 'n', 't']);
            assert("float"@ =~= seq!['f', 'l', 'o', 'a', 't']);
            assert("bool"@ =~= seq!['b', 'o', 'o', 'l']);
            assert("str"@ =~= seq!['s', 't', 'r']);
            assert("json"@ =~= seq!['j', 's', 'o', 'n']);
        }
        if str_eq(s, "int") {
            ParamType::Int
        } else if str_eq(s, "float") {
            ParamType::Float
        } else if str_eq(s, "bool") {
            ParamType::Bool
        } else if str_eq(s, "str") {
            ParamType::Str
        } else if str_eq(s, "json") {
            ParamType::Json
        } else {
            ParamType::Other
        }
    }
}

/// One parameter of a route, as its schema declares it (the numeric bounds
/// are checked outside the library, see `validate`).
pub struct ParamDef {
    pub name: String,
    pub source: Source,
    pub param_type: ParamType,
    pub min_length: Option<usize>,
    pub max_length: Option<usize>,
    pub pattern: Option<String>,
}

pub open spec fn reads_body(s: Source) -> bool {
    s is Body || s is Form || s is File
}

/// The route reads the request body: some parameter comes from the body, a
/// form or an uploaded file.
pub open spec fn needs_body_spec(schema: Seq<ParamDef>) -> bool {
    exists|i: int| 0 <= i < schema.len() && reads_body(#[trigger] schema[i].source)
}

/// The route reads the body as JSON: some parameter comes from the body.
pub open spec fn needs_json_spec(schema: Seq<ParamDef>) -> bool {
    exists|i: int| 0 <= i < schema.len() && (#[trigger] schema[i].source) is Body
}

/// The route reads the query string: some parameter comes from it.
pub open spec fn needs_query_spec(schema: Seq<ParamDef>) -> bool {
    exists|i: int| 0 <= i < schema.len() && (#[trigger] schema[i].source) is Query
}

pub fn needs_body(schema: &Vec<ParamDef>) -> (r: bool)
    ensures
        r == needs_body_spec(schema@),
{
    let n = schema.len();
    let mut i: usize = 0;
    while i < n
        invariant
            i <= n == schema@.len(),
            forall|j: int| 0 <= j < i ==> !reads_body(#[trigger] schema@[j].source),
        decreases n - i,
    {
        match schema[i].source {
            Source::Body | Source::Form | Source::File => {
                return true;
            },
            _ => {},
        }
        i = i + 1;
    }
    false
}

pub fn needs_json(schema: &Vec<ParamDef>) -> (r: bool)
    ensures
        r == needs_json_spec(schema@),
{
    let n = schema.len();
    let mut i: usize = 0;
    while i < n
        invariant
            i <= n == schema@.len(),
            forall|j: int| 0 <= j < i ==> !((#[trigger] schema@[j].source) is Body),
        decreases n - i,
    {
        match schema[i].source {
            Source::Body => {
                return true;
            },
            _ => {},
        }
        i = i + 1;
    }
    false
}

pub fn needs_query(schema: &Vec<ParamDef>) -> (r: bool)
    ensures
        r == needs_query_spec(schema@),
{
    let n = schema.len();
    let mut i: usize = 0;
    while i < n
        invariant
            i <= n == schema@.len(),
            forall|j: int| 0 <= j < i ==> !((#[trigger] schema@[j].source) is Query),
        decreases n - i,
    {
        match schema[i].source {
            Source::Query => {
                return true;
            },
            _ => {},
        }
        i = i + 1;
    }
    false
}

/// The value of one handler argument.
pub enum ParamValue {
    Int(i64),
    /// Text that `str::parse::<f64>` accepts; its value is that parse.
    Float(String),
    Bool(bool),
    Str(String),
    /// The JSON body, or a member of it.
    Json(JsonValue),
    /// An uploaded file.
    File(Upload),
}

/// The view of a `ParamValue`.
pub enum ArgView {
    Int(i64),
    Float(Seq<char>),
    Bool(bool),
    Str(Seq<char>),
    Json(JsonView),
    File(UploadView),
}

impl ParamValue {
    pub open spec fn view(&self) -> ArgView {
        match self {
            ParamValue::Int(i) => ArgView::Int(*i),
            ParamValue::Float(t) => ArgView::Float(t@),
            ParamValue::Bool(b) => ArgView::Bool(*b),
            ParamValue::Str(s) => ArgView::Str(s@),
            ParamValue::Json(v) => ArgView::Json(v.view()),
            ParamValue::File(u) => ArgView::File(u.view()),
        }
    }
}

pub open spec fn opt_view(r: Option<ParamValue>) -> Option<ArgView> {
    match r {
        Some(v) => Some(v.view()),
        None => None,
    }
}

/// Everything of a request that parameters are taken from.
pub struct RequestData {
    /// The path parameters the router matched.
    pub path_params: Vec<(String, String)>,
    pub query_string: String,
    pub headers: HeaderMap,
    /// The body bytes that were read (empty when the route reads no body).
    pub body: Vec<u8>,
}

/// A text value converted to the declared type: integers and booleans by
/// std's parsing, floats when std's parsing accepts the text, anything else
/// as the text itself.
pub open spec fn text_arg(ty: ParamType, v: Seq<char>) -> Option<ArgView> {
    match ty {
        ParamType::Int => match parse_i64_spec(v) {
            Some(i) => Some(ArgView::Int(i)),
            None => None,
        },
        ParamType::Float => if float_syntax(v) {
            Some(ArgView::Float(v))
        } else {
            None
        },
        ParamType::Bool => match parse_bool_spec(v) {
            Some(b) => Some(ArgView::Bool(b)),
            None => None,
        },
        _ => Some(ArgView::Str(v)),
    }
}

/// A member of the JSON body converted to the declared type: integers by
/// `as_i64`, floats from any number, booleans and strings as they are, and
/// for any other type the member itself.
pub open spec fn json_field_arg(ty: ParamType, f: JsonView) -> Option<ArgView> {
    match ty {
        ParamType::Int => match f {
            JsonView::Number(Some(i), _) => Some(ArgView::Int(i)),
            _ => None,
        },
        ParamType::Float => match f {
            JsonView::Number(_, t) => Some(ArgView::Float(t)),
            _ => None,
        },
        ParamType::Bool => match f {
            JsonView::Bool(b) => Some(ArgView::Bool(b)),
            _ => None,
        },
        ParamType::Str => match f {
            JsonView::Str(s) => Some(ArgView::Str(s)),
            _ => None,
        },
        _ => Some(ArgView::Json(f)),
    }
}

/// The request body parsed as JSON, when it parses.
pub open spec fn parsed_body(d: RequestData) -> Option<JsonView> {
    match json_parse(d.body@) {
        Ok(j) => Some(j),
        Err(_) => None,
    }
}

pub open spec fn body_view(b: Option<JsonValue>) -> Option<JsonView> {
    match b {
        Some(j) => Some(j.view()),
        None => None,
    }
}

/// The value of the last pair under `k`.
pub open spec fn lookup_last(pairs: Seq<(Seq<char>, Seq<char>)>, k: Seq<char>) -> Option<Seq<char>> {
    let i = key_index(pairs, k);
    if i >= 0 {
        Some(pairs[i].1)
    } else {
        None
    }
}

/// The value of the first pair under `k`.
pub open spec fn lookup_first(pairs: Seq<(Seq<char>, Seq<char>)>, k: Seq<char>) -> Option<Seq<char>>
    decreases pairs.len(),
{
    if pairs.len() == 0 {
        None
    } else if pairs[0].0 == k {
        Some(pairs[0].1)
    } else {
        lookup_first(pairs.skip(1), k)
    }
}

/// The value of the first cookie that parsed and is named `k`.
pub open spec fn first_cookie(cs: Seq<Option<(Seq<char>, Seq<char>)>>, k: Seq<char>) -> Option<Seq<char>>
    decreases cs.len(),
{
    if cs.len() == 0 {
        None
    } else {
        match cs[0] {
            Some(p) => if p.0 == k {
                Some(p.1)
            } else {
                first_cookie(cs.skip(1), k)
            },
            None => first_cookie(cs.skip(1), k),
        }
    }
}

/// Position of the last name equal to `k`, or -1.
pub open spec fn last_name_index(names: Seq<Seq<char>>, k: Seq<char>) -> int
    decreases names.len(),
{
    if names.len() == 0 {
        -1
    } else if names.last() == k {
        names.len() - 1
    } else {
        last_name_index(names.drop_last(), k)
    }
}

/// The name of a header parameter with `_` written as `-`.
pub open spec fn header_key(name: Seq<char>) -> Seq<char> {
    name.map_values(|c: char| if c == '_' { '-' } else { c })
}

pub open spec fn cookie_name() -> Seq<char> {
    seq!['c', 'o', 'o', 'k', 'i', 'e']
}

/// The query pairs of a request, read when the query string is not empty.
pub open spec fn query_pairs(d: RequestData) -> Seq<(Seq<char>, Seq<char>)> {
    if d.query_string@.len() > 0 {
        form_urlencoded_parse(vstd::utf8::encode_utf8(d.query_string@))
    } else {
        Seq::empty()
    }
}

pub open spec fn str_arg(v: Option<Seq<char>>) -> Option<ArgView> {
    match v {
        Some(s) => Some(ArgView::Str(s)),
        None => None,
    }
}

/// The value a parameter takes from a request, if any.
pub open spec fn extract_spec(p: ParamDef, d: RequestData) -> Option<ArgView> {
    let name = p.name@;
    let h = header_map_entries(d.headers);
    match p.source {
        Source::Path => match lookup_last(pairs_view(d.path_params@), name) {
            Some(v) => text_arg(p.param_type, v),
            None => None,
        },
        Source::Query => match lookup_last(query_pairs(d), name) {
            Some(v) => text_arg(p.param_type, v),
            None => None,
        },
        Source::Body => if d.body@.len() > 0 {
            match parsed_body(d) {
                Some(j) => if p.param_type is Json {
                    Some(ArgView::Json(j))
                } else {
                    match json_member(j, name) {
                        Some(f) => json_field_arg(p.param_type, f),
                        None => None,
                    }
                },
                None => None,
            }
        } else {
            None
        },
        Source::Header => match lookup_header(h, vstd::utf8::encode_utf8(header_key(name))) {
            Some(b) => if visible_ascii(b) {
                Some(ArgView::Str(ascii_text(b)))
            } else {
                None
            },
            None => str_arg(lookup_header_text(h, vstd::utf8::encode_utf8(name))),
        },
        Source::Cookie => match lookup_header(h, vstd::utf8::encode_utf8(cookie_name())) {
            Some(b) => if visible_ascii(b) {
                str_arg(first_cookie(cookie_split_parse(ascii_text(b)), name))
            } else {
                None
            },
            None => None,
        },
        Source::Form => if d.body@.len() > 0 {
            str_arg(lookup_first(form_urlencoded_parse(d.body@), name))
        } else {
            None
        },
        Source::File => {
            let ups = uploads_spec(true, d.body@, h);
            let i = last_name_index(ups.map_values(|u: UploadView| u.0), name);
            if i >= 0 {
                Some(ArgView::File(ups[i]))
            } else {
                None
            }
        },
        Source::Other => None,
    }
}

/// The arguments of a request: each parameter in schema order writes its
/// value, when it has one, under its name.
pub open spec fn arguments_spec(schema: Seq<ParamDef>, d: RequestData) -> Seq<(Seq<char>, ArgView)>
    decreases schema.len(),
{
    if schema.len() == 0 {
        Seq::empty()
    } else {
        let acc = arguments_spec(schema.drop_last(), d);
        match extract_spec(schema.last(), d) {
            Some(v) => entries_insert(acc, schema.last().name@, v),
            None => acc,
        }
    }
}

// ---------------------------------------------------------------- exec

fn text_to_arg(ty: &ParamType, v: &String) -> (r: Option<ParamValue>)
    ensures
        opt_view(r) == text_arg(*ty, v@),
{
    match ty {
        ParamType::Int => match parse_i64(v.as_str()) {
            Some(i) => Some(ParamValue::Int(i)),
            None => None,
        },
        ParamType::Float => if is_float_text(v.as_str()) {
            Some(ParamValue::Float(v.clone()))
        } else {
            None
        },
        ParamType::Bool => match parse_bool(v.as_str()) {
            Some(b) => Some(ParamValue::Bool(b)),
            None => None,
        },
        _ => Some(ParamValue::Str(v.clone())),
    }
}

fn json_field_to_arg(ty: &ParamType, f: JsonValue) -> (r: Option<ParamValue>)
    ensures
        opt_view(r) == json_field_arg(*ty, f.view()),
{
    match ty {
        ParamType::Int => match f {
            JsonValue::Number(n) => match n.integer {
                Some(i) => Some(ParamValue::Int(i)),
                None => None,
            },
            _ => None,
        },
        ParamType::Float => match f {
            JsonValue::Number(n) => Some(ParamValue::Float(n.text)),
            _ => None,
        },
        ParamType::Bool => match f {
            JsonValue::Bool(b) => Some(ParamValue::Bool(b)),
            _ => None,
        },
        ParamType::Str => match f {
            JsonValue::Str(s) => Some(ParamValue::Str(s)),
            _ => None,
        },
        _ => Some(ParamValue::Json(f)),
    }
}

/// The value of the last pair under `key`.
pub fn last_pair_value<'a>(pairs: &'a Vec<(String, String)>, key: &str) -> (r: Option<&'a String>)
    ensures
        match lookup_last(pairs_view(pairs@), key@) {
            Some(v) => r matches Some(s) && s@ == v,
            None => r is None,
        },
{
    let ghost pv = pairs_view(pairs@);
    proof {
        lemma_key_index(pv, key@);
    }
    let n = pairs.len();
    let mut i = n;
    while i > 0
        invariant
            i <= n == pairs@.len(),
            pv == pairs_view(pairs@),
            forall|j: int| i <= j < n ==> pv[j].0 != key@,
        decreases i,
    {
        i = i - 1;
        if str_eq(pairs[i].0.as_str(), key) {
            proof {
                lemma_key_index_is_last(pv, key@, i as int);
            }
            return Some(&pairs[i].1);
        }
    }
    None
}

proof fn lemma_lookup_first_skip(pairs: Seq<(Seq<char>, Seq<char>)>, k: Seq<char>, i: int)
    requires
        0 <= i <= pairs.len(),
        forall|j: int| 0 <= j < i ==> pairs[j].0 != k,
    ensures
        lookup_first(pairs, k) == lookup_first(pairs.skip(i), k),
    decreases i,
{
    if i > 0 {
        assert(pairs[0].0 != k);
        lemma_lookup_first_skip(pairs.skip(1), k, i - 1);
        assert(pairs.skip(1).skip(i - 1) =~= pairs.skip(i));
    } else {
        assert(pairs.skip(0) =~= pairs);
    }
}

/// The value of the first pair under `key`.
pub fn first_pair_value(pairs: &Vec<(String, String)>, key: &str) -> (r: Option<String>)
    ensures
        match lookup_first(pairs_view(pairs@), key@) {
            Some(v) => r matches Some(s) && s@ == v,
            None => r is None,
        },
{
    let ghost pv = pairs_view(pairs@);
    let n = pairs.len();
    let mut i: usize = 0;
    while i < n
        invariant
            i <= n == pairs@.len(),
            pv == pairs_view(pairs@),
            forall|j: int| 0 <= j < i ==> pv[j].0 != key@,
        decreases n - i,
    {
        if str_eq(pairs[i].0.as_str(), key) {
            proof {
                lemma_lookup_first_skip(pv, key@, i as int);
            }
            return Some(pairs[i].1.clone());
        }
        i = i + 1;
    }
    proof {
        lemma_lookup_first_skip(pv, key@, n as int);
    }
    None
}

proof fn lemma_first_cookie_skip(cs: Seq<Option<(Seq<char>, Seq<char>)>>, k: Seq<char>, i: int)
    requires
        0 <= i <= cs.len(),
        forall|j: int| 0 <= j < i ==> !(#[trigger] cs[j] matches Some(p) && p.0 == k),
    ensures
        first_cookie(cs, k) == first_cookie(cs.skip(i), k),
    decreases i,
{
    if i > 0 {
        assert(!(cs[0] matches Some(p) && p.0 == k));
        assert forall|j: int| 0 <= j < i - 1 implies !(#[trigger] cs.skip(1)[j] matches Some(p) && p.0 == k) by {
            assert(cs.skip(1)[j] == cs[j + 1]);
        }
        lemma_first_cookie_skip(cs.skip(1), k, i - 1);
        assert(cs.skip(1).skip(i - 1) =~= cs.skip(i));
    } else {
        assert(cs.skip(0) =~= cs);
    }
}

/// The value of the first well-formed cookie named `key`.
pub fn first_cookie_value(cookies: &Vec<Option<(String, String)>>, key: &str) -> (r: Option<String>)
    ensures
        match first_cookie(cookie_results_view(cookies@), key@) {
            Some(v) => r matches Some(s) && s@ == v,
            None => r is None,
        },
{
    let ghost cv = cookie_results_view(cookies@);
    let n = cookies.len();
    let mut i: usize = 0;
    while i < n
        invariant
            i <= n == cookies@.len(),
            cv == cookie_results_view(cookies@),
            forall|j: int| 0 <= j < i ==> !(#[trigger] cv[j] matches Some(p) && p.0 == key@),
        decreases n - i,
    {
        match &cookies[i] {
            Some(pair) => {
                if str_eq(pair.0.as_str(), key) {
                    proof {
                        lemma_first_cookie_skip(cv, key@, i as int);
                    }
                    return Some(pair.1.clone());
                }
            },
            None => {},
        }
        i = i + 1;
    }
    proof {
        lemma_first_cookie_skip(cv, key@, n as int);
    }
    None
}

proof fn lemma_last_name_index(names: Seq<Seq<char>>, k: Seq<char>, i: int)
    requires
        -1 <= i < names.len(),
        i >= 0 ==> names[i] == k,
        forall|j: int| i < j < names.len() ==> names[j] != k,
    ensures
        last_name_index(names, k) == i,
    decreases names.len(),
{
    if names.len() > 0 && i < names.len() - 1 {
        lemma_last_name_index(names.drop_last(), k, i);
    }
}

/// Position of the last upload named `key`.
pub fn last_upload(uploads: &Vec<Upload>, key: &str) -> (r: Option<usize>)
    ensures
        match r {
            Some(i) => i as int == last_name_index(uploads_view(uploads@).map_values(|u: UploadView| u.0), key@)
                && i < uploads@.len(),
            None => last_name_index(uploads_view(uploads@).map_values(|u: UploadView| u.0), key@) < 0,
        },
{
    let ghost nv = uploads_view(uploads@).map_values(|u: UploadView| u.0);
    let n = uploads.len();
    let mut i = n;
    while i > 0
        invariant
            i <= n == uploads@.len(),
            nv == uploads_view(uploads@).map_values(|u: UploadView| u.0),
            forall|j: int| i <= j < n ==> nv[j] != key@,
        decreases i,
    {
        i = i - 1;
        if str_eq(uploads[i].name.as_str(), key) {
            proof {
                lemma_last_name_index(nv, key@, i as int);
            }
            return Some(i);
        }
    }
    proof {
        lemma_last_name_index(nv, key@, -1);
    }
    None
}

/// A header parameter's name with `_` written as `-`.
pub fn header_key_of(name: &str) -> (r: String)
    ensures
        r@ == header_key(name@),
{
    let cs = chars_of(name);
    let n = cs.len();
    let mut out: Vec<char> = Vec::new();
    let mut i: usize = 0;
    while i < n
        invariant
            i <= n == cs@.len(),
            out@ =~= header_key(cs@).take(i as int),
        decreases n - i,
    {
        let c = cs[i];
        out.push(if c == '_' { '-' } else { c });
        i = i + 1;
    }
    assert(out@ =~= header_key(name@));
    string_from_chars(out.as_slice())
}

/// The value one parameter takes from a request (`query` holds the request's
/// query pairs when the parameter reads the query, `body` the body parsed as
/// JSON when the parameter reads a non-empty body, `uploads` the request's
/// uploads when the parameter reads one).
pub fn extract(
    p: &ParamDef,
    d: &RequestData,
    query: &Vec<(String, String)>,
    body: &Option<JsonValue>,
    uploads: &Vec<Upload>,
) -> (r: Option<ParamValue>)
    requires
        p.source is File ==> uploads_view(uploads@) == uploads_spec(true, d.body@, header_map_entries(d.headers)),
        p.source is Query ==> pairs_view(query@) == query_pairs(*d),
        p.source is Body && d.body@.len() > 0 ==> body_view(*body) == parsed_body(*d),
    ensures
        opt_view(r) == extract_spec(*p, *d),
{
    let name = p.name.as_str();
    match p.source {
        Source::Path => match last_pair_value(&d.path_params, name) {
            Some(v) => text_to_arg(&p.param_type, v),
            None => None,
        },
        Source::Query => match last_pair_value(query, name) {
            Some(v) => text_to_arg(&p.param_type, v),
            None => None,
        },
        Source::Body => {
            if d.body.len() == 0 {
                return None;
            }
            match body {
                Some(j) => match p.param_type {
                    ParamType::Json => Some(ParamValue::Json(j.copy())),
                    _ => match j.get(name) {
                        Some(f) => json_field_to_arg(&p.param_type, f),
                        None => None,
                    },
                },
                None => None,
            }
        },
        Source::Header => {
            let key = header_key_of(name);
            match get_header(&d.headers, key.as_str()) {
                Some(b) => match header_value_text(b.as_slice()) {
                    Some(t) => Some(ParamValue::Str(t)),
                    None => None,
                },
                None => match get_header_text(&d.headers, name) {
                    Some(t) => Some(ParamValue::Str(t)),
                    None => None,
                },
            }
        },
        Source::Cookie => {
            proof {
                reveal_strlit("cookie");
                assert("cookie"@ =~= cookie_name());
            }
            match get_header(&d.headers, "cookie") {
                Some(b) => match header_value_text(b.as_slice()) {
                    Some(t) => {
                        let cookies = cookie_pairs(t.as_str());
                        match first_cookie_value(&cookies, name) {
                            Some(v) => Some(ParamValue::Str(v)),
                            None => None,
                        }
                    },
                    None => None,
                },
                None => None,
            }
        },
        Source::Form => {
            if d.body.len() == 0 {
                return None;
            }
            let pairs = form_pairs(d.body.as_slice());
            match first_pair_value(&pairs, name) {
                Some(v) => Some(ParamValue::Str(v)),
                None => None,
            }
        },
        Source::File => match last_upload(uploads, name) {
            Some(i) => Some(ParamValue::File(uploads[i].copy())),
            None => None,
        },
        Source::Other => None,
    }
}

/// The arguments of a request for a route's schema, as the handler receives
/// them: in schema order each parameter that takes a value writes it under
/// its name, a later parameter of the same name replacing the value.
pub fn collect_arguments(schema: &Vec<ParamDef>, d: &RequestData) -> (r: Dict<ParamValue>)
    ensures
        r.wf(),
        map_entry_values(r.view_entries(), |v: ParamValue| v.view()) == arguments_spec(schema@, *d),
{
    let query: Vec<(String, String)> = if needs_query(schema) && !d.query_string.as_str().is_empty() {
        form_pairs(d.query_string.as_str().as_bytes())
    } else {
        Vec::new()
    };
    proof {
        if needs_query_spec(schema@) {
            if d.query_string@.len() == 0 {
                assert(pairs_view(query@) =~= Seq::<(Seq<char>, Seq<char>)>::empty());
            }
        }
    }
    let body: Option<JsonValue> = if needs_json(schema) && d.body.len() > 0 {
        match parse_json(d.body.as_slice()) {
            Ok(v) => Some(v),
            Err(_) => None,
        }
    } else {
        None
    };
    let uploads = request_uploads(needs_body(schema), d.body.as_slice(), &d.headers);
    let mut out: Dict<ParamValue> = Dict::new();
    let n = schema.len();
    let mut i: usize = 0;
    assert(map_entry_values(out.view_entries(), |v: ParamValue| v.view()) =~= Seq::<(Seq<char>, ArgView)>::empty());
    while i < n
        invariant
            i <= n == schema@.len(),
            out.wf(),
            needs_query_spec(schema@) ==> pairs_view(query@) == query_pairs(*d),
            needs_json_spec(schema@) && d.body@.len() > 0 ==> body_view(body) == parsed_body(*d),
            uploads_view(uploads@) == uploads_spec(needs_body_spec(schema@), d.body@, header_map_entries(d.headers)),
            map_entry_values(out.view_entries(), |v: ParamValue| v.view()) == arguments_spec(
                schema@.take(i as int),
                *d,
            ),
        decreases n - i,
    {
        let p = &schema[i];
        assert(schema@.take(i + 1).drop_last() =~= schema@.take(i as int));
        assert(schema@.take(i + 1).last() == schema@[i as int]);
        proof {
            if p.source is Query {
                assert((schema@[i as int].source) is Query);
                assert(needs_query_spec(schema@));
            }
            if p.source is Body {
                assert((schema@[i as int].source) is Body);
                assert(needs_json_spec(schema@));
            }
            if p.source is File {
                assert(reads_body(schema@[i as int].source));
                assert(needs_body_spec(schema@));
            }
        }
        match extract(p, d, &query, &body, &uploads) {
            Some(v) => {
                let ghost before = out.view_entries();
                proof {
                    lemma_insert_map(before, p.name@, v, |v: ParamValue| v.view());
                }
                out.insert(p.name.clone(), v);
            },
            None => {},
        }
        i = i + 1;
    }
    assert(schema@.take(n as int) =~= schema@);
    out
}

} // verus!

verus! {

/// The `(name, value)` pairs of the parameters that take a value, in schema order.
pub open spec fn extracted_pairs(schema: Seq<ParamDef>, d: RequestData) -> Seq<(Seq<char>, ArgView)>
    decreases schema.len(),
{
    if schema.len() == 0 {
        Seq::empty()
    } else {
        let rest = extracted_pairs(schema.drop_last(), d);
        match extract_spec(schema.last(), d) {
            Some(v) => rest.push((schema.last().name@, v)),
            None => rest,
        }
    }
}

/// Law: the handler's argument under a name is the value of the last
/// parameter of that name, in schema order, that takes a value from the
/// request; names of parameters that take none are absent; no name occurs
/// twice among the arguments.
pub proof fn lemma_arguments_last_wins(schema: Seq<ParamDef>, d: RequestData)
    ensures
        crate::dict::keys_unique(arguments_spec(schema, d)),
        crate::dict::entries_map(arguments_spec(schema, d)) == crate::dict::entries_map(extracted_pairs(schema, d)),
{
    lemma_arguments_insert_all(schema, d);
    crate::dict::lemma_insert_all_law(Seq::<(Seq<char>, ArgView)>::empty(), extracted_pairs(schema, d));
    assert(Seq::<(Seq<char>, ArgView)>::empty() + extracted_pairs(schema, d) =~= extracted_pairs(schema, d));
}

proof fn lemma_arguments_insert_all(schema: Seq<ParamDef>, d: RequestData)
    ensures
        arguments_spec(schema, d) == crate::dict::entries_insert_all(
            Seq::<(Seq<char>, ArgView)>::empty(),
            extracted_pairs(schema, d),
        ),
    decreases schema.len(),
{
    if schema.len() > 0 {
        lemma_arguments_insert_all(schema.drop_last(), d);
        let rest = extracted_pairs(schema.drop_last(), d);
        match extract_spec(schema.last(), d) {
            Some(v) => {
                let full = rest.push((schema.last().name@, v));
                assert(full.drop_last() =~= rest);
            },
            None => {},
        }
    }
}

/// Law: a `json` parameter read from a non-empty body receives the document
/// that parsing the body gives, the one `Request::json` returns for the same
/// bytes; when the body does not parse it receives nothing.
pub proof fn lemma_json_parameter_is_the_parsed_body(p: ParamDef, d: RequestData)
    requires
        p.source is Body,
        p.param_type is Json,
        d.body@.len() > 0,
    ensures
        match json_parse(d.body@) {
            Ok(j) => extract_spec(p, d) == Some(ArgView::Json(j)),
            Err(_) => extract_spec(p, d) is None,
        },
{
}

proof fn lemma_last_name_index_found(names: Seq<Seq<char>>, k: Seq<char>)
    ensures
        -1 <= last_name_index(names, k) < names.len(),
        last_name_index(names, k) >= 0 ==> names[last_name_index(names, k)] == k,
        forall|j: int| last_name_index(names, k) < j < names.len() ==> names[j] != k,
    decreases names.len(),
{
    if names.len() > 0 && names.last() != k {
        lemma_last_name_index_found(names.drop_last(), k);
        assert forall|j: int| last_name_index(names, k) < j < names.len() implies names[j] != k by {
            if j < names.len() - 1 {
                assert(names.drop_last()[j] == names[j]);
            }
        }
    }
}

/// Law: a file parameter takes the last of the request's uploads that
/// carries its name, and nothing when no upload carries it.
pub proof fn lemma_file_parameter_is_an_upload(p: ParamDef, d: RequestData)
    requires
        p.source is File,
    ensures
        ({
            let ups = uploads_spec(true, d.body@, header_map_entries(d.headers));
            &&& extract_spec(p, d) is None <==> forall|j: int| 0 <= j < ups.len() ==> (#[trigger] ups[j]).0 != p.name@
            &&& extract_spec(p, d) matches Some(ArgView::File(u)) ==> exists|i: int|
                0 <= i < ups.len() && #[trigger] ups[i] == u && u.0 == p.name@ && forall|j: int|
                    i < j < ups.len() ==> (#[trigger] ups[j]).0 != p.name@
        }),
{
    let ups = uploads_spec(true, d.body@, header_map_entries(d.headers));
    let names = ups.map_values(|u: UploadView| u.0);
    lemma_last_name_index_found(names, p.name@);
    let i = last_name_index(names, p.name@);
    if i >= 0 {
        assert(ups[i].0 == names[i]);
        assert forall|j: int| i < j < ups.len() implies (#[trigger] ups[j]).0 != p.name@ by {
            assert(names[j] == ups[j].0);
        }
    } else {
        assert forall|j: int| 0 <= j < ups.len() implies (#[trigger] ups[j]).0 != p.name@ by {
            assert(names[j] == ups[j].0);
        }
    }
}

/// Law: a path or query parameter whose name the request's path pairs (or
/// non-empty query string) carry takes the last value of that name: as the
/// text itself for `str` and any other type but `int`, `float` and `bool`;
/// as the integer std parses from it for `int`; as the text when std parses
/// it as a float for `float`; as the boolean std parses from it for `bool`;
/// and nothing where that parse fails.
pub proof fn lemma_path_and_query_values(p: ParamDef, d: RequestData, v: Seq<char>)
    requires
        (p.source is Path && lookup_last(pairs_view(d.path_params@), p.name@) == Some(v)) || (p.source is Query
            && d.query_string@.len() > 0 && lookup_last(
            form_urlencoded_parse(vstd::utf8::encode_utf8(d.query_string@)),
            p.name@,
        ) == Some(v)),
    ensures
        !(p.param_type is Int || p.param_type is Float || p.param_type is Bool) ==> extract_spec(p, d) == Some(
            ArgView::Str(v),
        ),
        p.param_type is Int ==> (parse_i64_spec(v) matches Some(i) ==> extract_spec(p, d) == Some(ArgView::Int(i))),
        p.param_type is Int && parse_i64_spec(v) is None ==> extract_spec(p, d) is None,
        p.param_type is Float && float_syntax(v) ==> extract_spec(p, d) == Some(ArgView::Float(v)),
        p.param_type is Float && !float_syntax(v) ==> extract_spec(p, d) is None,
        p.param_type is Bool ==> (parse_bool_spec(v) matches Some(b) ==> extract_spec(p, d) == Some(ArgView::Bool(b))),
        p.param_type is Bool && parse_bool_spec(v) is None ==> extract_spec(p, d) is None,
{
}

/// Law: a path parameter whose name the path pairs lack, a query parameter
/// whose name the query lacks (an empty query lacks every name), and a
/// parameter of an unknown source take nothing.
pub proof fn lemma_absent_names_take_nothing(p: ParamDef, d: RequestData)
    ensures
        p.source is Path && lookup_last(pairs_view(d.path_params@), p.name@) is None ==> extract_spec(p, d) is None,
        p.source is Query && d.query_string@.len() == 0 ==> extract_spec(p, d) is None,
        p.source is Query && lookup_last(form_urlencoded_parse(vstd::utf8::encode_utf8(d.query_string@)), p.name@)
            is None ==> extract_spec(p, d) is None,
        p.source is Other ==> extract_spec(p, d) is None,
{
    if p.source is Query && d.query_string@.len() == 0 {
        assert(lookup_last(Seq::<(Seq<char>, Seq<char>)>::empty(), p.name@) is None);
    }
}

/// Law: body and form parameters of a request with an empty body take
/// nothing; a body parameter of a body that is not JSON takes nothing.
pub proof fn lemma_empty_or_unparsed_body(p: ParamDef, d: RequestData)
    ensures
        (p.source is Body || p.source is Form) && d.body@.len() == 0 ==> extract_spec(p, d) is None,
        p.source is Body && json_parse(d.body@) is Err ==> extract_spec(p, d) is None,
{
}

/// Law: a body parameter of a type other than `json`, read from a non-empty
/// body that parses as `j`, takes the member of `j` under its name (none when
/// `j` is not an object or lacks the name): an `int` the member's `i64`
/// value, a `float` any number's text, a `bool` or `str` a boolean or
/// string member, any other type the member itself; a member of another
/// kind gives nothing.
pub proof fn lemma_body_member_values(p: ParamDef, d: RequestData, j: JsonView)
    requires
        p.source is Body,
        !(p.param_type is Json),
        d.body@.len() > 0,
        json_parse(d.body@) == Ok::<JsonView, Seq<char>>(j),
    ensures
        json_member(j, p.name@) is None ==> extract_spec(p, d) is None,
        !(j is Object) ==> extract_spec(p, d) is None,
        json_member(j, p.name@) matches Some(f) ==> (
            (p.param_type is Int ==> extract_spec(p, d) == (match f {
                JsonView::Number(Some(i), _) => Some(ArgView::Int(i)),
                _ => None,
            }))
            && (p.param_type is Float ==> extract_spec(p, d) == (match f {
                JsonView::Number(_, t) => Some(ArgView::Float(t)),
                _ => None,
            }))
            && (p.param_type is Bool ==> extract_spec(p, d) == (match f {
                JsonView::Bool(b) => Some(ArgView::Bool(b)),
                _ => None,
            }))
            && (p.param_type is Str ==> extract_spec(p, d) == (match f {
                JsonView::Str(t) => Some(ArgView::Str(t)),
                _ => None,
            }))
            && (p.param_type is Other ==> extract_spec(p, d) == Some(ArgView::Json(f)))
        ),
{
}

/// Law: the member of a JSON object under a name is the value of its last
/// member with that name; there is none when no member has it.
pub proof fn lemma_json_member_is_the_last(m: Seq<(Seq<char>, JsonView)>, k: Seq<char>)
    ensures
        json_member(JsonView::Object(m), k) is None <==> forall|i: int| 0 <= i < m.len() ==> #[trigger] m[i].0 != k,
        json_member(JsonView::Object(m), k) is Some ==> exists|i: int|
            0 <= i < m.len() && #[trigger] m[i] == (k, json_member(JsonView::Object(m), k)->Some_0) && forall|
                q: int,
            |
                i < q < m.len() ==> #[trigger] m[q].0 != k,
{
    lemma_key_index(m, k);
    let i = key_index(m, k);
    if i >= 0 {
        assert(m[i] == (k, json_member(JsonView::Object(m), k)->Some_0));
    }
}

/// Law: a header parameter's key is its name with each `_` written as `-`
/// and every other character kept.
pub proof fn lemma_header_key(name: Seq<char>)
    ensures
        header_key(name).len() == name.len(),
        forall|i: int| 0 <= i < name.len() && name[i] == '_' ==> #[trigger] header_key(name)[i] == '-',
        forall|i: int| 0 <= i < name.len() && name[i] != '_' ==> #[trigger] header_key(name)[i] == name[i],
{
}

/// Law: a header parameter takes the text of the first value under its
/// hyphenated key when there is one (nothing if that value is not visible
/// ASCII), and otherwise the text of the first value under its exact name.
pub proof fn lemma_header_values(p: ParamDef, d: RequestData)
    requires
        p.source is Header,
    ensures
        lookup_header(header_map_entries(d.headers), vstd::utf8::encode_utf8(header_key(p.name@))) matches Some(b)
            ==> extract_spec(p, d) == (if visible_ascii(b) {
            Some(ArgView::Str(ascii_text(b)))
        } else {
            None
        }),
        lookup_header(header_map_entries(d.headers), vstd::utf8::encode_utf8(header_key(p.name@))) is None
            ==> extract_spec(p, d) == (match lookup_header(
            header_map_entries(d.headers),
            vstd::utf8::encode_utf8(p.name@),
        ) {
            Some(b) => if visible_ascii(b) {
                Some(ArgView::Str(ascii_text(b)))
            } else {
                None
            },
            None => None,
        }),
{
}

/// Law: a form parameter of a non-empty body takes the value of the first
/// pair under its name in the body read as a form, as text.
pub proof fn lemma_form_values(p: ParamDef, d: RequestData)
    requires
        p.source is Form,
        d.body@.len() > 0,
    ensures
        forall|i: int|
            0 <= i < form_urlencoded_parse(d.body@).len() && (#[trigger] form_urlencoded_parse(d.body@)[i]).0
                == p.name@ && (forall|j: int|
                0 <= j < i ==> (#[trigger] form_urlencoded_parse(d.body@)[j]).0 != p.name@) ==> extract_spec(p, d)
                == Some(ArgView::Str(form_urlencoded_parse(d.body@)[i].1)),
        (forall|j: int| 0 <= j < form_urlencoded_parse(d.body@).len() ==> (#[trigger] form_urlencoded_parse(d.body@)[j]).0
            != p.name@) ==> extract_spec(p, d) is None,
{
    let f = form_urlencoded_parse(d.body@);
    assert forall|i: int|
        0 <= i < f.len() && (#[trigger] f[i]).0 == p.name@ && (forall|j: int| 0 <= j < i ==> (#[trigger] f[j]).0 != p.name@)
        implies extract_spec(p, d) == Some(ArgView::Str(f[i].1)) by {
        lemma_lookup_first_at(f, p.name@, i);
    }
    if forall|j: int| 0 <= j < f.len() ==> (#[trigger] f[j]).0 != p.name@ {
        lemma_lookup_first_skip(f, p.name@, f.len() as int);
        assert(f.skip(f.len() as int) =~= Seq::<(Seq<char>, Seq<char>)>::empty());
    }
}

proof fn lemma_lookup_first_at(pairs: Seq<(Seq<char>, Seq<char>)>, k: Seq<char>, i: int)
    requires
        0 <= i < pairs.len(),
        pairs[i].0 == k,
        forall|j: int| 0 <= j < i ==> pairs[j].0 != k,
    ensures
        lookup_first(pairs, k) == Some(pairs[i].1),
{
    lemma_lookup_first_skip(pairs, k, i);
    assert(pairs.skip(i)[0] == pairs[i]);
}

/// Law: a cookie parameter reads the first `cookie` header: nothing when
/// there is none or its value is not visible ASCII; otherwise the value of
/// the first cookie in it that parses and carries the parameter's name, and
/// nothing when none does.
pub proof fn lemma_cookie_values(p: ParamDef, d: RequestData)
    requires
        p.source is Cookie,
    ensures
        ({
            let hv = lookup_header(header_map_entries(d.headers), vstd::utf8::encode_utf8("cookie"@));
            &&& hv is None ==> extract_spec(p, d) is None
            &&& hv matches Some(b) ==> (!visible_ascii(b) ==> extract_spec(p, d) is None)
            &&& hv matches Some(b) ==> (visible_ascii(b) ==> {
                let cs = cookie_split_parse(ascii_text(b));
                &&& forall|i: int|
                    0 <= i < cs.len() && (#[trigger] cs[i] matches Some(c) && c.0 == p.name@) && (forall|j: int|
                        0 <= j < i ==> !(#[trigger] cs[j] matches Some(c) && c.0 == p.name@)) ==> extract_spec(p, d)
                        == Some(ArgView::Str(cs[i]->Some_0.1))
                &&& (forall|j: int| 0 <= j < cs.len() ==> !(#[trigger] cs[j] matches Some(c) && c.0 == p.name@))
                    ==> extract_spec(p, d) is None
            })
        }),
{
    reveal_strlit("cookie");
    assert("cookie"@ =~= cookie_name());
    let hv = lookup_header(header_map_entries(d.headers), vstd::utf8::encode_utf8(cookie_name()));
    if let Some(b) = hv {
        if visible_ascii(b) {
            let cs = cookie_split_parse(ascii_text(b));
            assert forall|i: int|
                0 <= i < cs.len() && (#[trigger] cs[i] matches Some(c) && c.0 == p.name@) && (forall|j: int|
                    0 <= j < i ==> !(#[trigger] cs[j] matches Some(c) && c.0 == p.name@)) implies extract_spec(p, d)
                    == Some(ArgView::Str(cs[i]->Some_0.1)) by {
                lemma_first_cookie_skip(cs, p.name@, i);
                assert(cs.skip(i)[0] == cs[i]);
            }
            if forall|j: int| 0 <= j < cs.len() ==> !(#[trigger] cs[j] matches Some(c) && c.0 == p.name@) {
                lemma_first_cookie_skip(cs, p.name@, cs.len() as int);
                assert(cs.skip(cs.len() as int) =~= Seq::<Option<(Seq<char>, Seq<char>)>>::empty());
            }
        }
    }
}

} // verus!
