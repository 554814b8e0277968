//! Turning what a handler returned, or the error it raised, into the
//! status, headers and body of an HTTP response.
use vstd::prelude::*;
use vstd::string::StrSliceExecFns;
use axum::http::HeaderMap;
use crate::dict::{
    entries_insert, keys_unique, lemma_insert_law, lemma_insert_map, lemma_key_index, map_entry_values,
};
use crate::foreign::{
    header_map_entries, header_map_insert, header_map_new, header_name, header_value_accepted,
    normalized_header_name, pairs_view, status_code_accepted, valid_header_name,
    valid_header_value_bytes,
};
use crate::request::dict_of;
use vstd::utf8::encode_utf8;

verus! {

/// A finished response: status, headers in order (repeats allowed) and body.
pub struct ResponseParts {
    pub status: u16,
    pub headers: Vec<(String, String)>,
    pub body: Vec<u8>,
}

/// The status a response is sent with: the code itself when `StatusCode`
/// accepts it (100 to 999), 500 otherwise.
pub open spec fn status_or_500(code: u16) -> u16 {
    if 100 <= code <= 999 {
        code
    } else {
        500
    }
}

pub fn response_status(code: u16) -> (r: u16)
    ensures
        r == status_or_500(code),
{
    if status_code_accepted(code) {
        code
    } else {
        500
    }
}

/// A header pair that `HeaderName` and `HeaderValue` both accept.
pub open spec fn header_pair_ok(k: Seq<char>, v: Seq<char>) -> bool {
    valid_header_name(encode_utf8(k)) && valid_header_value_bytes(encode_utf8(v))
}

/// The header pairs that are accepted, names normalized, in order.
pub open spec fn accepted_headers(h: Seq<(Seq<char>, Seq<char>)>) -> Seq<(Seq<char>, Seq<char>)>
    decreases h.len(),
{
    if h.len() == 0 {
        Seq::empty()
    } else {
        let rest = accepted_headers(h.drop_last());
        let (k, v) = h.last();
        if header_pair_ok(k, v) {
            rest.push((normalized_header_name(encode_utf8(k)), v))
        } else {
            rest
        }
    }
}

/// The header map of a response built from `(name, value)` pairs as
/// `HeaderMap::insert` builds it: pairs that are not a valid header are
/// skipped, and a later value of a name replaces the earlier one where it
/// stood; values are stored as their UTF-8 bytes. `None` when the map
/// reached its size limit (where `insert` would panic), which a map of fewer
/// than 3277 distinct accepted names never does.
pub fn response_header_map(headers: &Vec<(String, String)>) -> (r: Option<HeaderMap>)
    ensures
        r matches Some(m) ==> header_map_entries(m) == map_entry_values(
            dict_of(accepted_headers(pairs_view(headers@))),
            |v: Seq<char>| encode_utf8(v),
        ),
        dict_of(accepted_headers(pairs_view(headers@))).len() < 3277 ==> r is Some,
{
    let ghost h = pairs_view(headers@);
    let ghost enc = |v: Seq<char>| encode_utf8(v);
    let mut m = header_map_new();
    let n = headers.len();
    let mut i: usize = 0;
    assert(map_entry_values(dict_of(accepted_headers(h.take(0))), enc) =~= Seq::<(Seq<char>, Seq<u8>)>::empty());
    while i < n
        invariant
            i <= n == headers@.len(),
            h == pairs_view(headers@),
            enc == (|v: Seq<char>| encode_utf8(v)),
            keys_unique(header_map_entries(m)),
            header_map_entries(m) == map_entry_values(dict_of(accepted_headers(h.take(i as int))), enc),
        decreases n - i,
    {
        let k = &headers[i].0;
        let v = &headers[i].1;
        assert(h.take(i + 1).drop_last() =~= h.take(i as int));
        assert(h.take(i + 1).last() == (k@, v@));
        match header_name(k.as_str().as_bytes()) {
            Some(name) => {
                if header_value_accepted(v.as_str()) {
                    let ghost nm = name@;
                    proof {
                        let p = accepted_headers(h.take(i as int));
                        assert(accepted_headers(h.take(i + 1)) == p.push((nm, v@)));
                        assert(p.push((nm, v@)).drop_last() =~= p);
                        lemma_insert_map(dict_of(p), nm, v@, enc);
                        lemma_insert_law(header_map_entries(m), nm, encode_utf8(v@));
                        lemma_accepted_names_grow(h, i as int, n as int);
                        assert(h.take(n as int) =~= h);
                    }
                    if !header_map_insert(&mut m, k.as_str(), v.as_str()) {
                        return None;
                    }
                }
            },
            None => {},
        }
        i = i + 1;
    }
    assert(h.take(n as int) =~= h);
    Some(m)
}

proof fn lemma_entries_insert_len<V>(s: Seq<(Seq<char>, V)>, k: Seq<char>, v: V)
    ensures
        entries_insert(s, k, v).len() >= s.len(),
{
    lemma_key_index(s, k);
}

/// A prefix of the pairs never has more distinct accepted names than a
/// longer prefix.
proof fn lemma_accepted_names_grow(h: Seq<(Seq<char>, Seq<char>)>, i: int, j: int)
    requires
        0 <= i <= j <= h.len(),
    ensures
        dict_of(accepted_headers(h.take(i))).len() <= dict_of(accepted_headers(h.take(j))).len(),
    decreases j - i,
{
    if i < j {
        lemma_accepted_names_grow(h, i, j - 1);
        assert(h.take(j).drop_last() =~= h.take(j - 1));
        let p = accepted_headers(h.take(j - 1));
        let (k, v) = h.take(j).last();
        if header_pair_ok(k, v) {
            let x = (normalized_header_name(encode_utf8(k)), v);
            assert(accepted_headers(h.take(j)) == p.push(x));
            assert(p.push(x).drop_last() =~= p);
            lemma_entries_insert_len(dict_of(p), x.0, x.1);
        } else {
            assert(accepted_headers(h.take(j)) == p);
        }
    }
}

/// Status and header map of a response with a status code and header pairs
/// (no map when it reached its size limit, see `response_header_map`).
pub fn response_head(status: u16, headers: &Vec<(String, String)>) -> (r: (u16, Option<HeaderMap>))
    ensures
        r.0 == status_or_500(status),
        r.1 matches Some(m) ==> header_map_entries(m) == map_entry_values(
            dict_of(accepted_headers(pairs_view(headers@))),
            |v: Seq<char>| encode_utf8(v),
        ),
        dict_of(accepted_headers(pairs_view(headers@))).len() < 3277 ==> r.1 is Some,
{
    (response_status(status), response_header_map(headers))
}

/// The body a handler's structured result carries.
pub enum Content {
    Text(String),
    Bytes(Vec<u8>),
    /// The chunks of an iterable body; a chunk is `None` when it was neither
    /// bytes nor text.
    Chunks(Vec<Option<Vec<u8>>>),
    Empty,
}

/// A result object with a `content` attribute.
pub struct StructuredReturn {
    /// The `status_code` attribute, when it is a `u16`.
    pub status: Option<u16>,
    /// The header dictionary's items; `None` where key or value is not text.
    pub headers: Vec<Option<(String, String)>>,
    pub content: Content,
}

/// What a handler returned.
pub enum HandlerReturn {
    /// No result object at all.
    Missing,
    Text(String),
    Bytes(Vec<u8>),
    Structured(StructuredReturn),
    /// Anything else.
    Unsupported,
}

/// The chunks that were bytes or text, joined.
pub open spec fn joined_chunks(c: Seq<Option<Vec<u8>>>) -> Seq<u8>
    decreases c.len(),
{
    if c.len() == 0 {
        Seq::empty()
    } else {
        match c.last() {
            Some(b) => joined_chunks(c.drop_last()) + b@,
            None => joined_chunks(c.drop_last()),
        }
    }
}

pub open spec fn content_bytes(c: Content) -> Seq<u8> {
    match c {
        Content::Text(s) => encode_utf8(s@),
        Content::Bytes(b) => b@,
        Content::Chunks(cs) => joined_chunks(cs@),
        Content::Empty => Seq::empty(),
    }
}

/// The header items that were text, in order.
pub open spec fn text_headers(h: Seq<Option<(String, String)>>) -> Seq<(Seq<char>, Seq<char>)>
    decreases h.len(),
{
    if h.len() == 0 {
        Seq::empty()
    } else {
        match h.last() {
            Some(p) => text_headers(h.drop_last()).push((p.0@, p.1@)),
            None => text_headers(h.drop_last()),
        }
    }
}

/// A structured result can be sent: its status (200 when absent) and every
/// header are accepted by the response builder.
pub open spec fn structured_ok(s: StructuredReturn) -> bool {
    let status = match s.status {
        Some(c) => c,
        None => 200,
    };
    &&& 100 <= status <= 999
    &&& forall|i: int|
        0 <= i < text_headers(s.headers@).len() ==> header_pair_ok(
            #[trigger] text_headers(s.headers@)[i].0,
            text_headers(s.headers@)[i].1,
        )
}

/// The response that the result of a handler gives.
pub open spec fn handler_response_spec(r: HandlerReturn) -> (u16, Seq<(Seq<char>, Seq<char>)>, Seq<u8>) {
    match r {
        HandlerReturn::Missing => (500, Seq::empty(), encode_utf8("Internal Error"@)),
        HandlerReturn::Text(s) => (200, seq![("content-type"@, "text/plain"@)], encode_utf8(s@)),
        HandlerReturn::Bytes(b) => (200, seq![("content-type"@, "application/octet-stream"@)], b@),
        HandlerReturn::Structured(s) => (
            match s.status {
                Some(c) => c,
                None => 200,
            },
            text_headers(s.headers@),
            content_bytes(s.content),
        ),
        HandlerReturn::Unsupported => (500, Seq::empty(), encode_utf8("Unsupported result"@)),
    }
}

pub open spec fn parts_view(p: ResponseParts) -> (u16, Seq<(Seq<char>, Seq<char>)>, Seq<u8>) {
    (p.status, pairs_view(p.headers@), p.body@)
}

fn str_bytes(s: &str) -> (r: Vec<u8>)
    ensures
        r@ == encode_utf8(s@),
{
    s.as_bytes_vec()
}

fn pair(k: &str, v: &str) -> (r: (String, String))
    ensures
        r.0@ == k@,
        r.1@ == v@,
{
    (String::from_str(k), String::from_str(v))
}

/// Whether a structured result can be sent (see `structured_ok`).
pub fn structured_sendable(s: &StructuredReturn) -> (r: bool)
    ensures
        r == structured_ok(*s),
{
    let status = match s.status {
        Some(c) => c,
        None => 200,
    };
    if !(100 <= status && status <= 999) {
        return false;
    }
    let ghost th = text_headers(s.headers@);
    let n = s.headers.len();
    let mut i: usize = 0;
    while i < n
        invariant
            i <= n == s.headers@.len(),
            th == text_headers(s.headers@),
            forall|j: int| 0 <= j < text_headers(s.headers@.take(i as int)).len() ==> header_pair_ok(
                #[trigger] text_headers(s.headers@.take(i as int))[j].0,
                text_headers(s.headers@.take(i as int))[j].1,
            ),
        decreases n - i,
    {
        proof {
            lemma_text_headers_step(s.headers@, i as int);
        }
        match &s.headers[i] {
            Some(p) => {
                let ok = match header_name(p.0.as_str().as_bytes()) {
                    Some(_) => header_value_accepted(p.1.as_str()),
                    None => false,
                };
                if !ok {
                    proof {
                        let t = text_headers(s.headers@.take(i + 1));
                        assert(t.last() == (p.0@, p.1@));
                        lemma_text_headers_prefix(s.headers@, i + 1);
                        let idx = t.len() - 1;
                        assert(th[idx] == t[idx]);
                        assert(!header_pair_ok(p.0@, p.1@));
                        assert(!header_pair_ok(th[idx].0, th[idx].1));
                    }
                    return false;
                }
            },
            None => {},
        }
        i = i + 1;
    }
    assert(s.headers@.take(n as int) =~= s.headers@);
    true
}

proof fn lemma_text_headers_step(h: Seq<Option<(String, String)>>, k: int)
    requires
        0 <= k < h.len(),
    ensures
        text_headers(h.take(k + 1)) == (match h[k] {
            Some(p) => text_headers(h.take(k)).push((p.0@, p.1@)),
            None => text_headers(h.take(k)),
        }),
{
    assert(h.take(k + 1).drop_last() =~= h.take(k));
    assert(h.take(k + 1).last() == h[k]);
}

proof fn lemma_text_headers_prefix(h: Seq<Option<(String, String)>>, k: int)
    requires
        0 <= k <= h.len(),
    ensures
        text_headers(h.take(k)).len() <= text_headers(h).len(),
        forall|j: int| 0 <= j < text_headers(h.take(k)).len() ==> #[trigger] text_headers(h.take(k))[j] == text_headers(h)[j],
    decreases h.len() - k,
{
    if k < h.len() {
        lemma_text_headers_prefix(h, k + 1);
        lemma_text_headers_step(h, k);
        assert forall|j: int| 0 <= j < text_headers(h.take(k)).len() implies #[trigger] text_headers(h.take(k))[j] == text_headers(h)[j] by {
            assert(text_headers(h.take(k))[j] == text_headers(h.take(k + 1))[j]);
        }
    } else {
        assert(h.take(k) =~= h);
    }
}

fn join_chunks(c: &Vec<Option<Vec<u8>>>) -> (r: Vec<u8>)
    ensures
        r@ == joined_chunks(c@),
{
    let mut out: Vec<u8> = Vec::new();
    let n = c.len();
    let mut i: usize = 0;
    while i < n
        invariant
            i <= n == c@.len(),
            out@ == joined_chunks(c@.take(i as int)),
        decreases n - i,
    {
        assert(c@.take(i + 1).drop_last() =~= c@.take(i as int));
        match &c[i] {
            Some(b) => {
                let mut j: usize = 0;
                let ghost start = out@;
                while j < b.len()
                    invariant
                        j <= b@.len(),
                        out@ == start + b@.take(j as int),
                    decreases b@.len() - j,
                {
                    out.push(b[j]);
                    assert(b@.take(j + 1) =~= b@.take(j as int).push(b@[j as int]));
                    assert(start + b@.take(j + 1) =~= (start + b@.take(j as int)).push(b@[j as int]));
                    j = j + 1;
                }
                assert(b@.take(b@.len() as int) =~= b@);
            },
            None => {},
        }
        i = i + 1;
    }
    assert(c@.take(n as int) =~= c@);
    out
}

/// The response for what a handler returned: text as `text/plain`, bytes as
/// `application/octet-stream` (both 200), a structured result with its
/// status (200 when absent), its text headers in order and its content, and
/// 500 otherwise.
pub fn handler_response(r: HandlerReturn) -> (p: ResponseParts)
    requires
        r matches HandlerReturn::Structured(s) ==> structured_ok(s),
    ensures
        parts_view(p) == handler_response_spec(r),
{
    match r {
        HandlerReturn::Missing => ResponseParts { status: 500, headers: Vec::new(), body: str_bytes("Internal Error") },
        HandlerReturn::Text(s) => {
            let mut h = Vec::new();
            h.push(pair("content-type", "text/plain"));
            let p = ResponseParts { status: 200, headers: h, body: str_bytes(s.as_str()) };
            assert(pairs_view(p.headers@) =~= seq![("content-type"@, "text/plain"@)]);
            p
        },
        HandlerReturn::Bytes(b) => {
            let mut h = Vec::new();
            h.push(pair("content-type", "application/octet-stream"));
            let p = ResponseParts { status: 200, headers: h, body: b };
            assert(pairs_view(p.headers@) =~= seq![("content-type"@, "application/octet-stream"@)]);
            p
        },
        HandlerReturn::Structured(s) => {
            let status = match s.status {
                Some(c) => c,
                None => 200,
            };
            let mut h: Vec<(String, String)> = Vec::new();
            let n = s.headers.len();
            let mut i: usize = 0;
            while i < n
                invariant
                    i <= n == s.headers@.len(),
                    pairs_view(h@) == text_headers(s.headers@.take(i as int)),
                decreases n - i,
            {
                assert(s.headers@.take(i + 1).drop_last() =~= s.headers@.take(i as int));
                match &s.headers[i] {
                    Some(p) => {
                        h.push((p.0.clone(), p.1.clone()));
                        assert(pairs_view(h@) =~= text_headers(s.headers@.take(i as int)).push((p.0@, p.1@)));
                    },
                    None => {},
                }
                i = i + 1;
            }
            assert(s.headers@.take(n as int) =~= s.headers@);
            let body = match &s.content {
                Content::Text(t) => str_bytes(t.as_str()),
                Content::Bytes(b) => {
                    let c = b.clone();
                    assert(c@ =~= b@);
                    c
                },
                Content::Chunks(cs) => join_chunks(cs),
                Content::Empty => Vec::new(),
            };
            assert(body@ =~= content_bytes(s.content));
            ResponseParts { status, headers: h, body }
        },
        HandlerReturn::Unsupported => ResponseParts { status: 500, headers: Vec::new(), body: str_bytes("Unsupported result") },
    }
}

/// An exception a handler raised.
pub enum ErrorInfo {
    /// An `Exception`, with its `status_code` and `detail` attributes when
    /// they have the right types.
    Exception { status: Option<u16>, detail: Option<String> },
    /// A `BaseException` that is not an `Exception`.
    Fatal,
}

pub open spec fn error_ok(e: ErrorInfo) -> bool {
    match e {
        ErrorInfo::Exception { status: Some(c), .. } => 100 <= c <= 999,
        _ => true,
    }
}

/// The response for an exception: its `status_code` (500 when absent) and
/// `detail` ("Internal Error" when absent) for an `Exception`, 500 with
/// "Internal Server Error" otherwise; always as `text/plain`.
pub open spec fn error_response_spec(e: ErrorInfo) -> (u16, Seq<(Seq<char>, Seq<char>)>, Seq<u8>) {
    let h = seq![("content-type"@, "text/plain"@)];
    match e {
        ErrorInfo::Exception { status, detail } => (
            match status {
                Some(c) => c,
                None => 500,
            },
            h,
            match detail {
                Some(d) => encode_utf8(d@),
                None => encode_utf8("Internal Error"@),
            },
        ),
        ErrorInfo::Fatal => (500, h, encode_utf8("Internal Server Error"@)),
    }
}

/// Whether an exception's response can be built (see `error_ok`).
pub fn error_sendable(e: &ErrorInfo) -> (r: bool)
    ensures
        r == error_ok(*e),
{
    match e {
        ErrorInfo::Exception { status: Some(c), .. } => 100 <= *c && *c <= 999,
        _ => true,
    }
}

pub fn error_response(e: ErrorInfo) -> (p: ResponseParts)
    requires
        error_ok(e),
    ensures
        parts_view(p) == error_response_spec(e),
{
    let mut h = Vec::new();
    h.push(pair("content-type", "text/plain"));
    assert(pairs_view(h@) =~= seq![("content-type"@, "text/plain"@)]);
    match e {
        ErrorInfo::Exception { status, detail } => {
            let code = match status {
                Some(c) => c,
                None => 500,
            };
            let body = match detail {
                Some(d) => str_bytes(d.as_str()),
                None => str_bytes("Internal Error"),
            };
            ResponseParts { status: code, headers: h, body }
        },
        ErrorInfo::Fatal => ResponseParts { status: 500, headers: h, body: str_bytes("Internal Server Error") },
    }
}

/// The response when an argument breaks a constraint: 422 with the message.
pub fn violation_response(message: &str) -> (p: ResponseParts)
    ensures
        parts_view(p) == (422u16, Seq::<(Seq<char>, Seq<char>)>::empty(), encode_utf8(message@)),
{
    let p = ResponseParts { status: 422, headers: Vec::new(), body: str_bytes(message) };
    assert(pairs_view(p.headers@) =~= Seq::<(Seq<char>, Seq<char>)>::empty());
    p
}

/// Law: a structured result is answered with its own status (200 when it
/// has none), and its body is its content: the UTF-8 encoding of text, the
/// bytes themselves, or nothing for empty content.
pub proof fn lemma_structured_status_and_body(s: StructuredReturn)
    ensures
        s.status matches Some(c) ==> handler_response_spec(HandlerReturn::Structured(s)).0 == c,
        s.status is None ==> handler_response_spec(HandlerReturn::Structured(s)).0 == 200,
        s.content matches Content::Text(t) ==> handler_response_spec(HandlerReturn::Structured(s)).2
            == encode_utf8(t@),
        s.content matches Content::Bytes(b) ==> handler_response_spec(HandlerReturn::Structured(s)).2 == b@,
        s.content is Empty ==> handler_response_spec(HandlerReturn::Structured(s)).2 == Seq::<u8>::empty(),
{
}

/// Law: a structured result whose headers are all text sends exactly those
/// headers, in order.
pub proof fn lemma_structured_headers(s: StructuredReturn)
    requires
        forall|i: int| 0 <= i < s.headers@.len() ==> (#[trigger] s.headers@[i]) is Some,
    ensures
        handler_response_spec(HandlerReturn::Structured(s)).1.len() == s.headers@.len(),
        forall|i: int|
            0 <= i < s.headers@.len() ==> handler_response_spec(HandlerReturn::Structured(s)).1[i] == (
                (#[trigger] s.headers@[i])->Some_0.0@,
                s.headers@[i]->Some_0.1@,
            ),
{
    lemma_text_headers_all(s.headers@);
}

proof fn lemma_text_headers_all(h: Seq<Option<(String, String)>>)
    requires
        forall|i: int| 0 <= i < h.len() ==> (#[trigger] h[i]) is Some,
    ensures
        text_headers(h).len() == h.len(),
        forall|i: int| 0 <= i < h.len() ==> text_headers(h)[i] == ((#[trigger] h[i])->Some_0.0@, h[i]->Some_0.1@),
    decreases h.len(),
{
    if h.len() > 0 {
        let t = h.drop_last();
        assert forall|i: int| 0 <= i < t.len() implies (#[trigger] t[i]) is Some by {
            assert(t[i] == h[i]);
        }
        lemma_text_headers_all(t);
        assert(h.last() == h[h.len() - 1]);
        assert forall|i: int| 0 <= i < h.len() implies text_headers(h)[i] == (
            (#[trigger] h[i])->Some_0.0@,
            h[i]->Some_0.1@,
        ) by {
            if i < h.len() - 1 {
                assert(t[i] == h[i]);
            }
        }
    }
}

/// Law: the body of a chunked result is the chunks' bytes, one after the
/// other: joining two runs of chunks joins their bodies, a chunk of bytes
/// gives those bytes and a chunk that was neither bytes nor text gives
/// nothing.
pub proof fn lemma_chunks_join(a: Seq<Option<Vec<u8>>>, b: Seq<Option<Vec<u8>>>)
    ensures
        joined_chunks(a + b) == joined_chunks(a) + joined_chunks(b),
    decreases b.len(),
{
    if b.len() == 0 {
        assert(a + b =~= a);
        assert(joined_chunks(a) + joined_chunks(b) =~= joined_chunks(a));
    } else {
        lemma_chunks_join(a, b.drop_last());
        assert((a + b).drop_last() =~= a + b.drop_last());
        assert((a + b).last() == b.last());
        match b.last() {
            Some(x) => {
                assert(joined_chunks(a) + (joined_chunks(b.drop_last()) + x@) =~= (joined_chunks(a)
                    + joined_chunks(b.drop_last())) + x@);
            },
            None => {},
        }
    }
}

/// Law: one chunk's part of a chunked body (see `lemma_chunks_join`).
pub proof fn lemma_chunk_single(c: Option<Vec<u8>>)
    ensures
        c matches Some(x) ==> joined_chunks(seq![c]) == x@,
        c is None ==> joined_chunks(seq![c]) == Seq::<u8>::empty(),
{
    assert(seq![c].drop_last() =~= Seq::<Option<Vec<u8>>>::empty());
    assert(seq![c].last() == c);
    assert(joined_chunks(Seq::<Option<Vec<u8>>>::empty()) == Seq::<u8>::empty());
    if let Some(x) = c {
        assert(Seq::<u8>::empty() + x@ =~= x@);
    }
}

/// Law: a text result is sent as `text/plain` with status 200 and its UTF-8
/// bytes; a bytes result as `application/octet-stream` with status 200 and
/// the bytes; a missing result is a 500 "Internal Error"; an unsupported
/// one a 500 "Unsupported result"; none of the latter two carries headers.
pub proof fn lemma_plain_results(t: String, b: Vec<u8>)
    ensures
        handler_response_spec(HandlerReturn::Text(t)) == (
            200u16,
            seq![("content-type"@, "text/plain"@)],
            encode_utf8(t@),
        ),
        handler_response_spec(HandlerReturn::Bytes(b)) == (
            200u16,
            seq![("content-type"@, "application/octet-stream"@)],
            b@,
        ),
        handler_response_spec(HandlerReturn::Missing) == (
            500u16,
            Seq::<(Seq<char>, Seq<char>)>::empty(),
            encode_utf8("Internal Error"@),
        ),
        handler_response_spec(HandlerReturn::Unsupported) == (
            500u16,
            Seq::<(Seq<char>, Seq<char>)>::empty(),
            encode_utf8("Unsupported result"@),
        ),
{
}

/// Law: an `Exception` is answered as `text/plain` with its `status_code`
/// when it carries one (500 otherwise), whatever its detail, and with its
/// detail as the body when it carries one ("Internal Error" otherwise),
/// whatever its status.
pub proof fn lemma_exception_response(status: Option<u16>, detail: Option<String>)
    ensures
        status matches Some(c) ==> error_response_spec(ErrorInfo::Exception { status, detail }).0 == c,
        status is None ==> error_response_spec(ErrorInfo::Exception { status, detail }).0 == 500,
        detail matches Some(d) ==> error_response_spec(ErrorInfo::Exception { status, detail }).2 == encode_utf8(
            d@,
        ),
        detail is None ==> error_response_spec(ErrorInfo::Exception { status, detail }).2 == encode_utf8(
            "Internal Error"@,
        ),
        error_response_spec(ErrorInfo::Exception { status, detail }).1 == seq![("content-type"@, "text/plain"@)],
{
}

/// Law: the status of an exception's response depends on its status code
/// alone, and its body on its detail alone.
pub proof fn lemma_exception_parts_independent(s1: Option<u16>, s2: Option<u16>, d1: Option<String>, d2: Option<String>)
    ensures
        error_response_spec(ErrorInfo::Exception { status: s1, detail: d1 }).0 == error_response_spec(
            ErrorInfo::Exception { status: s1, detail: d2 },
        ).0,
        error_response_spec(ErrorInfo::Exception { status: s1, detail: d1 }).2 == error_response_spec(
            ErrorInfo::Exception { status: s2, detail: d1 },
        ).2,
{
}

/// Law: a `BaseException` that is not an `Exception` is a 500 "Internal
/// Server Error" sent as `text/plain`.
pub proof fn lemma_fatal_response()
    ensures
        error_response_spec(ErrorInfo::Fatal) == (
            500u16,
            seq![("content-type"@, "text/plain"@)],
            encode_utf8("Internal Server Error"@),
        ),
{
}

} // verus!
