//! Decisions taken while a request is served: whether the body is
//! multipart and which files it uploads, and what to do with the outcome of
//! calling a handler or a middleware.
use vstd::prelude::*;
use axum::http::HeaderMap;
use crate::foreign::{get_header, header_map_entries, multipart_fields, multipart_parse};
use crate::headers::{ascii_text, header_value_text, lookup_header, visible_ascii};
use crate::text::{chars_of, string_from_chars};

verus! {

/// One uploaded multipart field: its name, file name and content type where
/// given, and its bytes.
pub struct Upload {
    pub name: String,
    pub filename: Option<String>,
    pub content_type: Option<String>,
    pub data: Vec<u8>,
}

/// The view of an upload: name, file name, content type, bytes.
pub type UploadView = (Seq<char>, Option<Seq<char>>, Option<Seq<char>>, Seq<u8>);

pub open spec fn opt_text(o: Option<String>) -> Option<Seq<char>> {
    match o {
        Some(s) => Some(s@),
        None => None,
    }
}

impl Upload {
    pub open spec fn view(&self) -> UploadView {
        (self.name@, opt_text(self.filename), opt_text(self.content_type), self.data@)
    }

    /// A copy of the upload.
    pub fn copy(&self) -> (r: Upload)
        ensures
            r.view() == self.view(),
    {
        let filename = match &self.filename {
            Some(f) => Some(f.clone()),
            None => None,
        };
        let content_type = match &self.content_type {
            Some(c) => Some(c.clone()),
            None => None,
        };
        let data = self.data.clone();
        assert(data@ =~= self.data@);
        Upload { name: self.name.clone(), filename, content_type, data }
    }
}

pub open spec fn uploads_view(v: Seq<Upload>) -> Seq<UploadView> {
    v.map_values(|u: Upload| u.view())
}

/// `p` occurs in `s` at position `q`.
pub open spec fn occurs_at(s: Seq<char>, p: Seq<char>, q: int) -> bool {
    0 <= q && q + p.len() <= s.len() && s.subrange(q, q + p.len()) == p
}

/// Position of the first occurrence of `p` in `s` at or after `from`, or -1.
pub open spec fn find_from(s: Seq<char>, p: Seq<char>, from: int) -> int
    decreases s.len() - from,
{
    if from < 0 || from + p.len() > s.len() {
        -1
    } else if occurs_at(s, p, from) {
        from
    } else if from >= s.len() {
        -1
    } else {
        find_from(s, p, from + 1)
    }
}

/// The second piece of `s` split at `p` (`split(p).nth(1)`): the text after
/// the first occurrence of `p` up to the next one, or to the end.
pub open spec fn second_piece(s: Seq<char>, p: Seq<char>) -> Option<Seq<char>> {
    let i = find_from(s, p, 0);
    if i < 0 {
        None
    } else {
        let start = i + p.len();
        let j = find_from(s, p, start);
        Some(s.subrange(start, if j < 0 { s.len() as int } else { j }))
    }
}

pub open spec fn starts_with(s: Seq<char>, p: Seq<char>) -> bool {
    s.len() >= p.len() && s.take(p.len() as int) == p
}

/// The multipart boundary of a request: when the route reads the body, the
/// body is not empty, and the `content-type` header (its first value) is text starting
/// with `multipart/form-data`, the piece after `boundary=`.
pub open spec fn boundary_spec(needs_body: bool, body_len: nat, h: Seq<(Seq<char>, Seq<u8>)>) -> Option<Seq<char>> {
    if needs_body && body_len > 0 {
        match lookup_header(h, vstd::utf8::encode_utf8("content-type"@)) {
            Some(b) => if visible_ascii(b) && starts_with(ascii_text(b), "multipart/form-data"@) {
                second_piece(ascii_text(b), "boundary="@)
            } else {
                None
            },
            None => None,
        }
    } else {
        None
    }
}

fn matches_at(s: &Vec<char>, p: &Vec<char>, i: usize) -> (r: bool)
    requires
        i + p@.len() <= s@.len(),
    ensures
        r == (s@.subrange(i as int, i + p@.len()) == p@),
{
    let n = p.len();
    let sl = s.len();
    let mut k: usize = 0;
    while k < n
        invariant
            k <= n == p@.len(),
            sl == s@.len(),
            i + n <= sl,
            forall|q: int| 0 <= q < k ==> s@[i + q] == p@[q],
        decreases n - k,
    {
        if s[i + k] != p[k] {
            assert(s@.subrange(i as int, i + p@.len())[k as int] != p@[k as int]);
            return false;
        }
        k = k + 1;
    }
    assert(s@.subrange(i as int, i + p@.len()) =~= p@);
    true
}

proof fn lemma_find_from_skip(s: Seq<char>, p: Seq<char>, from: int, i: int)
    requires
        0 <= from <= i,
        forall|q: int| from <= q < i ==> !#[trigger] occurs_at(s, p, q),
    ensures
        find_from(s, p, from) == find_from(s, p, i),
    decreases i - from,
{
    if from < i {
        if from + p.len() > s.len() {
            assert(find_from(s, p, i) == -1) by {
                if i + p.len() <= s.len() {
                    assert(false);
                }
            }
        } else {
            lemma_find_from_skip(s, p, from + 1, i);
        }
    }
}

proof fn lemma_find_from_range(s: Seq<char>, p: Seq<char>, from: int)
    ensures
        find_from(s, p, from) == -1 || (from <= find_from(s, p, from) && find_from(s, p, from) + p.len() <= s.len()),
    decreases s.len() - from,
{
    if !(from < 0 || from + p.len() > s.len()) && !occurs_at(s, p, from) && from < s.len() {
        lemma_find_from_range(s, p, from + 1);
    }
}

/// `find_from` on exec values.
fn find(s: &Vec<char>, p: &Vec<char>, from: usize) -> (r: Option<usize>)
    requires
        from <= s@.len(),
    ensures
        match r {
            Some(i) => i as int == find_from(s@, p@, from as int),
            None => find_from(s@, p@, from as int) == -1,
        },
{
    let n = s.len();
    let m = p.len();
    if m > n {
        proof {
            lemma_find_from_range(s@, p@, from as int);
        }
        return None;
    }
    if m == 0 {
        assert(s@.subrange(from as int, from as int) =~= p@);
        return Some(from);
    }
    let mut i = from;
    while i <= n - m
        invariant
            from <= i <= n,
            1 <= m <= n,
            n == s@.len(),
            m == p@.len(),
            forall|q: int| from <= q < i ==> !#[trigger] occurs_at(s@, p@, q),
        decreases n - i,
    {
        if matches_at(s, p, i) {
            proof {
                lemma_find_from_skip(s@, p@, from as int, i as int);
            }
            return Some(i);
        }
        i = i + 1;
    }
    proof {
        lemma_find_from_skip(s@, p@, from as int, i as int);
    }
    None
}

fn sub_string(s: &Vec<char>, start: usize, end: usize) -> (r: String)
    requires
        start <= end <= s@.len(),
    ensures
        r@ == s@.subrange(start as int, end as int),
{
    let mut v: Vec<char> = Vec::new();
    let mut i = start;
    while i < end
        invariant
            start <= i <= end <= s@.len(),
            v@ == s@.subrange(start as int, i as int),
        decreases end - i,
    {
        v.push(s[i]);
        assert(s@.subrange(start as int, i + 1) =~= s@.subrange(start as int, i as int).push(s@[i as int]));
        i = i + 1;
    }
    string_from_chars(v.as_slice())
}

/// The multipart boundary of a request (see `boundary_spec`).
pub fn multipart_boundary(needs_body: bool, body_len: usize, headers: &HeaderMap) -> (r: Option<String>)
    ensures
        match boundary_spec(needs_body, body_len as nat, header_map_entries(*headers)) {
            Some(b) => r matches Some(s) && s@ == b,
            None => r is None,
        },
{
    if !(needs_body && body_len > 0) {
        return None;
    }
    let text = match get_header(headers, "content-type") {
        Some(b) => match header_value_text(b.as_slice()) {
            Some(t) => t,
            None => {
                return None;
            },
        },
        None => {
            return None;
        },
    };
    let cs = chars_of(text.as_str());
    let prefix = chars_of("multipart/form-data");
    if cs.len() < prefix.len() || !matches_at(&cs, &prefix, 0) {
        assert(cs@.take(prefix@.len() as int) =~= cs@.subrange(0, prefix@.len() as int));
        return None;
    }
    assert(cs@.take(prefix@.len() as int) =~= cs@.subrange(0, prefix@.len() as int));
    let pat = chars_of("boundary=");
    match find(&cs, &pat, 0) {
        Some(i) => {
            proof {
                lemma_find_from_range(cs@, pat@, 0);
            }
            let start = i + pat.len();
            proof {
                lemma_find_from_range(cs@, pat@, start as int);
            }
            let end = match find(&cs, &pat, start) {
                Some(j) => j,
                None => cs.len(),
            };
            Some(sub_string(&cs, start, end))
        },
        None => None,
    }
}

/// The uploads of a request: when it has a multipart boundary (see
/// `boundary_spec`), the named fields of its body parsed at that boundary;
/// none otherwise.
pub open spec fn uploads_spec(needs_body: bool, body: Seq<u8>, h: Seq<(Seq<char>, Seq<u8>)>) -> Seq<UploadView> {
    match boundary_spec(needs_body, body.len(), h) {
        Some(b) => multipart_parse(body, b),
        None => Seq::empty(),
    }
}

/// The uploads of a request (see `uploads_spec`).
pub fn request_uploads(needs_body: bool, body: &[u8], headers: &HeaderMap) -> (r: Vec<Upload>)
    ensures
        uploads_view(r@) == uploads_spec(needs_body, body@, header_map_entries(*headers)),
{
    match multipart_boundary(needs_body, body.len(), headers) {
        Some(b) => multipart_fields(body, b.as_str()),
        None => {
            let r: Vec<Upload> = Vec::new();
            assert(uploads_view(r@) =~= Seq::<UploadView>::empty());
            r
        },
    }
}

/// What to do after calling a handler or a middleware.
pub enum Step {
    /// The call gave a coroutine: await it, then convert its result.
    Await,
    /// Convert the returned value into the response.
    Respond,
    /// Pass the request on to the next layer unchanged.
    CallNext,
    /// Turn the raised exception into the response.
    Fail,
}

/// After calling a handler: a coroutine function's result is awaited, a
/// plain function's result is converted, an exception is reported.
pub fn handler_step(succeeded: bool, is_async: bool) -> (s: Step)
    ensures
        s == (if !succeeded {
            Step::Fail
        } else if is_async {
            Step::Await
        } else {
            Step::Respond
        }),
{
    if !succeeded {
        Step::Fail
    } else if is_async {
        Step::Await
    } else {
        Step::Respond
    }
}

/// After calling a middleware's `dispatch`: as for a handler, except that a
/// `StopIteration` passes the request on to the next layer.
pub fn middleware_step(succeeded: bool, is_async: bool, stop_iteration: bool) -> (s: Step)
    ensures
        s == (if !succeeded {
            if stop_iteration {
                Step::CallNext
            } else {
                Step::Fail
            }
        } else if is_async {
            Step::Await
        } else {
            Step::Respond
        }),
{
    if !succeeded {
        if stop_iteration {
            Step::CallNext
        } else {
            Step::Fail
        }
    } else if is_async {
        Step::Await
    } else {
        Step::Respond
    }
}

proof fn lemma_find_from_found(s: Seq<char>, p: Seq<char>, from: int)
    requires
        0 <= from,
    ensures
        find_from(s, p, from) >= 0 ==> from <= find_from(s, p, from) && occurs_at(s, p, find_from(s, p, from))
            && forall|q: int| from <= q < find_from(s, p, from) ==> !#[trigger] occurs_at(s, p, q),
        find_from(s, p, from) < 0 ==> forall|q: int| from <= q ==> !#[trigger] occurs_at(s, p, q),
    decreases s.len() - from,
{
    if from + p.len() > s.len() {
    } else if occurs_at(s, p, from) {
    } else if from >= s.len() {
        assert(s.subrange(from, from + p.len()) =~= p);
    } else {
        lemma_find_from_found(s, p, from + 1);
    }
}

/// Law: the second piece of `s` split at a non-empty `p` is there exactly
/// when `p` occurs in `s`; it is the text that follows the first occurrence
/// of `p`, up to the next occurrence or to the end, and holds no occurrence
/// of `p` that starts inside it.
pub proof fn lemma_second_piece(s: Seq<char>, p: Seq<char>)
    requires
        p.len() > 0,
    ensures
        second_piece(s, p) is None <==> forall|q: int| 0 <= q ==> !#[trigger] occurs_at(s, p, q),
        second_piece(s, p) matches Some(r) ==> exists|i: int|
            #![trigger occurs_at(s, p, i)]
            {
                let a = i + p.len();
                let e = a + r.len();
                &&& occurs_at(s, p, i)
                &&& forall|q: int| 0 <= q < i ==> !#[trigger] occurs_at(s, p, q)
                &&& e <= s.len()
                &&& s.subrange(a, e) == r
                &&& (e == s.len() || occurs_at(s, p, e))
                &&& forall|q: int| a <= q < e ==> !#[trigger] occurs_at(s, p, q)
            },
{
    lemma_find_from_found(s, p, 0);
    let i = find_from(s, p, 0);
    if i >= 0 {
        let a = i + p.len();
        lemma_find_from_found(s, p, a);
        let j = find_from(s, p, a);
        let e = if j < 0 { s.len() as int } else { j };
        let r = s.subrange(a, e);
        assert(r.len() == e - a);
        assert(occurs_at(s, p, i));
    }
}

/// Law: a request has a multipart boundary only when its route reads the
/// body, the body is not empty, and the `content-type` header's first value
/// is visible ASCII starting with `multipart/form-data`; the boundary is then
/// the second piece of that text split at `boundary=`.
pub proof fn lemma_boundary_conditions(needs_body: bool, body_len: nat, h: Seq<(Seq<char>, Seq<u8>)>)
    ensures
        !needs_body || body_len == 0 ==> boundary_spec(needs_body, body_len, h) is None,
        lookup_header(h, vstd::utf8::encode_utf8("content-type"@)) is None ==> boundary_spec(needs_body, body_len, h)
            is None,
        lookup_header(h, vstd::utf8::encode_utf8("content-type"@)) matches Some(b) ==> (needs_body && body_len > 0
            ==> boundary_spec(needs_body, body_len, h) == (if visible_ascii(b) && ascii_text(b).len() >= 19
            && ascii_text(b).take(19) == "multipart/form-data"@ {
            second_piece(ascii_text(b), "boundary="@)
        } else {
            None
        })),
{
    reveal_strlit("multipart/form-data");
}

} // verus!
