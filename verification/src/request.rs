//! The request object handed to handlers and middlewares.
use vstd::prelude::*;
use crate::dict::{Dict, entries_insert_all, string_entries, string_dict, lemma_insert_map};
use axum::http::HeaderMap;
use crate::foreign::{form_pairs, form_urlencoded_parse, header_map_entries, header_map_pairs, json_parse, parse_json};
use crate::json::{JsonValue, JsonView};
use crate::headers::{header_entries, header_value_text, visible_ascii, ascii_text};

verus! {

/// An incoming request: method, path, raw query string, header map and the
/// body bytes that were read.
pub struct Request {
    pub method: String,
    pub path: String,
    pub query_string: String,
    pub headers: HeaderMap,
    pub body_bytes: Vec<u8>,
}

/// The headers whose values are text, as `(name, text)` pairs in order.
pub open spec fn header_text_pairs(h: Seq<(Seq<char>, Seq<u8>)>) -> Seq<(Seq<char>, Seq<char>)>
    decreases h.len(),
{
    if h.len() == 0 {
        Seq::empty()
    } else {
        let rest = header_text_pairs(h.drop_last());
        if visible_ascii(h.last().1) {
            rest.push((h.last().0, ascii_text(h.last().1)))
        } else {
            rest
        }
    }
}

/// The dictionary that writing `pairs` in order into an empty one gives.
pub open spec fn dict_of(pairs: Seq<(Seq<char>, Seq<char>)>) -> Seq<(Seq<char>, Seq<char>)> {
    entries_insert_all(Seq::<(Seq<char>, Seq<char>)>::empty(), pairs)
}

impl Request {
    /// The headers as a dictionary of text values: headers whose value is not
    /// visible ASCII are left out, and a later value of a repeated name
    /// replaces the earlier one.
    pub fn headers(&self) -> (d: Dict<String>)
        ensures
            d.wf(),
            string_entries(d.view_entries()) == dict_of(header_text_pairs(header_map_entries(self.headers))),
    {
        let pairs = header_map_pairs(&self.headers);
        let ghost h = header_entries(pairs@);
        let mut d: Dict<String> = Dict::new();
        let n = pairs.len();
        let mut i: usize = 0;
        assert(string_entries(d.view_entries()) =~= Seq::<(Seq<char>, Seq<char>)>::empty());
        while i < n
            invariant
                i <= n == pairs@.len(),
                h == header_entries(pairs@),
                d.wf(),
                string_entries(d.view_entries()) == dict_of(header_text_pairs(h.take(i as int))),
            decreases n - i,
        {
            let entry = &pairs[i];
            assert(h.take(i + 1).drop_last() =~= h.take(i as int));
            match header_value_text(entry.1.as_slice()) {
                Some(text) => {
                    let ghost before = d.view_entries();
                    let ghost t = text@;
                    d.insert(entry.0.clone(), text);
                    proof {
                        lemma_insert_map(before, entry.0@, text, |x: String| x@);
                        let p = header_text_pairs(h.take(i as int));
                        assert(header_text_pairs(h.take(i + 1)) == p.push((entry.0@, t)));
                        assert(p.push((entry.0@, t)).drop_last() =~= p);
                    }
                },
                None => {},
            }
            i = i + 1;
        }
        assert(h.take(n as int) =~= h);
        d
    }

    /// The query string parsed as `application/x-www-form-urlencoded` into a
    /// dictionary; a later value of a repeated name replaces the earlier one.
    pub fn query_params(&self) -> (d: Dict<String>)
        ensures
            d.wf(),
            string_entries(d.view_entries()) == dict_of(
                form_urlencoded_parse(vstd::utf8::encode_utf8(self.query_string@)),
            ),
    {
        string_dict(form_pairs(self.query_string.as_str().as_bytes()))
    }

    /// The URL parts: `path` and `query`, in that order.
    pub fn url(&self) -> (d: Dict<String>)
        ensures
            d.wf(),
            string_entries(d.view_entries()) == seq![
                (seq!['p', 'a', 't', 'h'], self.path@),
                (seq!['q', 'u', 'e', 'r', 'y'], self.query_string@),
            ],
    {
        proof {
            reveal_strlit("path");
            reveal_strlit("query");
            assert("path"@ =~= seq!['p', 'a', 't', 'h']);
            assert("query"@ =~= seq!['q', 'u', 'e', 'r', 'y']);
        }
        let mut d: Dict<String> = Dict::new();
        d.insert(String::from_str("path"), self.path.clone());
        d.insert(String::from_str("query"), self.query_string.clone());
        proof {
            crate::dict::lemma_key_index(Seq::<(Seq<char>, String)>::empty(), seq!['p', 'a', 't', 'h']);
            let one = seq![(seq!['p', 'a', 't', 'h'], self.path)];
            assert(Seq::<(Seq<char>, String)>::empty().push((seq!['p', 'a', 't', 'h'], self.path)) =~= one);
            assert(one.drop_last() =~= Seq::<(Seq<char>, String)>::empty());
            assert(one.last().0 != seq!['q', 'u', 'e', 'r', 'y']);
            crate::dict::lemma_key_index(one.drop_last(), seq!['q', 'u', 'e', 'r', 'y']);
        }
        assert(string_entries(d.view_entries()) =~= seq![
            (seq!['p', 'a', 't', 'h'], self.path@),
            (seq!['q', 'u', 'e', 'r', 'y'], self.query_string@),
        ]);
        d
    }

    /// The body bytes.
    pub fn body(&self) -> (b: Vec<u8>)
        ensures
            b@ == self.body_bytes@,
    {
        let b = self.body_bytes.clone();
        assert(b@ =~= self.body_bytes@);
        b
    }

    /// The body parsed as JSON: the document, or the parser's message when
    /// the body is not JSON.
    pub fn json(&self) -> (r: Result<JsonValue, String>)
        ensures
            match r {
                Ok(v) => json_parse(self.body_bytes@) == Ok::<JsonView, Seq<char>>(v.view()),
                Err(e) => json_parse(self.body_bytes@) == Err::<JsonView, Seq<char>>(e@),
            },
    {
        parse_json(self.body_bytes.as_slice())
    }
}

} // verus!

verus! {

/// Law: in a dictionary built by writing pairs in order (request headers,
/// query parameters, response headers), each name maps to the value of its
/// last pair, and no name occurs twice.
pub proof fn lemma_dict_of_last_wins(pairs: Seq<(Seq<char>, Seq<char>)>)
    ensures
        crate::dict::keys_unique(dict_of(pairs)),
        crate::dict::entries_map(dict_of(pairs)) == crate::dict::entries_map(pairs),
{
    crate::dict::lemma_insert_all_law(Seq::<(Seq<char>, Seq<char>)>::empty(), pairs);
    assert(Seq::<(Seq<char>, Seq<char>)>::empty() + pairs =~= pairs);
}

/// Law: the text headers of a request keep, in order, each header whose
/// value is visible ASCII, with that value read as characters; when every
/// value is, there is one text header per header.
pub proof fn lemma_header_text_pairs(h: Seq<(Seq<char>, Seq<u8>)>)
    ensures
        header_text_pairs(h).len() <= h.len(),
        (forall|i: int| 0 <= i < h.len() ==> visible_ascii(#[trigger] h[i].1)) ==> header_text_pairs(h).len() == h.len()
            && forall|i: int|
            0 <= i < h.len() ==> header_text_pairs(h)[i] == (#[trigger] h[i].0, ascii_text(h[i].1)),
        (forall|i: int| 0 <= i < h.len() ==> !visible_ascii(#[trigger] h[i].1)) ==> header_text_pairs(h).len() == 0,
    decreases h.len(),
{
    if h.len() > 0 {
        let t = h.drop_last();
        lemma_header_text_pairs(t);
        assert forall|i: int| 0 <= i < t.len() implies t[i] == h[i] by {}
        assert(h.last() == h[h.len() - 1]);
        if forall|i: int| 0 <= i < h.len() ==> visible_ascii(#[trigger] h[i].1) {
            assert forall|i: int| 0 <= i < t.len() implies visible_ascii(#[trigger] t[i].1) by {
                assert(t[i] == h[i]);
            }
            assert forall|i: int| 0 <= i < h.len() implies header_text_pairs(h)[i] == (
                #[trigger] h[i].0,
                ascii_text(h[i].1),
            ) by {
                if i < h.len() - 1 {
                    assert(t[i] == h[i]);
                }
            }
        }
        if forall|i: int| 0 <= i < h.len() ==> !visible_ascii(#[trigger] h[i].1) {
            assert forall|i: int| 0 <= i < t.len() implies !visible_ascii(#[trigger] t[i].1) by {
                assert(t[i] == h[i]);
            }
            assert(!visible_ascii(h[h.len() - 1].1));
        }
    }
}

} // verus!
