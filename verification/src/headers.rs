//! Reading request headers: a header map seen as `(name, value bytes)`
//! entries in iteration order, names in the lower case that `HeaderName`
//! gives them.
use vstd::prelude::*;
use axum::http::HeaderMap;
use crate::foreign::{get_header, header_map_entries, normalized_header_name, valid_header_name};
use crate::text::push_char;

verus! {

/// The view of a list of header pairs.
pub open spec fn header_entries(v: Seq<(String, Vec<u8>)>) -> Seq<(Seq<char>, Seq<u8>)> {
    v.map_values(|p: (String, Vec<u8>)| (p.0@, p.1@))
}

/// The bytes that `HeaderValue::to_str` accepts: visible ASCII and tab.
pub open spec fn visible_ascii(b: Seq<u8>) -> bool {
    forall|i: int| 0 <= i < b.len() ==> ((32 <= #[trigger] b[i] && b[i] < 127) || b[i] == 9)
}

/// ASCII bytes read as characters.
pub open spec fn ascii_text(b: Seq<u8>) -> Seq<char> {
    b.map_values(|x: u8| x as char)
}

/// A header value as text, as `HeaderValue::to_str` gives it: the bytes as
/// characters when all of them are visible ASCII or tab, nothing otherwise.
pub fn header_value_text(b: &[u8]) -> (r: Option<String>)
    ensures
        r is Some <==> visible_ascii(b@),
        r matches Some(s) ==> s@ == ascii_text(b@),
{
    let mut s = String::new();
    let n = b.len();
    let mut i: usize = 0;
    while i < n
        invariant
            i <= n == b@.len(),
            forall|j: int| 0 <= j < i ==> ((32 <= #[trigger] b@[j] && b@[j] < 127) || b@[j] == 9),
            s@ == ascii_text(b@.take(i as int)),
        decreases n - i,
    {
        let x = b[i];
        if !((32 <= x && x < 127) || x == 9) {
            return None;
        }
        push_char(&mut s, x as char);
        assert(ascii_text(b@.take(i + 1)) =~= ascii_text(b@.take(i as int)).push(x as char));
        i = i + 1;
    }
    assert(b@.take(n as int) =~= b@);
    Some(s)
}

/// Position of the first entry named `name`, or -1.
pub open spec fn first_named(h: Seq<(Seq<char>, Seq<u8>)>, name: Seq<char>) -> int
    decreases h.len(),
{
    if h.len() == 0 {
        -1
    } else if h[0].0 == name {
        0
    } else {
        let r = first_named(h.skip(1), name);
        if r < 0 {
            -1
        } else {
            r + 1
        }
    }
}

/// The first value under `name`, as `HeaderMap::get` gives it.
pub open spec fn first_value(h: Seq<(Seq<char>, Seq<u8>)>, name: Seq<char>) -> Option<Seq<u8>> {
    let i = first_named(h, name);
    if i >= 0 {
        Some(h[i].1)
    } else {
        None
    }
}

/// What `HeaderMap::get` with a string key gives: the key is parsed as a
/// header name; an invalid key finds nothing.
pub open spec fn lookup_header(h: Seq<(Seq<char>, Seq<u8>)>, key: Seq<u8>) -> Option<Seq<u8>> {
    if valid_header_name(key) {
        first_value(h, normalized_header_name(key))
    } else {
        None
    }
}

/// The text of a header, as `get(..)` followed by `to_str()` gives it.
pub open spec fn lookup_header_text(h: Seq<(Seq<char>, Seq<u8>)>, key: Seq<u8>) -> Option<Seq<char>> {
    match lookup_header(h, key) {
        Some(b) => if visible_ascii(b) {
            Some(ascii_text(b))
        } else {
            None
        },
        None => None,
    }
}

/// `HeaderMap::get` with a string key, then `to_str`.
pub fn get_header_text(headers: &HeaderMap, key: &str) -> (r: Option<String>)
    ensures
        match lookup_header_text(header_map_entries(*headers), vstd::utf8::encode_utf8(key@)) {
            Some(t) => r matches Some(s) && s@ == t,
            None => r is None,
        },
{
    match get_header(headers, key) {
        Some(v) => header_value_text(v.as_slice()),
        None => None,
    }
}

proof fn lemma_first_named(h: Seq<(Seq<char>, Seq<u8>)>, name: Seq<char>)
    ensures
        -1 <= first_named(h, name) < h.len(),
        first_named(h, name) >= 0 ==> h[first_named(h, name)].0 == name,
        forall|j: int| 0 <= j < h.len() && (first_named(h, name) < 0 || j < first_named(h, name)) ==> h[j].0 != name,
    decreases h.len(),
{
    if h.len() > 0 && h[0].0 != name {
        lemma_first_named(h.skip(1), name);
        assert forall|j: int| 1 <= j < h.len() implies h.skip(1)[j - 1] == h[j] by {}
    }
}

/// Law: looking a header up by a key finds nothing for a key that is not a
/// valid header name; for a valid one it finds the value of the first entry
/// whose name is the key in lower case, and nothing when no entry has it.
pub proof fn lemma_lookup_header_first(h: Seq<(Seq<char>, Seq<u8>)>, key: Seq<u8>)
    ensures
        !valid_header_name(key) ==> lookup_header(h, key) is None,
        valid_header_name(key) ==> (lookup_header(h, key) is None <==> forall|j: int|
            0 <= j < h.len() ==> #[trigger] h[j].0 != normalized_header_name(key)),
        valid_header_name(key) && lookup_header(h, key) is Some ==> exists|i: int|
            0 <= i < h.len() && #[trigger] h[i] == (normalized_header_name(key), lookup_header(h, key)->Some_0)
                && forall|j: int| 0 <= j < i ==> #[trigger] h[j].0 != normalized_header_name(key),
{
    let n = normalized_header_name(key);
    lemma_first_named(h, n);
    let i = first_named(h, n);
    if valid_header_name(key) && i >= 0 {
        assert(h[i] == (n, lookup_header(h, key)->Some_0));
    }
}

} // verus!
