//! A JSON document as plain values: what a request body holds once parsed.
use vstd::prelude::*;
use crate::text::str_eq;
use crate::dict::{key_index, lemma_key_index, lemma_key_index_is_last};

verus! {

/// A JSON number: its value when it is an integer within `i64`
/// (`as_i64`), and its text, from which its `f64` value is read.
pub struct JsonNumber {
    pub integer: Option<i64>,
    pub text: String,
}

/// A JSON value; an object's members are kept in the order the parser
/// yields them.
pub enum JsonValue {
    Null,
    Bool(bool),
    Number(JsonNumber),
    Str(String),
    Array(Vec<JsonValue>),
    Object(Vec<(String, JsonValue)>),
}

/// The view of a `JsonValue`.
pub enum JsonView {
    Null,
    Bool(bool),
    Number(Option<i64>, Seq<char>),
    Str(Seq<char>),
    Array(Seq<JsonView>),
    Object(Seq<(Seq<char>, JsonView)>),
}

impl JsonValue {
    pub open spec fn view(&self) -> JsonView
        decreases self,
    {
        match self {
            JsonValue::Null => JsonView::Null,
            JsonValue::Bool(b) => JsonView::Bool(*b),
            JsonValue::Number(n) => JsonView::Number(n.integer, n.text@),
            JsonValue::Str(s) => JsonView::Str(s@),
            JsonValue::Array(items) => JsonView::Array(
                Seq::new(
                    items.len() as nat,
                    |i: int|
                        if 0 <= i < items.len() {
                            items[i].view()
                        } else {
                            JsonView::Null
                        },
                ),
            ),
            JsonValue::Object(members) => JsonView::Object(
                Seq::new(
                    members.len() as nat,
                    |i: int|
                        if 0 <= i < members.len() {
                            (members[i].0@, members[i].1.view())
                        } else {
                            (Seq::empty(), JsonView::Null)
                        },
                ),
            ),
        }
    }
}


/// What `Value::get(name)` gives: the member under `name` when the value is
/// an object (the last one, should a name occur twice), nothing otherwise.
pub open spec fn json_member(v: JsonView, name: Seq<char>) -> Option<JsonView> {
    match v {
        JsonView::Object(m) => {
            let i = key_index(m, name);
            if i >= 0 {
                Some(m[i].1)
            } else {
                None
            }
        },
        _ => None,
    }
}

impl JsonValue {
    /// A copy of the whole tree.
    pub fn copy(&self) -> (r: JsonValue)
        ensures
            r.view() == self.view(),
        decreases self,
    {
        match self {
            JsonValue::Null => JsonValue::Null,
            JsonValue::Bool(b) => JsonValue::Bool(*b),
            JsonValue::Number(n) => JsonValue::Number(JsonNumber { integer: n.integer, text: n.text.clone() }),
            JsonValue::Str(s) => JsonValue::Str(s.clone()),
            JsonValue::Array(items) => {
                let mut out: Vec<JsonValue> = Vec::new();
                let n = items.len();
                let mut i: usize = 0;
                while i < n
                    invariant
                        i <= n == items@.len(),
                        *self == JsonValue::Array(*items),
                        out@.len() == i,
                        forall|j: int| 0 <= j < i ==> (#[trigger] out@[j]).view() == items@[j].view(),
                    decreases n - i,
                {
                    proof {
                        vstd::std_specs::vec::axiom_vec_index_decreases(*items, i as int);
                        assert(decreases_to!(*self => self->Array_0));
                    }
                    let c = items[i].copy();
                    out.push(c);
                    i = i + 1;
                }
                let r = JsonValue::Array(out);
                proof {
                    let ghost a = match r.view() {
                        JsonView::Array(m) => m,
                        _ => Seq::empty(),
                    };
                    let ghost b = match self.view() {
                        JsonView::Array(m) => m,
                        _ => Seq::empty(),
                    };
                    assert forall|j: int| 0 <= j < n implies a[j] == b[j] by {
                        assert(out@[j].view() == items@[j].view());
                    }
                    assert(a =~= b);
                }
                r
            },
            JsonValue::Object(members) => {
                let mut out: Vec<(String, JsonValue)> = Vec::new();
                let n = members.len();
                let mut i: usize = 0;
                while i < n
                    invariant
                        i <= n == members@.len(),
                        *self == JsonValue::Object(*members),
                        out@.len() == i,
                        forall|j: int|
                            0 <= j < i ==> (#[trigger] out@[j]).0@ == members@[j].0@ && out@[j].1.view()
                                == members@[j].1.view(),
                    decreases n - i,
                {
                    proof {
                        vstd::std_specs::vec::axiom_vec_index_decreases(*members, i as int);
                        assert(decreases_to!(*self => self->Object_0));
                        assert(decreases_to!(members[i as int] => members[i as int].1));
                    }
                    let c = members[i].1.copy();
                    out.push((members[i].0.clone(), c));
                    i = i + 1;
                }
                let r = JsonValue::Object(out);
                proof {
                    let ghost a = match r.view() {
                        JsonView::Object(m) => m,
                        _ => Seq::empty(),
                    };
                    let ghost b = match self.view() {
                        JsonView::Object(m) => m,
                        _ => Seq::empty(),
                    };
                    assert forall|j: int| 0 <= j < n implies a[j] == b[j] by {
                        assert(out@[j].0@ == members@[j].0@);
                    }
                    assert(a =~= b);
                }
                r
            },
        }
    }

    /// `Value::get(name)`: a copy of the member under `name`.
    pub fn get(&self, name: &str) -> (r: Option<JsonValue>)
        ensures
            match json_member(self.view(), name@) {
                Some(v) => r matches Some(x) && x.view() == v,
                None => r is None,
            },
    {
        match self {
            JsonValue::Object(members) => {
                let ghost m = match self.view() {
                    JsonView::Object(m) => m,
                    _ => Seq::empty(),
                };
                assert(m.len() == members@.len());
                proof {
                    lemma_key_index(m, name@);
                }
                let n = members.len();
                let mut i = n;
                while i > 0
                    invariant
                        i <= n == members@.len() == m.len(),
                        *self == JsonValue::Object(*members),
                        self.view() == JsonView::Object(m),
                        forall|j: int| 0 <= j < n ==> m[j] == (#[trigger] members@[j].0@, members@[j].1.view()),
                        forall|j: int| i <= j < n ==> m[j].0 != name@,
                    decreases i,
                {
                    i = i - 1;
                    if str_eq(members[i].0.as_str(), name) {
                        proof {
                            lemma_key_index_is_last(m, name@, i as int);
                        }
                        return Some(members[i].1.copy());
                    }
                }
                None
            },
            _ => None,
        }
    }
}

} // verus!
