//! Checking a request's arguments against the constraints of the schema.
use vstd::prelude::*;
use crate::dict::{Dict, entries_map, map_entry_values, lemma_map_of_mapped};
use crate::foreign::{compile_pattern, pattern_is_match, regex_compiles, regex_is_match};
use crate::json::{JsonValue, JsonView};
use crate::params::{ArgView, ParamDef, ParamValue};
use crate::text::{decimal, push_decimal};

verus! {

/// What an argument is checked as. Integers (booleans among them) and
/// floats are checked against numeric bounds, strings against length and
/// pattern constraints; other values are not checked.
pub enum ValueKind {
    Integer(i64),
    /// A float, by the text of its value.
    Real(String),
    Text(String),
    Unchecked,
}

pub enum KindView {
    Integer(i64),
    Real(Seq<char>),
    Text(Seq<char>),
    Unchecked,
}

impl ValueKind {
    pub open spec fn view(&self) -> KindView {
        match self {
            ValueKind::Integer(i) => KindView::Integer(*i),
            ValueKind::Real(t) => KindView::Real(t@),
            ValueKind::Text(s) => KindView::Text(s@),
            ValueKind::Unchecked => KindView::Unchecked,
        }
    }
}

/// How an argument is checked: booleans count as the integers 0 and 1, a
/// JSON value by what it holds (nulls, arrays and objects are not checked),
/// uploaded files are not checked.
pub open spec fn kind_of(v: ArgView) -> KindView {
    match v {
        ArgView::Int(i) => KindView::Integer(i),
        ArgView::Float(t) => KindView::Real(t),
        ArgView::Bool(b) => KindView::Integer(if b { 1 } else { 0 }),
        ArgView::Str(s) => KindView::Text(s),
        ArgView::Json(j) => match j {
            JsonView::Bool(b) => KindView::Integer(if b { 1 } else { 0 }),
            JsonView::Number(Some(i), _) => KindView::Integer(i),
            JsonView::Number(None, t) => KindView::Real(t),
            JsonView::Str(s) => KindView::Text(s),
            _ => KindView::Unchecked,
        },
        ArgView::File(_) => KindView::Unchecked,
    }
}

pub fn value_kind(v: &ParamValue) -> (r: ValueKind)
    ensures
        r.view() == kind_of(v.view()),
{
    match v {
        ParamValue::Int(i) => ValueKind::Integer(*i),
        ParamValue::Float(t) => ValueKind::Real(t.clone()),
        ParamValue::Bool(b) => ValueKind::Integer(if *b { 1 } else { 0 }),
        ParamValue::Str(s) => ValueKind::Text(s.clone()),
        ParamValue::Json(j) => match j {
            JsonValue::Bool(b) => ValueKind::Integer(if *b { 1 } else { 0 }),
            JsonValue::Number(n) => match n.integer {
                Some(i) => ValueKind::Integer(i),
                None => ValueKind::Real(n.text.clone()),
            },
            JsonValue::Str(s) => ValueKind::Text(s.clone()),
            _ => ValueKind::Unchecked,
        },
        ParamValue::File(_) => ValueKind::Unchecked,
    }
}

/// The byte length of a text in UTF-8.
pub open spec fn byte_len(s: Seq<char>) -> nat {
    vstd::utf8::encode_utf8(s).len()
}

pub open spec fn at_least_message(name: Seq<char>, n: nat) -> Seq<char> {
    name + " length must be at least "@ + decimal(n)
}

pub open spec fn at_most_message(name: Seq<char>, n: nat) -> Seq<char> {
    name + " length must be at most "@ + decimal(n)
}

pub open spec fn pattern_message(name: Seq<char>, pattern: Seq<char>) -> Seq<char> {
    name + " does not match pattern "@ + pattern
}

/// The first constraint on a string argument that its value breaks, as its
/// message: minimum length, then maximum length (both in UTF-8 bytes), then
/// the pattern, which counts only when it compiles.
pub open spec fn string_violation(p: ParamDef, s: Seq<char>) -> Option<Seq<char>> {
    let len = byte_len(s);
    if p.min_length is Some && len < p.min_length->0 {
        Some(at_least_message(p.name@, p.min_length->0 as nat))
    } else if p.max_length is Some && len > p.max_length->0 {
        Some(at_most_message(p.name@, p.max_length->0 as nat))
    } else if p.pattern is Some && regex_compiles(p.pattern->0@) && !regex_is_match(p.pattern->0@, s) {
        Some(pattern_message(p.name@, p.pattern->0@))
    } else {
        None
    }
}

/// The message of the first parameter, in schema order, whose argument
/// breaks a constraint. `numeric[i]` is the verdict on the numeric bounds of
/// parameter `i`, which counts when its argument is a number.
pub open spec fn first_violation(
    schema: Seq<ParamDef>,
    args: Map<Seq<char>, ArgView>,
    numeric: Seq<Option<Seq<char>>>,
) -> Option<Seq<char>>
    decreases schema.len(),
{
    if schema.len() == 0 {
        None
    } else {
        let p = schema[0];
        let here = if args.dom().contains(p.name@) {
            match kind_of(args[p.name@]) {
                KindView::Integer(_) => numeric[0],
                KindView::Real(_) => numeric[0],
                KindView::Text(s) => string_violation(p, s),
                KindView::Unchecked => None,
            }
        } else {
            None
        };
        if here is Some {
            here
        } else {
            first_violation(schema.skip(1), args, numeric.skip(1))
        }
    }
}

pub open spec fn messages_view(v: Seq<Option<String>>) -> Seq<Option<Seq<char>>> {
    v.map_values(|o: Option<String>| match o {
        Some(s) => Some(s@),
        None => None,
    })
}

/// The arguments of a dictionary by view.
pub open spec fn argument_map(d: Dict<ParamValue>) -> Map<Seq<char>, ArgView> {
    entries_map(map_entry_values(d.view_entries(), |v: ParamValue| v.view()))
}

fn message(name: &str, middle: &str, n: usize) -> (r: String)
    ensures
        r@ == name@ + middle@ + decimal(n as nat),
{
    let mut s = String::from_str(name);
    s.append(middle);
    push_decimal(&mut s, n as u64);
    s
}

fn check_string(p: &ParamDef, s: &String) -> (r: Option<String>)
    ensures
        match string_violation(*p, s@) {
            Some(m) => r matches Some(x) && x@ == m,
            None => r is None,
        },
{
    let len = s.as_str().as_bytes().len();
    assert(len == byte_len(s@));
    match p.min_length {
        Some(v) => if len < v {
            return Some(message(p.name.as_str(), " length must be at least ", v));
        },
        None => {},
    }
    match p.max_length {
        Some(v) => if len > v {
            return Some(message(p.name.as_str(), " length must be at most ", v));
        },
        None => {},
    }
    match &p.pattern {
        Some(pt) => match compile_pattern(pt.as_str()) {
            Some(re) => if !pattern_is_match(&re, s.as_str()) {
                let mut m = String::from_str(p.name.as_str());
                m.append(" does not match pattern ");
                m.append(pt.as_str());
                return Some(m);
            },
            None => {},
        },
        None => {},
    }
    None
}

/// The message of the first broken constraint, in schema order, or nothing
/// when every argument passes. `numeric[i]` is the verdict, computed by the
/// caller, on the numeric bounds of parameter `i` for its argument.
pub fn validate(schema: &Vec<ParamDef>, args: &Dict<ParamValue>, numeric: &Vec<Option<String>>) -> (r: Option<String>)
    requires
        numeric@.len() == schema@.len(),
    ensures
        match first_violation(schema@, argument_map(*args), messages_view(numeric@)) {
            Some(m) => r matches Some(x) && x@ == m,
            None => r is None,
        },
{
    let ghost amap = argument_map(*args);
    let ghost nv = messages_view(numeric@);
    proof {
        lemma_map_of_mapped(args.view_entries(), |v: ParamValue| v.view());
    }
    let n = schema.len();
    let mut i: usize = 0;
    assert(schema@.skip(0) =~= schema@);
    assert(nv.skip(0) =~= nv);
    while i < n
        invariant
            i <= n == schema@.len() == numeric@.len(),
            amap == argument_map(*args),
            amap == args.spec_map().map_values(|v: ParamValue| v.view()),
            nv == messages_view(numeric@),
            first_violation(schema@, amap, nv) == first_violation(schema@.skip(i as int), amap, nv.skip(i as int)),
        decreases n - i,
    {
        let p = &schema[i];
        let ghost rest = schema@.skip(i as int);
        assert(rest[0] == schema@[i as int]);
        assert(rest.skip(1) =~= schema@.skip(i + 1));
        assert(nv.skip(i as int).skip(1) =~= nv.skip(i + 1));
        assert(nv.skip(i as int)[0] == nv[i as int]);
        let here: Option<String> = match args.get(p.name.as_str()) {
            Some(v) => match value_kind(v) {
                ValueKind::Integer(_) | ValueKind::Real(_) => match &numeric[i] {
                    Some(m) => Some(m.clone()),
                    None => None,
                },
                ValueKind::Text(s) => check_string(p, &s),
                ValueKind::Unchecked => None,
            },
            None => None,
        };
        match here {
            Some(m) => {
                return Some(m);
            },
            None => {},
        }
        i = i + 1;
    }
    None
}

} // verus!

verus! {

/// Law: when no violation is reported, every parameter whose argument is a
/// string has a value within its declared minimum and maximum length (in
/// UTF-8 bytes) and matching its pattern when the pattern compiles.
pub proof fn lemma_passing_strings_satisfy_constraints(
    schema: Seq<ParamDef>,
    args: Map<Seq<char>, ArgView>,
    numeric: Seq<Option<Seq<char>>>,
)
    requires
        first_violation(schema, args, numeric) is None,
    ensures
        forall|i: int|
            0 <= i < schema.len() && args.dom().contains(#[trigger] schema[i].name@) && kind_of(
                args[schema[i].name@],
            ) is Text ==> {
                let s = kind_of(args[schema[i].name@])->Text_0;
                let p = schema[i];
                &&& p.min_length matches Some(v) ==> byte_len(s) >= v
                &&& p.max_length matches Some(v) ==> byte_len(s) <= v
                &&& p.pattern matches Some(pt) ==> (regex_compiles(pt@) ==> regex_is_match(pt@, s))
            },
    decreases schema.len(),
{
    if schema.len() > 0 {
        lemma_passing_strings_satisfy_constraints(schema.skip(1), args, numeric.skip(1));
        assert forall|i: int|
            0 <= i < schema.len() && args.dom().contains(#[trigger] schema[i].name@) && kind_of(
                args[schema[i].name@],
            ) is Text implies {
                let s = kind_of(args[schema[i].name@])->Text_0;
                let p = schema[i];
                &&& p.min_length matches Some(v) ==> byte_len(s) >= v
                &&& p.max_length matches Some(v) ==> byte_len(s) <= v
                &&& p.pattern matches Some(pt) ==> (regex_compiles(pt@) ==> regex_is_match(pt@, s))
            } by {
            if i > 0 {
                assert(schema.skip(1)[i - 1] == schema[i]);
            }
        }
    }
}

/// Law: when no violation is reported, no numeric argument has a verdict
/// against it.
pub proof fn lemma_passing_numbers_have_no_verdict(
    schema: Seq<ParamDef>,
    args: Map<Seq<char>, ArgView>,
    numeric: Seq<Option<Seq<char>>>,
)
    requires
        first_violation(schema, args, numeric) is None,
        numeric.len() == schema.len(),
    ensures
        forall|i: int|
            0 <= i < schema.len() && args.dom().contains(#[trigger] schema[i].name@) && (kind_of(
                args[schema[i].name@],
            ) is Integer || kind_of(args[schema[i].name@]) is Real) ==> numeric[i] is None,
    decreases schema.len(),
{
    if schema.len() > 0 {
        lemma_passing_numbers_have_no_verdict(schema.skip(1), args, numeric.skip(1));
        assert forall|i: int|
            0 <= i < schema.len() && args.dom().contains(#[trigger] schema[i].name@) && (kind_of(
                args[schema[i].name@],
            ) is Integer || kind_of(args[schema[i].name@]) is Real) implies numeric[i] is None by {
            if i > 0 {
                assert(schema.skip(1)[i - 1] == schema[i]);
                assert(numeric.skip(1)[i - 1] == numeric[i]);
            }
        }
    }
}

/// Law: a string argument is checked against its constraints in order:
/// fewer UTF-8 bytes than the minimum gives "<name> length must be at least
/// <min>"; else more than the maximum gives "<name> length must be at most
/// <max>"; else a compiling pattern it does not match gives "<name> does not
/// match pattern <pattern>"; otherwise it passes.
pub proof fn lemma_string_violation_messages(p: ParamDef, s: Seq<char>)
    ensures
        p.min_length is Some && byte_len(s) < p.min_length->0 ==> string_violation(p, s) == Some(
            p.name@ + " length must be at least "@ + decimal(p.min_length->0 as nat),
        ),
        (p.min_length matches Some(n) ==> byte_len(s) >= n) ==> (p.max_length is Some && byte_len(s) > p.max_length->0
            ==> string_violation(p, s) == Some(
            p.name@ + " length must be at most "@ + decimal(p.max_length->0 as nat),
        )),
        (p.min_length matches Some(n) ==> byte_len(s) >= n) && (p.max_length matches Some(m) ==> byte_len(s) <= m)
            ==> (p.pattern is Some && regex_compiles(p.pattern->0@) && !regex_is_match(
            p.pattern->0@,
            s,
        ) ==> string_violation(p, s) == Some(p.name@ + " does not match pattern "@ + p.pattern->0@)),
        (p.min_length matches Some(n) ==> byte_len(s) >= n) && (p.max_length matches Some(m) ==> byte_len(s) <= m)
            && (p.pattern matches Some(pt) ==> (regex_compiles(pt@) ==> regex_is_match(pt@, s)))
            ==> string_violation(p, s) is None,
{
}

/// Law: the violation reported for a schema is that of its first parameter
/// whose own check fails: a string argument's first broken constraint, or
/// a numeric argument's verdict; parameters without an argument pass.
pub proof fn lemma_first_violation_is_first(
    schema: Seq<ParamDef>,
    args: Map<Seq<char>, ArgView>,
    numeric: Seq<Option<Seq<char>>>,
)
    requires
        numeric.len() == schema.len(),
    ensures
        first_violation(schema, args, numeric) is None <==> forall|i: int|
            0 <= i < schema.len() ==> #[trigger] param_check(schema[i], args, numeric[i]) is None,
        first_violation(schema, args, numeric) matches Some(m) ==> exists|i: int|
            0 <= i < schema.len() && #[trigger] param_check(schema[i], args, numeric[i]) == Some(m) && forall|j: int|
                0 <= j < i ==> #[trigger] param_check(schema[j], args, numeric[j]) is None,
    decreases schema.len(),
{
    if schema.len() > 0 {
        lemma_first_violation_is_first(schema.skip(1), args, numeric.skip(1));
        assert forall|i: int| 1 <= i < schema.len() implies schema.skip(1)[i - 1] == schema[i] && numeric.skip(1)[i
            - 1] == numeric[i] by {}
        if param_check(schema[0], args, numeric[0]) is None {
            if let Some(m) = first_violation(schema, args, numeric) {
                let k = choose|k: int|
                    0 <= k < schema.len() - 1 && #[trigger] param_check(schema.skip(1)[k], args, numeric.skip(1)[k])
                        == Some(m) && forall|j: int|
                        0 <= j < k ==> #[trigger] param_check(schema.skip(1)[j], args, numeric.skip(1)[j]) is None;
                assert(param_check(schema[k + 1], args, numeric[k + 1]) == Some(m));
                assert forall|j: int| 0 <= j < k + 1 implies #[trigger] param_check(schema[j], args, numeric[j]) is None by {
                    if j > 0 {
                        assert(param_check(schema.skip(1)[j - 1], args, numeric.skip(1)[j - 1]) is None);
                    }
                }
            }
            if first_violation(schema, args, numeric) is None {
                assert forall|i: int| 0 <= i < schema.len() implies #[trigger] param_check(schema[i], args, numeric[i])
                    is None by {
                    if i > 0 {
                        assert(param_check(schema.skip(1)[i - 1], args, numeric.skip(1)[i - 1]) is None);
                    }
                }
            }
        } else {
            assert(param_check(schema[0], args, numeric[0]) is Some);
        }
    }
}

/// One parameter's own check: a string argument against its constraints, a
/// numeric argument by its verdict; no argument, or another kind, passes.
pub open spec fn param_check(p: ParamDef, args: Map<Seq<char>, ArgView>, verdict: Option<Seq<char>>) -> Option<
    Seq<char>,
> {
    if args.dom().contains(p.name@) {
        match kind_of(args[p.name@]) {
            KindView::Integer(_) => verdict,
            KindView::Real(_) => verdict,
            KindView::Text(s) => string_violation(p, s),
            KindView::Unchecked => None,
        }
    } else {
        None
    }
}

/// Law: how each argument is checked: an integer as itself, a boolean as 1
/// (true) or 0 (false), a float by its text, a string as its text; a JSON
/// value the same way by what it holds, with an `i64` number as an integer
/// and any other number by its text; JSON nulls, arrays and objects, and
/// uploaded files, are not checked.
pub proof fn lemma_kinds(v: ArgView)
    ensures
        v matches ArgView::Int(i) ==> kind_of(v) == KindView::Integer(i),
        v == ArgView::Bool(true) ==> kind_of(v) == KindView::Integer(1),
        v == ArgView::Bool(false) ==> kind_of(v) == KindView::Integer(0),
        v matches ArgView::Float(t) ==> kind_of(v) == KindView::Real(t),
        v matches ArgView::Str(t) ==> kind_of(v) == KindView::Text(t),
        v == ArgView::Json(JsonView::Bool(true)) ==> kind_of(v) == KindView::Integer(1),
        v == ArgView::Json(JsonView::Bool(false)) ==> kind_of(v) == KindView::Integer(0),
        v matches ArgView::Json(JsonView::Number(Some(i), _)) ==> kind_of(v) == KindView::Integer(i),
        v matches ArgView::Json(JsonView::Number(None, t)) ==> kind_of(v) == KindView::Real(t),
        v matches ArgView::Json(JsonView::Str(t)) ==> kind_of(v) == KindView::Text(t),
        v matches ArgView::Json(j) ==> (j is Null || j is Array || j is Object ==> kind_of(v) == KindView::Unchecked),
        v is File ==> kind_of(v) == KindView::Unchecked,
{
}

} // verus!
