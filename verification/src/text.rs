//! Character-level helpers shared by the rest of the library.
use vstd::prelude::*;

verus! {

broadcast use vstd::string::group_string_axioms;

/// Appends one character to a string (std `String::push`): the contract
/// claims the string afterwards is the old one with `c` at its end.
#[verifier::external_body]
pub(crate) fn push_char(s: &mut String, c: char)
    ensures
        final(s)@ == old(s)@.push(c),
{
    s.push(c);
}

/// String equality (std `PartialEq for str`): the contract claims two
/// string slices compare equal exactly when they hold the same characters.
#[verifier::external_body]
pub(crate) fn str_eq(a: &str, b: &str) -> (r: bool)
    ensures
        r == (a@ == b@),
{
    a == b
}

/// The characters of `s`, in order.
pub fn chars_of(s: &str) -> (r: Vec<char>)
    ensures
        r@ == s@,
{
    let mut out: Vec<char> = Vec::new();
    for c in it: s.chars()
        invariant
            out@.len() == it.index(),
            forall|j: int| 0 <= j < out@.len() ==> out@[j] == it.seq()[j],
    {
        out.push(c);
    }
    assert(out@ =~= s@);
    out
}

} // verus!

verus! {

/// A string holding exactly the characters of `v`.
pub fn string_from_chars(v: &[char]) -> (r: String)
    ensures
        r@ == v@,
{
    let mut s = String::new();
    let n = v.len();
    let mut i: usize = 0;
    while i < n
        invariant
            i <= n == v@.len(),
            s@ == v@.take(i as int),
        decreases n - i,
    {
        push_char(&mut s, v[i]);
        assert(v@.take(i as int).push(v@[i as int]) =~= v@.take(i + 1));
        i = i + 1;
    }
    assert(v@.take(n as int) =~= v@);
    s
}

pub open spec fn is_digit(c: char) -> bool {
    '0' <= c <= '9'
}

pub open spec fn all_digits(s: Seq<char>) -> bool {
    forall|i: int| 0 <= i < s.len() ==> is_digit(#[trigger] s[i])
}

pub open spec fn digit_value(c: char) -> int {
    c as int - '0' as int
}

/// The number that a string of decimal digits spells.
pub open spec fn digits_value(s: Seq<char>) -> int
    decreases s.len(),
{
    if s.len() == 0 {
        0
    } else {
        digits_value(s.drop_last()) * 10 + digit_value(s.last())
    }
}

/// The text with one leading `+` or `-` removed, and whether it was `-`.
pub open spec fn strip_sign(s: Seq<char>) -> (bool, Seq<char>) {
    if s.len() > 0 && s[0] == '-' {
        (true, s.skip(1))
    } else if s.len() > 0 && s[0] == '+' {
        (false, s.skip(1))
    } else {
        (false, s)
    }
}

/// The integer that `s` writes in the syntax of std's integer parsing:
/// an optional sign followed by one or more decimal digits.
pub open spec fn integer_text_value(s: Seq<char>) -> Option<int> {
    let (neg, body) = strip_sign(s);
    if body.len() > 0 && all_digits(body) {
        Some(if neg { -digits_value(body) } else { digits_value(body) })
    } else {
        None
    }
}

/// What `str::parse::<i64>` yields: the value when the text is an integer
/// in range, nothing otherwise.
pub open spec fn parse_i64_spec(s: Seq<char>) -> Option<i64> {
    match integer_text_value(s) {
        Some(v) => if i64::MIN <= v <= i64::MAX {
            Some(v as i64)
        } else {
            None
        },
        None => None,
    }
}

proof fn lemma_digits_value_nonneg(s: Seq<char>)
    requires
        all_digits(s),
    ensures
        digits_value(s) >= 0,
    decreases s.len(),
{
    if s.len() > 0 {
        lemma_digits_value_nonneg(s.drop_last());
    }
}

/// Appending digits never makes the value smaller.
proof fn lemma_digits_value_mono(s: Seq<char>, k: int)
    requires
        all_digits(s),
        0 <= k <= s.len(),
    ensures
        digits_value(s.take(k)) <= digits_value(s),
    decreases s.len() - k,
{
    if k < s.len() {
        lemma_digits_value_mono(s, k + 1);
        assert(s.take(k + 1).drop_last() =~= s.take(k));
        assert(all_digits(s.take(k))) by {
            assert forall|i: int| 0 <= i < s.take(k).len() implies is_digit(#[trigger] s.take(k)[i]) by {
                assert(s.take(k)[i] == s[i]);
            }
        }
        lemma_digits_value_nonneg(s.take(k));
        assert(is_digit(s[k]));
    } else {
        assert(s.take(k) =~= s);
    }
}

proof fn lemma_step_bound(acc: int, d: int, limit: int)
    requires
        0 <= acc,
        0 <= d <= 9,
        0 <= limit,
    ensures
        acc <= (limit - d) / 10 <==> acc * 10 + d <= limit,
{
    if d <= limit {
        assert(acc <= (limit - d) / 10 <==> acc * 10 + d <= limit) by (nonlinear_arith)
            requires
                0 <= acc,
                0 <= d <= limit,
        ;
    } else {
        assert((limit - d) / 10 < 0) by (nonlinear_arith)
            requires
                0 <= limit < d <= 9,
        ;
    }
}

/// Parses a decimal integer as `str::parse::<i64>` does: an optional sign,
/// then one or more ASCII digits, within the range of `i64`.
pub fn parse_i64(s: &str) -> (r: Option<i64>)
    ensures
        r == parse_i64_spec(s@),
{
    let cs = chars_of(s);
    let n = cs.len();
    let mut start: usize = 0;
    let mut neg = false;
    if n > 0 && cs[0] == '-' {
        neg = true;
        start = 1;
    } else if n > 0 && cs[0] == '+' {
        start = 1;
    }
    let ghost body = strip_sign(s@).1;
    assert(body =~= cs@.skip(start as int));
    if start == n {
        return None;
    }
    let limit: u64 = if neg { 9223372036854775808u64 } else { 9223372036854775807u64 };
    let mut acc: u64 = 0;
    let mut i: usize = start;
    while i < n
        invariant
            start <= i <= n == cs@.len(),
            body == cs@.skip(start as int),
            cs@ == s@,
            body == strip_sign(s@).1,
            neg == strip_sign(s@).0,
            limit == (if neg { 9223372036854775808int } else { 9223372036854775807int }),
            all_digits(body.take(i - start)),
            acc == digits_value(body.take(i - start)),
            acc <= limit,
        decreases n - i,
    {
        let c = cs[i];
        if !('0' <= c && c <= '9') {
            assert(body[i - start] == c);
            assert(!all_digits(body));
            return None;
        }
        let d = (c as u32 - '0' as u32) as u64;
        proof {
            lemma_step_bound(acc as int, d as int, limit as int);
            assert(body.take(i + 1 - start).drop_last() =~= body.take(i - start));
        }
        if acc > (limit - d) / 10 {
            proof {
                if all_digits(body) {
                    lemma_digits_value_mono(body, i + 1 - start);
                }
            }
            return None;
        }
        acc = acc * 10 + d;
        i = i + 1;
    }
    assert(body.take(n - start) =~= body);
    if neg {
        if acc == 9223372036854775808u64 {
            Some(i64::MIN)
        } else {
            Some(-(acc as i64))
        }
    } else {
        Some(acc as i64)
    }
}

/// What `str::parse::<bool>` yields: `true` and `false` exactly, nothing else.
pub open spec fn parse_bool_spec(s: Seq<char>) -> Option<bool> {
    if s == seq!['t', 'r', 'u', 'e'] {
        Some(true)
    } else if s == seq!['f', 'a', 'l', 's', 'e'] {
        Some(false)
    } else {
        None
    }
}

pub fn parse_bool(s: &str) -> (r: Option<bool>)
    ensures
        r == parse_bool_spec(s@),
{
    proof {
        reveal_strlit("true");
        reveal_strlit("false");
        assert("true"@ =~= seq!['t', 'r', 'u', 'e']);
        assert("false"@ =~= seq!['f', 'a', 'l', 's', 'e']);
    }
    if str_eq(s, "true") {
        Some(true)
    } else if str_eq(s, "false") {
        Some(false)
    } else {
        None
    }
}

} // verus!

verus! {

/// The character of a decimal digit.
pub open spec fn digit_char(d: nat) -> char {
    ((48 + d) as u8) as char
}

/// The decimal writing of `n`, without leading zeros.
pub open spec fn decimal(n: nat) -> Seq<char>
    decreases n,
{
    if n < 10 {
        seq![digit_char(n)]
    } else {
        decimal(n / 10).push(digit_char(n % 10))
    }
}

/// Appends the decimal writing of `n`.
pub fn push_decimal(s: &mut String, n: u64)
    ensures
        final(s)@ == old(s)@ + decimal(n as nat),
    decreases n,
{
    if n >= 10 {
        push_decimal(s, n / 10);
    }
    let d: u8 = (n % 10) as u8;
    let c = (48u8 + d) as char;
    push_char(s, c);
    proof {
        if n >= 10 {
            assert(old(s)@ + decimal(n as nat) =~= old(s)@ + decimal((n / 10) as nat) + seq![c]);
        } else {
            assert(old(s)@ + decimal(n as nat) =~= old(s)@ + seq![c]);
        }
    }
}

/// The decimal writing of `n` as a string.
pub fn decimal_string(n: u64) -> (r: String)
    ensures
        r@ == decimal(n as nat),
{
    let mut s = String::new();
    push_decimal(&mut s, n);
    assert(s@ =~= decimal(n as nat));
    s
}

/// ASCII letters folded to lower case; other characters unchanged.
pub open spec fn ascii_lower(c: char) -> char {
    if 'A' <= c <= 'Z' {
        ((c as u32) + 32) as char
    } else {
        c
    }
}

pub open spec fn lower_text(s: Seq<char>) -> Seq<char> {
    s.map_values(|c: char| ascii_lower(c))
}

/// Position of the first occurrence of `c` in `s`, or -1.
pub open spec fn first_index_of(s: Seq<char>, c: char) -> int
    decreases s.len(),
{
    if s.len() == 0 {
        -1
    } else if s[0] == c {
        0
    } else {
        let r = first_index_of(s.skip(1), c);
        if r < 0 {
            -1
        } else {
            r + 1
        }
    }
}

/// Digits with at most one decimal point, and at least one digit.
pub open spec fn is_mantissa(m: Seq<char>) -> bool {
    ||| m.len() > 0 && all_digits(m)
    ||| exists|p: int|
        0 <= p < m.len() && #[trigger] m[p] == '.' && m.len() >= 2 && all_digits(m.take(p))
            && all_digits(m.skip(p + 1))
}

/// An optional sign followed by one or more digits.
pub open spec fn is_exponent(x: Seq<char>) -> bool {
    let y = strip_sign(x).1;
    y.len() > 0 && all_digits(y)
}

/// A mantissa, optionally followed by `e` and an exponent.
pub open spec fn is_number(b: Seq<char>) -> bool {
    let k = first_index_of(b, 'e');
    if k >= 0 {
        is_mantissa(b.take(k)) && is_exponent(b.skip(k + 1))
    } else {
        is_mantissa(b)
    }
}

/// The text that `str::parse::<f64>` accepts, as its documentation gives the
/// grammar: after ASCII lower-casing, an optional sign followed by `inf`,
/// `infinity`, `nan` or a decimal number with optional exponent.
pub open spec fn float_syntax(s: Seq<char>) -> bool {
    let b = strip_sign(lower_text(s)).1;
    ||| b == seq!['i', 'n', 'f']
    ||| b == seq!['i', 'n', 'f', 'i', 'n', 'i', 't', 'y']
    ||| b == seq!['n', 'a', 'n']
    ||| is_number(b)
}

fn lower_char(c: char) -> (r: char)
    ensures
        r == ascii_lower(c),
{
    if 'A' <= c && c <= 'Z' {
        ((c as u8) + 32) as char
    } else {
        c
    }
}

/// Where the first `c` of `s` stands, if anywhere: no `c` comes before it.
pub proof fn lemma_first_index_of(s: Seq<char>, c: char)
    ensures
        -1 <= first_index_of(s, c) < s.len(),
        first_index_of(s, c) >= 0 ==> s[first_index_of(s, c)] == c,
        forall|j: int| 0 <= j < s.len() && (first_index_of(s, c) < 0 || j < first_index_of(s, c)) ==> s[j] != c,
    decreases s.len(),
{
    if s.len() > 0 && s[0] != c {
        lemma_first_index_of(s.skip(1), c);
        assert forall|j: int| 1 <= j < s.len() implies s.skip(1)[j - 1] == s[j] by {}
    }
}

proof fn lemma_first_index_of_is(s: Seq<char>, c: char, k: int)
    requires
        -1 <= k < s.len(),
        k >= 0 ==> s[k] == c,
        forall|j: int| 0 <= j < s.len() && (k < 0 || j < k) ==> s[j] != c,
    ensures
        first_index_of(s, c) == k,
{
    lemma_first_index_of(s, c);
    let f = first_index_of(s, c);
    if f >= 0 && k >= 0 {
        if f < k {
            assert(s[f] != c);
        } else if k < f {
            assert(s[k] != c);
        }
    } else if f >= 0 {
        assert(s[f] != c);
    } else if k >= 0 {
        assert(s[k] != c);
    }
}

/// Whether `v[lo..hi]` is a mantissa.
fn check_mantissa(v: &Vec<char>, lo: usize, hi: usize) -> (r: bool)
    requires
        lo <= hi <= v@.len(),
    ensures
        r == is_mantissa(v@.subrange(lo as int, hi as int)),
{
    let ghost m = v@.subrange(lo as int, hi as int);
    let mut dot: Option<usize> = None;
    let mut i = lo;
    while i < hi
        invariant
            lo <= i <= hi <= v@.len(),
            m == v@.subrange(lo as int, hi as int),
            dot is None ==> all_digits(m.take(i - lo)),
            dot matches Some(p) ==> lo <= p < i && m[p - lo] == '.' && all_digits(m.take(p - lo))
                && forall|j: int| p - lo < j < i - lo ==> is_digit(#[trigger] m[j]),
        decreases hi - i,
    {
        let c = v[i];
        assert(m[i - lo] == c);
        if c == '.' {
            if dot.is_some() {
                proof {
                    let p = dot->0;
                    assert forall|q: int| 0 <= q < m.len() && #[trigger] m[q] == '.' implies
                        !(all_digits(m.take(q)) && all_digits(m.skip(q + 1))) by {
                        if q < p - lo {
                            assert(m.skip(q + 1)[p - lo - q - 1] == m[p - lo]);
                        } else if q > p - lo {
                            assert(m.take(q)[p - lo] == m[p - lo]);
                        } else {
                            assert(m.skip(q + 1)[i - lo - q - 1] == m[i - lo]);
                        }
                    }
                    assert(!all_digits(m)) by {
                        assert(m[p - lo] == '.');
                    }
                }
                return false;
            }
            dot = Some(i);
        } else if !('0' <= c && c <= '9') {
            proof {
                assert(!all_digits(m));
                assert forall|q: int| 0 <= q < m.len() && #[trigger] m[q] == '.' implies
                    !(all_digits(m.take(q)) && all_digits(m.skip(q + 1))) by {
                    if q < i - lo {
                        assert(m.skip(q + 1)[i - lo - q - 1] == m[i - lo]);
                    } else {
                        assert(m.take(q)[i - lo] == m[i - lo]);
                    }
                }
            }
            return false;
        }
        proof {
            if dot is None {
                assert forall|j: int| 0 <= j < m.take(i + 1 - lo).len() implies is_digit(
                    #[trigger] m.take(i + 1 - lo)[j],
                ) by {
                    if j < i - lo {
                        assert(m.take(i + 1 - lo)[j] == m.take(i - lo)[j]);
                    }
                }
            }
        }
        i = i + 1;
    }
    assert(m.take(hi - lo) =~= m);
    match dot {
        None => hi > lo,
        Some(p) => {
            proof {
                let q = p - lo;
                assert(all_digits(m.skip(q + 1))) by {
                    assert forall|j: int| 0 <= j < m.skip(q + 1).len() implies is_digit(#[trigger] m.skip(q + 1)[j]) by {
                        assert(m.skip(q + 1)[j] == m[q + 1 + j]);
                    }
                }
                assert(!all_digits(m)) by {
                    assert(m[q] == '.');
                }
                if m.len() < 2 {
                    assert forall|q2: int| 0 <= q2 < m.len() && #[trigger] m[q2] == '.' implies
                        !(m.len() >= 2) by {}
                }
            }
            hi - lo >= 2
        },
    }
}

/// Whether `v[lo..hi]` is an optional sign followed by one or more digits.
fn check_exponent(v: &Vec<char>, lo: usize, hi: usize) -> (r: bool)
    requires
        lo <= hi <= v@.len(),
    ensures
        r == is_exponent(v@.subrange(lo as int, hi as int)),
{
    let ghost x = v@.subrange(lo as int, hi as int);
    let mut start = lo;
    if lo < hi && (v[lo] == '+' || v[lo] == '-') {
        start = lo + 1;
    }
    let ghost y = strip_sign(x).1;
    assert(y =~= v@.subrange(start as int, hi as int));
    if start == hi {
        return false;
    }
    let mut i = start;
    while i < hi
        invariant
            start <= i <= hi <= v@.len(),
            y == v@.subrange(start as int, hi as int),
            y == strip_sign(x).1,
            x == v@.subrange(lo as int, hi as int),
            forall|j: int| 0 <= j < i - start ==> is_digit(#[trigger] y[j]),
        decreases hi - i,
    {
        let c = v[i];
        if !('0' <= c && c <= '9') {
            assert(y[i - start] == c);
            return false;
        }
        i = i + 1;
    }
    true
}

/// Whether `s` parses as an `f64` under std's grammar.
pub fn is_float_text(s: &str) -> (r: bool)
    ensures
        r == float_syntax(s@),
{
    let cs = chars_of(s);
    let n = cs.len();
    let mut low: Vec<char> = Vec::new();
    let mut i: usize = 0;
    while i < n
        invariant
            i <= n == cs@.len(),
            low@ =~= lower_text(cs@).take(i as int),
        decreases n - i,
    {
        low.push(lower_char(cs[i]));
        i = i + 1;
    }
    assert(low@ =~= lower_text(s@));
    let mut start: usize = 0;
    if n > 0 && (low[0] == '+' || low[0] == '-') {
        start = 1;
    }
    let ghost b = strip_sign(low@).1;
    assert(b =~= low@.subrange(start as int, n as int));
    let len = n - start;
    if len == 3 && low[start] == 'i' && low[start + 1] == 'n' && low[start + 2] == 'f' {
        assert(b =~= seq!['i', 'n', 'f']);
        return true;
    }
    if len == 3 && low[start] == 'n' && low[start + 1] == 'a' && low[start + 2] == 'n' {
        assert(b =~= seq!['n', 'a', 'n']);
        return true;
    }
    if len == 8 && low[start] == 'i' && low[start + 1] == 'n' && low[start + 2] == 'f' && low[start
        + 3] == 'i' && low[start + 4] == 'n' && low[start + 5] == 'i' && low[start + 6] == 't'
        && low[start + 7] == 'y' {
        assert(b =~= seq!['i', 'n', 'f', 'i', 'n', 'i', 't', 'y']);
        return true;
    }
    proof {
        if len == 3 {
            assert(b != seq!['i', 'n', 'f'] || (b[0] == 'i' && b[1] == 'n' && b[2] == 'f'));
            assert(b != seq!['n', 'a', 'n'] || (b[0] == 'n' && b[1] == 'a' && b[2] == 'n'));
        }
        if len == 8 {
            assert(b != seq!['i', 'n', 'f', 'i', 'n', 'i', 't', 'y'] || (b[0] == 'i' && b[1] == 'n'
                && b[2] == 'f' && b[3] == 'i' && b[4] == 'n' && b[5] == 'i' && b[6] == 't' && b[7]
                == 'y'));
        }
    }
    // find the first 'e'
    let mut k = start;
    while k < n && low[k] != 'e'
        invariant
            start <= k <= n == low@.len(),
            b == low@.subrange(start as int, n as int),
            forall|j: int| 0 <= j < k - start ==> b[j] != 'e',
        decreases n - k,
    {
        k = k + 1;
    }
    if k < n {
        proof {
            assert(b[k - start] == 'e');
            lemma_first_index_of_is(b, 'e', k - start);
            assert(b.take(k - start) =~= low@.subrange(start as int, k as int));
            assert(b.skip(k - start + 1) =~= low@.subrange(k + 1, n as int));
        }
        check_mantissa(&low, start, k) && check_exponent(&low, k + 1, n)
    } else {
        proof {
            lemma_first_index_of_is(b, 'e', -1);
        }
        check_mantissa(&low, start, n)
    }
}

} // verus!

verus! {

proof fn lemma_decimal_digits(n: nat)
    ensures
        decimal(n).len() > 0,
        all_digits(decimal(n)),
        digits_value(decimal(n)) == n,
    decreases n,
{
    assert(digit_value(digit_char(n % 10)) == n % 10);
    assert(is_digit(digit_char(n % 10)));
    if n >= 10 {
        lemma_decimal_digits(n / 10);
        let d = decimal(n);
        assert(n == (n / 10) * 10 + n % 10);
        assert(d.last() == digit_char(n % 10));
        assert(d.drop_last() =~= decimal(n / 10));
        assert(digits_value(d) == digits_value(decimal(n / 10)) * 10 + n % 10);
        assert(d.drop_last() =~= decimal(n / 10));
        assert forall|i: int| 0 <= i < d.len() implies is_digit(#[trigger] d[i]) by {
            if i < d.len() - 1 {
                assert(d[i] == decimal(n / 10)[i]);
            }
        }
    } else {
        let d = decimal(n);
        assert(d.drop_last() =~= Seq::<char>::empty());
        assert(n % 10 == n);
        assert(digits_value(d) == digits_value(d.drop_last()) * 10 + digit_value(d.last()));
    }
}

/// Law: the decimal writing of a number parses back to that number, so a
/// port written into an address reads back as the same port.
pub proof fn lemma_parse_decimal(n: u64)
    requires
        n <= i64::MAX,
    ensures
        parse_i64_spec(decimal(n as nat)) == Some(n as i64),
{
    lemma_decimal_digits(n as nat);
    let d = decimal(n as nat);
    assert(is_digit(d[0]));
    assert(strip_sign(d).1 == d);
}

/// Law: a `-` before the decimal writing of a number parses to its
/// negation, and a `+` before it to the number itself, within `i64`.
pub proof fn lemma_parse_signed_decimal(n: u64)
    ensures
        n <= 0x8000_0000_0000_0000 ==> parse_i64_spec(seq!['-'] + decimal(n as nat)) == Some((-(n as int)) as i64),
        n <= i64::MAX ==> parse_i64_spec(seq!['+'] + decimal(n as nat)) == Some(n as i64),
        n > 0x8000_0000_0000_0000 ==> parse_i64_spec(seq!['-'] + decimal(n as nat)) is None,
{
    lemma_decimal_digits(n as nat);
    let d = decimal(n as nat);
    assert((seq!['-'] + d).skip(1) =~= d);
    assert((seq!['+'] + d).skip(1) =~= d);
    assert((seq!['-'] + d)[0] == '-');
    assert((seq!['+'] + d)[0] == '+');
}

/// Law: text that is empty, or whose last character is not a digit, is no
/// integer.
pub proof fn lemma_parse_i64_rejects(s: Seq<char>)
    ensures
        s.len() == 0 ==> parse_i64_spec(s) is None,
        s.len() > 0 && !is_digit(s.last()) ==> parse_i64_spec(s) is None,
{
    if s.len() > 0 && !is_digit(s.last()) {
        let b = strip_sign(s).1;
        if b.len() > 0 {
            assert(b[b.len() - 1] == s.last());
        }
    }
}

/// Law: `str::parse::<bool>` accepts exactly `true` and `false`.
pub proof fn lemma_parse_bool_exact(s: Seq<char>)
    ensures
        parse_bool_spec(s) == Some(true) <==> s == "true"@,
        parse_bool_spec(s) == Some(false) <==> s == "false"@,
        parse_bool_spec(s) is None <==> s != "true"@ && s != "false"@,
{
    reveal_strlit("true");
    reveal_strlit("false");
    assert("true"@ =~= seq!['t', 'r', 'u', 'e']);
    assert("false"@ =~= seq!['f', 'a', 'l', 's', 'e']);
}

} // verus!
