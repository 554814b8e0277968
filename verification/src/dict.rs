//! An insertion-ordered dictionary keyed by strings, with the semantics of
//! Python's `dict`: writing an existing key replaces its value in place,
//! writing a new key appends it.
use vstd::prelude::*;
use crate::text::str_eq;

verus! {

/// The mapping that a sequence of entries denotes when later entries win.
pub open spec fn entries_map<V>(s: Seq<(Seq<char>, V)>) -> Map<Seq<char>, V>
    decreases s.len(),
{
    if s.len() == 0 {
        Map::empty()
    } else {
        entries_map(s.drop_last()).insert(s.last().0, s.last().1)
    }
}

/// No key occurs twice.
pub open spec fn keys_unique<V>(s: Seq<(Seq<char>, V)>) -> bool {
    forall|i: int, j: int| 0 <= i < j < s.len() ==> #[trigger] s[i].0 != #[trigger] s[j].0
}

/// Position of `k` among the keys, if any.
pub open spec fn key_index<V>(s: Seq<(Seq<char>, V)>, k: Seq<char>) -> int
    decreases s.len(),
{
    if s.len() == 0 {
        -1
    } else if s.last().0 == k {
        s.len() - 1
    } else {
        key_index(s.drop_last(), k)
    }
}

/// The entries after writing `v` under `k`.
pub open spec fn entries_insert<V>(s: Seq<(Seq<char>, V)>, k: Seq<char>, v: V) -> Seq<(Seq<char>, V)> {
    let i = key_index(s, k);
    if i >= 0 {
        s.update(i, (k, v))
    } else {
        s.push((k, v))
    }
}

/// The entries after writing every pair of `pairs`, first to last.
pub open spec fn entries_insert_all<V>(s: Seq<(Seq<char>, V)>, pairs: Seq<(Seq<char>, V)>) -> Seq<(Seq<char>, V)>
    decreases pairs.len(),
{
    if pairs.len() == 0 {
        s
    } else {
        entries_insert(entries_insert_all(s, pairs.drop_last()), pairs.last().0, pairs.last().1)
    }
}

pub proof fn lemma_key_index<V>(s: Seq<(Seq<char>, V)>, k: Seq<char>)
    ensures
        -1 <= key_index(s, k) < s.len(),
        key_index(s, k) >= 0 ==> s[key_index(s, k)].0 == k,
        key_index(s, k) >= 0 ==> forall|j: int| key_index(s, k) < j < s.len() ==> s[j].0 != k,
        key_index(s, k) < 0 ==> forall|j: int| 0 <= j < s.len() ==> s[j].0 != k,
        key_index(s, k) >= 0 <==> entries_map(s).dom().contains(k),
        key_index(s, k) >= 0 ==> entries_map(s)[k] == s[key_index(s, k)].1,
    decreases s.len(),
{
    if s.len() > 0 {
        lemma_key_index(s.drop_last(), k);
        assert forall|j: int| 0 <= j < s.len() - 1 implies s.drop_last()[j] == s[j] by {}
    }
}

proof fn lemma_map_update<V>(s: Seq<(Seq<char>, V)>, i: int, k: Seq<char>, v: V)
    requires
        0 <= i < s.len(),
        s[i].0 == k,
        forall|j: int| i < j < s.len() ==> s[j].0 != k,
    ensures
        entries_map(s.update(i, (k, v))) == entries_map(s).insert(k, v),
    decreases s.len(),
{
    let t = s.update(i, (k, v));
    if i == s.len() - 1 {
        assert(t.drop_last() =~= s.drop_last());
        assert(entries_map(t) =~= entries_map(s).insert(k, v));
    } else {
        assert(t.drop_last() =~= s.drop_last().update(i, (k, v)));
        lemma_map_update(s.drop_last(), i, k, v);
        assert(entries_map(t) =~= entries_map(s).insert(k, v));
    }
}

/// Law: writing a key and then reading the mapping gives the written value
/// for that key and leaves every other key as it was; keys stay unique.
pub proof fn lemma_insert_law<V>(s: Seq<(Seq<char>, V)>, k: Seq<char>, v: V)
    requires
        keys_unique(s),
    ensures
        entries_map(entries_insert(s, k, v)) == entries_map(s).insert(k, v),
        keys_unique(entries_insert(s, k, v)),
        entries_insert(s, k, v).len() == s.len() + (if entries_map(s).dom().contains(k) { 0int } else { 1int }),
{
    lemma_key_index(s, k);
    let i = key_index(s, k);
    if i >= 0 {
        lemma_map_update(s, i, k, v);
    } else {
        let t = s.push((k, v));
        assert(t.drop_last() =~= s);
    }
}

/// Law: writing a sequence of pairs into an empty dictionary yields, for
/// every key, the value of the last pair with that key.
pub proof fn lemma_insert_all_law<V>(s: Seq<(Seq<char>, V)>, pairs: Seq<(Seq<char>, V)>)
    requires
        keys_unique(s),
    ensures
        keys_unique(entries_insert_all(s, pairs)),
        entries_map(entries_insert_all(s, pairs)) == entries_map(s + pairs),
    decreases pairs.len(),
{
    if pairs.len() > 0 {
        lemma_insert_all_law(s, pairs.drop_last());
        lemma_insert_law(entries_insert_all(s, pairs.drop_last()), pairs.last().0, pairs.last().1);
        assert((s + pairs).drop_last() =~= s + pairs.drop_last());
    } else {
        assert(s + pairs =~= s);
    }
}

/// An insertion-ordered string-keyed dictionary.
pub struct Dict<V> {
    entries: Vec<(String, V)>,
}

/// The entries of a vector of string-keyed pairs, keys taken by their view.
pub open spec fn entries_view<V>(v: Seq<(String, V)>) -> Seq<(Seq<char>, V)> {
    v.map_values(|p: (String, V)| (p.0@, p.1))
}

impl<V> Dict<V> {
    /// The entries, in order.
    pub closed spec fn view_entries(&self) -> Seq<(Seq<char>, V)> {
        entries_view(self.entries@)
    }

    /// The mapping from keys to values.
    pub open spec fn spec_map(&self) -> Map<Seq<char>, V> {
        entries_map(self.view_entries())
    }

    /// Well-formedness: no key occurs twice.
    pub open spec fn wf(&self) -> bool {
        keys_unique(self.view_entries())
    }

    pub fn new() -> (d: Self)
        ensures
            d.wf(),
            d.view_entries() == Seq::<(Seq<char>, V)>::empty(),
    {
        let d = Dict { entries: Vec::new() };
        assert(d.view_entries() =~= Seq::<(Seq<char>, V)>::empty());
        d
    }

    pub fn len(&self) -> (n: usize)
        ensures
            n == self.view_entries().len(),
    {
        self.entries.len()
    }

    /// Position of `key`, if present.
    fn find(&self, key: &str) -> (r: Option<usize>)
        ensures
            r is Some <==> key_index(self.view_entries(), key@) >= 0,
            r matches Some(i) ==> i == key_index(self.view_entries(), key@),
    {
        proof {
            lemma_key_index(self.view_entries(), key@);
        }
        let n = self.entries.len();
        let mut i = n;
        while i > 0
            invariant
                i <= n == self.entries@.len(),
                forall|j: int| i <= j < n ==> self.view_entries()[j].0 != key@,
            decreases i,
        {
            i = i - 1;
            if str_eq(self.entries[i].0.as_str(), key) {
                assert(self.view_entries()[i as int].0 == key@);
                proof {
                    lemma_key_index_is_last(self.view_entries(), key@, i as int);
                }
                return Some(i);
            }
        }
        None
    }

    /// The value under `key`, if any.
    pub fn get(&self, key: &str) -> (r: Option<&V>)
        ensures
            r is Some <==> self.spec_map().dom().contains(key@),
            r matches Some(v) ==> *v == self.spec_map()[key@],
    {
        proof {
            lemma_key_index(self.view_entries(), key@);
        }
        match self.find(key) {
            Some(i) => Some(&self.entries[i].1),
            None => None,
        }
    }

    /// Writes `value` under `key`, replacing an existing value in place.
    pub fn insert(&mut self, key: String, value: V)
        requires
            old(self).wf(),
        ensures
            final(self).wf(),
            final(self).view_entries() == entries_insert(old(self).view_entries(), key@, value),
            final(self).spec_map() == old(self).spec_map().insert(key@, value),
    {
        proof {
            lemma_insert_law(self.view_entries(), key@, value);
            lemma_key_index(self.view_entries(), key@);
        }
        let ghost k = key@;
        match self.find(key.as_str()) {
            Some(i) => {
                self.entries.set(i, (key, value));
            }
            None => {
                self.entries.push((key, value));
            }
        }
        assert(self.view_entries() =~= entries_insert(old(self).view_entries(), k, value));
    }

    /// The entries, in order, as a vector.
    pub fn into_entries(self) -> (r: Vec<(String, V)>)
        ensures
            entries_view(r@) == self.view_entries(),
    {
        self.entries
    }
}

pub proof fn lemma_key_index_is_last<V>(s: Seq<(Seq<char>, V)>, k: Seq<char>, i: int)
    requires
        0 <= i < s.len(),
        s[i].0 == k,
        forall|j: int| i < j < s.len() ==> s[j].0 != k,
    ensures
        key_index(s, k) == i,
    decreases s.len(),
{
    if i < s.len() - 1 {
        lemma_key_index_is_last(s.drop_last(), k, i);
    }
}

/// The entries with every value passed through `f`.
pub open spec fn map_entry_values<V, W>(s: Seq<(Seq<char>, V)>, f: spec_fn(V) -> W) -> Seq<(Seq<char>, W)> {
    s.map_values(|e: (Seq<char>, V)| (e.0, f(e.1)))
}

/// String-valued entries taken by the view of their values.
pub open spec fn string_entries(s: Seq<(Seq<char>, String)>) -> Seq<(Seq<char>, Seq<char>)> {
    map_entry_values(s, |x: String| x@)
}

pub proof fn lemma_key_index_map<V, W>(s: Seq<(Seq<char>, V)>, k: Seq<char>, f: spec_fn(V) -> W)
    ensures
        key_index(map_entry_values(s, f), k) == key_index(s, k),
    decreases s.len(),
{
    if s.len() > 0 {
        assert(map_entry_values(s, f).drop_last() =~= map_entry_values(s.drop_last(), f));
        lemma_key_index_map(s.drop_last(), k, f);
    }
}

/// Passing the values through `f` commutes with writing an entry.
pub proof fn lemma_insert_map<V, W>(s: Seq<(Seq<char>, V)>, k: Seq<char>, v: V, f: spec_fn(V) -> W)
    ensures
        map_entry_values(entries_insert(s, k, v), f) == entries_insert(map_entry_values(s, f), k, f(v)),
{
    lemma_key_index_map(s, k, f);
    lemma_key_index(s, k);
    assert(map_entry_values(entries_insert(s, k, v), f) =~= entries_insert(map_entry_values(s, f), k, f(v)));
}

impl<V> Dict<V> {
    /// A dictionary made by writing `pairs` in order, later pairs winning.
    pub fn from_pairs(pairs: Vec<(String, V)>) -> (d: Self)
        ensures
            d.wf(),
            d.view_entries() == entries_insert_all(Seq::<(Seq<char>, V)>::empty(), entries_view(pairs@)),
    {
        let mut d = Dict::new();
        let ghost all = entries_view(pairs@);
        for p in it: pairs
            invariant
                d.wf(),
                all == entries_view(it.seq()),
                d.view_entries() == entries_insert_all(Seq::<(Seq<char>, V)>::empty(), all.take(it.index() as int)),
        {
            let ghost i = it.index() as int;
            assert(all[i] == (p.0@, p.1));
            d.insert(p.0, p.1);
            assert(all.take(i + 1).drop_last() =~= all.take(i));
        }
        assert(all.take(all.len() as int) =~= all);
        d
    }
}

/// Passing the values through `f` commutes with writing a sequence of entries.
pub proof fn lemma_insert_all_map<V, W>(s: Seq<(Seq<char>, V)>, pairs: Seq<(Seq<char>, V)>, f: spec_fn(V) -> W)
    ensures
        map_entry_values(entries_insert_all(s, pairs), f) == entries_insert_all(map_entry_values(s, f), map_entry_values(pairs, f)),
    decreases pairs.len(),
{
    if pairs.len() > 0 {
        lemma_insert_all_map(s, pairs.drop_last(), f);
        lemma_insert_map(entries_insert_all(s, pairs.drop_last()), pairs.last().0, pairs.last().1, f);
        assert(map_entry_values(pairs, f).drop_last() =~= map_entry_values(pairs.drop_last(), f));
    }
}

/// A string dictionary made by writing `pairs` in order, later pairs winning.
pub fn string_dict(pairs: Vec<(String, String)>) -> (d: Dict<String>)
    ensures
        d.wf(),
        string_entries(d.view_entries()) == entries_insert_all(
            Seq::<(Seq<char>, Seq<char>)>::empty(),
            crate::foreign::pairs_view(pairs@),
        ),
{
    let ghost pv = pairs@;
    let d = Dict::from_pairs(pairs);
    proof {
        let f = |x: String| x@;
        lemma_insert_all_map(Seq::<(Seq<char>, String)>::empty(), entries_view(pv), f);
        assert(map_entry_values(Seq::<(Seq<char>, String)>::empty(), f) =~= Seq::<(Seq<char>, Seq<char>)>::empty());
        assert(map_entry_values(entries_view(pv), f) =~= crate::foreign::pairs_view(pv));
    }
    d
}

/// The mapping of entries whose values went through `f` is the mapping with
/// its values passed through `f`.
pub proof fn lemma_map_of_mapped<V, W>(s: Seq<(Seq<char>, V)>, f: spec_fn(V) -> W)
    ensures
        entries_map(map_entry_values(s, f)) == entries_map(s).map_values(f),
    decreases s.len(),
{
    if s.len() > 0 {
        assert(map_entry_values(s, f).drop_last() =~= map_entry_values(s.drop_last(), f));
        lemma_map_of_mapped(s.drop_last(), f);
    }
    assert(entries_map(map_entry_values(s, f)) =~= entries_map(s).map_values(f));
}

/// Law: the mapping of entries holds exactly their keys, each with the
/// value of its last entry.
pub proof fn lemma_entries_map_last_value<V>(s: Seq<(Seq<char>, V)>, k: Seq<char>)
    ensures
        entries_map(s).dom().contains(k) <==> exists|i: int| 0 <= i < s.len() && #[trigger] s[i].0 == k,
        entries_map(s).dom().contains(k) ==> exists|i: int|
            0 <= i < s.len() && #[trigger] s[i] == (k, entries_map(s)[k]) && forall|j: int|
                i < j < s.len() ==> #[trigger] s[j].0 != k,
{
    lemma_key_index(s, k);
    let i = key_index(s, k);
    if i >= 0 {
        assert(s[i] == (k, entries_map(s)[k]));
    }
}

} // verus!
