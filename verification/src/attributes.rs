use vstd::prelude::*;

use crate::strings::{seq_less, str_eq, str_less, lemma_seq_less_irreflexive, lemma_seq_less_transitive, lemma_seq_less_total};

verus! {

/// The map of an XML node's attributes, from key to value.
///
/// The entries are kept sorted by key in `String`'s order, each key at most once, so that two
/// maps with the same contents are equal entry by entry and iterate in key order.
#[derive(Debug, PartialEq, Eq, PartialOrd, Ord, Hash)]
pub struct XmlAttributeMap {
    entries: Vec<(String, String)>,
}

/// The keys and values of a sequence of entries, as character sequences.
pub open spec fn entry_views(entries: Seq<(String, String)>) -> Seq<(Seq<char>, Seq<char>)> {
    Seq::new(entries.len(), |i: int| (entries[i].0@, entries[i].1@))
}

/// Keys strictly increase along the entries.
pub open spec fn keys_increasing(s: Seq<(Seq<char>, Seq<char>)>) -> bool {
    forall|i: int, j: int| 0 <= i < j < s.len() ==> seq_less(#[trigger] s[i].0, #[trigger] s[j].0)
}

/// Whether some entry has key `k`.
pub open spec fn has_key(s: Seq<(Seq<char>, Seq<char>)>, k: Seq<char>) -> bool {
    exists|i: int| 0 <= i < s.len() && #[trigger] s[i].0 == k
}

/// The position of an entry with key `k`, where there is one.
pub open spec fn key_index(s: Seq<(Seq<char>, Seq<char>)>, k: Seq<char>) -> int {
    choose|i: int| 0 <= i < s.len() && #[trigger] s[i].0 == k
}

/// The map that a sequence of entries with distinct keys stands for.
pub open spec fn entries_map(s: Seq<(Seq<char>, Seq<char>)>) -> Map<Seq<char>, Seq<char>> {
    Map::new(
        |k: Seq<char>| has_key(s, k),
        |k: Seq<char>| s[key_index(s, k)].1,
    )
}

/// With increasing keys, the entry at `i` gives the map's value of its key.
proof fn lemma_entry_in_map(s: Seq<(Seq<char>, Seq<char>)>, i: int)
    requires
        keys_increasing(s),
        0 <= i < s.len(),
    ensures
        entries_map(s).contains_key(s[i].0),
        entries_map(s)[s[i].0] == s[i].1,
{
    let k = s[i].0;
    assert(has_key(s, k));
    let j = key_index(s, k);
    if j < i {
        assert(seq_less(s[j].0, s[i].0));
        lemma_seq_less_irreflexive(k);
    } else if i < j {
        assert(seq_less(s[i].0, s[j].0));
        lemma_seq_less_irreflexive(k);
    }
}

proof fn lemma_drop_first_map(s: Seq<(Seq<char>, Seq<char>)>)
    requires
        keys_increasing(s),
        s.len() > 0,
    ensures
        keys_increasing(s.drop_first()),
        entries_map(s.drop_first()) == entries_map(s).remove(s[0].0),
{
    let t = s.drop_first();
    assert forall|a: int, b: int| 0 <= a < b < t.len() implies seq_less(#[trigger] t[a].0, #[trigger] t[b].0) by {
        assert(seq_less(s[a + 1].0, s[b + 1].0));
    }
    let m = entries_map(s).remove(s[0].0);
    assert forall|k: Seq<char>| #[trigger] entries_map(t).contains_key(k) == m.contains_key(k) by {
        if has_key(t, k) {
            let j = key_index(t, k);
            lemma_entry_in_map(s, j + 1);
            assert(seq_less(s[0].0, s[j + 1].0));
            lemma_seq_less_irreflexive(k);
        }
        if has_key(s, k) && k != s[0].0 {
            let j = key_index(s, k);
            assert(t[j - 1].0 == k);
        }
    }
    assert forall|k: Seq<char>| #[trigger] entries_map(t).contains_key(k) implies entries_map(t)[k] == m[k] by {
        let j = key_index(t, k);
        lemma_entry_in_map(t, j);
        lemma_entry_in_map(s, j + 1);
    }
    assert(entries_map(t) =~= m);
}

/// Entries sorted by strictly increasing key are determined by the map they stand for: two
/// attribute maps with the same contents hold the same entries in the same order, so that
/// comparing their entries compares their contents.
pub proof fn lemma_sorted_entries_canonical(s: Seq<(Seq<char>, Seq<char>)>, t: Seq<(Seq<char>, Seq<char>)>)
    requires
        keys_increasing(s),
        keys_increasing(t),
        entries_map(s) == entries_map(t),
    ensures
        s == t,
    decreases s.len(),
{
    if s.len() == 0 {
        if t.len() > 0 {
            lemma_entry_in_map(t, 0);
        }
        assert(s =~= t);
    } else if t.len() == 0 {
        lemma_entry_in_map(s, 0);
    } else {
        let ks = s[0].0;
        let kt = t[0].0;
        lemma_entry_in_map(s, 0);
        lemma_entry_in_map(t, 0);
        if ks != kt {
            let i = key_index(s, kt);
            let j = key_index(t, ks);
            lemma_seq_less_irreflexive(ks);
            lemma_seq_less_irreflexive(kt);
            if i > 0 {
                assert(seq_less(ks, kt));
            }
            if j > 0 {
                assert(seq_less(kt, ks));
            }
            if i > 0 && j > 0 {
                lemma_seq_less_transitive(ks, kt, ks);
            }
        }
        assert(s[0] == t[0]);
        lemma_drop_first_map(s);
        lemma_drop_first_map(t);
        lemma_sorted_entries_canonical(s.drop_first(), t.drop_first());
        assert(s =~= seq![s[0]] + s.drop_first());
        assert(t =~= seq![t[0]] + t.drop_first());
    }
}

impl XmlAttributeMap {
    /// The entries, as character sequences, in key order.
    pub closed spec fn entries_view(self) -> Seq<(Seq<char>, Seq<char>)> {
        entry_views(self.entries@)
    }

    #[verifier::type_invariant]
    closed spec fn sorted(self) -> bool {
        keys_increasing(entry_views(self.entries@))
    }

    /// An empty map.
    pub fn new() -> (r: XmlAttributeMap)
        ensures
            r@ == Map::<Seq<char>, Seq<char>>::empty(),
            r.entries_view().len() == 0,
    {
        let r = XmlAttributeMap { entries: Vec::new() };
        assert(r@ =~= Map::<Seq<char>, Seq<char>>::empty());
        r
    }

    /// The value that `key` maps to, if any.
    pub fn get(&self, key: &str) -> (r: Option<&String>)
        ensures
            match r {
                Some(v) => self@.contains_key(key@) && v@ == self@[key@],
                None => !self@.contains_key(key@),
            },
    {
        proof {
            use_type_invariant(self);
        }
        let ghost s = self.entries_view();
        let mut i: usize = 0;
        while i < self.entries.len()
            invariant
                s == self.entries_view(),
                keys_increasing(s),
                i <= self.entries@.len(),
                s.len() == self.entries@.len(),
                forall|j: int| 0 <= j < i ==> s[j].0 != key@,
            decreases self.entries@.len() - i,
        {
            if str_eq(self.entries[i].0.as_str(), key) {
                proof {
                    lemma_entry_in_map(s, i as int);
                }
                return Some(&self.entries[i].1);
            }
            i = i + 1;
        }
        None
    }

    /// Maps `key` to `value`, replacing the value that `key` had.
    pub fn insert(&mut self, key: String, value: String)
        ensures
            final(self)@ == old(self)@.insert(key@, value@),
    {
        proof {
            use_type_invariant(&*self);
        }
        let ghost s = self.entries_view();
        let mut i: usize = 0;
        while i < self.entries.len()
            invariant
                s == entry_views(self.entries@),
                keys_increasing(s),
                i <= self.entries@.len(),
                s.len() == self.entries@.len(),
                forall|j: int| 0 <= j < i ==> seq_less(#[trigger] s[j].0, key@),
            ensures
                i <= self.entries@.len(),
                forall|j: int| 0 <= j < i ==> seq_less(#[trigger] s[j].0, key@),
                i < self.entries@.len() ==> !seq_less(s[i as int].0, key@),
            decreases self.entries@.len() - i,
        {
            if !str_less(self.entries[i].0.as_str(), key.as_str()) {
                break;
            }
            i = i + 1;
        }
        let replace = i < self.entries.len() && str_eq(self.entries[i].0.as_str(), key.as_str());
        let ghost kv = key@;
        let ghost vv = value@;
        let mut entries: Vec<(String, String)> = Vec::new();
        std::mem::swap(&mut entries, &mut self.entries);
        if replace {
            entries.set(i, (key, value));
            proof {
                let t = entry_views(entries@);
                assert(t =~= s.update(i as int, (kv, vv)));
                assert(s[i as int].0 == kv);
                assert forall|j: int| 0 <= j < t.len() implies #[trigger] t[j].0 == s[j].0 by {}
                assert(keys_increasing(t));
                let m = entries_map(s).insert(kv, vv);
                assert forall|k: Seq<char>| #[trigger] entries_map(t).contains_key(k) == m.contains_key(k) by {
                    if has_key(t, k) {
                        let j = key_index(t, k);
                        assert(s[j].0 == k);
                        lemma_entry_in_map(s, j);
                    }
                    if has_key(s, k) {
                        let j = key_index(s, k);
                        assert(t[j].0 == k);
                        lemma_entry_in_map(t, j);
                    }
                    if k == kv {
                        lemma_entry_in_map(t, i as int);
                    }
                }
                assert forall|k: Seq<char>| #[trigger] entries_map(t).contains_key(k) implies entries_map(t)[k] == m[k] by {
                    let j = key_index(t, k);
                    lemma_entry_in_map(t, j);
                    if j != i {
                        assert(s[j].0 == k);
                        lemma_entry_in_map(s, j);
                    }
                }
                assert(entries_map(t) =~= entries_map(s).insert(kv, vv));
            }
        } else {
            entries.insert(i, (key, value));
            proof {
                let t = entry_views(entries@);
                assert(t =~= s.insert(i as int, (kv, vv)));
                if i < s.len() {
                    lemma_seq_less_total(s[i as int].0, kv);
                }
                assert forall|a: int, b: int| 0 <= a < b < t.len() implies seq_less(#[trigger] t[a].0, #[trigger] t[b].0) by {
                    if b == i {
                    } else if a == i {
                        if b > i + 1 {
                            lemma_seq_less_transitive(kv, s[i as int].0, s[b - 1].0);
                        }
                    } else if a < i && b > i {
                        assert(seq_less(s[a].0, kv));
                        if b - 1 > i {
                            lemma_seq_less_transitive(kv, s[i as int].0, s[b - 1].0);
                        }
                        lemma_seq_less_transitive(s[a].0, kv, s[b - 1].0);
                    } else if a > i {
                        assert(seq_less(s[a - 1].0, s[b - 1].0));
                    } else {
                        assert(seq_less(s[a].0, s[b].0));
                    }
                }
                let m = entries_map(s).insert(kv, vv);
                assert forall|k: Seq<char>| #[trigger] entries_map(t).contains_key(k) == m.contains_key(k) by {
                    if has_key(t, k) {
                        let j = key_index(t, k);
                        lemma_entry_in_map(t, j);
                        if j < i {
                            assert(s[j].0 == k);
                            lemma_entry_in_map(s, j);
                        } else if j > i {
                            assert(s[j - 1].0 == k);
                            lemma_entry_in_map(s, j - 1);
                        }
                    }
                    if has_key(s, k) {
                        let j = key_index(s, k);
                        if j < i {
                            assert(t[j].0 == k);
                            lemma_entry_in_map(t, j);
                        } else {
                            assert(t[j + 1].0 == k);
                            lemma_entry_in_map(t, j + 1);
                        }
                    }
                    if k == kv {
                        lemma_entry_in_map(t, i as int);
                    }
                }
                assert forall|k: Seq<char>| #[trigger] entries_map(t).contains_key(k) implies entries_map(t)[k] == m[k] by {
                    let j = key_index(t, k);
                    lemma_entry_in_map(t, j);
                    if j < i {
                        assert(s[j].0 == k);
                        lemma_entry_in_map(s, j);
                        lemma_seq_less_irreflexive(kv);
                    } else if j > i {
                        assert(s[j - 1].0 == k);
                        lemma_entry_in_map(s, j - 1);
                        lemma_seq_less_irreflexive(kv);
                        if j - 1 > i {
                            lemma_seq_less_transitive(kv, s[i as int].0, k);
                        }
                    }
                }
                assert(entries_map(t) =~= entries_map(s).insert(kv, vv));
            }
        }
        self.entries = entries;
    }

    /// A copy of the map.
    pub fn copy(&self) -> (r: XmlAttributeMap)
        ensures
            r@ == self@,
            r.entries_view() == self.entries_view(),
    {
        proof {
            use_type_invariant(self);
        }
        let mut entries: Vec<(String, String)> = Vec::new();
        let mut i: usize = 0;
        while i < self.entries.len()
            invariant
                i <= self.entries@.len(),
                entries@ == self.entries@.take(i as int),
            decreases self.entries@.len() - i,
        {
            let k = self.entries[i].0.clone();
            let v = self.entries[i].1.clone();
            entries.push((k, v));
            assert(self.entries@.take(i + 1) =~= self.entries@.take(i as int).push(self.entries@[i as int]));
            i = i + 1;
        }
        assert(self.entries@.take(i as int) =~= self.entries@);
        XmlAttributeMap { entries }
    }
}

impl View for XmlAttributeMap {
    type V = Map<Seq<char>, Seq<char>>;

    closed spec fn view(&self) -> Map<Seq<char>, Seq<char>> {
        entries_map(self.entries_view())
    }
}

impl Clone for XmlAttributeMap {
    fn clone(&self) -> (r: XmlAttributeMap)
        ensures
            r@ == self@,
    {
        self.copy()
    }
}

impl Default for XmlAttributeMap {
    fn default() -> (r: XmlAttributeMap)
        ensures
            r@ == Map::<Seq<char>, Seq<char>>::empty(),
    {
        XmlAttributeMap::new()
    }
}

} // verus!
