//! A map from attribute names to values that keeps its names in code-point
//! order, as a `BTreeMap<String, String>` does.
use crate::text::{chars_lt, chars_of, lemma_seq_lt_irreflexive, lemma_seq_lt_total, lemma_seq_lt_transitive, seq_lt, string_views};
use vstd::prelude::*;

verus! {

/// Names ordered strictly, so that none occurs twice.
pub open spec fn keys_sorted(s: Seq<(Seq<char>, Seq<char>)>) -> bool {
    forall|i: int, j: int| 0 <= i < j < s.len() ==> seq_lt(#[trigger] s[i].0, #[trigger] s[j].0)
}

/// `s` after setting `k` to `v`: the value replaced where `k` is present, the
/// entry inserted in name order where it is not.
pub open spec fn sorted_insert(s: Seq<(Seq<char>, Seq<char>)>, k: Seq<char>, v: Seq<char>) -> Seq<
    (Seq<char>, Seq<char>),
>
    decreases s.len(),
{
    if s.len() == 0 {
        seq![(k, v)]
    } else if s[0].0 == k {
        seq![(k, v)] + s.drop_first()
    } else if seq_lt(k, s[0].0) {
        seq![(k, v)] + s
    } else {
        seq![s[0]] + sorted_insert(s.drop_first(), k, v)
    }
}

/// The value stored under `k`.
pub open spec fn lookup(s: Seq<(Seq<char>, Seq<char>)>, k: Seq<char>) -> Option<Seq<char>>
    decreases s.len(),
{
    if s.len() == 0 {
        None
    } else if s[0].0 == k {
        Some(s[0].1)
    } else {
        lookup(s.drop_first(), k)
    }
}

/// Setting `k` to `v` changes the value under `k` only.
pub proof fn lemma_lookup_sorted_insert(s: Seq<(Seq<char>, Seq<char>)>, k: Seq<char>, v: Seq<char>, n: Seq<char>)
    ensures
        lookup(sorted_insert(s, k, v), n) == if n == k {
            Some(v)
        } else {
            lookup(s, n)
        },
    decreases s.len(),
{
    if s.len() > 0 {
        if s[0].0 == k {
            let r = seq![(k, v)] + s.drop_first();
            assert(r[0] == (k, v));
            assert(r.drop_first() == s.drop_first());
            assert(lookup(s, n) == if n == k { Some(s[0].1) } else { lookup(s.drop_first(), n) });
        } else if seq_lt(k, s[0].0) {
            let r = seq![(k, v)] + s;
            assert(r[0] == (k, v));
            assert(r.drop_first() == s);
        } else {
            assert((seq![s[0]] + sorted_insert(s.drop_first(), k, v))[0] == s[0]);
            lemma_lookup_sorted_insert(s.drop_first(), k, v, n);
            assert((seq![s[0]] + sorted_insert(s.drop_first(), k, v)).drop_first() == sorted_insert(
                s.drop_first(),
                k,
                v,
            ));
        }
    } else {
        let r = seq![(k, v)];
        assert(r[0] == (k, v));
        assert(r.drop_first() == s);
        assert(lookup(s, n) is None);
    }
}

/// The names, in order.
pub open spec fn key_views(s: Seq<(Seq<char>, Seq<char>)>) -> Seq<Seq<char>> {
    s.map_values(|e: (Seq<char>, Seq<char>)| e.0)
}

/// The values, in name order.
pub open spec fn value_views(s: Seq<(Seq<char>, Seq<char>)>) -> Seq<Seq<char>> {
    s.map_values(|e: (Seq<char>, Seq<char>)| e.1)
}

/// The views of name/value pairs.
pub open spec fn entry_views(e: Seq<(String, String)>) -> Seq<(Seq<char>, Seq<char>)> {
    e.map_values(|p: (String, String)| (p.0@, p.1@))
}

/// The map's entries in name order.
#[derive(Debug, PartialEq)]
pub struct AttributeMap {
    entries: Vec<(String, String)>,
}

impl View for AttributeMap {
    type V = Seq<(Seq<char>, Seq<char>)>;

    closed spec fn view(&self) -> Seq<(Seq<char>, Seq<char>)> {
        entry_views(self.entries@)
    }
}

proof fn lemma_sorted_insert_at(s: Seq<(Seq<char>, Seq<char>)>, k: Seq<char>, v: Seq<char>, pos: int)
    requires
        keys_sorted(s),
        0 <= pos <= s.len(),
        forall|t: int| 0 <= t < pos ==> seq_lt(#[trigger] s[t].0, k),
        pos < s.len() ==> !seq_lt(s[pos].0, k),
    ensures
        pos < s.len() && s[pos].0 == k ==> sorted_insert(s, k, v) == s.update(pos, (k, v)),
        !(pos < s.len() && s[pos].0 == k) ==> sorted_insert(s, k, v) == s.insert(pos, (k, v)),
        keys_sorted(sorted_insert(s, k, v)),
    decreases pos,
{
    if pos == 0 {
        if s.len() == 0 {
            assert(s.insert(0, (k, v)) == seq![(k, v)]);
        } else if s[0].0 == k {
            assert(seq![(k, v)] + s.drop_first() == s.update(0, (k, v)));
        } else {
            lemma_seq_lt_total(k, s[0].0);
            assert(seq_lt(k, s[0].0));
            assert(seq![(k, v)] + s == s.insert(0, (k, v)));
            assert forall|i: int, j: int| 0 <= i < j < s.len() + 1 implies seq_lt(
                #[trigger] s.insert(0, (k, v))[i].0,
                #[trigger] s.insert(0, (k, v))[j].0,
            ) by {
                if i == 0 && j > 1 {
                    lemma_seq_lt_transitive(k, s[0].0, s[j - 1].0);
                }
            }
        }
    } else {
        let t = s.drop_first();
        assert(seq_lt(s[0].0, k));
        lemma_seq_lt_irreflexive(k);
        lemma_seq_lt_total(k, s[0].0);
        assert(s[0].0 != k);
        assert(!seq_lt(k, s[0].0));
        assert forall|i: int, j: int| 0 <= i < j < t.len() implies seq_lt(#[trigger] t[i].0, #[trigger] t[j].0) by {
            assert(t[i] == s[i + 1] && t[j] == s[j + 1]);
        }
        assert forall|x: int| 0 <= x < pos - 1 implies seq_lt(#[trigger] t[x].0, k) by {
            assert(t[x] == s[x + 1]);
        }
        lemma_sorted_insert_at(t, k, v, pos - 1);
        let r = sorted_insert(s, k, v);
        assert(r == seq![s[0]] + sorted_insert(t, k, v));
        if pos < s.len() && s[pos].0 == k {
            assert(seq![s[0]] + t.update(pos - 1, (k, v)) == s.update(pos, (k, v)));
        } else {
            assert(seq![s[0]] + t.insert(pos - 1, (k, v)) == s.insert(pos, (k, v)));
        }
        let rt = sorted_insert(t, k, v);
        assert forall|i: int, j: int| 0 <= i < j < r.len() implies seq_lt(#[trigger] r[i].0, #[trigger] r[j].0) by {
            if i == 0 {
                assert(r[j] == rt[j - 1]);
                if pos < s.len() && s[pos].0 == k {
                    assert(rt == t.update(pos - 1, (k, v)));
                    if j - 1 == pos - 1 {
                    } else {
                        assert(rt[j - 1] == t[j - 1]);
                        assert(t[j - 1] == s[j]);
                    }
                } else {
                    assert(rt == t.insert(pos - 1, (k, v)));
                    if j - 1 < pos - 1 {
                        assert(rt[j - 1] == t[j - 1]);
                        assert(t[j - 1] == s[j]);
                    } else if j - 1 == pos - 1 {
                    } else {
                        assert(rt[j - 1] == t[j - 2]);
                        assert(t[j - 2] == s[j - 1]);
                    }
                }
            } else {
                assert(r[i] == rt[i - 1] && r[j] == rt[j - 1]);
            }
        }
    }
}

impl AttributeMap {
    #[verifier::type_invariant]
    closed spec fn inv(&self) -> bool {
        keys_sorted(self@)
    }

    /// An empty map.
    pub fn new() -> (m: Self)
        ensures
            m@ == Seq::<(Seq<char>, Seq<char>)>::empty(),
    {
        let m = AttributeMap { entries: Vec::new() };
        proof {
            assert(m@ =~= Seq::<(Seq<char>, Seq<char>)>::empty());
        }
        m
    }

    /// The number of entries.
    pub fn len(&self) -> (n: usize)
        ensures
            n == self@.len(),
    {
        self.entries.len()
    }

    /// Whether the map has no entries.
    pub fn is_empty(&self) -> (b: bool)
        ensures
            b == (self@.len() == 0),
    {
        self.entries.len() == 0
    }

    /// Set `key` to `value`, replacing an earlier value of `key`.
    pub fn insert(&mut self, key: String, value: String)
        ensures
            final(self)@ == sorted_insert(old(self)@, key@, value@),
    {
        proof {
            use_type_invariant(&*self);
        }
        let ghost s = self@;
        let kc = chars_of(key.as_str());
        let mut pos: usize = 0;
        while pos < self.entries.len() && chars_lt(chars_of(self.entries[pos].0.as_str()).as_slice(), kc.as_slice())
            invariant
                pos <= self.entries.len(),
                s == self@,
                s == entry_views(self.entries@),
                keys_sorted(s),
                kc@ == key@,
                forall|t: int| 0 <= t < pos ==> seq_lt(#[trigger] s[t].0, key@),
            decreases self.entries.len() - pos,
        {
            pos += 1;
        }
        proof {
            lemma_sorted_insert_at(s, key@, value@, pos as int);
        }
        let mut entries: Vec<(String, String)> = Vec::new();
        std::mem::swap(&mut entries, &mut self.entries);
        if pos < entries.len() && entries[pos].0 == key {
            entries.set(pos, (key, value));
            proof {
                assert(entry_views(entries@) =~= s.update(pos as int, (key@, value@)));
            }
        } else {
            entries.insert(pos, (key, value));
            proof {
                assert(entry_views(entries@) =~= s.insert(pos as int, (key@, value@)));
            }
        }
        self.entries = entries;
    }

    /// The value of `key`, if present.
    pub fn get(&self, key: &str) -> (r: Option<&String>)
        ensures
            match r {
                Some(v) => lookup(self@, key@) == Some(v@),
                None => lookup(self@, key@) is None,
            },
    {
        let k = key.to_owned();
        let mut t: usize = 0;
        let ghost s = self@;
        proof {
            assert(s.skip(0) == s);
        }
        while t < self.entries.len()
            invariant
                t <= self.entries.len(),
                s == self@,
                s == entry_views(self.entries@),
                k@ == key@,
                lookup(s, key@) == lookup(s.skip(t as int), key@),
            decreases self.entries.len() - t,
        {
            if self.entries[t].0 == k {
                proof {
                    assert(s.skip(t as int)[0] == s[t as int]);
                }
                return Some(&self.entries[t].1);
            }
            proof {
                assert(s.skip(t as int).drop_first() == s.skip(t + 1));
            }
            t += 1;
        }
        None
    }

    /// The names, in order.
    pub fn keys(&self) -> (r: Vec<String>)
        ensures
            string_views(r@) == key_views(self@),
    {
        let mut r: Vec<String> = Vec::new();
        let mut t: usize = 0;
        while t < self.entries.len()
            invariant
                t <= self.entries.len(),
                string_views(r@) == key_views(self@).take(t as int),
                r.len() == t,
                self@.len() == self.entries.len(),
                self@ == entry_views(self.entries@),
            decreases self.entries.len() - t,
        {
            let ghost before = r@;
            let x = self.entries[t].0.clone();
            r.push(x);
            proof {
                assert(r@ == before.push(x));
                assert forall|i: int| 0 <= i < t + 1 implies #[trigger] string_views(r@)[i] == key_views(self@).take(t + 1)[i] by {
                    if i < t {
                        assert(string_views(before)[i] == key_views(self@).take(t as int)[i]);
                    } else {
                        assert(x@ == self.entries@[i].0@);
                        assert(self@[i] == (self.entries@[i].0@, self.entries@[i].1@));
                    }
                }
                assert(string_views(r@) =~= key_views(self@).take(t + 1));
            }
            t += 1;
        }
        proof {
            assert(key_views(self@).take(t as int) == key_views(self@));
        }
        r
    }

    /// The values, in name order.
    pub fn values(&self) -> (r: Vec<String>)
        ensures
            string_views(r@) == value_views(self@),
    {
        let mut r: Vec<String> = Vec::new();
        let mut t: usize = 0;
        while t < self.entries.len()
            invariant
                t <= self.entries.len(),
                string_views(r@) == value_views(self@).take(t as int),
                r.len() == t,
                self@.len() == self.entries.len(),
                self@ == entry_views(self.entries@),
            decreases self.entries.len() - t,
        {
            let ghost before = r@;
            let x = self.entries[t].1.clone();
            r.push(x);
            proof {
                assert(r@ == before.push(x));
                assert forall|i: int| 0 <= i < t + 1 implies #[trigger] string_views(r@)[i] == value_views(self@).take(t + 1)[i] by {
                    if i < t {
                        assert(string_views(before)[i] == value_views(self@).take(t as int)[i]);
                    } else {
                        assert(x@ == self.entries@[i].1@);
                        assert(self@[i] == (self.entries@[i].0@, self.entries@[i].1@));
                    }
                }
                assert(string_views(r@) =~= value_views(self@).take(t + 1));
            }
            t += 1;
        }
        proof {
            assert(value_views(self@).take(t as int) == value_views(self@));
        }
        r
    }

    /// The name/value pairs, in name order.
    pub fn entries(&self) -> (r: Vec<(String, String)>)
        ensures
            entry_views(r@) == self@,
    {
        let mut r: Vec<(String, String)> = Vec::new();
        let mut t: usize = 0;
        while t < self.entries.len()
            invariant
                t <= self.entries.len(),
                entry_views(r@) == self@.take(t as int),
                r.len() == t,
                self@.len() == self.entries.len(),
                self@ == entry_views(self.entries@),
            decreases self.entries.len() - t,
        {
            let ghost before = r@;
            let e = &self.entries[t];
            let x = (e.0.clone(), e.1.clone());
            r.push(x);
            proof {
                assert(r@ == before.push(x));
                assert forall|i: int| 0 <= i < t + 1 implies #[trigger] entry_views(r@)[i] == self@.take(t + 1)[i] by {
                    if i < t {
                        assert(entry_views(before)[i] == self@.take(t as int)[i]);
                    } else {
                        assert(self@[i] == (self.entries@[i].0@, self.entries@[i].1@));
                    }
                }
                assert(entry_views(r@) =~= self@.take(t + 1));
            }
            t += 1;
        }
        proof {
            assert(self@.take(t as int) == self@);
        }
        r
    }
}

impl Clone for AttributeMap {
    /// A copy with the same entries.
    fn clone(&self) -> (r: Self)
        ensures
            r@ == self@,
    {
        proof {
            use_type_invariant(self);
        }
        AttributeMap { entries: self.entries() }
    }
}

} // verus!
