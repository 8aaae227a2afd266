//! A name-keyed map that keeps insertion order.
//!
//! Blocks, data entries and compiled predicates are all keyed by strings.
//! The map is an association vector with unique keys; its view is the
//! sequence of key/value pairs, so contracts can speak both of lookup and
//! of iteration order.

use vstd::prelude::*;
use crate::text::str_eq_string;

verus! {

#[derive(Debug, PartialEq)]
pub struct StrMap<V> {
    entries: Vec<(String, V)>,
}

/// Distinct entries carry distinct keys.
pub open spec fn keys_unique<V>(s: Seq<(Seq<char>, V)>) -> bool {
    forall|i: int, j: int| 0 <= i < j < s.len() ==> s[i].0 != s[j].0
}

pub open spec fn assoc_has<V>(s: Seq<(Seq<char>, V)>, k: Seq<char>) -> bool {
    exists|i: int| 0 <= i < s.len() && s[i].0 == k
}

pub open spec fn assoc_idx<V>(s: Seq<(Seq<char>, V)>, k: Seq<char>) -> int {
    choose|i: int| 0 <= i < s.len() && s[i].0 == k
}

pub open spec fn assoc_get<V>(s: Seq<(Seq<char>, V)>, k: Seq<char>) -> V {
    s[assoc_idx(s, k)].1
}

/// Update the entry for `k`, or append it at the end.
pub open spec fn assoc_set<V>(s: Seq<(Seq<char>, V)>, k: Seq<char>, v: V) -> Seq<
    (Seq<char>, V),
> {
    if assoc_has(s, k) {
        s.update(assoc_idx(s, k), (k, v))
    } else {
        s.push((k, v))
    }
}

/// With unique keys, any index holding `k` is the lookup index.
pub proof fn lemma_assoc_at<V>(s: Seq<(Seq<char>, V)>, k: Seq<char>, i: int)
    requires
        keys_unique(s),
        0 <= i < s.len(),
        s[i].0 == k,
    ensures
        assoc_has(s, k),
        assoc_idx(s, k) == i,
{
    let j = assoc_idx(s, k);
    assert(0 <= j < s.len() && s[j].0 == k);
}

/// Updating or appending keeps keys unique.
pub proof fn lemma_assoc_set_unique<V>(s: Seq<(Seq<char>, V)>, k: Seq<char>, v: V)
    requires
        keys_unique(s),
    ensures
        keys_unique(assoc_set(s, k, v)),
{
    if assoc_has(s, k) {
        let i = assoc_idx(s, k);
        assert(0 <= i < s.len() && s[i].0 == k);
        let t = s.update(i, (k, v));
        assert forall|a: int, b: int| 0 <= a < b < t.len() implies t[a].0 != t[b].0 by {
            assert(s[a].0 == t[a].0 || a == i);
            assert(s[b].0 == t[b].0 || b == i);
        }
    } else {
        let t = s.push((k, v));
        assert forall|a: int, b: int| 0 <= a < b < t.len() implies t[a].0 != t[b].0 by {
            if b < s.len() as int {
            } else {
                assert(t[b].0 == k);
                assert(t[a].0 == s[a].0);
                assert(!assoc_has(s, k));
                assert(s[a].0 != k);
            }
        }
    }
}

/// The same association sequence with each value replaced by its view.
pub open spec fn assoc_deep<V: View>(s: Seq<(Seq<char>, V)>) -> Seq<(Seq<char>, V::V)> {
    Seq::new(s.len(), |i: int| (s[i].0, s[i].1@))
}

pub proof fn lemma_deep_keys<V: View>(s: Seq<(Seq<char>, V)>)
    ensures
        assoc_deep(s).len() == s.len(),
        keys_unique(assoc_deep(s)) == keys_unique(s),
        forall|k: Seq<char>| assoc_has(assoc_deep(s), k) == assoc_has(s, k),
{
    assert(keys_unique(assoc_deep(s)) == keys_unique(s)) by {
        if keys_unique(s) {
            assert forall|i: int, j: int|
                0 <= i < j < assoc_deep(s).len() implies assoc_deep(s)[i].0 != assoc_deep(
                s,
            )[j].0 by {
                assert(s[i].0 != s[j].0);
            }
        }
        if keys_unique(assoc_deep(s)) {
            assert forall|i: int, j: int| 0 <= i < j < s.len() implies s[i].0 != s[j].0 by {
                assert(assoc_deep(s)[i].0 != assoc_deep(s)[j].0);
            }
        }
    }
    assert forall|k: Seq<char>| assoc_has(assoc_deep(s), k) == assoc_has(s, k) by {
        if assoc_has(s, k) {
            let i = assoc_idx(s, k);
            assert(assoc_deep(s)[i].0 == k);
        }
        if assoc_has(assoc_deep(s), k) {
            let i = choose|i: int| 0 <= i < assoc_deep(s).len() && assoc_deep(s)[i].0 == k;
            assert(s[i].0 == k);
        }
    }
}

pub proof fn lemma_deep_get<V: View>(s: Seq<(Seq<char>, V)>, k: Seq<char>)
    requires
        keys_unique(s),
        assoc_has(s, k),
    ensures
        assoc_has(assoc_deep(s), k),
        assoc_get(assoc_deep(s), k) == assoc_get(s, k)@,
        assoc_idx(assoc_deep(s), k) == assoc_idx(s, k),
{
    lemma_deep_keys(s);
    let i = assoc_idx(s, k);
    assert(0 <= i < s.len() && s[i].0 == k);
    assert(assoc_deep(s)[i].0 == k);
    lemma_assoc_at(assoc_deep(s), k, i);
}

pub proof fn lemma_deep_set<V: View>(s: Seq<(Seq<char>, V)>, k: Seq<char>, v: V)
    requires
        keys_unique(s),
    ensures
        assoc_deep(assoc_set(s, k, v)) == assoc_set(assoc_deep(s), k, v@),
{
    lemma_deep_keys(s);
    if assoc_has(s, k) {
        lemma_deep_get(s, k);
        assert(assoc_deep(assoc_set(s, k, v)) =~= assoc_set(assoc_deep(s), k, v@));
    } else {
        assert(assoc_deep(assoc_set(s, k, v)) =~= assoc_set(assoc_deep(s), k, v@));
    }
}

impl<V> View for StrMap<V> {
    type V = Seq<(Seq<char>, V)>;

    closed spec fn view(&self) -> Seq<(Seq<char>, V)> {
        Seq::new(self.entries@.len(), |i: int| (self.entries@[i].0@, self.entries@[i].1))
    }
}

impl<V> StrMap<V> {
    pub open spec fn wf(&self) -> bool {
        keys_unique(self@)
    }

    pub fn new() -> (r: StrMap<V>)
        ensures
            r@ == Seq::<(Seq<char>, V)>::empty(),
            r.wf(),
    {
        let r = StrMap { entries: Vec::new() };
        proof {
            assert(r@ =~= Seq::<(Seq<char>, V)>::empty());
        }
        r
    }

    pub fn len(&self) -> (r: usize)
        ensures
            r == self@.len(),
    {
        self.entries.len()
    }

    /// The key of the `i`th entry, in insertion order.
    pub fn key_at(&self, i: usize) -> (r: &String)
        requires
            i < self@.len(),
        ensures
            r@ == self@[i as int].0,
    {
        &self.entries[i].0
    }

    /// The value of the `i`th entry, in insertion order.
    pub fn val_at(&self, i: usize) -> (r: &V)
        requires
            i < self@.len(),
        ensures
            *r == self@[i as int].1,
    {
        &self.entries[i].1
    }

    fn find(&self, k: &str) -> (r: Option<usize>)
        ensures
            match r {
                Option::Some(i) => i < self@.len() && self@[i as int].0 == k@,
                Option::None => !assoc_has(self@, k@),
            },
    {
        let n = self.entries.len();
        let mut i: usize = 0;
        while i < n
            invariant
                i <= n,
                n == self@.len(),
                n == self.entries@.len(),
                forall|j: int| 0 <= j < i ==> self@[j].0 != k@,
            decreases n - i,
        {
            if str_eq_string(k, &self.entries[i].0) {
                return Option::Some(i);
            }
            i = i + 1;
        }
        Option::None
    }

    pub fn contains_key(&self, k: &str) -> (r: bool)
        ensures
            r == assoc_has(self@, k@),
    {
        match self.find(k) {
            Option::Some(_) => true,
            Option::None => false,
        }
    }

    pub fn get(&self, k: &str) -> (r: Option<&V>)
        requires
            self.wf(),
        ensures
            match r {
                Option::Some(v) => assoc_has(self@, k@) && *v == assoc_get(self@, k@),
                Option::None => !assoc_has(self@, k@),
            },
    {
        match self.find(k) {
            Option::Some(i) => {
                proof {
                    lemma_assoc_at(self@, k@, i as int);
                }
                Option::Some(&self.entries[i].1)
            },
            Option::None => Option::None,
        }
    }

    pub fn get_mut(&mut self, k: &str) -> (r: Option<&mut V>)
        requires
            old(self).wf(),
        ensures
            match r {
                Option::Some(v) => assoc_has(old(self)@, k@) && *v == assoc_get(
                    old(self)@,
                    k@,
                ) && final(self)@ =~= assoc_set(old(self)@, k@, *final(v)),
                Option::None => !assoc_has(old(self)@, k@) && final(self)@ == old(self)@,
            },
    {
        match self.find(k) {
            Option::Some(i) => {
                proof {
                    lemma_assoc_at(self@, k@, i as int);
                }
                let r = &mut self.entries[i].1;
                Option::Some(r)
            },
            Option::None => Option::None,
        }
    }

    /// Append an entry without checking for a duplicate key.
    pub fn push_entry(&mut self, k: String, v: V)
        ensures
            final(self)@ == old(self)@.push((k@, v)),
    {
        let ghost kv = k@;
        self.entries.push((k, v));
        proof {
            assert(self@ =~= old(self)@.push((kv, v)));
        }
    }

    /// A positional copy: the same keys, values cloned.
    pub fn duplicate(&self) -> (r: StrMap<V>) where V: Clone
        ensures
            r@.len() == self@.len(),
            forall|i: int|
                0 <= i < r@.len() ==> #[trigger] r@[i].0 == self@[i].0 && vstd::pervasive::cloned::<
                    V,
                >(self@[i].1, r@[i].1),
    {
        let mut entries: Vec<(String, V)> = Vec::new();
        let n = self.entries.len();
        let mut i: usize = 0;
        while i < n
            invariant
                i <= n,
                n == self.entries@.len(),
                entries@.len() == i,
                forall|j: int|
                    0 <= j < i ==> #[trigger] entries@[j].0@ == self.entries@[j].0@
                        && vstd::pervasive::cloned::<V>(self.entries@[j].1, entries@[j].1),
            decreases n - i,
        {
            let k = self.entries[i].0.clone();
            let v = self.entries[i].1.clone();
            entries.push((k, v));
            i = i + 1;
        }
        StrMap { entries }
    }

    /// Insert or replace; any replaced value comes back.
    pub fn insert(&mut self, k: String, v: V) -> (r: Option<V>)
        requires
            old(self).wf(),
        ensures
            final(self).wf(),
            final(self)@ == assoc_set(old(self)@, k@, v),
            match r {
                Option::Some(o) => assoc_has(old(self)@, k@) && o == assoc_get(old(self)@, k@),
                Option::None => !assoc_has(old(self)@, k@),
            },
    {
        proof {
            lemma_assoc_set_unique(old(self)@, k@, v);
        }
        match self.find(k.as_str()) {
            Option::Some(i) => {
                proof {
                    lemma_assoc_at(self@, k@, i as int);
                }
                let mut pair = (k, v);
                core::mem::swap(&mut pair, &mut self.entries[i]);
                proof {
                    assert(self@ =~= assoc_set(old(self)@, k@, v));
                }
                Option::Some(pair.1)
            },
            Option::None => {
                self.entries.push((k, v));
                proof {
                    assert(self@ =~= assoc_set(old(self)@, k@, v));
                }
                Option::None
            },
        }
    }
}

} // verus!
