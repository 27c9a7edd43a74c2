//! Named texts that go with a found memory.

use crate::rows;
use crate::text::{owned, same};
use vstd::prelude::*;

verus! {

/// A map from names to texts.
#[derive(Debug, Clone)]
pub struct Metadata {
    pub entries: Vec<(String, String)>,
}

pub open spec fn pairs(entries: Seq<(String, String)>) -> Seq<(Seq<char>, Seq<char>)> {
    Seq::new(entries.len(), |i: int| (entries[i].0@, entries[i].1@))
}

pub open spec fn key_is(key: Seq<char>) -> spec_fn((Seq<char>, Seq<char>)) -> bool {
    |p: (Seq<char>, Seq<char>)| p.0 == key
}

/// Each name with the text of its first entry.
pub open spec fn as_map(p: Seq<(Seq<char>, Seq<char>)>) -> Map<Seq<char>, Seq<char>> {
    Map::new(
        |k: Seq<char>| rows::found(p, key_is(k)) is Some,
        |k: Seq<char>| rows::found(p, key_is(k)).unwrap().1,
    )
}

impl View for Metadata {
    type V = Map<Seq<char>, Seq<char>>;

    open spec fn view(&self) -> Map<Seq<char>, Seq<char>> {
        as_map(pairs(self.entries@))
    }
}

/// No name occurs twice.
pub open spec fn distinct_names(p: Seq<(Seq<char>, Seq<char>)>) -> bool {
    forall|i: int, j: int| 0 <= i < j < p.len() ==> (#[trigger] p[i]).0 != (#[trigger] p[j]).0
}

proof fn lemma_put_distinct(p: Seq<(Seq<char>, Seq<char>)>, key: Seq<char>, value: Seq<char>)
    requires
        distinct_names(p),
    ensures
        distinct_names(rows::put_row(p, key_is(key), (key, value))),
{
    rows::lemma_first_where(p, key_is(key));
    let after = rows::put_row(p, key_is(key), (key, value));
    assert forall|i: int, j: int| 0 <= i < j < after.len() implies (#[trigger] after[i]).0 != (
    #[trigger] after[j]).0 by {
        if j < p.len() {
            assert(p[i].0 != p[j].0);
        } else {
            assert(!key_is(key)(p[i]));
        }
    }
}

proof fn lemma_put(p: Seq<(Seq<char>, Seq<char>)>, key: Seq<char>, value: Seq<char>)
    ensures
        as_map(rows::put_row(p, key_is(key), (key, value))) == as_map(p).insert(key, value),
{
    let after = rows::put_row(p, key_is(key), (key, value));
    rows::lemma_put_found(p, key_is(key), (key, value));
    assert forall|k: Seq<char>| k != key implies #[trigger] rows::found(after, key_is(k)) == rows::found(
        p,
        key_is(k),
    ) by {
        rows::lemma_put_other(p, key_is(key), (key, value), key_is(k));
    }
    assert(as_map(after) =~= as_map(p).insert(key, value));
}

impl Metadata {
    /// Each name has one text.
    pub open spec fn wf(&self) -> bool {
        distinct_names(pairs(self.entries@))
    }

    pub fn new() -> (r: Self)
        ensures
            r.wf(),
            r@ == Map::<Seq<char>, Seq<char>>::empty(),
    {
        let r = Metadata { entries: Vec::new() };
        proof {
            assert(r@ =~= Map::<Seq<char>, Seq<char>>::empty());
        }
        r
    }

    fn position(&self, key: &str) -> (r: Option<usize>)
        ensures
            match r {
                Some(i) => i < self.entries@.len() && rows::first_where(
                    pairs(self.entries@),
                    key_is(key@),
                ) == Some(i as int),
                None => rows::first_where(pairs(self.entries@), key_is(key@)) is None,
            },
    {
        let ghost p = pairs(self.entries@);
        let ghost q = key_is(key@);
        let mut i: usize = 0;
        while i < self.entries.len()
            invariant
                i <= self.entries.len(),
                p == pairs(self.entries@),
                q == key_is(key@),
                forall|k: int| 0 <= k < i ==> !q(#[trigger] p[k]),
            decreases self.entries.len() - i,
        {
            if same(self.entries[i].0.as_str(), key) {
                proof {
                    assert(q(p[i as int]));
                    rows::lemma_first_is(p, q, i as int);
                }
                return Some(i);
            }
            i = i + 1;
        }
        proof {
            rows::lemma_first_none(p, q);
        }
        None
    }

    /// Sets a name, whatever it held before.
    pub fn insert(&mut self, key: &str, value: &str)
        ensures
            final(self)@ == old(self)@.insert(key@, value@),
            old(self).wf() ==> final(self).wf(),
    {
        let ghost p = pairs(self.entries@);
        let row = (owned(key), owned(value));
        match self.position(key) {
            Some(i) => {
                self.entries.set(i, row);
                proof {
                    rows::lemma_first_where(p, key_is(key@));
                    assert(pairs(self.entries@) =~= p.update(i as int, (key@, value@)));
                }
            },
            None => {
                self.entries.push(row);
                proof {
                    assert(pairs(self.entries@) =~= p.push((key@, value@)));
                }
            },
        }
        proof {
            lemma_put(p, key@, value@);
            if distinct_names(p) {
                lemma_put_distinct(p, key@, value@);
            }
        }
    }

    pub fn get(&self, key: &str) -> (r: Option<String>)
        ensures
            match r {
                Some(v) => self@.dom().contains(key@) && self@[key@] == v@,
                None => !self@.dom().contains(key@),
            },
    {
        match self.position(key) {
            Some(i) => Some(self.entries[i].1.clone()),
            None => None,
        }
    }

    pub fn contains_key(&self, key: &str) -> (r: bool)
        ensures
            r == self@.dom().contains(key@),
    {
        self.position(key).is_some()
    }

    pub fn copy(&self) -> (r: Self)
        ensures
            r@ == self@,
            self.wf() ==> r.wf(),
    {
        let mut entries: Vec<(String, String)> = Vec::new();
        let mut i: usize = 0;
        while i < self.entries.len()
            invariant
                i <= self.entries.len(),
                pairs(entries@) == pairs(self.entries@).take(i as int),
            decreases self.entries.len() - i,
        {
            let ghost before = pairs(entries@);
            entries.push((self.entries[i].0.clone(), self.entries[i].1.clone()));
            proof {
                assert(pairs(entries@) =~= before.push(pairs(self.entries@)[i as int]));
                assert(pairs(self.entries@).take(i + 1) =~= pairs(self.entries@).take(
                    i as int,
                ).push(pairs(self.entries@)[i as int]));
            }
            i = i + 1;
        }
        proof {
            assert(pairs(self.entries@).take(i as int) =~= pairs(self.entries@));
        }
        Metadata { entries }
    }
}

} // verus!
