//! The answers kept for recent queries: one entry per query text and fuzzy
//! flag, all dropped once the cache is full.
use vstd::prelude::*;

use crate::text::str_eq;

verus! {

/// The number of entries at which the cache is emptied before the next insert.
pub const CACHE_CAP: usize = 256;

/// The first entry for the query `q` with fuzzy flag `f`, if any.
pub open spec fn lookup<V>(es: Seq<(Seq<char>, bool, V)>, q: Seq<char>, f: bool) -> Option<int>
    decreases es.len(),
{
    if es.len() == 0 {
        None
    } else {
        match lookup(es.drop_last(), q, f) {
            Some(i) => Some(i),
            None => if es.last().0 == q && es.last().1 == f {
                Some(es.len() - 1)
            } else {
                None
            },
        }
    }
}

/// `lookup` finds the first matching entry, or tells that none matches.
pub proof fn lemma_lookup<V>(es: Seq<(Seq<char>, bool, V)>, q: Seq<char>, f: bool)
    ensures
        match lookup(es, q, f) {
            Some(i) => 0 <= i < es.len() && es[i].0 == q && es[i].1 == f
                && forall|j: int| 0 <= j < i ==> !((#[trigger] es[j]).0 == q && es[j].1 == f),
            None => forall|j: int| 0 <= j < es.len() ==> !((#[trigger] es[j]).0 == q && es[j].1 == f),
        },
    decreases es.len(),
{
    if es.len() > 0 {
        let d = es.drop_last();
        lemma_lookup(d, q, f);
        assert forall|j: int| 0 <= j < d.len() implies #[trigger] d[j] == es[j] by {}
        assert(es.last() == es[es.len() - 1]);
        match lookup(d, q, f) {
            Some(i) => {
                assert(es[i] == d[i]);
                assert forall|j: int| 0 <= j < i implies !((#[trigger] es[j]).0 == q && es[j].1 == f) by {
                    assert(es[j] == d[j]);
                }
            },
            None => {
                assert forall|j: int| 0 <= j < es.len() - 1 implies !((#[trigger] es[j]).0 == q && es[j].1 == f) by {
                    assert(es[j] == d[j]);
                }
            },
        }
    }
}

/// The entries after putting `v` under `(q, f)`: a full cache is emptied
/// first; an entry for the same query is replaced, otherwise one is added.
pub open spec fn cache_put<V>(es: Seq<(Seq<char>, bool, V)>, q: Seq<char>, f: bool, v: V) -> Seq<(Seq<char>, bool, V)> {
    let base = if es.len() >= CACHE_CAP { Seq::empty() } else { es };
    match lookup(base, q, f) {
        Some(i) => base.update(i, (q, f, v)),
        None => base.push((q, f, v)),
    }
}

/// Answers kept per query text and fuzzy flag.
pub struct QueryCache<V> {
    entries: Vec<(String, bool, V)>,
}

impl<V> QueryCache<V> {
    /// The entries: query text, fuzzy flag, answer.
    pub closed spec fn entries(&self) -> Seq<(Seq<char>, bool, V)> {
        self.entries@.map_values(|e: (String, bool, V)| (e.0@, e.1, e.2))
    }

    /// An empty cache.
    pub fn new() -> (c: Self)
        ensures
            c.entries() == Seq::<(Seq<char>, bool, V)>::empty(),
    {
        let c = QueryCache { entries: Vec::new() };
        assert(c.entries() =~= Seq::<(Seq<char>, bool, V)>::empty());
        c
    }

    /// The number of entries.
    pub fn len(&self) -> (n: usize)
        ensures
            n == self.entries().len(),
    {
        self.entries.len()
    }

    /// Where the entry for `(q, f)` stands, if there is one.
    fn position(&self, q: &str, f: bool) -> (r: Option<usize>)
        ensures
            match r {
                Some(i) => lookup(self.entries(), q@, f) == Some(i as int),
                None => lookup(self.entries(), q@, f) is None,
            },
    {
        let ghost es = self.entries();
        proof {
            lemma_lookup(es, q@, f);
        }
        let mut i: usize = 0;
        while i < self.entries.len()
            invariant
                es == self.entries(),
                i <= es.len(),
                forall|j: int| 0 <= j < i ==> !((#[trigger] es[j]).0 == q@ && es[j].1 == f),
                match lookup(es, q@, f) {
                    Some(x) => 0 <= x < es.len() && es[x].0 == q@ && es[x].1 == f
                        && forall|j: int| 0 <= j < x ==> !((#[trigger] es[j]).0 == q@ && es[j].1 == f),
                    None => forall|j: int| 0 <= j < es.len() ==> !((#[trigger] es[j]).0 == q@ && es[j].1 == f),
                },
            decreases es.len() - i,
        {
            assert(es[i as int] == (self.entries@[i as int].0@, self.entries@[i as int].1, self.entries@[i as int].2));
            if self.entries[i].1 == f && str_eq(self.entries[i].0.as_str(), q) {
                return Some(i);
            }
            i = i + 1;
        }
        None
    }

    /// The answer kept for the query `q` with fuzzy flag `f`, if any.
    pub fn get(&self, q: &str, f: bool) -> (r: Option<&V>)
        ensures
            match lookup(self.entries(), q@, f) {
                Some(i) => r matches Some(v) && *v == self.entries()[i].2,
                None => r is None,
            },
    {
        match self.position(q, f) {
            Some(i) => {
                proof {
                    lemma_lookup(self.entries(), q@, f);
                }
                assert(self.entries()[i as int].2 == self.entries@[i as int].2);
                Some(&self.entries[i].2)
            },
            None => None,
        }
    }

    /// Keeps `v` as the answer for `(q, f)`, emptying the cache first when it
    /// holds `CACHE_CAP` entries.
    pub fn insert(&mut self, q: String, f: bool, v: V)
        ensures
            final(self).entries() == cache_put(old(self).entries(), q@, f, v),
    {
        if self.entries.len() >= CACHE_CAP {
            self.entries = Vec::new();
            assert(self.entries() =~= Seq::<(Seq<char>, bool, V)>::empty());
        }
        let ghost base = self.entries();
        proof {
            lemma_lookup(base, q@, f);
        }
        match self.position(q.as_str(), f) {
            Some(i) => {
                let ghost qv = q@;
                self.entries.set(i, (q, f, v));
                assert(self.entries() =~= base.update(i as int, (qv, f, v)));
            },
            None => {
                let ghost qv = q@;
                self.entries.push((q, f, v));
                assert(self.entries() =~= base.push((qv, f, v)));
            },
        }
    }
}

} // verus!
