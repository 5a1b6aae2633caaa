//! Approximate matching for the search engine: the bit-parallel matcher, and
//! an edit distance that keeps only two rows of the table.
use vstd::prelude::*;

pub use crate::pfr::fuzzy_search::FuzzyMatcher;
use crate::pfr::fuzzy_search::{chars_of, edit_distance, lemma_edit_distance_bound, lemma_edit_distance_step};

verus! {

/// The Levenshtein distance of `s1` and `s2`, counted in characters, keeping
/// only the previous and the current row of the table.
pub fn levenshtein_distance(s1: &str, s2: &str) -> (d: usize)
    requires
        s1@.len() < usize::MAX,
        s2@.len() < usize::MAX,
    ensures
        d == edit_distance(s1@, s2@),
{
    let v1 = chars_of(s1);
    let v2 = chars_of(s2);
    let n = v1.len();
    let m = v2.len();
    if n == 0 {
        return m;
    }
    if m == 0 {
        return n;
    }
    let ghost a = v1@;
    let ghost b = v2@;
    let mut v0: Vec<usize> = Vec::new();
    let mut v1_row: Vec<usize> = Vec::new();
    let mut j: usize = 0;
    while j <= m
        invariant
            m == b.len() < usize::MAX,
            j <= m + 1,
            v0@.len() == j,
            v1_row@.len() == j,
            forall|k: int| 0 <= k < j ==> v0@[k] == edit_distance(a.take(0), b.take(k)),
        decreases m + 1 - j,
    {
        v0.push(j);
        v1_row.push(0);
        assert(a.take(0).len() == 0);
        j = j + 1;
    }
    let mut i: usize = 0;
    while i < n
        invariant
            n == a.len() < usize::MAX,
            m == b.len() < usize::MAX,
            v1@ == a,
            v2@ == b,
            i <= n,
            v0@.len() == m + 1,
            v1_row@.len() == m + 1,
            forall|k: int| 0 <= k <= m ==> v0@[k] == edit_distance(a.take(i as int), b.take(k)),
        decreases n - i,
    {
        v1_row.set(0, i + 1);
        assert(b.take(0).len() == 0);
        let mut j: usize = 0;
        while j < m
            invariant
                n == a.len() < usize::MAX,
                m == b.len() < usize::MAX,
                v1@ == a,
                v2@ == b,
                i < n,
                j <= m,
                v0@.len() == m + 1,
                v1_row@.len() == m + 1,
                forall|k: int| 0 <= k <= m ==> v0@[k] == edit_distance(a.take(i as int), b.take(k)),
                forall|k: int| 0 <= k <= j ==> v1_row@[k] == edit_distance(a.take(i + 1), b.take(k)),
            decreases m - j,
        {
            let cost: usize = if v1[i] == v2[j] { 0 } else { 1 };
            proof {
                lemma_edit_distance_step(a, b, i + 1, j + 1);
                lemma_edit_distance_bound(a.take(i as int), b.take(j + 1));
                lemma_edit_distance_bound(a.take(i + 1), b.take(j as int));
                lemma_edit_distance_bound(a.take(i as int), b.take(j as int));
            }
            let left = v1_row[j] + 1;
            let up = v0[j + 1] + 1;
            let diag = v0[j] + cost;
            let best = if left <= up { left } else { up };
            let best = if best <= diag { best } else { diag };
            v1_row.set(j + 1, best);
            j = j + 1;
        }
        std::mem::swap(&mut v0, &mut v1_row);
        i = i + 1;
    }
    assert(a.take(n as int) =~= a);
    assert(b.take(m as int) =~= b);
    v0[m]
}

} // verus!
