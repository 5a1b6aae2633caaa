//! The integer side of answering a query: the words to look up, their fuzzy
//! neighbours, the blocks that hold them, and per block where each one occurs,
//! how close they come to one another and whether a phrase occurs.
use vstd::prelude::*;

use crate::skanda::searcher::strings_view;
use crate::text::str_eq;

verus! {

/// The words of `s`, each once, in order of first appearance.
pub open spec fn distinct(s: Seq<Seq<char>>) -> Seq<Seq<char>>
    decreases s.len(),
{
    if s.len() == 0 {
        seq![]
    } else {
        let d = distinct(s.drop_last());
        if d.contains(s.last()) {
            d
        } else {
            d.push(s.last())
        }
    }
}

/// `distinct` holds each word of `s` once and nothing else.
pub proof fn lemma_distinct(s: Seq<Seq<char>>)
    ensures
        forall|i: int, j: int| 0 <= i < j < distinct(s).len() ==> distinct(s)[i] != distinct(s)[j],
        forall|w: Seq<char>| distinct(s).contains(w) <==> s.contains(w),
    decreases s.len(),
{
    if s.len() > 0 {
        let p = s.drop_last();
        lemma_distinct(p);
        let d = distinct(p);
        assert forall|w: Seq<char>| distinct(s).contains(w) <==> s.contains(w) by {
            if s.contains(w) && w != s.last() {
                let k = choose|k: int| 0 <= k < s.len() && s[k] == w;
                assert(k < s.len() - 1);
                assert(p[k] == w);
                assert(p.contains(w));
                assert(d.contains(w));
                let m = choose|m: int| 0 <= m < d.len() && d[m] == w;
                if !d.contains(s.last()) {
                    assert(distinct(s) == d.push(s.last()));
                    assert(distinct(s)[m] == w);
                } else {
                    assert(distinct(s) == d);
                }
            }
            if s.contains(w) && w == s.last() && !d.contains(s.last()) {
                assert(distinct(s)[d.len() as int] == w);
            }
            if distinct(s).contains(w) {
                let m = choose|m: int| 0 <= m < distinct(s).len() && distinct(s)[m] == w;
                if m < d.len() {
                    if d.contains(s.last()) {
                        assert(distinct(s) == d);
                    } else {
                        assert(distinct(s) == d.push(s.last()));
                    }
                    assert(d[m] == w);
                    assert(d.contains(w));
                    assert(p.contains(w));
                    let k = choose|k: int| 0 <= k < p.len() && p[k] == w;
                    assert(s[k] == w);
                } else {
                    assert(s[s.len() - 1] == w);
                }
            }
        }
        if !d.contains(s.last()) {
            assert forall|i: int, j: int| 0 <= i < j < distinct(s).len() implies distinct(s)[i] != distinct(s)[j] by {
                if j == d.len() {
                    assert(distinct(s)[i] == d[i]);
                }
            }
        }
    }
}

/// Whether `w` is one of the words of `v`.
pub fn contains_word(v: &Vec<String>, w: &str) -> (r: bool)
    ensures
        r == strings_view(v@).contains(w@),
{
    let mut i: usize = 0;
    while i < v.len()
        invariant
            i <= v@.len(),
            forall|k: int| 0 <= k < i ==> strings_view(v@)[k] != w@,
        decreases v@.len() - i,
    {
        if str_eq(v[i].as_str(), w) {
            assert(strings_view(v@)[i as int] == w@);
            return true;
        }
        i = i + 1;
    }
    false
}

/// Appends `w` unless it is there already.
fn add_distinct(out: &mut Vec<String>, w: &String)
    ensures
        strings_view(final(out)@) == if strings_view(old(out)@).contains(w@) {
            strings_view(old(out)@)
        } else {
            strings_view(old(out)@).push(w@)
        },
{
    if !contains_word(out, w.as_str()) {
        let ghost before = strings_view(out@);
        out.push(w.clone());
        assert(strings_view(out@) =~= before.push(w@));
    }
}

/// The words a query looks up: its regular terms, then the terms of its
/// phrases, each word once, in order of first appearance.
pub fn query_words(regular: &Vec<String>, phrases: &Vec<Vec<String>>) -> (out: Vec<String>)
    ensures
        strings_view(out@) == distinct(
            strings_view(regular@) + phrases@.map_values(|p: Vec<String>| strings_view(p@)).flatten_alt(),
        ),
{
    let ghost r = strings_view(regular@);
    let ghost ph = phrases@.map_values(|p: Vec<String>| strings_view(p@));
    let mut out: Vec<String> = Vec::new();
    let mut i: usize = 0;
    proof {
        assert(r.take(0) =~= Seq::<Seq<char>>::empty());
        assert(strings_view(out@) =~= Seq::<Seq<char>>::empty());
    }
    while i < regular.len()
        invariant
            i <= regular@.len(),
            r == strings_view(regular@),
            strings_view(out@) == distinct(r.take(i as int)),
        decreases regular@.len() - i,
    {
        add_distinct(&mut out, &regular[i]);
        proof {
            assert(r.take(i + 1).drop_last() =~= r.take(i as int));
            assert(r.take(i + 1).last() == regular@[i as int]@);
        }
        i = i + 1;
    }
    proof {
        assert(r.take(r.len() as int) =~= r);
        assert(ph.take(0).flatten_alt() =~= Seq::<Seq<char>>::empty());
        assert(r + ph.take(0).flatten_alt() =~= r);
    }
    let mut i: usize = 0;
    while i < phrases.len()
        invariant
            i <= phrases@.len(),
            r == strings_view(regular@),
            ph == phrases@.map_values(|p: Vec<String>| strings_view(p@)),
            strings_view(out@) == distinct(r + ph.take(i as int).flatten_alt()),
        decreases phrases@.len() - i,
    {
        let p = &phrases[i];
        let ghost pv = strings_view(p@);
        let ghost base = r + ph.take(i as int).flatten_alt();
        let mut j: usize = 0;
        proof {
            assert(base + pv.take(0) =~= base);
        }
        while j < p.len()
            invariant
                j <= p@.len(),
                pv == strings_view(p@),
                strings_view(out@) == distinct(base + pv.take(j as int)),
            decreases p@.len() - j,
        {
            add_distinct(&mut out, &p[j]);
            proof {
                assert((base + pv.take(j + 1)).drop_last() =~= base + pv.take(j as int));
                assert((base + pv.take(j + 1)).last() == p@[j as int]@);
            }
            j = j + 1;
        }
        proof {
            assert(pv.take(pv.len() as int) =~= pv);
            assert(ph.take(i + 1).drop_last() =~= ph.take(i as int));
            assert(ph.take(i + 1).last() == pv);
            assert(ph.take(i + 1).flatten_alt() == ph.take(i as int).flatten_alt() + pv);
            assert(r + ph.take(i + 1).flatten_alt() =~= base + pv);
        }
        i = i + 1;
    }
    proof {
        assert(ph.take(ph.len() as int) =~= ph);
    }
    out
}

} // verus!
