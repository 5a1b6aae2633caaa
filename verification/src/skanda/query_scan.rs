//! What query parsing keeps: no word of a query that is not a stop word is
//! lost, each landing among the regular terms or in a phrase; and each quoted
//! stretch of two words or more becomes a phrase of its own.
use vstd::prelude::*;

use crate::skanda::indexer::stop_word;
use crate::skanda::searcher::{query_terms, scan_flush, scan_query, scan_step, without_stop_words, QueryScan};
use crate::text::{alphanumeric, lowercase, lowercase_first};

verus! {

/// A character that can be part of a query word: alphanumeric and not a quote.
pub open spec fn query_char(c: char) -> bool {
    c != '"' && alphanumeric(c)
}

/// `c[s..e]` is a maximal run of query-word characters.
pub open spec fn query_run(c: Seq<char>, s: int, e: int) -> bool {
    &&& 0 <= s < e <= c.len()
    &&& forall|i: int| s <= i < e ==> query_char(#[trigger] c[i])
    &&& s == 0 || !query_char(c[s - 1])
    &&& e == c.len() || !query_char(c[e])
}

/// The word a run gives: each character lowercased, then the whole lowercased.
pub open spec fn run_term(c: Seq<char>, s: int, e: int) -> Seq<char> {
    lowercase(c.subrange(s, e).map_values(|ch: char| lowercase_first(ch)))
}

/// `w` is among the regular terms or in one of the phrases.
pub open spec fn kept_word(regular: Seq<Seq<char>>, phrases: Seq<Seq<Seq<char>>>, w: Seq<char>) -> bool {
    regular.contains(w) || exists|i: int| 0 <= i < phrases.len() && (#[trigger] phrases[i]).contains(w)
}

/// `w` is in one of the phrases.
spec fn in_phrases(ps: Seq<Seq<Seq<char>>>, w: Seq<char>) -> bool {
    exists|i: int| 0 <= i < ps.len() && (#[trigger] ps[i]).contains(w)
}

/// `w` is among the regular terms, the open phrase or a closed phrase of the scan.
spec fn kept_in_scan(st: QueryScan, w: Seq<char>) -> bool {
    st.1.contains(w) || st.3.contains(w) || in_phrases(st.2, w)
}

/// Closing one more phrase keeps the words of the others and adds its own.
proof fn lemma_in_phrases_push(ps: Seq<Seq<Seq<char>>>, p: Seq<Seq<char>>, w: Seq<char>)
    ensures
        in_phrases(ps.push(p), w) == (in_phrases(ps, w) || p.contains(w)),
{
    let qs = ps.push(p);
    if in_phrases(ps, w) {
        let i = choose|i: int| 0 <= i < ps.len() && (#[trigger] ps[i]).contains(w);
        assert(qs[i] == ps[i]);
    }
    if p.contains(w) {
        assert(qs[ps.len() as int] == p);
    }
    if in_phrases(qs, w) {
        let i = choose|i: int| 0 <= i < qs.len() && (#[trigger] qs[i]).contains(w);
        if i < ps.len() {
            assert(qs[i] == ps[i]);
        }
    }
}

/// Pushing onto a sequence keeps what it contains.
proof fn lemma_push_contains(ws: Seq<Seq<char>>, x: Seq<char>, w: Seq<char>)
    ensures
        ws.push(x).contains(w) == (ws.contains(w) || x == w),
{
    let vs = ws.push(x);
    if ws.contains(w) {
        let j = choose|j: int| 0 <= j < ws.len() && ws[j] == w;
        assert(vs[j] == w);
    }
    if x == w {
        assert(vs[ws.len() as int] == w);
    }
    if vs.contains(w) {
        let j = choose|j: int| 0 <= j < vs.len() && vs[j] == w;
        if j < ws.len() {
            assert(vs[j] == ws[j]);
        }
    }
}

/// The scan of `c`: its token is the trailing run, lowercased character by
/// character, and every word of a run already ended that is not a stop word
/// is kept.
spec fn scan_keeps(c: Seq<char>, st: QueryScan) -> bool {
    let s0 = c.len() - st.4.len();
    &&& 0 <= s0
    &&& st.4 == c.subrange(s0, c.len() as int).map_values(|ch: char| lowercase_first(ch))
    &&& forall|i: int| s0 <= i < c.len() ==> query_char(#[trigger] c[i])
    &&& s0 == 0 || !query_char(c[s0 - 1])
    &&& forall|s: int, e: int| query_run(c, s, e) && e < c.len() && !stop_word(run_term(c, s, e)) ==> kept_in_scan(st, #[trigger] run_term(c, s, e))
}

/// Ending the token keeps what was kept, and keeps the token's word unless it
/// is a stop word.
proof fn lemma_flush_keeps(st: QueryScan, w: Seq<char>)
    ensures
        kept_in_scan(st, w) ==> kept_in_scan(scan_flush(st), w),
        st.4.len() > 0 && !stop_word(lowercase(st.4)) ==> kept_in_scan(scan_flush(st), lowercase(st.4)),
{
    let f = scan_flush(st);
    assert(f.2 == st.2);
    if st.4.len() > 0 {
        let tok = lowercase(st.4);
        if st.0 {
            assert(f.1 == st.1);
            assert(f.3 == st.3.push(tok));
            lemma_push_contains(st.3, tok, w);
            lemma_push_contains(st.3, tok, tok);
        } else if !stop_word(tok) {
            assert(f.3 == st.3);
            assert(f.1 == st.1.push(tok));
            lemma_push_contains(st.1, tok, w);
            lemma_push_contains(st.1, tok, tok);
        } else {
            assert(f.1 == st.1);
            assert(f.3 == st.3);
        }
    }
}

/// A word that is not a stop word survives dropping the stop words.
proof fn lemma_without_keeps(ws: Seq<Seq<char>>, w: Seq<char>)
    requires
        ws.contains(w),
        !stop_word(w),
    ensures
        without_stop_words(ws).contains(w),
    decreases ws.len(),
{
    let d = ws.drop_last();
    if ws.last() == w {
        assert(without_stop_words(ws) == without_stop_words(d).push(w));
        assert(without_stop_words(ws)[without_stop_words(ws).len() - 1] == w);
    } else {
        let j = choose|j: int| 0 <= j < ws.len() && ws[j] == w;
        assert(j < ws.len() - 1);
        assert(d[j] == w);
        lemma_without_keeps(d, w);
        let r = without_stop_words(d);
        let k = choose|k: int| 0 <= k < r.len() && r[k] == w;
        if !stop_word(ws.last()) {
            assert(without_stop_words(ws)[k] == w);
        }
    }
}

/// A quote after the token is ended keeps every kept word that is not a stop word.
proof fn lemma_quote_keeps(f: QueryScan, w: Seq<char>)
    requires
        kept_in_scan(f, w),
        !stop_word(w),
    ensures
        kept_in_scan(scan_step_after_flush(f), w),
{
    let (in_quote, regular, phrases, phrase, token) = f;
    let g = scan_step_after_flush(f);
    if in_quote {
        if phrase.len() >= 2 {
            assert(g.1 == regular);
            assert(g.2 == phrases.push(phrase));
            lemma_in_phrases_push(phrases, phrase, w);
        } else {
            let r = regular + without_stop_words(phrase);
            assert(g.1 == r);
            assert(g.2 == phrases);
            if regular.contains(w) {
                let j = choose|j: int| 0 <= j < regular.len() && regular[j] == w;
                assert(r[j] == w);
            }
            if phrase.contains(w) {
                lemma_without_keeps(phrase, w);
                let k = choose|k: int| 0 <= k < without_stop_words(phrase).len() && without_stop_words(phrase)[k] == w;
                assert(r[regular.len() + k] == w);
            }
        }
    } else {
        assert(g.1 == f.1 && g.2 == f.2 && g.3 == f.3);
    }
}

/// The state a quote leaves once the token before it has been ended.
spec fn scan_step_after_flush(f: QueryScan) -> QueryScan {
    let (in_quote, regular, phrases, phrase, token) = f;
    if in_quote {
        if phrase.len() >= 2 {
            (false, regular, phrases.push(phrase), seq![], token)
        } else {
            (false, regular + without_stop_words(phrase), phrases, seq![], token)
        }
    } else {
        (true, regular, phrases, phrase, token)
    }
}

/// A maximal run ending where the trailing run ends is the trailing run.
proof fn lemma_query_run_at_end(c: Seq<char>, s0: int, s: int)
    requires
        0 <= s0 <= c.len(),
        forall|i: int| s0 <= i < c.len() ==> query_char(#[trigger] c[i]),
        s0 == 0 || !query_char(c[s0 - 1]),
        0 <= s < c.len(),
        forall|i: int| s <= i < c.len() ==> query_char(#[trigger] c[i]),
        s == 0 || !query_char(c[s - 1]),
    ensures
        s == s0,
{
    if s < s0 {
        assert(query_char(c[s0 - 1]));
    } else if s > s0 {
        assert(query_char(c[s - 1]));
    }
}

/// Runs of `d` pushed with `x` that end before `d`'s end are runs of `d`, with
/// the same word.
proof fn lemma_query_runs_push(d: Seq<char>, x: char, s: int, e: int)
    ensures
        e < d.len() ==> query_run(d.push(x), s, e) == query_run(d, s, e),
        0 <= s <= e <= d.len() ==> run_term(d.push(x), s, e) == run_term(d, s, e),
{
    let c = d.push(x);
    if 0 <= s <= e <= d.len() {
        assert(c.subrange(s, e) =~= d.subrange(s, e));
    }
    if e < d.len() && 0 <= s < e {
        assert forall|i: int| s <= i <= e implies #[trigger] c[i] == d[i] by {}
        if s > 0 {
            assert(c[s - 1] == d[s - 1]);
        }
        if query_run(d, s, e) {
            assert forall|i: int| s <= i < e implies query_char(#[trigger] c[i]) by {
                assert(c[i] == d[i]);
            }
        }
        if query_run(c, s, e) {
            assert forall|i: int| s <= i < e implies query_char(#[trigger] d[i]) by {
                assert(c[i] == d[i]);
            }
        }
    }
}

/// The word of the run ended by `x` is the lowercased token.
proof fn lemma_trailing_term(d: Seq<char>, x: char, st: QueryScan, s: int)
    requires
        scan_keeps(d, st),
        query_run(d.push(x), s, d.len() as int),
    ensures
        st.4.len() > 0,
        run_term(d.push(x), s, d.len() as int) == lowercase(st.4),
{
    let c = d.push(x);
    let n = d.len() as int;
    let s0 = n - st.4.len();
    assert forall|i: int| s <= i < n implies query_char(#[trigger] d[i]) by {
        assert(c[i] == d[i]);
    }
    if s > 0 {
        assert(c[s - 1] == d[s - 1]);
    }
    lemma_query_run_at_end(d, s0, s);
    lemma_query_runs_push(d, x, s, n);
}

/// One character keeps the scan's promise.
proof fn lemma_scan_keeps_step(d: Seq<char>, x: char)
    requires
        scan_keeps(d, scan_query(d)),
    ensures
        scan_keeps(d.push(x), scan_query(d.push(x))),
{
    let c = d.push(x);
    let n = d.len() as int;
    assert(c.drop_last() =~= d);
    let st = scan_query(d);
    let st2 = scan_query(c);
    assert(st2 == scan_step(st, x));
    let s0 = n - st.4.len();
    let f = scan_flush(st);
    if x == '"' || !alphanumeric(x) {
        assert(!query_char(x));
        if x == '"' {
            assert(st2 == scan_step_after_flush(f));
        } else {
            assert(st2 == f);
        }
        assert(st2.4.len() == 0);
        assert(st2.4 =~= Seq::<char>::empty());
        assert(c.subrange(c.len() as int, c.len() as int).map_values(|ch: char| lowercase_first(ch)) =~= Seq::<char>::empty());
        assert forall|s: int, e: int| query_run(c, s, e) && e < c.len() && !stop_word(run_term(c, s, e)) implies kept_in_scan(st2, #[trigger] run_term(c, s, e)) by {
            lemma_query_runs_push(d, x, s, e);
            let w = run_term(c, s, e);
            if e < n {
                assert(query_run(d, s, e));
                assert(kept_in_scan(st, run_term(d, s, e)));
                lemma_flush_keeps(st, w);
            } else {
                lemma_trailing_term(d, x, st, s);
                lemma_flush_keeps(st, w);
            }
            if x == '"' {
                lemma_quote_keeps(f, w);
            }
        }
    } else {
        assert(query_char(x));
        assert(st2 == (st.0, st.1, st.2, st.3, st.4.push(lowercase_first(x))));
        assert(st2.1 == st.1 && st2.2 == st.2 && st2.3 == st.3);
        assert(st2.4 =~= c.subrange(s0, c.len() as int).map_values(|ch: char| lowercase_first(ch)));
        assert forall|i: int| s0 <= i < c.len() implies query_char(#[trigger] c[i]) by {
            if i < n {
                assert(c[i] == d[i]);
            }
        }
        if s0 > 0 {
            assert(c[s0 - 1] == d[s0 - 1]);
        }
        assert forall|s: int, e: int| query_run(c, s, e) && e < c.len() && !stop_word(run_term(c, s, e)) implies kept_in_scan(st2, #[trigger] run_term(c, s, e)) by {
            lemma_query_runs_push(d, x, s, e);
            if e == n {
                assert(c[e] == x);
            } else {
                assert(query_run(d, s, e));
                assert(run_term(c, s, e) == run_term(d, s, e));
                assert(kept_in_scan(st, run_term(d, s, e)));
            }
        }
    }
}

proof fn lemma_scan_keeps(c: Seq<char>)
    ensures
        scan_keeps(c, scan_query(c)),
    decreases c.len(),
{
    if c.len() == 0 {
        assert(c.subrange(0, 0).map_values(|ch: char| lowercase_first(ch)) =~= Seq::<char>::empty());
    } else {
        let d = c.drop_last();
        lemma_scan_keeps(d);
        lemma_scan_keeps_step(d, c.last());
        assert(d.push(c.last()) =~= c);
    }
}

/// The query law: no word of a query is lost. Every maximal run of word
/// characters (alphanumeric, not a quote), lowercased, that is not a stop word
/// is among the regular terms or in one of the phrases, for any number of
/// quoted phrases.
pub proof fn lemma_no_query_word_lost(q: Seq<char>)
    ensures
        forall|s: int, e: int| query_run(q, s, e) && !stop_word(run_term(q, s, e)) ==> kept_word(
            query_terms(q).0,
            query_terms(q).1,
            #[trigger] run_term(q, s, e),
        ),
{
    lemma_scan_keeps(q);
    let st = scan_query(q);
    let f = scan_flush(st);
    let n = q.len() as int;
    let s0 = n - st.4.len();
    let (regular, phrases) = query_terms(q);
    assert(regular == f.1 + without_stop_words(f.3));
    assert(phrases == f.2);
    assert forall|s: int, e: int| query_run(q, s, e) && !stop_word(run_term(q, s, e)) implies kept_word(
        regular,
        phrases,
        #[trigger] run_term(q, s, e),
    ) by {
        let w = run_term(q, s, e);
        if e < n {
            assert(kept_in_scan(st, w));
            lemma_flush_keeps(st, w);
        } else {
            lemma_query_run_at_end(q, s0, s);
            assert(q.subrange(s0, n) =~= q.subrange(s, e));
            lemma_flush_keeps(st, w);
        }
        assert(kept_in_scan(f, w));
        if f.1.contains(w) {
            let j = choose|j: int| 0 <= j < f.1.len() && f.1[j] == w;
            assert(regular[j] == w);
        } else if f.3.contains(w) {
            lemma_without_keeps(f.3, w);
            let k = choose|k: int| 0 <= k < without_stop_words(f.3).len() && without_stop_words(f.3)[k] == w;
            assert(regular[f.1.len() + k] == w);
        }
    }
}

/// The number of quote characters in `c`.
pub open spec fn quote_count(c: Seq<char>) -> nat
    decreases c.len(),
{
    if c.len() == 0 {
        0
    } else {
        quote_count(c.drop_last()) + if c.last() == '"' { 1nat } else { 0nat }
    }
}

/// How many word characters `c` ends with.
pub open spec fn trailing_len(c: Seq<char>) -> nat
    decreases c.len(),
{
    if c.len() > 0 && query_char(c.last()) {
        trailing_len(c.drop_last()) + 1
    } else {
        0
    }
}

/// The words of the runs of `c` that a later character has ended, in order.
pub open spec fn closed_words(c: Seq<char>) -> Seq<Seq<char>>
    decreases c.len(),
{
    if c.len() == 0 {
        seq![]
    } else {
        let d = c.drop_last();
        let t = trailing_len(d);
        if query_char(c.last()) || t == 0 {
            closed_words(d)
        } else {
            closed_words(d).push(run_term(d, d.len() - t, d.len() as int))
        }
    }
}

/// The words of `c`: the word of each maximal run of word characters, in order.
pub open spec fn query_words(c: Seq<char>) -> Seq<Seq<char>> {
    let t = trailing_len(c);
    if t == 0 {
        closed_words(c)
    } else {
        closed_words(c).push(run_term(c, c.len() - t, c.len() as int))
    }
}

/// The scan of `c` continued from the state `st`.
spec fn scan_from(st: QueryScan, c: Seq<char>) -> QueryScan
    decreases c.len(),
{
    if c.len() == 0 {
        st
    } else {
        scan_step(scan_from(st, c.drop_last()), c.last())
    }
}

/// Scanning `a` then `b` is scanning `a + b`.
proof fn lemma_scan_concat(a: Seq<char>, b: Seq<char>)
    ensures
        scan_query(a + b) == scan_from(scan_query(a), b),
    decreases b.len(),
{
    if b.len() == 0 {
        assert(a + b =~= a);
    } else {
        lemma_scan_concat(a, b.drop_last());
        assert((a + b).drop_last() =~= a + b.drop_last());
        assert((a + b).last() == b.last());
    }
}

/// Outside quotes there is no open phrase; the scan is inside quotes after
/// an odd number of them.
proof fn lemma_scan_quotes(c: Seq<char>)
    ensures
        scan_query(c).0 == (quote_count(c) % 2 == 1),
        !scan_query(c).0 ==> scan_query(c).3 == Seq::<Seq<char>>::empty(),
    decreases c.len(),
{
    if c.len() > 0 {
        lemma_scan_quotes(c.drop_last());
    }
}

/// The trailing word characters, each lowercased.
spec fn trailing_token(c: Seq<char>) -> Seq<char> {
    c.subrange(c.len() - trailing_len(c), c.len() as int).map_values(|ch: char| lowercase_first(ch))
}

proof fn lemma_trailing_len_bound(c: Seq<char>)
    ensures
        trailing_len(c) <= c.len(),
        forall|i: int| c.len() - trailing_len(c) <= i < c.len() ==> query_char(#[trigger] c[i]),
    decreases c.len(),
{
    if c.len() > 0 {
        lemma_trailing_len_bound(c.drop_last());
        if query_char(c.last()) {
            assert forall|i: int| c.len() - trailing_len(c) <= i < c.len() implies query_char(#[trigger] c[i]) by {
                if i < c.len() - 1 {
                    assert(c[i] == c.drop_last()[i]);
                }
            }
        }
    }
}

/// Inside quotes, a quote-free stretch adds its ended words to the open phrase
/// and leaves its trailing word characters as the token.
proof fn lemma_scan_inside_quotes(r: Seq<Seq<char>>, ps: Seq<Seq<Seq<char>>>, c: Seq<char>)
    requires
        forall|i: int| 0 <= i < c.len() ==> #[trigger] c[i] != '"',
    ensures
        scan_from((true, r, ps, seq![], seq![]), c) == (true, r, ps, closed_words(c), trailing_token(c)),
    decreases c.len(),
{
    if c.len() == 0 {
        assert(trailing_token(c) =~= Seq::<char>::empty());
    } else {
        let d = c.drop_last();
        let x = c.last();
        let n = d.len() as int;
        assert forall|i: int| 0 <= i < d.len() implies #[trigger] d[i] != '"' by {
            assert(d[i] == c[i]);
        }
        lemma_scan_inside_quotes(r, ps, d);
        lemma_trailing_len_bound(d);
        let t = trailing_len(d);
        assert(x != '"');
        assert(c.drop_last() == d);
        if alphanumeric(x) {
            assert(query_char(x));
            assert(trailing_len(c) == t + 1);
            assert(trailing_token(c) =~= trailing_token(d).push(lowercase_first(x)));
        } else {
            assert(!query_char(x));
            assert(trailing_len(c) == 0);
            assert(trailing_token(c) =~= Seq::<char>::empty());
            if t > 0 {
                assert(trailing_token(d) == d.subrange(n - t, n).map_values(|ch: char| lowercase_first(ch)));
                assert(lowercase(trailing_token(d)) == run_term(d, n - t, n));
            } else {
                assert(trailing_token(d) =~= Seq::<char>::empty());
            }
        }
    }
}

/// A quoted stretch closes into a phrase of its own: after a query with its
/// quotes balanced, a quoted stretch with two words or more adds exactly one
/// phrase, its words in order, and leaves the regular terms as they were; one
/// with fewer words adds them (less stop words) to the regular terms instead.
/// This holds however many phrases came before.
pub proof fn lemma_quoted_phrase_added(q: Seq<char>, s: Seq<char>)
    requires
        quote_count(q) % 2 == 0,
        forall|i: int| 0 <= i < s.len() ==> #[trigger] s[i] != '"',
    ensures
        query_words(s).len() >= 2 ==> query_terms(q + seq!['"'] + s + seq!['"']) == (
            query_terms(q).0,
            query_terms(q).1.push(query_words(s)),
        ),
        query_words(s).len() < 2 ==> query_terms(q + seq!['"'] + s + seq!['"']) == (
            query_terms(q).0 + without_stop_words(query_words(s)),
            query_terms(q).1,
        ),
{
    let a = q + seq!['"'];
    let b = a + s;
    let c = b + seq!['"'];
    lemma_scan_quotes(q);
    let st = scan_query(q);
    let f = scan_flush(st);
    assert(f.0 == st.0 && f.3 == st.3);
    assert(!f.0);
    lemma_scan_concat(q, seq!['"']);
    assert(seq!['"'].drop_last() =~= Seq::<char>::empty());
    assert(scan_from(st, seq!['"']) == scan_step(scan_from(st, Seq::<char>::empty()), '"'));
    let sa = scan_query(a);
    assert(sa == (true, f.1, f.2, Seq::<Seq<char>>::empty(), Seq::<char>::empty()));
    lemma_scan_concat(a, s);
    lemma_scan_inside_quotes(f.1, f.2, s);
    let sb = scan_query(b);
    assert(sb == (true, f.1, f.2, closed_words(s), trailing_token(s)));
    lemma_scan_concat(b, seq!['"']);
    assert(seq!['"'].drop_last() =~= Seq::<char>::empty());
    assert(scan_from(sb, seq!['"']) == scan_step(scan_from(sb, Seq::<char>::empty()), '"'));
    let g = scan_flush(sb);
    lemma_trailing_len_bound(s);
    let t = trailing_len(s);
    let n = s.len() as int;
    if t > 0 {
        assert(lowercase(trailing_token(s)) == run_term(s, n - t, n));
        assert(g.3 == query_words(s));
    } else {
        assert(trailing_token(s) =~= Seq::<char>::empty());
        assert(g.3 == query_words(s));
    }
    assert(g.4.len() == 0);
    let sc = scan_query(c);
    assert(without_stop_words(Seq::<Seq<char>>::empty()) =~= Seq::<Seq<char>>::empty());
    assert(query_terms(q).0 =~= f.1);
    assert(query_terms(q).1 == f.2);
    if query_words(s).len() >= 2 {
        assert(sc == (false, f.1, f.2.push(query_words(s)), Seq::<Seq<char>>::empty(), g.4));
        assert(scan_flush(sc) == sc);
        assert(query_terms(c).0 =~= f.1);
    } else {
        assert(sc == (false, f.1 + without_stop_words(query_words(s)), f.2, Seq::<Seq<char>>::empty(), g.4));
        assert(scan_flush(sc) == sc);
        assert(query_terms(c).0 =~= f.1 + without_stop_words(query_words(s)));
    }
}

} // verus!
