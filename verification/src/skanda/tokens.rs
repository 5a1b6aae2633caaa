//! Words of a text: the tokenizer's words are exactly the maximal runs of
//! alphanumeric characters, at the byte offsets where they start.
use vstd::prelude::*;

use crate::skanda::indexer::{lemma_token_offset, lemma_token_scan_increasing, lemma_tokens_increasing, token_scan, tokens};
use crate::text::alphanumeric;

verus! {

/// `chars[s..e]` is a maximal run of alphanumeric characters: nonempty, all
/// alphanumeric, with no alphanumeric character just before or just after it.
pub open spec fn alnum_run(chars: Seq<char>, s: int, e: int) -> bool {
    &&& 0 <= s < e <= chars.len()
    &&& forall|i: int| s <= i < e ==> alphanumeric(#[trigger] chars[i])
    &&& s == 0 || !alphanumeric(chars[s - 1])
    &&& e == chars.len() || !alphanumeric(chars[e])
}

/// The byte offset of character `s` in the UTF-8 encoding of `chars`.
pub open spec fn byte_at(chars: Seq<char>, s: int) -> nat {
    vstd::utf8::encode_utf8(chars.take(s)).len()
}

/// The run `chars[s..e]` as a token: its characters and its byte offset.
pub open spec fn run_token(chars: Seq<char>, s: int, e: int) -> (Seq<char>, nat) {
    (chars.subrange(s, e), byte_at(chars, s))
}

/// `tok` is the token of a maximal run of `c`: its characters and the byte
/// offset where it starts.
pub open spec fn run_token_of(c: Seq<char>, tok: (Seq<char>, nat)) -> bool {
    exists|s: int, e: int| alnum_run(c, s, e) && tok == #[trigger] run_token(c, s, e)
}

/// `tok` is the token of a maximal run of `c` that ends before `lim`.
pub open spec fn run_token_before(c: Seq<char>, tok: (Seq<char>, nat), lim: int) -> bool {
    exists|s: int, e: int| alnum_run(c, s, e) && e < lim && tok == #[trigger] run_token(c, s, e)
}

/// The words `toks` are exactly the maximal runs of `c` already ended by a
/// later character, and `cur` (starting at byte `start`) is the trailing run.
spec fn runs_state(c: Seq<char>, toks: Seq<(Seq<char>, nat)>, start: nat, cur: Seq<char>) -> bool {
    let s0 = c.len() - cur.len();
    &&& 0 <= s0
    &&& cur == c.subrange(s0, c.len() as int)
    &&& forall|i: int| s0 <= i < c.len() ==> alphanumeric(#[trigger] c[i])
    &&& s0 == 0 || !alphanumeric(c[s0 - 1])
    &&& start == byte_at(c, s0)
    &&& forall|k: int| 0 <= k < toks.len() ==> run_token_before(c, #[trigger] toks[k], c.len() as int)
    &&& forall|s: int, e: int| alnum_run(c, s, e) && e < c.len() ==> exists|k: int| 0 <= k < toks.len()
        && #[trigger] toks[k] == run_token(c, s, e)
}

/// A maximal run ending where the trailing run ends is the trailing run.
proof fn lemma_run_at_end(c: Seq<char>, s0: int, s: int)
    requires
        0 <= s0 <= c.len(),
        forall|i: int| s0 <= i < c.len() ==> alphanumeric(#[trigger] c[i]),
        s0 == 0 || !alphanumeric(c[s0 - 1]),
        0 <= s < c.len(),
        forall|i: int| s <= i < c.len() ==> alphanumeric(#[trigger] c[i]),
        s == 0 || !alphanumeric(c[s - 1]),
    ensures
        s == s0,
{
    if s < s0 {
        assert(alphanumeric(c[s0 - 1]));
    } else if s > s0 {
        assert(alphanumeric(c[s - 1]));
    }
}

/// Runs of `d` pushed with `x`: those ending before `d`'s end are runs of `d`,
/// with the same token.
proof fn lemma_runs_push(d: Seq<char>, x: char, s: int, e: int)
    ensures
        e < d.len() ==> alnum_run(d.push(x), s, e) == alnum_run(d, s, e),
        0 <= s <= e <= d.len() ==> run_token(d.push(x), s, e) == run_token(d, s, e),
{
    let c = d.push(x);
    if 0 <= s <= e <= d.len() {
        assert(c.subrange(s, e) =~= d.subrange(s, e));
        assert(c.take(s) =~= d.take(s));
    }
    if e < d.len() && 0 <= s < e {
        assert forall|i: int| s <= i <= e implies #[trigger] c[i] == d[i] by {}
        if s > 0 {
            assert(c[s - 1] == d[s - 1]);
        }
        if alnum_run(d, s, e) {
            assert forall|i: int| s <= i < e implies alphanumeric(#[trigger] c[i]) by {
                assert(c[i] == d[i]);
            }
        }
        if alnum_run(c, s, e) {
            assert forall|i: int| s <= i < e implies alphanumeric(#[trigger] d[i]) by {
                assert(c[i] == d[i]);
            }
        }
    }
}

/// An alphanumeric character extends the trailing run.
proof fn lemma_runs_state_alnum(d: Seq<char>, x: char, toks: Seq<(Seq<char>, nat)>, start: nat, cur: Seq<char>)
    requires
        runs_state(d, toks, start, cur),
        alphanumeric(x),
    ensures
        runs_state(d.push(x), toks, start, cur.push(x)),
{
    let c = d.push(x);
    let s0 = d.len() - cur.len();
    let n = d.len() as int;
    assert(cur.push(x) =~= c.subrange(s0, c.len() as int));
    assert forall|i: int| s0 <= i < c.len() implies alphanumeric(#[trigger] c[i]) by {
        if i < n {
            assert(c[i] == d[i]);
        }
    }
    if s0 > 0 {
        assert(c[s0 - 1] == d[s0 - 1]);
    }
    assert(c.take(s0) =~= d.take(s0));
    assert forall|k: int| 0 <= k < toks.len() implies run_token_before(c, #[trigger] toks[k], c.len() as int) by {
        assert(run_token_before(d, toks[k], d.len() as int));
        let (s, e) = choose|s: int, e: int| alnum_run(d, s, e) && e < d.len() && toks[k] == #[trigger] run_token(d, s, e);
        lemma_runs_push(d, x, s, e);
        assert(alnum_run(c, s, e));
        assert(toks[k] == run_token(c, s, e));
    }
    assert forall|s: int, e: int| alnum_run(c, s, e) && e < c.len() implies exists|k: int| 0 <= k < toks.len()
        && #[trigger] toks[k] == run_token(c, s, e) by {
        lemma_runs_push(d, x, s, e);
        if e == n {
            assert(c[e] == x);
        } else {
            let k = choose|k: int| 0 <= k < toks.len() && #[trigger] toks[k] == run_token(d, s, e);
        }
    }
    assert(runs_state(c, toks, start, cur.push(x)));
}

/// Any other character ends the trailing run: a nonempty one becomes a word.
proof fn lemma_runs_state_sep(d: Seq<char>, x: char, toks: Seq<(Seq<char>, nat)>, start: nat, cur: Seq<char>, next: nat)
    requires
        runs_state(d, toks, start, cur),
        !alphanumeric(x),
        next == byte_at(d.push(x), (d.len() + 1) as int),
    ensures
        runs_state(d.push(x), if cur.len() > 0 { toks.push((cur, start)) } else { toks }, next, seq![]),
{
    let c = d.push(x);
    let s0 = d.len() - cur.len();
    let n = d.len() as int;
    let toks2 = if cur.len() > 0 { toks.push((cur, start)) } else { toks };
    assert(c.subrange(c.len() as int, c.len() as int) =~= Seq::<char>::empty());
    if cur.len() > 0 {
        assert(alnum_run(c, s0, n)) by {
            assert forall|i: int| s0 <= i < n implies alphanumeric(#[trigger] c[i]) by {
                assert(c[i] == d[i]);
            }
            if s0 > 0 {
                assert(c[s0 - 1] == d[s0 - 1]);
            }
            assert(c[n] == x);
        }
        lemma_runs_push(d, x, s0, n);
        assert((cur, start) == run_token(c, s0, n));
    }
    assert forall|k: int| 0 <= k < toks2.len() implies run_token_before(c, #[trigger] toks2[k], c.len() as int) by {
        if k < toks.len() {
            assert(toks2[k] == toks[k]);
            assert(run_token_before(d, toks[k], d.len() as int));
            let (s, e) = choose|s: int, e: int| alnum_run(d, s, e) && e < d.len() && toks[k] == #[trigger] run_token(d, s, e);
            lemma_runs_push(d, x, s, e);
            assert(alnum_run(c, s, e));
            assert(toks2[k] == run_token(c, s, e));
        } else {
            assert(toks2[k] == run_token(c, s0, n));
            assert(n < c.len());
        }
    }
    assert forall|s: int, e: int| alnum_run(c, s, e) && e < c.len() implies exists|k: int| 0 <= k < toks2.len()
        && #[trigger] toks2[k] == run_token(c, s, e) by {
        lemma_runs_push(d, x, s, e);
        if e == n {
            assert forall|i: int| s <= i < n implies alphanumeric(#[trigger] d[i]) by {
                assert(c[i] == d[i]);
            }
            if s > 0 {
                assert(c[s - 1] == d[s - 1]);
            }
            lemma_run_at_end(d, s0, s);
            if cur.len() == 0 {
                assert(c[n - 1] == d[n - 1]);
            }
            assert(toks2[toks.len() as int] == run_token(c, s0, n));
        } else {
            let k = choose|k: int| 0 <= k < toks.len() && #[trigger] toks[k] == run_token(d, s, e);
            assert(toks2[k] == toks[k]);
        }
    }
}

/// The scan of `c` holds exactly the runs ended so far, and the trailing run.
proof fn lemma_scan_matches_runs(c: Seq<char>)
    ensures
        runs_state(c, token_scan(c).0, token_scan(c).1, token_scan(c).2),
    decreases c.len(),
{
    if c.len() == 0 {
        assert(c.subrange(0, 0) =~= Seq::<char>::empty());
        assert(c.take(0) =~= Seq::<char>::empty());
    } else {
        let d = c.drop_last();
        let x = c.last();
        assert(d.push(x) =~= c);
        lemma_scan_matches_runs(d);
        let (toks, start, cur, off) = token_scan(d);
        if alphanumeric(x) {
            lemma_runs_state_alnum(d, x, toks, start, cur);
        } else {
            lemma_token_offset(c);
            lemma_token_scan_increasing(c);
            assert(c.take(c.len() as int) =~= c);
            lemma_runs_state_sep(d, x, toks, start, cur, token_scan(c).1);
        }
    }
}

/// The tokenizer law: the words of a text are exactly its maximal runs of
/// alphanumeric characters, each with the byte offset where it starts in the
/// text's UTF-8 encoding, and they come in text order.
pub proof fn lemma_tokens_are_runs(chars: Seq<char>)
    ensures
        forall|k: int| 0 <= k < tokens(chars).len() ==> run_token_of(chars, #[trigger] tokens(chars)[k]),
        forall|s: int, e: int| alnum_run(chars, s, e) ==> exists|k: int| 0 <= k < tokens(chars).len()
            && #[trigger] tokens(chars)[k] == run_token(chars, s, e),
        forall|a: int, b: int| 0 <= a < b < tokens(chars).len() ==> (#[trigger] tokens(chars)[a]).1 < (#[trigger] tokens(chars)[b]).1,
{
    lemma_scan_matches_runs(chars);
    lemma_tokens_increasing(chars);
    let (toks, start, cur, off) = token_scan(chars);
    assert(runs_state(chars, toks, start, cur));
    let n = chars.len() as int;
    let s0 = n - cur.len();
    let t = tokens(chars);
    assert(chars.take(n) =~= chars);
    assert forall|k: int| 0 <= k < t.len() implies run_token_of(chars, #[trigger] t[k]) by {
        if k < toks.len() {
            assert(t[k] == toks[k]);
            assert(run_token_before(chars, toks[k], n));
            let (s, e) = choose|s: int, e: int| alnum_run(chars, s, e) && e < chars.len() && toks[k] == #[trigger] run_token(chars, s, e);
            assert(t[k] == run_token(chars, s, e));
        } else {
            assert(cur.len() > 0);
            assert(t[k] == (cur, start));
            assert(alnum_run(chars, s0, n));
            assert(t[k] == run_token(chars, s0, n));
        }
    }
    assert forall|s: int, e: int| alnum_run(chars, s, e) implies exists|k: int| 0 <= k < t.len()
        && #[trigger] t[k] == run_token(chars, s, e) by {
        if e < n {
            let k = choose|k: int| 0 <= k < toks.len() && #[trigger] toks[k] == run_token(chars, s, e);
            assert(t[k] == toks[k]);
        } else {
            lemma_run_at_end(chars, s0, s);
            if cur.len() == 0 {
                assert(alphanumeric(chars[n - 1]));
            }
            assert(t[toks.len() as int] == (cur, start));
            assert(t[toks.len() as int] == run_token(chars, s0, n));
        }
    }
}

} // verus!
