//! Building the positional index: tokenizing blocks of text, collecting each
//! term's positions per block, and writing the index out as bytes.
use vstd::prelude::*;
use vstd::utf8::encode_utf8;

use vstd::hash_map::StringHashMap;

use crate::skanda::compression::{encode_inverted_entry, entries_sorted, entry_bytes};
use crate::skanda::index_file::{blocks_valid, index_consistent, index_fits, lemma_index_roundtrip, parse_index};
use crate::pfr::compression::sorted_ids;
use crate::pfr::indexer::{block_ref_bytes, block_refs_bytes, BlockRef};
use crate::text::{alphanumeric, from_utf8_lossy, is_alphanumeric, lossy_text, lowercase, push_char, str_eq, to_lowercase};

verus! {

/// Common English function words that carry no weight in a query.
pub open spec fn stop_word(w: Seq<char>) -> bool {
    ||| w == "a"@ ||| w == "an"@ ||| w == "and"@ ||| w == "are"@ ||| w == "as"@ ||| w == "at"@
    ||| w == "be"@ ||| w == "but"@ ||| w == "by"@ ||| w == "for"@ ||| w == "if"@ ||| w == "in"@
    ||| w == "into"@ ||| w == "is"@ ||| w == "it"@ ||| w == "no"@ ||| w == "not"@ ||| w == "of"@
    ||| w == "on"@ ||| w == "or"@ ||| w == "such"@ ||| w == "that"@ ||| w == "the"@
    ||| w == "their"@ ||| w == "then"@ ||| w == "there"@ ||| w == "these"@ ||| w == "they"@
    ||| w == "this"@ ||| w == "to"@ ||| w == "was"@ ||| w == "will"@ ||| w == "with"@
}

/// Whether `w` is a stop word (compared as is; callers pass lowercase words).
pub fn is_stop_word(w: &str) -> (r: bool)
    ensures
        r == stop_word(w@),
{
    str_eq(w, "a") || str_eq(w, "an") || str_eq(w, "and") || str_eq(w, "are") || str_eq(w, "as")
        || str_eq(w, "at") || str_eq(w, "be") || str_eq(w, "but") || str_eq(w, "by") || str_eq(
        w,
        "for",
    ) || str_eq(w, "if") || str_eq(w, "in") || str_eq(w, "into") || str_eq(w, "is") || str_eq(
        w,
        "it",
    ) || str_eq(w, "no") || str_eq(w, "not") || str_eq(w, "of") || str_eq(w, "on") || str_eq(
        w,
        "or",
    ) || str_eq(w, "such") || str_eq(w, "that") || str_eq(w, "the") || str_eq(w, "their")
        || str_eq(w, "then") || str_eq(w, "there") || str_eq(w, "these") || str_eq(w, "they")
        || str_eq(w, "this") || str_eq(w, "to") || str_eq(w, "was") || str_eq(w, "will") || str_eq(
        w,
        "with",
    )
}

/// The extensions, lowercase, of the files a directory is indexed for.
pub open spec fn text_extension(e: Seq<char>) -> bool {
    ||| e == "txt"@ ||| e == "md"@ ||| e == "csv"@ ||| e == "json"@ ||| e == "rs"@ ||| e == "py"@
    ||| e == "js"@
}

/// Whether a file with extension `ext` is indexed: its lowercase form is one
/// of the text extensions.
pub fn is_indexed_extension(ext: &str) -> (r: bool)
    ensures
        r == text_extension(lowercase(ext@)),
{
    let lower = to_lowercase(ext);
    let e = lower.as_str();
    str_eq(e, "txt") || str_eq(e, "md") || str_eq(e, "csv") || str_eq(e, "json") || str_eq(e, "rs")
        || str_eq(e, "py") || str_eq(e, "js")
}


/// The number of bytes `c` takes in UTF-8.
pub open spec fn utf8_width(c: char) -> nat {
    let v = c as u32;
    if v < 0x80 {
        1
    } else if v < 0x800 {
        2
    } else if v < 0x10000 {
        3
    } else {
        4
    }
}

/// The state of a tokenizer pass: the words found so far with their byte
/// offsets, the byte offset where the current run started, the current run of
/// alphanumeric characters, and the byte offset reached.
pub type TokenScan = (Seq<(Seq<char>, nat)>, nat, Seq<char>, nat);

/// One character: an alphanumeric one extends the current run; any other ends
/// it (a nonempty run becomes a word) and the next run starts after it.
pub open spec fn token_step(st: TokenScan, c: char) -> TokenScan {
    let (toks, start, cur, off) = st;
    let next = off + utf8_width(c);
    if alphanumeric(c) {
        (toks, start, cur.push(c), next)
    } else if cur.len() > 0 {
        (toks.push((cur, start)), next, seq![], next)
    } else {
        (toks, next, seq![], next)
    }
}

/// The tokenizer state after reading `chars`.
pub open spec fn token_scan(chars: Seq<char>) -> TokenScan
    decreases chars.len(),
{
    if chars.len() == 0 {
        (seq![], 0, seq![], 0)
    } else {
        token_step(token_scan(chars.drop_last()), chars.last())
    }
}

/// The words of a text, in order, each with the byte offset where it starts:
/// the maximal runs of alphanumeric characters.
pub open spec fn tokens(chars: Seq<char>) -> Seq<(Seq<char>, nat)> {
    let (toks, start, cur, off) = token_scan(chars);
    if cur.len() > 0 {
        toks.push((cur, start))
    } else {
        toks
    }
}

/// Where `x` first occurs in `s`.
pub open spec fn seq_index<A>(s: Seq<A>, x: A) -> Option<int>
    decreases s.len(),
{
    if s.len() == 0 {
        None
    } else {
        match seq_index(s.drop_last(), x) {
            Some(i) => Some(i),
            None => if s.last() == x {
                Some(s.len() - 1)
            } else {
                None
            },
        }
    }
}

/// `seq_index` finds the first occurrence, or reports that there is none.
pub proof fn lemma_seq_index<A>(s: Seq<A>, x: A)
    ensures
        match seq_index(s, x) {
            Some(i) => 0 <= i < s.len() && s[i] == x && forall|j: int| 0 <= j < i ==> s[j] != x,
            None => forall|j: int| 0 <= j < s.len() ==> s[j] != x,
        },
    decreases s.len(),
{
    if s.len() > 0 {
        let d = s.drop_last();
        lemma_seq_index(d, x);
        assert forall|j: int| 0 <= j < s.len() - 1 implies #[trigger] d[j] == s[j] by {}
        assert(s.last() == s[s.len() - 1]);
        match seq_index(d, x) {
            Some(i) => {
                assert forall|j: int| 0 <= j < i implies s[j] != x by {
                    assert(d[j] == s[j]);
                }
            },
            None => {
                assert forall|j: int| 0 <= j < s.len() - 1 implies s[j] != x by {
                    assert(d[j] == s[j]);
                }
            },
        }
    }
}

/// Where `w` first occurs among the keys of `groups`.
pub open spec fn group_index(groups: Seq<(Seq<char>, Seq<u32>)>, w: Seq<char>) -> Option<int>
    decreases groups.len(),
{
    if groups.len() == 0 {
        None
    } else {
        match group_index(groups.drop_last(), w) {
            Some(i) => Some(i),
            None => if groups.last().0 == w {
                Some(groups.len() - 1)
            } else {
                None
            },
        }
    }
}

/// The words of `toks` grouped: each distinct word once, in order of first
/// occurrence, with the byte offsets (as 32-bit values) of all its occurrences.
pub open spec fn group_tokens(toks: Seq<(Seq<char>, nat)>) -> Seq<(Seq<char>, Seq<u32>)>
    decreases toks.len(),
{
    if toks.len() == 0 {
        seq![]
    } else {
        let g = group_tokens(toks.drop_last());
        let (w, p) = toks.last();
        match group_index(g, w) {
            Some(i) => g.update(i, (w, g[i].1.push(p as u32))),
            None => g.push((w, seq![p as u32])),
        }
    }
}

/// The terms of a block of text: its lowercase form tokenized and grouped.
pub open spec fn block_terms(text: Seq<char>) -> Seq<(Seq<char>, Seq<u32>)> {
    group_tokens(tokens(lowercase(text)))
}

/// The byte offset of each character boundary is below 2^32 for every word start.
proof fn lemma_token_scan_bounds(chars: Seq<char>)
    ensures
        ({
            let (toks, start, cur, off) = token_scan(chars);
            &&& start <= off
            &&& forall|k: int| 0 <= k < toks.len() ==> (#[trigger] toks[k]).1 <= off
        }),
    decreases chars.len(),
{
    if chars.len() > 0 {
        lemma_token_scan_bounds(chars.drop_last());
    }
}

/// The keys of a grouping are distinct.
proof fn lemma_group_index_found(groups: Seq<(Seq<char>, Seq<u32>)>, w: Seq<char>)
    ensures
        match group_index(groups, w) {
            Some(i) => 0 <= i < groups.len() && groups[i].0 == w && forall|j: int| 0 <= j < i ==> (#[trigger] groups[j]).0 != w,
            None => forall|j: int| 0 <= j < groups.len() ==> (#[trigger] groups[j]).0 != w,
        },
    decreases groups.len(),
{
    if groups.len() > 0 {
        let d = groups.drop_last();
        lemma_group_index_found(d, w);
        assert forall|j: int| 0 <= j < groups.len() - 1 implies #[trigger] d[j] == groups[j] by {}
        assert(groups.last() == groups[groups.len() - 1]);
        match group_index(d, w) {
            Some(i) => {
                assert forall|j: int| 0 <= j < i implies (#[trigger] groups[j]).0 != w by {
                    assert(d[j] == groups[j]);
                }
            },
            None => {
                assert forall|j: int| 0 <= j < groups.len() - 1 implies (#[trigger] groups[j]).0 != w by {
                    assert(d[j] == groups[j]);
                }
            },
        }
    }
}

/// A character takes `utf8_width` bytes in UTF-8.
proof fn lemma_encode_char_len(c: char)
    ensures
        vstd::utf8::encode_scalar(c as u32).len() == utf8_width(c),
{
    vstd::utf8::char_is_scalar(c);
}

/// UTF-8 encoding is done character by character.
proof fn lemma_encode_concat(a: Seq<char>, b: Seq<char>)
    ensures
        vstd::utf8::encode_utf8(a + b) == vstd::utf8::encode_utf8(a) + vstd::utf8::encode_utf8(b),
    decreases a.len(),
{
    if a.len() > 0 {
        assert((a + b).drop_first() =~= a.drop_first() + b);
        lemma_encode_concat(a.drop_first(), b);
        assert(vstd::utf8::encode_utf8(a + b) =~= vstd::utf8::encode_utf8(a) + vstd::utf8::encode_utf8(b));
    } else {
        assert(a + b =~= b);
        assert(vstd::utf8::encode_utf8(a) =~= Seq::<u8>::empty());
        assert(vstd::utf8::encode_utf8(a + b) =~= vstd::utf8::encode_utf8(a) + vstd::utf8::encode_utf8(b));
    }
}

/// The tokenizer's byte offset is the length of the UTF-8 encoding read so far.
pub(crate) proof fn lemma_token_offset(chars: Seq<char>)
    ensures
        token_scan(chars).3 == vstd::utf8::encode_utf8(chars).len(),
        token_scan(chars).1 <= token_scan(chars).3,
    decreases chars.len(),
{
    if chars.len() > 0 {
        lemma_token_offset(chars.drop_last());
        lemma_encode_concat(chars.drop_last(), seq![chars.last()]);
        assert(chars.drop_last() + seq![chars.last()] =~= chars);
        lemma_encode_char_len(chars.last());
        assert(seq![chars.last()].drop_first() =~= Seq::<char>::empty());
        let one = seq![chars.last()];
        assert(one[0] == chars.last());
        assert(one.drop_first() =~= Seq::<char>::empty());
        assert(vstd::utf8::encode_utf8(Seq::<char>::empty()) =~= Seq::<u8>::empty());
        assert(vstd::utf8::encode_utf8(one) == vstd::utf8::encode_scalar(one[0] as u32) + vstd::utf8::encode_utf8(one.drop_first()));
        assert(vstd::utf8::encode_utf8(one) =~= vstd::utf8::encode_scalar(chars.last() as u32));
    }
}

/// A prefix encodes to no more bytes than the whole.
proof fn lemma_encode_prefix(chars: Seq<char>, k: int)
    requires
        0 <= k <= chars.len(),
    ensures
        vstd::utf8::encode_utf8(chars.take(k)).len() <= vstd::utf8::encode_utf8(chars).len(),
{
    lemma_encode_concat(chars.take(k), chars.skip(k));
    assert(chars.take(k) + chars.skip(k) =~= chars);
}

/// Replacing an entry by one with the same key leaves every lookup as it was.
proof fn lemma_group_index_update(g: Seq<(Seq<char>, Seq<u32>)>, i: int, v: (Seq<char>, Seq<u32>))
    requires
        0 <= i < g.len(),
        v.0 == g[i].0,
    ensures
        forall|x: Seq<char>| #[trigger] group_index(g.update(i, v), x) == group_index(g, x),
    decreases g.len(),
{
    let g2 = g.update(i, v);
    assert forall|x: Seq<char>| #[trigger] group_index(g2, x) == group_index(g, x) by {
        if i < g.len() - 1 {
            assert(g2.drop_last() =~= g.drop_last().update(i, v));
            lemma_group_index_update(g.drop_last(), i, v);
            assert(group_index(g2.drop_last(), x) == group_index(g.drop_last(), x));
        } else {
            assert(g2.drop_last() =~= g.drop_last());
        }
    }
}

/// The UTF-8 width of a character, from its scalar value.
fn char_width(c: char) -> (w: usize)
    ensures
        w == utf8_width(c),
{
    let v = c as u32;
    if v < 0x80 {
        1
    } else if v < 0x800 {
        2
    } else if v < 0x10000 {
        3
    } else {
        4
    }
}

/// The view of grouped words.
pub open spec fn groups_view(g: Seq<(String, Vec<u32>)>) -> Seq<(Seq<char>, Seq<u32>)> {
    g.map_values(|e: (String, Vec<u32>)| (e.0@, e.1@))
}

/// Records one occurrence of `word` at byte `pos`.
fn add_occurrence(
    index: &mut StringHashMap<usize>,
    groups: &mut Vec<(String, Vec<u32>)>,
    word: String,
    pos: u32,
)
    requires
        forall|w: Seq<char>| #[trigger] old(index)@.contains_key(w) <==> group_index(groups_view(old(groups)@), w) is Some,
        forall|w: Seq<char>| #[trigger] old(index)@.contains_key(w) ==> group_index(groups_view(old(groups)@), w) == Some(old(index)@[w] as int),
    ensures
        groups_view(final(groups)@) == match group_index(groups_view(old(groups)@), word@) {
            Some(i) => groups_view(old(groups)@).update(i, (word@, groups_view(old(groups)@)[i].1.push(pos))),
            None => groups_view(old(groups)@).push((word@, seq![pos])),
        },
        forall|w: Seq<char>| #[trigger] final(index)@.contains_key(w) <==> group_index(groups_view(final(groups)@), w) is Some,
        forall|w: Seq<char>| #[trigger] final(index)@.contains_key(w) ==> group_index(groups_view(final(groups)@), w) == Some(final(index)@[w] as int),
{
    let ghost gv = groups_view(groups@);
    proof {
        lemma_group_index_found(gv, word@);
    }
    match index.get(word.as_str()) {
        Some(i) => {
            let i = *i;
            assert(group_index(gv, word@) == Some(i as int));
            groups[i].1.push(pos);
            proof {
                let v = (word@, gv[i as int].1.push(pos));
                assert(groups_view(groups@) =~= gv.update(i as int, v));
                lemma_group_index_update(gv, i as int, v);
            }
        },
        None => {
            let i = groups.len();
            let key = word.clone();
            index.insert(key, i);
            let mut ps: Vec<u32> = Vec::new();
            ps.push(pos);
            groups.push((word, ps));
            proof {
                assert(groups_view(groups@) =~= gv.push((word@, seq![pos])));
                assert(groups_view(groups@).drop_last() =~= gv);
            }
        },
    }
}

/// Splits a lowercase text into words (maximal runs of alphanumeric characters)
/// and groups them: each distinct word once, in order of first occurrence, with
/// the byte offsets (as 32-bit values) of its occurrences.
pub fn group_words(lower: &str) -> (res: (Vec<(String, Vec<u32>)>, u16))
    ensures
        groups_view(res.0@) == group_tokens(tokens(lower@)),
        res.1 == saturated_count(tokens(lower@).len()),
{
    let mut ntoks: u16 = 0;
    let mut index: StringHashMap<usize> = StringHashMap::new();
    let mut groups: Vec<(String, Vec<u32>)> = Vec::new();
    let mut start: usize = 0;
    let mut off: usize = 0;
    let mut cur = String::new();
    let total = lower.as_bytes().len();
    proof {
        assert(lower@.take(0) =~= Seq::<char>::empty());
        assert(groups_view(groups@) =~= Seq::<(Seq<char>, Seq<u32>)>::empty());
    }
    for c in it: lower.chars()
        invariant
            it.seq() == lower@,
            total == vstd::utf8::encode_utf8(lower@).len(),
            token_scan(it.seq().take(it.index() as int)).1 == start,
            token_scan(it.seq().take(it.index() as int)).2 == cur@,
            token_scan(it.seq().take(it.index() as int)).3 == off,
            groups_view(groups@) == group_tokens(token_scan(it.seq().take(it.index() as int)).0),
            ntoks == saturated_count(token_scan(it.seq().take(it.index() as int)).0.len()),
            forall|w: Seq<char>| #[trigger] index@.contains_key(w) <==> group_index(groups_view(groups@), w) is Some,
            forall|w: Seq<char>| #[trigger] index@.contains_key(w) ==> group_index(groups_view(groups@), w) == Some(index@[w] as int),
    {
        let ghost i = it.index() as int;
        let ghost pre = it.seq().take(i);
        let ghost post = it.seq().take(i + 1);
        proof {
            assert(post.drop_last() =~= pre);
            assert(post.last() == c);
            lemma_token_offset(post);
            lemma_encode_prefix(lower@, i + 1);
        }
        let w = char_width(c);
        if is_alphanumeric(c) {
            push_char(&mut cur, c);
        } else {
            if !cur.as_str().is_empty() {
                let word = cur;
                cur = String::new();
                let ghost toks = token_scan(pre).0;
                add_occurrence(&mut index, &mut groups, word, start as u32);
                ntoks = if ntoks < 0xFFFF { ntoks + 1 } else { ntoks };
                proof {
                    assert(toks.push((word@, start as nat)).drop_last() =~= toks);
                }
            } else {
                cur = String::new();
            }
            start = off + w;
        }
        off = off + w;
    }
    proof {
        assert(lower@.take(lower@.len() as int) =~= lower@);
    }
    if !cur.as_str().is_empty() {
        let ghost toks = token_scan(lower@).0;
        let word = cur;
        add_occurrence(&mut index, &mut groups, word, start as u32);
        ntoks = if ntoks < 0xFFFF { ntoks + 1 } else { ntoks };
        proof {
            assert(toks.push((word@, start as nat)).drop_last() =~= toks);
        }
    }
    (groups, ntoks)
}

/// A count as a block records it: cut off at `u16::MAX`.
pub open spec fn saturated_count(n: nat) -> u16 {
    if n < 0xFFFF {
        n as u16
    } else {
        0xFFFF
    }
}


/// Token offsets strictly increase, and all lie before the current run's start.
pub(crate) proof fn lemma_token_scan_increasing(chars: Seq<char>)
    ensures
        ({
            let (toks, start, cur, off) = token_scan(chars);
            &&& start <= off
            &&& forall|a: int, b: int| 0 <= a < b < toks.len() ==> (#[trigger] toks[a]).1 < (#[trigger] toks[b]).1
            &&& forall|a: int| 0 <= a < toks.len() ==> (#[trigger] toks[a]).1 < start
            &&& (cur.len() == 0 ==> start == off)
        }),
    decreases chars.len(),
{
    if chars.len() > 0 {
        lemma_token_scan_increasing(chars.drop_last());
        let (toks, start, cur, off) = token_scan(chars.drop_last());
        let (toks2, start2, cur2, off2) = token_scan(chars);
        assert forall|a: int, b: int| 0 <= a < b < toks2.len() implies (#[trigger] toks2[a]).1 < (#[trigger] toks2[b]).1 by {
            if b < toks.len() {
                assert(toks2[a] == toks[a] && toks2[b] == toks[b]);
            } else {
                assert(toks2[a] == toks[a]);
            }
        }
        assert forall|a: int| 0 <= a < toks2.len() implies (#[trigger] toks2[a]).1 < start2 by {
            if a < toks.len() {
                assert(toks2[a] == toks[a]);
            }
        }
    }
}

/// The tokens' offsets strictly increase and lie below the text's byte length.
pub proof fn lemma_tokens_increasing(chars: Seq<char>)
    ensures
        forall|a: int, b: int| 0 <= a < b < tokens(chars).len() ==> (#[trigger] tokens(chars)[a]).1 < (#[trigger] tokens(chars)[b]).1,
        forall|a: int| 0 <= a < tokens(chars).len() ==> (#[trigger] tokens(chars)[a]).1 < vstd::utf8::encode_utf8(chars).len(),
{
    lemma_token_scan_increasing(chars);
    lemma_token_offset(chars);
    lemma_token_scan_run(chars);
    let (toks, start, cur, off) = token_scan(chars);
    let t = tokens(chars);
    assert forall|a: int, b: int| 0 <= a < b < t.len() implies (#[trigger] t[a]).1 < (#[trigger] t[b]).1 by {
        if b < toks.len() {
            assert(t[a] == toks[a] && t[b] == toks[b]);
        } else {
            assert(t[a] == toks[a]);
        }
    }
    assert forall|a: int| 0 <= a < t.len() implies (#[trigger] t[a]).1 < off by {
        if a < toks.len() {
            assert(t[a] == toks[a]);
        }
    }
}

/// A nonempty current run has bytes: its start lies before the offset reached.
proof fn lemma_token_scan_run(chars: Seq<char>)
    ensures
        token_scan(chars).2.len() > 0 ==> token_scan(chars).1 < token_scan(chars).3,
    decreases chars.len(),
{
    if chars.len() > 0 {
        lemma_token_scan_run(chars.drop_last());
        lemma_token_scan_increasing(chars.drop_last());
    }
}

/// Grouping keeps each word's offsets in order: when the tokens' offsets strictly
/// increase and fit in 32 bits, every group's offsets strictly increase.
/// Grouping keeps each word once.
pub proof fn lemma_group_keys_distinct(toks: Seq<(Seq<char>, nat)>)
    ensures
        forall|g1: int, g2: int| 0 <= g1 < g2 < group_tokens(toks).len() ==> (#[trigger] group_tokens(toks)[g1]).0 != (#[trigger] group_tokens(toks)[g2]).0,
    decreases toks.len(),
{
    if toks.len() > 0 {
        let d = toks.drop_last();
        lemma_group_keys_distinct(d);
        let g = group_tokens(d);
        let (w, p) = toks.last();
        lemma_group_index_found(g, w);
        let g2 = group_tokens(toks);
        match group_index(g, w) {
            Some(i) => {
                assert forall|g1: int, gg: int| 0 <= g1 < gg < g2.len() implies (#[trigger] g2[g1]).0 != (#[trigger] g2[gg]).0 by {
                    assert(g2[g1].0 == g[g1].0 && g2[gg].0 == g[gg].0);
                }
            },
            None => {
                assert forall|g1: int, gg: int| 0 <= g1 < gg < g2.len() implies (#[trigger] g2[g1]).0 != (#[trigger] g2[gg]).0 by {
                    if gg < g.len() {
                        assert(g2[g1] == g[g1] && g2[gg] == g[gg]);
                    } else {
                        assert(g2[g1] == g[g1]);
                    }
                }
            },
        }
    }
}

pub proof fn lemma_group_sorted(toks: Seq<(Seq<char>, nat)>)
    requires
        forall|a: int, b: int| 0 <= a < b < toks.len() ==> (#[trigger] toks[a]).1 < (#[trigger] toks[b]).1,
        forall|a: int| 0 <= a < toks.len() ==> (#[trigger] toks[a]).1 <= u32::MAX,
    ensures
        forall|g: int| 0 <= g < group_tokens(toks).len() ==> sorted_ids(#[trigger] group_tokens(toks)[g].1),
        forall|g: int, k: int| 0 <= g < group_tokens(toks).len() && 0 <= k < group_tokens(toks)[g].1.len()
            ==> exists|a: int| 0 <= a < toks.len() && #[trigger] group_tokens(toks)[g].1[k] == toks[a].1,
        forall|g1: int, g2: int| 0 <= g1 < g2 < group_tokens(toks).len() ==> (#[trigger] group_tokens(toks)[g1]).0 != (#[trigger] group_tokens(toks)[g2]).0,
    decreases toks.len(),
{
    if toks.len() > 0 {
        let d = toks.drop_last();
        assert forall|a: int, b: int| 0 <= a < b < d.len() implies (#[trigger] d[a]).1 < (#[trigger] d[b]).1 by {
            assert(d[a] == toks[a] && d[b] == toks[b]);
        }
        assert forall|a: int| 0 <= a < d.len() implies (#[trigger] d[a]).1 <= u32::MAX by {
            assert(d[a] == toks[a]);
        }
        lemma_group_sorted(d);
        let g = group_tokens(d);
        let (w, p) = toks.last();
        lemma_group_index_found(g, w);
        let g2 = group_tokens(toks);
        assert forall|x: int, k: int| 0 <= x < g.len() && 0 <= k < g[x].1.len() implies g[x].1[k] < p by {
            let a = choose|a: int| 0 <= a < d.len() && #[trigger] g[x].1[k] == d[a].1;
            assert(d[a] == toks[a]);
            assert(toks[toks.len() - 1] == toks.last());
        }
        match group_index(g, w) {
            Some(i) => {
                assert forall|x: int| 0 <= x < g2.len() implies sorted_ids(#[trigger] g2[x].1) by {
                    if x == i {
                        let ps = g[i].1.push(p as u32);
                        assert(g2[x].1 == ps);
                        assert forall|a: int, b: int| 0 <= a <= b < ps.len() implies ps[a] <= ps[b] by {
                            if b == ps.len() - 1 && a < b {
                                assert(g[i].1[a] < p);
                            }
                        }
                    } else {
                        assert(g2[x] == g[x]);
                    }
                }
                assert forall|x: int, k: int| 0 <= x < g2.len() && 0 <= k < g2[x].1.len() implies exists|a: int| 0 <= a < toks.len() && #[trigger] g2[x].1[k] == toks[a].1 by {
                    if x == i && k == g2[x].1.len() - 1 {
                        assert(g2[x].1[k] == toks[toks.len() - 1].1);
                    } else {
                        assert(g2[x].1[k] == g[x].1[k]);
                        let a = choose|a: int| 0 <= a < d.len() && #[trigger] g[x].1[k] == d[a].1;
                        assert(d[a] == toks[a]);
                    }
                }
                assert forall|g1: int, gg: int| 0 <= g1 < gg < g2.len() implies (#[trigger] g2[g1]).0 != (#[trigger] g2[gg]).0 by {
                    assert(g2[g1].0 == g[g1].0 && g2[gg].0 == g[gg].0);
                }
            },
            None => {
                assert forall|x: int| 0 <= x < g2.len() implies sorted_ids(#[trigger] g2[x].1) by {
                    if x < g.len() {
                        assert(g2[x] == g[x]);
                    }
                }
                assert forall|x: int, k: int| 0 <= x < g2.len() && 0 <= k < g2[x].1.len() implies exists|a: int| 0 <= a < toks.len() && #[trigger] g2[x].1[k] == toks[a].1 by {
                    if x == g.len() {
                        assert(g2[x].1[k] == toks[toks.len() - 1].1);
                    } else {
                        assert(g2[x] == g[x]);
                        let a = choose|a: int| 0 <= a < d.len() && #[trigger] g[x].1[k] == d[a].1;
                        assert(d[a] == toks[a]);
                    }
                }
                assert forall|g1: int, gg: int| 0 <= g1 < gg < g2.len() implies (#[trigger] g2[g1]).0 != (#[trigger] g2[gg]).0 by {
                    if gg < g.len() {
                        assert(g2[g1] == g[g1] && g2[gg] == g[gg]);
                    } else {
                        assert(g2[g1] == g[g1]);
                    }
                }
            },
        }
    }
}


// ---------------------------------------------------------------------------
// The index
// ---------------------------------------------------------------------------

/// The four bytes that open an index file ("SKDX").
pub open spec fn index_magic() -> Seq<u8> {
    seq![0x53u8, 0x4Bu8, 0x44u8, 0x58u8]
}

/// The index format version this library writes and reads.
pub const INDEX_VERSION: u8 = 1;

/// A block of a file: (file id, byte offset, byte length, number of words).
pub type Block = (u32, u64, u32, u16);

/// `v` in two little-endian bytes.
pub open spec fn le16(v: u16) -> Seq<u8> {
    seq![(v % 256) as u8, (v / 256) as u8]
}

/// `v` in four little-endian bytes.
pub open spec fn le32(v: u32) -> Seq<u8> {
    seq![(v % 256) as u8, ((v / 256) % 256) as u8, ((v / 0x1_0000) % 256) as u8, (v / 0x100_0000) as u8]
}

/// `v` in eight little-endian bytes.
pub open spec fn le64(v: u64) -> Seq<u8> {
    le32((v % 0x1_0000_0000) as u32) + le32((v / 0x1_0000_0000) as u32)
}

/// A string as stored: its UTF-8 length in two bytes (cut to 16 bits), then its bytes.
pub open spec fn string_bytes(s: Seq<char>) -> Seq<u8> {
    le16((encode_utf8(s).len() % 0x1_0000) as u16) + encode_utf8(s)
}

/// The stored list of file paths.
pub open spec fn files_bytes(files: Seq<Seq<char>>) -> Seq<u8>
    decreases files.len(),
{
    if files.len() == 0 {
        seq![]
    } else {
        files_bytes(files.drop_last()) + string_bytes(files.last())
    }
}

/// One stored block: file id, offset, length, word count.
pub open spec fn block_bytes(b: Block) -> Seq<u8> {
    le32(b.0) + le64(b.1) + le32(b.2) + le16(b.3)
}

/// The stored list of blocks.
pub open spec fn blocks_bytes(blocks: Seq<Block>) -> Seq<u8>
    decreases blocks.len(),
{
    if blocks.len() == 0 {
        seq![]
    } else {
        blocks_bytes(blocks.drop_last()) + block_bytes(blocks.last())
    }
}

/// One stored term: the term, the length of its encoded posting list (cut to
/// 32 bits), the posting list.
pub open spec fn term_bytes(term: Seq<char>, postings: Seq<(u32, Seq<u32>)>) -> Seq<u8> {
    string_bytes(term) + le32((entry_bytes(postings, 0).len() % 0x1_0000_0000) as u32) + entry_bytes(postings, 0)
}

/// The stored terms with their posting lists.
pub open spec fn terms_bytes(terms: Seq<Seq<char>>, postings: Seq<Seq<(u32, Seq<u32>)>>) -> Seq<u8>
    decreases terms.len(),
{
    if terms.len() == 0 {
        seq![]
    } else {
        terms_bytes(terms.drop_last(), postings) + term_bytes(terms.last(), postings[terms.len() - 1])
    }
}

/// A count as stored: four bytes, cut to 32 bits.
pub open spec fn count_bytes(n: nat) -> Seq<u8> {
    le32((n % 0x1_0000_0000) as u32)
}

/// The whole index file: magic, version, files, blocks, terms.
pub open spec fn index_bytes(
    files: Seq<Seq<char>>,
    blocks: Seq<Block>,
    terms: Seq<Seq<char>>,
    postings: Seq<Seq<(u32, Seq<u32>)>>,
) -> Seq<u8> {
    index_magic() + seq![INDEX_VERSION] + count_bytes(files.len()) + files_bytes(files) + count_bytes(
        blocks.len(),
    ) + blocks_bytes(blocks) + count_bytes(terms.len()) + terms_bytes(terms, postings)
}

/// The blocks without their word counts.
pub open spec fn block_refs(blocks: Seq<Block>) -> Seq<BlockRef> {
    blocks.map_values(|b: Block| (b.0, b.1, b.2))
}

/// The first engine's index file: files, blocks (without word counts), terms.
pub open spec fn ref_index_bytes(
    files: Seq<Seq<char>>,
    blocks: Seq<BlockRef>,
    terms: Seq<Seq<char>>,
    postings: Seq<Seq<(u32, Seq<u32>)>>,
) -> Seq<u8> {
    count_bytes(files.len()) + files_bytes(files) + count_bytes(blocks.len()) + block_refs_bytes(blocks)
        + count_bytes(terms.len()) + terms_bytes(terms, postings)
}

/// The index after adding one block's grouped words under block id `b`: a word
/// already indexed gets `(b, positions)` appended to its posting list; a new
/// word becomes a new term with that one entry.
pub open spec fn add_groups(
    terms: Seq<Seq<char>>,
    postings: Seq<Seq<(u32, Seq<u32>)>>,
    groups: Seq<(Seq<char>, Seq<u32>)>,
    b: u32,
) -> (Seq<Seq<char>>, Seq<Seq<(u32, Seq<u32>)>>)
    decreases groups.len(),
{
    if groups.len() == 0 {
        (terms, postings)
    } else {
        let (t, p) = add_groups(terms, postings, groups.drop_last(), b);
        let (w, ps) = groups.last();
        match seq_index(t, w) {
            Some(i) => (t, p.update(i, p[i].push((b, ps)))),
            None => (t.push(w), p.push(seq![(b, ps)])),
        }
    }
}

/// A positional index under construction.
pub struct Indexer {
    terms: Vec<String>,
    postings: Vec<Vec<(u32, Vec<u32>)>>,
    term_ids: StringHashMap<usize>,
    blocks: Vec<Block>,
    files: Vec<String>,
}

/// The posting lists, as plain values.
pub open spec fn postings_view(p: Seq<Vec<(u32, Vec<u32>)>>) -> Seq<Seq<(u32, Seq<u32>)>> {
    p.map_values(|l: Vec<(u32, Vec<u32>)>| l@.map_values(|e: (u32, Vec<u32>)| (e.0, e.1@)))
}

impl Indexer {
    /// The indexed terms, in order of first occurrence.
    pub closed spec fn terms(&self) -> Seq<Seq<char>> {
        strings_of(self.terms@)
    }

    /// Each term's posting list: (block id, byte offsets of the term in the block).
    pub closed spec fn postings(&self) -> Seq<Seq<(u32, Seq<u32>)>> {
        postings_view(self.postings@)
    }

    /// The blocks read so far.
    pub closed spec fn blocks(&self) -> Seq<Block> {
        self.blocks@
    }

    /// The files registered so far.
    pub closed spec fn files(&self) -> Seq<Seq<char>> {
        strings_of(self.files@)
    }

    /// Terms are distinct and each has a posting list; posting lists name
    /// existing blocks in increasing order, with offsets in order.
    pub closed spec fn wf(&self) -> bool {
        let t = self.terms();
        let p = self.postings();
        &&& t.len() == p.len()
        &&& forall|i: int, j: int| 0 <= i < j < t.len() ==> t[i] != t[j]
        &&& forall|w: Seq<char>| #[trigger] self.term_ids@.contains_key(w) <==> t.contains(w)
        &&& forall|w: Seq<char>| #[trigger] self.term_ids@.contains_key(w) ==> self.term_ids@[w] < t.len()
            && t[self.term_ids@[w] as int] == w
        &&& forall|i: int| 0 <= i < p.len() ==> entries_sorted(#[trigger] p[i], 0)
        &&& forall|i: int, k: int| 0 <= i < p.len() && 0 <= k < p[i].len() ==> (#[trigger] p[i][k]).0 < self.blocks@.len()
        &&& forall|i: int, j: int, k: int| 0 <= i < p.len() && 0 <= j < k < p[i].len() ==> (#[trigger] p[i][j]).0 < (#[trigger] p[i][k]).0
        &&& blocks_valid(self.blocks@, self.files@.len())
    }

    /// The index fits the file layout (see `index_fits`).
    pub open spec fn fits(&self) -> bool {
        index_fits(self.files(), self.blocks(), self.terms(), self.postings())
    }

    pub fn new() -> (ix: Self)
        ensures
            ix.wf(),
            ix.terms() == Seq::<Seq<char>>::empty(),
            ix.postings() == Seq::<Seq<(u32, Seq<u32>)>>::empty(),
            ix.blocks() == Seq::<Block>::empty(),
            ix.files() == Seq::<Seq<char>>::empty(),
    {
        let ix = Self {
            terms: Vec::new(),
            postings: Vec::new(),
            term_ids: StringHashMap::new(),
            blocks: Vec::new(),
            files: Vec::new(),
        };
        assert(ix.terms() =~= Seq::<Seq<char>>::empty());
        assert(ix.postings() =~= Seq::<Seq<(u32, Seq<u32>)>>::empty());
        assert(ix.files() =~= Seq::<Seq<char>>::empty());
        ix
    }

    /// The number of files registered.
    pub fn file_count(&self) -> (n: usize)
        ensures
            n == self.files().len(),
    {
        self.files.len()
    }

    /// The number of blocks indexed.
    pub fn block_count(&self) -> (n: usize)
        ensures
            n == self.blocks().len(),
    {
        self.blocks.len()
    }

    /// Registers the path of a file being indexed; its id is its place in the
    /// file list.
    pub fn add_file(&mut self, path: String) -> (id: usize)
        requires
            old(self).wf(),
        ensures
            id == old(self).files().len(),
            final(self).wf(),
            final(self).files() == old(self).files().push(path@),
            final(self).terms() == old(self).terms(),
            final(self).postings() == old(self).postings(),
            final(self).blocks() == old(self).blocks(),
    {
        let ghost f = self.files();
        let id = self.files.len();
        self.files.push(path);
        assert(self.files() =~= f.push(path@));
        id
    }
}

impl Indexer {
    /// Indexes one block of a file: lowercases its text, groups its words with
    /// their byte offsets, records the block under the next block id, and
    /// appends each word's offsets to its posting list. A block whose lowercase
    /// text does not fit 32-bit offsets is not indexed (the result is false).
    pub fn index_block(&mut self, file_id: u32, offset: u64, len: u32, text: &str) -> (indexed: bool)
        requires
            old(self).wf(),
            old(self).blocks().len() < u32::MAX,
            file_id < old(self).files().len(),
            offset + len <= u64::MAX,
        ensures
            final(self).wf(),
            final(self).files() == old(self).files(),
            indexed == (encode_utf8(lowercase(text@)).len() <= u32::MAX),
            indexed ==> final(self).blocks() == old(self).blocks().push(
                (file_id, offset, len, saturated_count(tokens(lowercase(text@)).len())),
            ),
            indexed ==> (final(self).terms(), final(self).postings()) == add_groups(
                old(self).terms(),
                old(self).postings(),
                block_terms(text@),
                old(self).blocks().len() as u32,
            ),
            !indexed ==> final(self).blocks() == old(self).blocks() && final(self).terms()
                == old(self).terms() && final(self).postings() == old(self).postings(),
    {
        let lower = to_lowercase(text);
        let nbytes = lower.as_str().as_bytes().len();
        if nbytes > 0xFFFF_FFFF {
            return false;
        }
        proof {
            lemma_tokens_increasing(lower@);
            lemma_group_sorted(tokens(lower@));
        }
        let (groups, word_count) = group_words(lower.as_str());
        let block_id = self.blocks.len() as u32;
        let ghost g = group_tokens(tokens(lower@));
        let ghost t0 = self.terms();
        let ghost p0 = self.postings();
        let ghost f0 = self.files();
        let ghost b0 = self.blocks();
        self.blocks.push((file_id, offset, len, word_count));
        let ghost mut done: nat = 0;
        for e in it: groups.into_iter()
            invariant
                it.seq() == groups@,
                groups_view(groups@) == g,
                forall|x: int| 0 <= x < g.len() ==> sorted_ids(#[trigger] g[x].1),
                forall|g1: int, g2: int| 0 <= g1 < g2 < g.len() ==> (#[trigger] g[g1]).0 != (#[trigger] g[g2]).0,
                block_id == self.blocks@.len() - 1,
                self.blocks@.len() <= u32::MAX,
                self.files() == f0,
                self.blocks() == b0.push((file_id, offset, len, word_count)),
                self.wf(),
                (self.terms(), self.postings()) == add_groups(t0, p0, g.take(it.index() as int), block_id),
                forall|i: int, k: int| 0 <= i < self.postings().len() && 0 <= k < self.postings()[i].len() && (#[trigger] self.postings()[i][k]).0 == block_id
                    ==> exists|y: int| 0 <= y < it.index() && g[y].0 == self.terms()[i],
        {
            let (w, ps) = e;
            let ghost x = it.index() as int;
            proof {
                assert(g.take(x + 1).drop_last() =~= g.take(x));
                assert(g.take(x + 1).last() == (w@, ps@));
                assert(groups_view(groups@)[x] == (w@, ps@));
            }
            let ghost tv = self.terms();
            let ghost pv = self.postings();
            proof {
                lemma_seq_index(tv, w@);
            }
            match self.term_ids.get(w.as_str()) {
                Some(i) => {
                    let i = *i;
                    proof {
                        assert(tv.contains(w@));
                        assert(tv[i as int] == w@);
                        assert(seq_index(tv, w@) == Some(i as int));
                        // No earlier group of this block had this word, so the
                        // posting list holds only earlier blocks.
                        assert forall|k: int| 0 <= k < pv[i as int].len() implies (#[trigger] pv[i as int][k]).0 < block_id by {
                            if pv[i as int][k].0 == block_id {
                                let y = choose|y: int| 0 <= y < x && g[y].0 == tv[i as int];
                                assert(g[y].0 == g[x].0);
                            }
                        }
                    }
                    let ghost pvec = self.postings@;
                    self.postings[i].push((block_id, ps));
                    proof {
                        let np = pv[i as int].push((block_id, ps@));
                        assert(self.postings@[i as int]@ == pvec[i as int]@.push((block_id, ps)));
                        assert(postings_view(self.postings@)[i as int] =~= np);
                        assert forall|j: int| 0 <= j < pvec.len() && j != i as int implies self.postings@[j] == pvec[j] by {}
                        assert(self.postings() =~= pv.update(i as int, np));
                        assert(self.terms() =~= tv);
                        assert(entries_sorted(np, 0)) by {
                            assert(sorted_ids(g[x].1));
                            assert forall|a: int, b: int| 0 <= a <= b < np.len() implies np[a].0 <= np[b].0 by {
                                if b == np.len() - 1 && a < b {
                                    assert(np[a] == pv[i as int][a]);
                                } else if b < np.len() - 1 {
                                    assert(np[a] == pv[i as int][a] && np[b] == pv[i as int][b]);
                                }
                            }
                            assert forall|a: int| 0 <= a < np.len() implies sorted_ids(#[trigger] np[a].1) by {
                                if a < np.len() - 1 {
                                    assert(np[a] == pv[i as int][a]);
                                }
                            }
                        }
                        let p2 = self.postings();
                        assert forall|ii: int, j: int, k: int| 0 <= ii < p2.len() && 0 <= j < k < p2[ii].len() implies (#[trigger] p2[ii][j]).0 < (#[trigger] p2[ii][k]).0 by {
                            if ii == i as int {
                                if k == p2[ii].len() - 1 {
                                    assert(p2[ii][j] == pv[ii][j]);
                                } else {
                                    assert(p2[ii][j] == pv[ii][j] && p2[ii][k] == pv[ii][k]);
                                }
                            } else {
                                assert(p2[ii] == pv[ii]);
                            }
                        }
                        assert forall|ii: int, k: int| 0 <= ii < p2.len() && 0 <= k < p2[ii].len() implies (#[trigger] p2[ii][k]).0 < self.blocks@.len() by {
                            if ii == i as int && k == p2[ii].len() - 1 {
                            } else if ii == i as int {
                                assert(p2[ii][k] == pv[ii][k]);
                            } else {
                                assert(p2[ii] == pv[ii]);
                            }
                        }
                        assert forall|ii: int| 0 <= ii < p2.len() implies entries_sorted(#[trigger] p2[ii], 0) by {
                            if ii != i as int {
                                assert(p2[ii] == pv[ii]);
                            }
                        }
                        assert forall|ii: int, k: int| 0 <= ii < p2.len() && 0 <= k < p2[ii].len() && (#[trigger] p2[ii][k]).0 == block_id
                            implies exists|y: int| 0 <= y < x + 1 && g[y].0 == self.terms()[ii] by {
                            if ii == i as int && k == p2[ii].len() - 1 {
                                assert(g[x].0 == self.terms()[ii]);
                            } else if ii == i as int {
                                assert(p2[ii][k] == pv[ii][k]);
                            } else {
                                assert(p2[ii] == pv[ii]);
                            }
                        }
                    }
                },
                None => {
                    let id = self.terms.len();
                    let key = w.clone();
                    self.term_ids.insert(key, id);
                    self.terms.push(w);
                    let mut list: Vec<(u32, Vec<u32>)> = Vec::new();
                    list.push((block_id, ps));
                    self.postings.push(list);
                    proof {
                        let np = seq![(block_id, ps@)];
                        assert(list@.map_values(|e: (u32, Vec<u32>)| (e.0, e.1@)) =~= np);
                        assert(self.postings() =~= pv.push(np));
                        assert(self.terms() =~= tv.push(w@));
                        assert(!tv.contains(w@));
                        assert(seq_index(tv, w@) is None);
                        assert(entries_sorted(np, 0)) by {
                            assert(sorted_ids(g[x].1));
                        }
                        let p2 = self.postings();
                        let t2 = self.terms();
                        assert forall|a: int, b: int| 0 <= a < b < t2.len() implies t2[a] != t2[b] by {
                            if b == t2.len() - 1 {
                                assert(t2[a] == tv[a]);
                            } else {
                                assert(t2[a] == tv[a] && t2[b] == tv[b]);
                            }
                        }
                        assert forall|wd: Seq<char>| #[trigger] self.term_ids@.contains_key(wd) <==> t2.contains(wd) by {
                            if wd == w@ {
                                assert(t2[t2.len() - 1] == w@);
                            } else if tv.contains(wd) {
                                let j = choose|j: int| 0 <= j < tv.len() && tv[j] == wd;
                                assert(t2[j] == wd);
                            } else if t2.contains(wd) {
                                let j = choose|j: int| 0 <= j < t2.len() && t2[j] == wd;
                                assert(tv[j] == wd);
                            }
                        }
                        assert forall|wd: Seq<char>| #[trigger] self.term_ids@.contains_key(wd) implies self.term_ids@[wd] < t2.len()
                            && t2[self.term_ids@[wd] as int] == wd by {
                            if wd != w@ {
                                assert(t2[self.term_ids@[wd] as int] == tv[self.term_ids@[wd] as int]);
                            }
                        }
                        assert forall|ii: int, j: int, k: int| 0 <= ii < p2.len() && 0 <= j < k < p2[ii].len() implies (#[trigger] p2[ii][j]).0 < (#[trigger] p2[ii][k]).0 by {
                            if ii < pv.len() {
                                assert(p2[ii] == pv[ii]);
                            }
                        }
                        assert forall|ii: int, k: int| 0 <= ii < p2.len() && 0 <= k < p2[ii].len() implies (#[trigger] p2[ii][k]).0 < self.blocks@.len() by {
                            if ii < pv.len() {
                                assert(p2[ii] == pv[ii]);
                            }
                        }
                        assert forall|ii: int| 0 <= ii < p2.len() implies entries_sorted(#[trigger] p2[ii], 0) by {
                            if ii < pv.len() {
                                assert(p2[ii] == pv[ii]);
                            }
                        }
                        assert forall|ii: int, k: int| 0 <= ii < p2.len() && 0 <= k < p2[ii].len() && (#[trigger] p2[ii][k]).0 == block_id
                            implies exists|y: int| 0 <= y < x + 1 && g[y].0 == t2[ii] by {
                            if ii == pv.len() {
                                assert(g[x].0 == t2[ii]);
                            } else {
                                assert(p2[ii] == pv[ii]);
                                assert(t2[ii] == tv[ii]);
                            }
                        }
                    }
                },
            }
        }
        proof {
            assert(g.take(g.len() as int) =~= g);
        }
        true
    }
}

impl Indexer {
    /// Indexes the bytes read for one block of a file, taken as text the way
    /// `String::from_utf8_lossy` takes them (see `index_block`).
    pub fn index_chunk(&mut self, file_id: u32, offset: u64, bytes: &[u8]) -> (indexed: bool)
        requires
            old(self).wf(),
            old(self).blocks().len() < u32::MAX,
            file_id < old(self).files().len(),
            bytes@.len() <= u32::MAX,
            offset + bytes@.len() <= u64::MAX,
        ensures
            final(self).wf(),
            final(self).files() == old(self).files(),
            indexed == (encode_utf8(lowercase(lossy_text(bytes@))).len() <= u32::MAX),
            indexed ==> final(self).blocks() == old(self).blocks().push(
                (file_id, offset, bytes@.len() as u32, saturated_count(tokens(lowercase(lossy_text(bytes@))).len())),
            ),
            indexed ==> (final(self).terms(), final(self).postings()) == add_groups(
                old(self).terms(),
                old(self).postings(),
                block_terms(lossy_text(bytes@)),
                old(self).blocks().len() as u32,
            ),
            !indexed ==> final(self).blocks() == old(self).blocks() && final(self).terms()
                == old(self).terms() && final(self).postings() == old(self).postings(),
    {
        let text = from_utf8_lossy(bytes);
        let len = bytes.len() as u32;
        self.index_block(file_id, offset, len, text.as_str())
    }
}

// ---------------------------------------------------------------------------
// Writing the index
// ---------------------------------------------------------------------------

/// Appends `v` in two little-endian bytes.
pub(crate) fn push_le16(out: &mut Vec<u8>, v: u16)
    ensures
        final(out)@ == old(out)@ + le16(v),
{
    out.push((v % 256) as u8);
    out.push((v / 256) as u8);
    assert(out@ =~= old(out)@ + le16(v));
}

/// Appends `v` in four little-endian bytes.
pub(crate) fn push_le32(out: &mut Vec<u8>, v: u32)
    ensures
        final(out)@ == old(out)@ + le32(v),
{
    out.push((v % 256) as u8);
    out.push(((v / 256) % 256) as u8);
    out.push(((v / 0x1_0000) % 256) as u8);
    out.push((v / 0x100_0000) as u8);
    assert(out@ =~= old(out)@ + le32(v));
}

/// Appends `v` in eight little-endian bytes.
pub(crate) fn push_le64(out: &mut Vec<u8>, v: u64)
    ensures
        final(out)@ == old(out)@ + le64(v),
{
    let ghost start = out@;
    push_le32(out, (v % 0x1_0000_0000) as u32);
    push_le32(out, (v / 0x1_0000_0000) as u32);
    assert(out@ =~= start + le64(v));
}

/// Appends a count, cut to 32 bits.
pub(crate) fn push_count(out: &mut Vec<u8>, n: usize)
    ensures
        final(out)@ == old(out)@ + count_bytes(n as nat),
{
    let wide: u64 = n as u64;
    push_le32(out, (wide % 0x1_0000_0000) as u32);
}

/// Appends raw bytes.
pub(crate) fn push_bytes(out: &mut Vec<u8>, b: &[u8])
    ensures
        final(out)@ == old(out)@ + b@,
{
    let mut j: usize = 0;
    while j < b.len()
        invariant
            j <= b@.len(),
            out@ == old(out)@ + b@.take(j as int),
        decreases b@.len() - j,
    {
        out.push(b[j]);
        assert(b@.take(j + 1) =~= b@.take(j as int).push(b@[j as int]));
        j = j + 1;
    }
    assert(b@.take(b@.len() as int) =~= b@);
}

/// Appends a string with its 16-bit length.
pub(crate) fn push_string(out: &mut Vec<u8>, s: &str)
    ensures
        final(out)@ == old(out)@ + string_bytes(s@),
{
    let ghost start = out@;
    let b = s.as_bytes();
    let n: usize = b.len();
    let wide: u64 = n as u64;
    push_le16(out, (wide % 0x1_0000) as u16);
    push_bytes(out, b);
    assert(out@ =~= start + string_bytes(s@));
}

impl Indexer {
    /// Appends the file list after its count.
    fn push_files_part(&self, out: &mut Vec<u8>)
        ensures
            final(out)@ == old(out)@ + count_bytes(self.files().len()) + files_bytes(self.files()),
    {
        let ghost files = self.files();
        push_count(out, self.files.len());
        let ghost head = out@;
        let mut i: usize = 0;
        proof {
            assert(files.take(0) =~= Seq::<Seq<char>>::empty());
            assert(head + files_bytes(files.take(0)) =~= head);
        }
        while i < self.files.len()
            invariant
                files == self.files(),
                i <= files.len(),
                out@ == head + files_bytes(files.take(i as int)),
            decreases files.len() - i,
        {
            push_string(out, self.files[i].as_str());
            proof {
                let t = files.take(i + 1);
                assert(t.drop_last() =~= files.take(i as int));
                assert(t.last() == self.files@[i as int]@);
            }
            i = i + 1;
        }
        proof {
            assert(files.take(files.len() as int) =~= files);
        }
    }

    /// Appends the term list, each term with its posting list, after its count.
    fn push_terms_part(&self, out: &mut Vec<u8>)
        requires
            self.wf(),
        ensures
            final(out)@ == old(out)@ + count_bytes(self.terms().len()) + terms_bytes(self.terms(), self.postings()),
    {
        let ghost terms = self.terms();
        let ghost postings = self.postings();
        push_count(out, self.terms.len());
        let ghost head = out@;
        let mut i: usize = 0;
        proof {
            assert(terms.take(0) =~= Seq::<Seq<char>>::empty());
            assert(head + terms_bytes(terms.take(0), postings) =~= head);
        }
        while i < self.terms.len()
            invariant
                terms == self.terms(),
                postings == self.postings(),
                self.wf(),
                i <= terms.len(),
                out@ == head + terms_bytes(terms.take(i as int), postings),
            decreases terms.len() - i,
        {
            let ghost before = out@;
            push_string(out, self.terms[i].as_str());
            proof {
                assert(postings[i as int] == self.postings@[i as int]@.map_values(
                    |e: (u32, Vec<u32>)| (e.0, e.1@),
                ));
            }
            let encoded = encode_inverted_entry(self.postings[i].as_slice());
            push_count(out, encoded.len());
            push_bytes(out, encoded.as_slice());
            proof {
                let t = terms.take(i + 1);
                assert(t.drop_last() =~= terms.take(i as int));
                assert(t.last() == terms[i as int]);
                assert(out@ =~= before + term_bytes(terms[i as int], postings[i as int]));
            }
            i = i + 1;
        }
        proof {
            assert(terms.take(terms.len() as int) =~= terms);
        }
    }

    /// The index file: magic, version, then the files, the blocks and the
    /// terms, each list after its 32-bit count (see `index_bytes`).
    pub fn to_bytes(&self) -> (bytes: Vec<u8>)
        requires
            self.wf(),
        ensures
            bytes@ == index_bytes(self.files(), self.blocks(), self.terms(), self.postings()),
    {
        let mut out: Vec<u8> = Vec::new();
        out.push(0x53u8);
        out.push(0x4Bu8);
        out.push(0x44u8);
        out.push(0x58u8);
        out.push(INDEX_VERSION);
        let ghost blocks = self.blocks();
        proof {
            assert(out@ =~= index_magic() + seq![INDEX_VERSION]);
        }
        self.push_files_part(&mut out);
        push_count(&mut out, self.blocks.len());
        let ghost head = out@;
        let mut i: usize = 0;
        proof {
            assert(blocks.take(0) =~= Seq::<Block>::empty());
            assert(head + blocks_bytes(blocks.take(0)) =~= head);
        }
        while i < self.blocks.len()
            invariant
                blocks == self.blocks(),
                blocks == self.blocks@,
                i <= blocks.len(),
                out@ == head + blocks_bytes(blocks.take(i as int)),
            decreases blocks.len() - i,
        {
            let (f, off, len, count) = self.blocks[i];
            let ghost before = out@;
            push_le32(&mut out, f);
            push_le64(&mut out, off);
            push_le32(&mut out, len);
            push_le16(&mut out, count);
            proof {
                let t = blocks.take(i + 1);
                assert(t.drop_last() =~= blocks.take(i as int));
                assert(t.last() == (f, off, len, count));
                assert(out@ =~= before + block_bytes((f, off, len, count)));
            }
            i = i + 1;
        }
        proof {
            assert(blocks.take(blocks.len() as int) =~= blocks);
        }
        self.push_terms_part(&mut out);
        out
    }

    /// The index in the first engine's file layout: the files, the blocks
    /// without their word counts, and the terms, each list after its 32-bit
    /// count (see `ref_index_bytes`).
    pub(crate) fn to_ref_bytes(&self) -> (bytes: Vec<u8>)
        requires
            self.wf(),
        ensures
            bytes@ == ref_index_bytes(self.files(), block_refs(self.blocks()), self.terms(), self.postings()),
    {
        let mut out: Vec<u8> = Vec::new();
        let ghost blocks = block_refs(self.blocks());
        self.push_files_part(&mut out);
        push_count(&mut out, self.blocks.len());
        let ghost head = out@;
        let mut i: usize = 0;
        proof {
            assert(blocks.take(0) =~= Seq::<BlockRef>::empty());
            assert(head + block_refs_bytes(blocks.take(0)) =~= head);
        }
        while i < self.blocks.len()
            invariant
                blocks == block_refs(self.blocks()),
                self.blocks() == self.blocks@,
                i <= blocks.len(),
                out@ == head + block_refs_bytes(blocks.take(i as int)),
            decreases blocks.len() - i,
        {
            let (f, off, len, _count) = self.blocks[i];
            let ghost before = out@;
            push_le32(&mut out, f);
            push_le64(&mut out, off);
            push_le32(&mut out, len);
            proof {
                let t = blocks.take(i + 1);
                assert(t.drop_last() =~= blocks.take(i as int));
                assert(t.last() == (f, off, len));
                assert(out@ =~= before + block_ref_bytes((f, off, len)));
            }
            i = i + 1;
        }
        proof {
            assert(blocks.take(blocks.len() as int) =~= blocks);
        }
        self.push_terms_part(&mut out);
        out
    }
}

/// Adding a block's grouped words keeps the terms distinct, keeps every entry
/// already recorded, and records each word as a term whose posting list holds
/// the block with the word's offsets.
pub proof fn lemma_add_groups_records(
    terms: Seq<Seq<char>>,
    postings: Seq<Seq<(u32, Seq<u32>)>>,
    groups: Seq<(Seq<char>, Seq<u32>)>,
    b: u32,
)
    requires
        terms.len() == postings.len(),
        forall|i: int, j: int| 0 <= i < j < terms.len() ==> terms[i] != terms[j],
    ensures
        ({
            let (t2, p2) = add_groups(terms, postings, groups, b);
            &&& t2.len() == p2.len()
            &&& terms.len() <= t2.len()
            &&& forall|i: int, j: int| 0 <= i < j < t2.len() ==> t2[i] != t2[j]
            &&& t2.take(terms.len() as int) == terms
            &&& forall|i: int, k: int| 0 <= i < terms.len() && 0 <= k < postings[i].len() ==> p2[i].contains(#[trigger] postings[i][k])
            &&& forall|g: int| 0 <= g < groups.len() ==> exists|i: int| 0 <= i < t2.len() && t2[i] == (#[trigger] groups[g]).0
                && p2[i].contains((b, groups[g].1))
        }),
    decreases groups.len(),
{
    if groups.len() > 0 {
        let d = groups.drop_last();
        lemma_add_groups_records(terms, postings, d, b);
        let (t, p) = add_groups(terms, postings, d, b);
        let (w, ps) = groups.last();
        let (t2, p2) = add_groups(terms, postings, groups, b);
        lemma_seq_index(t, w);
        match seq_index(t, w) {
            Some(i) => {
                assert(t2 == t);
                assert(p2 == p.update(i, p[i].push((b, ps))));
                assert forall|x: int, y: int| 0 <= x < p.len() && 0 <= y < p[x].len() implies p2[x].contains(#[trigger] p[x][y]) by {
                    if x == i {
                        assert(p2[x][y] == p[x][y]);
                    } else {
                        assert(p2[x] == p[x]);
                    }
                    assert(p2[x][y] == p[x][y]);
                }
                assert forall|g: int| 0 <= g < groups.len() implies exists|j: int| 0 <= j < t2.len() && t2[j] == (#[trigger] groups[g]).0
                    && p2[j].contains((b, groups[g].1)) by {
                    if g == groups.len() - 1 {
                        assert(groups[g] == (w, ps));
                        assert(p2[i][p2[i].len() - 1] == (b, ps));
                    } else {
                        assert(groups[g] == d[g]);
                        let j = choose|j: int| 0 <= j < t.len() && t[j] == (#[trigger] d[g]).0 && p[j].contains((b, d[g].1));
                        let y = choose|y: int| 0 <= y < p[j].len() && p[j][y] == (b, d[g].1);
                        assert(p2[j].contains(p[j][y]));
                    }
                }
                assert forall|x: int, y: int| 0 <= x < terms.len() && 0 <= y < postings[x].len() implies p2[x].contains(#[trigger] postings[x][y]) by {
                    let z = choose|z: int| 0 <= z < p[x].len() && p[x][z] == postings[x][y];
                    assert(p2[x].contains(p[x][z]));
                }
            },
            None => {
                assert(t2 == t.push(w));
                assert(p2 == p.push(seq![(b, ps)]));
                assert forall|a: int, c: int| 0 <= a < c < t2.len() implies t2[a] != t2[c] by {
                    if c == t2.len() - 1 {
                        assert(t2[a] == t[a]);
                    } else {
                        assert(t2[a] == t[a] && t2[c] == t[c]);
                    }
                }
                assert(t2.take(terms.len() as int) =~= t.take(terms.len() as int));
                assert forall|g: int| 0 <= g < groups.len() implies exists|j: int| 0 <= j < t2.len() && t2[j] == (#[trigger] groups[g]).0
                    && p2[j].contains((b, groups[g].1)) by {
                    if g == groups.len() - 1 {
                        assert(groups[g] == (w, ps));
                        assert(t2[t.len() as int] == w);
                        assert(p2[t.len() as int][0] == (b, ps));
                    } else {
                        assert(groups[g] == d[g]);
                        let j = choose|j: int| 0 <= j < t.len() && t[j] == (#[trigger] d[g]).0 && p[j].contains((b, d[g].1));
                        assert(t2[j] == t[j] && p2[j] == p[j]);
                    }
                }
                assert forall|x: int, y: int| 0 <= x < terms.len() && 0 <= y < postings[x].len() implies p2[x].contains(#[trigger] postings[x][y]) by {
                    assert(p2[x] == p[x]);
                    let z = choose|z: int| 0 <= z < p[x].len() && p[x][z] == postings[x][y];
                }
            },
        }
    }
}

/// The indexing law: after `index_block`, each distinct word of the block's
/// lowercase text is a term whose posting list records the block with the
/// byte offsets of the word's occurrences, and nothing recorded before is lost.
pub proof fn lemma_index_block_records(terms: Seq<Seq<char>>, postings: Seq<Seq<(u32, Seq<u32>)>>, text: Seq<char>, b: u32)
    requires
        terms.len() == postings.len(),
        forall|i: int, j: int| 0 <= i < j < terms.len() ==> terms[i] != terms[j],
    ensures
        ({
            let groups = block_terms(text);
            let (t2, p2) = add_groups(terms, postings, groups, b);
            &&& forall|i: int, k: int| 0 <= i < terms.len() && 0 <= k < postings[i].len() ==> p2[i].contains(#[trigger] postings[i][k])
            &&& forall|g: int| 0 <= g < groups.len() ==> exists|i: int| 0 <= i < t2.len() && t2[i] == (#[trigger] groups[g]).0
                && p2[i].contains((b, groups[g].1))
        }),
{
    lemma_add_groups_records(terms, postings, block_terms(text), b);
}

/// The entry a block's groups give the word `w`: the block with the word's
/// offsets, or none when the block does not hold the word.
pub open spec fn block_entry(groups: Seq<(Seq<char>, Seq<u32>)>, w: Seq<char>, b: u32) -> Seq<(u32, Seq<u32>)> {
    if exists|g: int| 0 <= g < groups.len() && (#[trigger] groups[g]).0 == w {
        seq![(b, groups[choose|g: int| 0 <= g < groups.len() && (#[trigger] groups[g]).0 == w].1)]
    } else {
        seq![]
    }
}

/// The words of the groups are distinct.
pub open spec fn group_keys_distinct(groups: Seq<(Seq<char>, Seq<u32>)>) -> bool {
    forall|g1: int, g2: int| 0 <= g1 < g2 < groups.len() ==> (#[trigger] groups[g1]).0 != (#[trigger] groups[g2]).0
}

/// With one more group, a word's entry changes only if it is that group's word.
proof fn lemma_block_entry_step(groups: Seq<(Seq<char>, Seq<u32>)>, w: Seq<char>, b: u32)
    requires
        groups.len() > 0,
        group_keys_distinct(groups),
    ensures
        block_entry(groups, w, b) == if groups.last().0 == w {
            seq![(b, groups.last().1)]
        } else {
            block_entry(groups.drop_last(), w, b)
        },
        groups.last().0 == w ==> block_entry(groups.drop_last(), w, b) == Seq::<(u32, Seq<u32>)>::empty(),
{
    let d = groups.drop_last();
    let n = groups.len() - 1;
    if groups.last().0 == w {
        assert(groups[n].0 == w);
        let g = choose|g: int| 0 <= g < groups.len() && (#[trigger] groups[g]).0 == w;
        if g != n {
            assert(groups[g].0 != groups[n].0);
        }
        if exists|g2: int| 0 <= g2 < d.len() && (#[trigger] d[g2]).0 == w {
            let g2 = choose|g2: int| 0 <= g2 < d.len() && (#[trigger] d[g2]).0 == w;
            assert(groups[g2] == d[g2]);
            assert(groups[g2].0 != groups[n].0);
        }
    } else {
        if exists|g: int| 0 <= g < groups.len() && (#[trigger] groups[g]).0 == w {
            let g = choose|g: int| 0 <= g < groups.len() && (#[trigger] groups[g]).0 == w;
            assert(g < n);
            assert(d[g] == groups[g]);
            let g2 = choose|g2: int| 0 <= g2 < d.len() && (#[trigger] d[g2]).0 == w;
            assert(groups[g2] == d[g2]);
            if g != g2 {
                if g < g2 {
                    assert(groups[g].0 != groups[g2].0);
                } else {
                    assert(groups[g2].0 != groups[g].0);
                }
            }
        } else {
            if exists|g2: int| 0 <= g2 < d.len() && (#[trigger] d[g2]).0 == w {
                let g2 = choose|g2: int| 0 <= g2 < d.len() && (#[trigger] d[g2]).0 == w;
                assert(groups[g2] == d[g2]);
            }
        }
    }
}

/// Adding a block's groups appends to each term's posting list exactly the
/// entry the block gives its word; new words start with that entry alone.
pub proof fn lemma_add_groups_shape(
    terms: Seq<Seq<char>>,
    postings: Seq<Seq<(u32, Seq<u32>)>>,
    groups: Seq<(Seq<char>, Seq<u32>)>,
    b: u32,
)
    requires
        terms.len() == postings.len(),
        forall|i: int, j: int| 0 <= i < j < terms.len() ==> terms[i] != terms[j],
        group_keys_distinct(groups),
    ensures
        ({
            let (t2, p2) = add_groups(terms, postings, groups, b);
            &&& t2.len() == p2.len()
            &&& terms.len() <= t2.len()
            &&& t2.take(terms.len() as int) == terms
            &&& forall|i: int, j: int| 0 <= i < j < t2.len() ==> t2[i] != t2[j]
            &&& forall|i: int| 0 <= i < t2.len() ==> #[trigger] p2[i] == (if i < terms.len() {
                postings[i]
            } else {
                Seq::<(u32, Seq<u32>)>::empty()
            }) + block_entry(groups, t2[i], b)
        }),
    decreases groups.len(),
{
    lemma_add_groups_records(terms, postings, groups, b);
    if groups.len() == 0 {
        let (t2, p2) = add_groups(terms, postings, groups, b);
        assert forall|i: int| 0 <= i < t2.len() implies #[trigger] p2[i] == (if i < terms.len() {
            postings[i]
        } else {
            Seq::<(u32, Seq<u32>)>::empty()
        }) + block_entry(groups, t2[i], b) by {
            assert(p2[i] + Seq::<(u32, Seq<u32>)>::empty() =~= p2[i]);
        }
    } else {
        let d = groups.drop_last();
        assert(group_keys_distinct(d)) by {
            assert forall|g1: int, g2: int| 0 <= g1 < g2 < d.len() implies (#[trigger] d[g1]).0 != (#[trigger] d[g2]).0 by {
                assert(d[g1] == groups[g1] && d[g2] == groups[g2]);
            }
        }
        lemma_add_groups_shape(terms, postings, d, b);
        lemma_add_groups_records(terms, postings, d, b);
        let (t, p) = add_groups(terms, postings, d, b);
        let (w, ps) = groups.last();
        let (t2, p2) = add_groups(terms, postings, groups, b);
        lemma_seq_index(t, w);
        assert forall|i: int| 0 <= i < t2.len() implies #[trigger] p2[i] == (if i < terms.len() {
            postings[i]
        } else {
            Seq::<(u32, Seq<u32>)>::empty()
        }) + block_entry(groups, t2[i], b) by {
            lemma_block_entry_step(groups, t2[i], b);
            let old = if i < terms.len() { postings[i] } else { Seq::<(u32, Seq<u32>)>::empty() };
            match seq_index(t, w) {
                Some(x) => {
                    assert(t2 == t);
                    assert(p2 == p.update(x, p[x].push((b, ps))));
                    assert(p[i] == old + block_entry(d, t[i], b));
                    if i == x {
                        assert(block_entry(d, w, b) == Seq::<(u32, Seq<u32>)>::empty());
                        assert(p[i] =~= old);
                        assert(p2[i] =~= old + seq![(b, ps)]);
                    } else {
                        assert(t[i] != w);
                    }
                },
                None => {
                    assert(t2 == t.push(w));
                    assert(p2 == p.push(seq![(b, ps)]));
                    if i < t.len() {
                        assert(t2[i] == t[i]);
                        assert(t[i] != w);
                        assert(p2[i] == p[i]);
                    } else {
                        assert(t2[i] == w);
                        assert(i >= terms.len());
                        if block_entry(d, w, b).len() > 0 {
                            let g = choose|g: int| 0 <= g < d.len() && (#[trigger] d[g]).0 == w;
                            let j = choose|j: int| 0 <= j < t.len() && t[j] == (#[trigger] d[g]).0 && p[j].contains((b, d[g].1));
                        }
                        assert(p2[i] =~= Seq::<(u32, Seq<u32>)>::empty() + seq![(b, ps)]);
                    }
                },
            }
        }
    }
}

/// The index built from the texts of blocks `0, 1, ...` in order, each block's
/// words added under its id.
pub open spec fn index_blocks(texts: Seq<Seq<char>>) -> (Seq<Seq<char>>, Seq<Seq<(u32, Seq<u32>)>>)
    decreases texts.len(),
{
    if texts.len() == 0 {
        (seq![], seq![])
    } else {
        let (t, p) = index_blocks(texts.drop_last());
        add_groups(t, p, block_terms(texts.last()), (texts.len() - 1) as u32)
    }
}

/// Indexing one more block adds its words under the next block id: the index
/// `index_block` leaves after the blocks `texts` and then `text` is
/// `index_blocks(texts.push(text))`.
pub proof fn lemma_index_blocks_push(texts: Seq<Seq<char>>, text: Seq<char>)
    ensures
        index_blocks(texts.push(text)) == add_groups(index_blocks(texts).0, index_blocks(texts).1, block_terms(text), texts.len() as u32),
{
    assert(texts.push(text).drop_last() =~= texts);
}

/// The law of a whole index: after indexing the blocks in order, the terms are
/// distinct; every posting list names blocks in strictly increasing order, and
/// its entry for block `b` is exactly the word with the byte offsets at which
/// it starts in block `b`'s lowercase text; and every word of every block has
/// such an entry.
pub proof fn lemma_index_blocks(texts: Seq<Seq<char>>)
    requires
        texts.len() <= 0x1_0000_0000,
    ensures
        ({
            let (t, p) = index_blocks(texts);
            &&& t.len() == p.len()
            &&& forall|i: int, j: int| 0 <= i < j < t.len() ==> t[i] != t[j]
            &&& forall|i: int, k: int| 0 <= i < p.len() && 0 <= k < p[i].len() ==> {
                &&& (#[trigger] p[i][k]).0 < texts.len()
                &&& exists|g: int| 0 <= g < block_terms(texts[p[i][k].0 as int]).len()
                    && #[trigger] block_terms(texts[p[i][k].0 as int])[g] == (t[i], p[i][k].1)
            }
            &&& forall|i: int, j: int, k: int| 0 <= i < p.len() && 0 <= j < k < p[i].len() ==> (#[trigger] p[i][j]).0 < (#[trigger] p[i][k]).0
            &&& forall|b: int, g: int| 0 <= b < texts.len() && 0 <= g < block_terms(texts[b]).len() ==> exists|i: int|
                0 <= i < t.len() && t[i] == (#[trigger] block_terms(texts[b])[g]).0 && p[i].contains((b as u32, block_terms(texts[b])[g].1))
        }),
    decreases texts.len(),
{
    if texts.len() > 0 {
        let d = texts.drop_last();
        lemma_index_blocks(d);
        let (t, p) = index_blocks(d);
        let n1 = d.len() as int;
        let b = n1 as u32;
        let groups = block_terms(texts.last());
        lemma_group_keys_distinct(tokens(lowercase(texts.last())));
        lemma_add_groups_shape(t, p, groups, b);
        lemma_add_groups_records(t, p, groups, b);
        let (t2, p2) = index_blocks(texts);
        assert((t2, p2) == add_groups(t, p, groups, b));
        assert forall|x: int| 0 <= x < n1 implies #[trigger] texts[x] == d[x] by {}
        assert(texts[n1] == texts.last());
        assert forall|i: int, k: int| 0 <= i < p2.len() && 0 <= k < p2[i].len() implies {
            &&& (#[trigger] p2[i][k]).0 < texts.len()
            &&& exists|g: int| 0 <= g < block_terms(texts[p2[i][k].0 as int]).len()
                && #[trigger] block_terms(texts[p2[i][k].0 as int])[g] == (t2[i], p2[i][k].1)
        } by {
            let old = if i < t.len() { p[i] } else { Seq::<(u32, Seq<u32>)>::empty() };
            assert(p2[i] == old + block_entry(groups, t2[i], b));
            if k < old.len() {
                assert(p2[i][k] == old[k]);
                assert(i < t.len());
                assert(t2[i] == t[i]);
                assert(p[i][k].0 < d.len());
                let g = choose|g: int| 0 <= g < block_terms(d[p[i][k].0 as int]).len()
                    && #[trigger] block_terms(d[p[i][k].0 as int])[g] == (t[i], p[i][k].1);
                assert(texts[p[i][k].0 as int] == d[p[i][k].0 as int]);
            } else {
                assert(block_entry(groups, t2[i], b).len() > 0);
                let g = choose|g: int| 0 <= g < groups.len() && (#[trigger] groups[g]).0 == t2[i];
                assert(p2[i][k] == (b, groups[g].1));
                assert(groups[g] == (t2[i], p2[i][k].1));
            }
        }
        assert forall|i: int, j: int, k: int| 0 <= i < p2.len() && 0 <= j < k < p2[i].len() implies (#[trigger] p2[i][j]).0 < (#[trigger] p2[i][k]).0 by {
            let old = if i < t.len() { p[i] } else { Seq::<(u32, Seq<u32>)>::empty() };
            assert(p2[i] == old + block_entry(groups, t2[i], b));
            if k < old.len() {
                assert(p2[i][j] == old[j] && p2[i][k] == old[k]);
            } else {
                assert(k == old.len());
                assert(p2[i][j] == old[j]);
                assert(p[i][j].0 < d.len());
                assert(p2[i][k].0 == b);
            }
        }
        assert forall|bb: int, g: int| 0 <= bb < texts.len() && 0 <= g < block_terms(texts[bb]).len() implies exists|i: int|
            0 <= i < t2.len() && t2[i] == (#[trigger] block_terms(texts[bb])[g]).0 && p2[i].contains((bb as u32, block_terms(texts[bb])[g].1)) by {
            if bb < n1 {
                assert(texts[bb] == d[bb]);
                let i = choose|i: int| 0 <= i < t.len() && t[i] == (#[trigger] block_terms(d[bb])[g]).0 && p[i].contains((bb as u32, block_terms(d[bb])[g].1));
                let y = choose|y: int| 0 <= y < p[i].len() && p[i][y] == (bb as u32, block_terms(d[bb])[g].1);
                assert(p2[i] == p[i] + block_entry(groups, t2[i], b));
                assert(p2[i][y] == p[i][y]);
                assert(t2[i] == t[i]);
            } else {
                assert(bb == n1);
                assert(block_terms(texts[bb]) == groups);
                let i = choose|i: int| 0 <= i < t2.len() && t2[i] == (#[trigger] groups[g]).0 && p2[i].contains((b, groups[g].1));
            }
        }
    }
}

/// The posting-list law of a whole index: the terms are distinct and each has
/// one posting list, whose block ids are existing blocks in strictly
/// increasing order (so each block appears once per term), with each block's
/// offsets in nondecreasing order.
pub proof fn lemma_index_postings(ix: &Indexer)
    requires
        ix.wf(),
    ensures
        ix.terms().len() == ix.postings().len(),
        forall|i: int, j: int| 0 <= i < j < ix.terms().len() ==> ix.terms()[i] != ix.terms()[j],
        forall|i: int, k: int| 0 <= i < ix.postings().len() && 0 <= k < ix.postings()[i].len()
            ==> (#[trigger] ix.postings()[i][k]).0 < ix.blocks().len(),
        forall|i: int, j: int, k: int| 0 <= i < ix.postings().len() && 0 <= j < k < ix.postings()[i].len()
            ==> (#[trigger] ix.postings()[i][j]).0 < (#[trigger] ix.postings()[i][k]).0,
        forall|i: int| 0 <= i < ix.postings().len() ==> entries_sorted(#[trigger] ix.postings()[i], 0),
{
}

/// The saved index loads back: for an index that fits the file layout, the
/// bytes `to_bytes` writes parse (as `Searcher::from_bytes` reads them) to the
/// same files, blocks, terms and posting lists.
pub proof fn lemma_saved_index_loads(ix: &Indexer)
    requires
        ix.wf(),
        ix.fits(),
    ensures
        parse_index(index_bytes(ix.files(), ix.blocks(), ix.terms(), ix.postings())) == Some(
            (ix.files(), ix.blocks(), ix.terms(), ix.postings()),
        ),
{
    ix.lemma_consistent();
    lemma_index_roundtrip(ix.files(), ix.blocks(), ix.terms(), ix.postings());
}

impl Indexer {
    /// A well-formed indexer holds a consistent index.
    pub(crate) proof fn lemma_consistent(&self)
        requires
            self.wf(),
        ensures
            index_consistent(self.files(), self.blocks(), self.terms(), self.postings()),
    {
    }
}

/// The characters of each string.
pub open spec fn strings_of(v: Seq<String>) -> Seq<Seq<char>> {
    v.map_values(|s: String| s@)
}

} // verus!
