//! The text shown for a result: a window of the block around the first hit of
//! a looked-up term, cut at character boundaries and framed with "...".
use vstd::prelude::*;

use crate::pfr::simd_search::{find_substring, occurs_at};
use crate::text::{from_utf8_lossy, lossy_text, lowercase, to_lowercase};
use vstd::string::StringSliceAdditionalSpecFns;
use vstd::utf8::{decode_utf8, encode_utf8, is_char_boundary, valid_utf8};

verus! {

/// Where `needle` first occurs in `hay`, if it does.
pub open spec fn first_occurrence(hay: Seq<u8>, needle: Seq<u8>) -> Option<int> {
    if exists|j: int| occurs_at(hay, needle, j) {
        Some(choose|j: int| occurs_at(hay, needle, j) && forall|i: int| 0 <= i < j ==> !occurs_at(hay, needle, i))
    } else {
        None
    }
}

/// Going through `terms` from the `i`-th on, the first occurrence of the first
/// term that occurs in `hay`.
pub open spec fn first_hit(hay: Seq<u8>, terms: Seq<Seq<char>>, i: int) -> Option<int>
    decreases terms.len() - i,
{
    if i < 0 || i >= terms.len() {
        None
    } else {
        match first_occurrence(hay, encode_utf8(terms[i])) {
            Some(j) => Some(j),
            None => first_hit(hay, terms, i + 1),
        }
    }
}

/// The nearest character boundary at or before `s`.
pub open spec fn floor_boundary(b: Seq<u8>, s: int) -> int
    decreases s,
{
    if s <= 0 || is_char_boundary(b, s) {
        s
    } else {
        floor_boundary(b, s - 1)
    }
}

/// The nearest character boundary at or after `e` (the end at the latest).
pub open spec fn ceil_boundary(b: Seq<u8>, e: int) -> int
    decreases b.len() - e,
{
    if e >= b.len() || is_char_boundary(b, e) {
        e
    } else {
        ceil_boundary(b, e + 1)
    }
}

/// The byte window shown around a hit at `idx`: from 100 bytes before it to
/// 200 bytes after it, within the text, widened to character boundaries.
pub open spec fn snippet_window(b: Seq<u8>, idx: int) -> (int, int) {
    let s0 = if idx >= 100 {
        idx - 100
    } else {
        0
    };
    let e0 = if idx + 200 <= b.len() {
        idx + 200
    } else {
        b.len() as int
    };
    (floor_boundary(b, s0), ceil_boundary(b, e0))
}

/// The frame around a snippet.
pub open spec fn dots() -> Seq<char> {
    seq!['.', '.', '.']
}

/// The snippet for a hit at `idx` in `text`.
pub open spec fn snippet_text(text: Seq<char>, idx: int) -> Seq<char> {
    let b = encode_utf8(text);
    let (s, e) = snippet_window(b, idx);
    dots() + decode_utf8(b.subrange(s, e)) + dots()
}

/// The boundary found going back from `s` lies within the text and not after `s`.
proof fn lemma_floor_boundary(b: Seq<u8>, s: int)
    requires
        valid_utf8(b),
        0 <= s,
    ensures
        0 <= floor_boundary(b, s) <= s,
        floor_boundary(b, s) <= b.len(),
        is_char_boundary(b, floor_boundary(b, s)),
    decreases s,
{
    vstd::utf8::is_char_boundary_start_end_of_seq(b);
    if s > 0 && !is_char_boundary(b, s) {
        lemma_floor_boundary(b, s - 1);
    }
}

/// A boundary of the whole stays a boundary of the part from an earlier boundary on.
proof fn lemma_boundary_in_suffix(b: Seq<u8>, s: int, i: int)
    requires
        valid_utf8(b),
        valid_utf8(b.subrange(s, b.len() as int)),
        0 <= s <= i <= b.len(),
        is_char_boundary(b, i),
    ensures
        is_char_boundary(b.subrange(s, b.len() as int), i - s),
{
    let r = b.subrange(s, b.len() as int);
    vstd::utf8::is_char_boundary_start_end_of_seq(r);
    if s < i && i < b.len() {
        vstd::utf8::is_char_boundary_iff_not_is_continuation_byte(b, i);
        vstd::utf8::is_char_boundary_iff_not_is_continuation_byte(r, i - s);
        assert(r[i - s] == b[i]);
    }
}

/// Where the first of `terms` that occurs in `hay` first occurs (see `first_hit`).
pub(crate) fn find_first_hit(ls: &str, terms: &Vec<String>) -> (hit: Option<usize>)
    ensures
        match first_hit(ls.spec_bytes(), terms@.map_values(|t: String| t@), 0) {
            Some(idx) => hit == Some(idx as usize) && idx == hit->0 as int,
            None => hit is None,
        },
{
    let ghost tv = terms@.map_values(|t: String| t@);
    let ghost hay = ls.spec_bytes();
    let mut hit: Option<usize> = None;
    let mut i: usize = 0;
    while i < terms.len()
        invariant_except_break
            hit is None,
        invariant
            tv == terms@.map_values(|t: String| t@),
            hay == ls.spec_bytes(),
            i <= terms@.len(),
            first_hit(hay, tv, 0) == first_hit(hay, tv, i as int),
        ensures
            match first_hit(hay, tv, 0) {
                Some(idx) => hit == Some(idx as usize) && idx == hit->0 as int,
                None => hit is None,
            },
        decreases terms@.len() - i,
    {
        let t = terms[i].as_str();
        let found = find_substring(ls, t);
        proof {
            assert(tv[i as int] == terms@[i as int]@);
            assert(t@ == tv[i as int]);
            assert(t.spec_bytes() == encode_utf8(tv[i as int]));
        }
        match found {
            Some(idx) => {
                proof {
                    let n = encode_utf8(tv[i as int]);
                    assert(exists|j: int| occurs_at(hay, n, j));
                    let c = choose|j: int| occurs_at(hay, n, j) && forall|k: int| 0 <= k < j ==> !occurs_at(hay, n, k);
                    assert(occurs_at(hay, n, idx as int) && forall|k: int| 0 <= k < idx ==> !occurs_at(hay, n, k));
                    if c < idx {
                    } else if c > idx {
                    }
                    assert(first_occurrence(hay, n) == Some(idx as int));
                }
                hit = Some(idx);
                break;
            },
            None => {
                proof {
                    let n = encode_utf8(tv[i as int]);
                    assert forall|j: int| !occurs_at(hay, n, j) by {
                        assert(!occurs_at(ls.spec_bytes(), t.spec_bytes(), j));
                    }
                    assert(first_occurrence(hay, n) is None);
                }
            },
        }
        i = i + 1;
    }
    hit
}

/// The snippet of `text` around the first hit, in its lowercase form, of the
/// first of `terms` that occurs there (see `first_hit`, `snippet_text`); `None`
/// when none occurs.
pub fn make_snippet(text: &str, terms: &Vec<String>) -> (r: Option<String>)
    ensures
        match first_hit(encode_utf8(lowercase(text@)), terms@.map_values(|t: String| t@), 0) {
            Some(idx) => r is Some && r->0@ == snippet_text(text@, idx),
            None => r is None,
        },
{
    let lower = to_lowercase(text);
    let hit = find_first_hit(lower.as_str(), terms);
    let idx = match hit {
        Some(idx) => idx,
        None => {
            return None;
        },
    };
    let ghost b = text.spec_bytes();
    let len = text.as_bytes().len();
    proof {
        vstd::utf8::encode_utf8_valid_utf8(text@);
        vstd::utf8::is_char_boundary_start_end_of_seq(b);
    }
    let mut start: usize = if idx >= 100 {
        idx - 100
    } else {
        0
    };
    let mut end: usize = if len >= 200 && idx <= len - 200 {
        idx + 200
    } else {
        len
    };
    let ghost s0 = start as int;
    let ghost e0 = end as int;
    while start > 0 && !text.is_char_boundary(start)
        invariant
            b == text.spec_bytes(),
            valid_utf8(b),
            floor_boundary(b, s0) == floor_boundary(b, start as int),
        decreases start,
    {
        start = start - 1;
    }
    while end < len && !text.is_char_boundary(end)
        invariant
            b == text.spec_bytes(),
            len == b.len(),
            valid_utf8(b),
            e0 <= end <= len,
            ceil_boundary(b, e0) == ceil_boundary(b, end as int),
        decreases len - end,
    {
        end = end + 1;
    }
    proof {
        lemma_floor_boundary(b, s0);
        assert(start as int == floor_boundary(b, s0));
        assert(end as int == ceil_boundary(b, e0));
        assert(is_char_boundary(b, start as int));
        assert(is_char_boundary(b, end as int));
        assert(start <= end);
    }
    let (_, rest) = text.split_at(start);
    proof {
        vstd::utf8::encode_utf8_valid_utf8(rest@);
        assert(rest.spec_bytes() == b.subrange(start as int, b.len() as int));
        lemma_boundary_in_suffix(b, start as int, end as int);
    }
    let (piece, _) = rest.split_at(end - start);
    proof {
        assert(piece.spec_bytes() =~= b.subrange(start as int, end as int));
        vstd::utf8::encode_utf8_decode_utf8(piece@);
        reveal_strlit("...");
    }
    let mut out = "...".to_owned();
    out.append(piece);
    out.append("...");
    Some(out)
}

/// The snippet of a block read from its file: its bytes taken as text the
/// way `String::from_utf8_lossy` takes them, then as `make_snippet`.
pub fn block_snippet(bytes: &[u8], terms: &Vec<String>) -> (r: Option<String>)
    ensures
        match first_hit(encode_utf8(lowercase(lossy_text(bytes@))), terms@.map_values(|t: String| t@), 0) {
            Some(idx) => r is Some && r->0@ == snippet_text(lossy_text(bytes@), idx),
            None => r is None,
        },
{
    let text = from_utf8_lossy(bytes);
    make_snippet(text.as_str(), terms)
}

} // verus!
