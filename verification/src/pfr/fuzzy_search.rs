//! Approximate matching: a bit-parallel matcher that finds where a pattern
//! occurs in a text with up to a given number of edits, and the edit distance
//! of two strings.
use vstd::prelude::*;

use crate::pfr::bitset::word_bit;
use vstd::string::StringSliceAdditionalSpecFns;

verus! {

broadcast use vstd::string::group_string_axioms;

/// The smaller of two numbers.
pub open spec fn min_nat(x: nat, y: nat) -> nat {
    if x <= y {
        x
    } else {
        y
    }
}

/// The Levenshtein distance of `a` and `b`: the fewest single-character
/// insertions, deletions and substitutions that turn one into the other.
pub open spec fn edit_distance<A>(a: Seq<A>, b: Seq<A>) -> nat
    decreases a.len() + b.len(),
{
    if a.len() == 0 {
        b.len()
    } else if b.len() == 0 {
        a.len()
    } else {
        min_nat(
            min_nat(edit_distance(a.drop_last(), b) + 1, edit_distance(a, b.drop_last()) + 1),
            edit_distance(a.drop_last(), b.drop_last()) + if a.last() == b.last() {
                0nat
            } else {
                1nat
            },
        )
    }
}

/// The distance never exceeds the longer length.
pub proof fn lemma_edit_distance_bound<A>(a: Seq<A>, b: Seq<A>)
    ensures
        edit_distance(a, b) <= if a.len() >= b.len() { a.len() } else { b.len() },
    decreases a.len() + b.len(),
{
    if a.len() > 0 && b.len() > 0 {
        lemma_edit_distance_bound(a.drop_last(), b.drop_last());
    }
}

/// The distance is zero only between equal sequences, and is zero between them.
pub proof fn lemma_edit_distance_zero<A>(a: Seq<A>, b: Seq<A>)
    ensures
        (edit_distance(a, b) == 0) == (a == b),
    decreases a.len() + b.len(),
{
    if a.len() > 0 && b.len() > 0 {
        lemma_edit_distance_zero(a.drop_last(), b.drop_last());
        lemma_edit_distance_lower(a.drop_last(), b);
        lemma_edit_distance_lower(a, b.drop_last());
        assert(a =~= a.drop_last().push(a.last()));
        assert(b =~= b.drop_last().push(b.last()));
        if a == b {
            assert(a.drop_last() == b.drop_last());
        }
    } else if a.len() == 0 && b.len() == 0 {
        assert(a =~= b);
    }
}

/// The distance is at least the difference of the lengths.
pub proof fn lemma_edit_distance_lower<A>(a: Seq<A>, b: Seq<A>)
    ensures
        edit_distance(a, b) >= a.len() - b.len(),
        edit_distance(a, b) >= b.len() - a.len(),
    decreases a.len() + b.len(),
{
    if a.len() > 0 && b.len() > 0 {
        lemma_edit_distance_lower(a.drop_last(), b);
        lemma_edit_distance_lower(a, b.drop_last());
        lemma_edit_distance_lower(a.drop_last(), b.drop_last());
    }
}

/// The distance does not depend on the order of its arguments.
pub proof fn lemma_edit_distance_symmetric<A>(a: Seq<A>, b: Seq<A>)
    ensures
        edit_distance(a, b) == edit_distance(b, a),
    decreases a.len() + b.len(),
{
    if a.len() > 0 && b.len() > 0 {
        lemma_edit_distance_symmetric(a.drop_last(), b);
        lemma_edit_distance_symmetric(a, b.drop_last());
        lemma_edit_distance_symmetric(a.drop_last(), b.drop_last());
    }
}

/// The triangle inequality: going through `b` is never shorter.
pub proof fn lemma_edit_distance_triangle<A>(a: Seq<A>, b: Seq<A>, c: Seq<A>)
    ensures
        edit_distance(a, c) <= edit_distance(a, b) + edit_distance(b, c),
    decreases a.len() + b.len() + c.len(),
{
    lemma_edit_distance_lower(a, b);
    lemma_edit_distance_lower(b, c);
    lemma_edit_distance_bound(a, c);
    if a.len() == 0 || b.len() == 0 || c.len() == 0 {
        return;
    }
    let a1 = a.drop_last();
    let b1 = b.drop_last();
    let c1 = c.drop_last();
    let dab = edit_distance(a, b);
    let dbc = edit_distance(b, c);
    lemma_edit_distance_steps(a, c);
    if dab == edit_distance(a1, b) + 1 {
        lemma_edit_distance_triangle(a1, b, c);
    } else if dbc == edit_distance(b, c1) + 1 {
        lemma_edit_distance_triangle(a, b, c1);
    } else if dab == edit_distance(a, b1) + 1 {
        lemma_edit_distance_triangle(a, b1, c);
        lemma_edit_distance_steps(b1, c);
        if dbc == edit_distance(b1, c) + 1 {
        } else {
            assert(dbc == edit_distance(b1, c1) + if b.last() == c.last() { 0nat } else { 1nat });
        }
    } else {
        assert(dab == edit_distance(a1, b1) + if a.last() == b.last() { 0nat } else { 1nat });
        if dbc == edit_distance(b1, c) + 1 {
            lemma_edit_distance_triangle(a, b1, c);
            lemma_edit_distance_steps(a, b1);
        } else {
            assert(dbc == edit_distance(b1, c1) + if b.last() == c.last() { 0nat } else { 1nat });
            lemma_edit_distance_triangle(a1, b1, c1);
        }
    }
}

/// One step of the distance table: the distance of two nonempty prefixes from
/// the three shorter ones.
pub proof fn lemma_edit_distance_step<A>(a: Seq<A>, b: Seq<A>, i: int, j: int)
    requires
        1 <= i <= a.len(),
        1 <= j <= b.len(),
    ensures
        edit_distance(a.take(i), b.take(j)) == min_nat(
            min_nat(
                edit_distance(a.take(i - 1), b.take(j)) + 1,
                edit_distance(a.take(i), b.take(j - 1)) + 1,
            ),
            edit_distance(a.take(i - 1), b.take(j - 1)) + if a[i - 1] == b[j - 1] {
                0nat
            } else {
                1nat
            },
        ),
{
    assert(a.take(i).drop_last() =~= a.take(i - 1));
    assert(b.take(j).drop_last() =~= b.take(j - 1));
}

/// Bit-parallel approximate matching (Wu–Manber): whether the pattern prefix
/// `p[0..=j]` ends at text byte `i` with at most `k` edits, as the matcher
/// tracks it. An empty prefix matches everywhere; before the text starts a
/// prefix matches when its bytes can all be skipped, one edit each. A step
/// either matches `p[j]` to `t[i]`, substitutes it (one edit), skips `p[j]`
/// (one edit) or skips `t[i]` (one edit).
pub open spec fn approx_prefix_match(p: Seq<u8>, t: Seq<u8>, k: nat, i: int, j: int) -> bool
    decreases k, i + 1,
{
    if j < 0 {
        true
    } else if i < 0 {
        j < p.len() && j + 1 <= k
    } else if i >= t.len() || j >= p.len() {
        false
    } else {
        let exact = approx_prefix_match(p, t, k, i - 1, j - 1) && t[i] == p[j];
        if k == 0 {
            exact
        } else {
            let e = (k - 1) as nat;
            exact || approx_prefix_match(p, t, e, i - 1, j - 1) || approx_prefix_match(p, t, e, i, j - 1)
                || approx_prefix_match(p, t, e, i - 1, j)
        }
    }
}

/// A match with `k` edits is also one with `k + 1`.
pub proof fn lemma_approx_monotone(p: Seq<u8>, t: Seq<u8>, k: nat, i: int, j: int)
    requires
        approx_prefix_match(p, t, k, i, j),
    ensures
        approx_prefix_match(p, t, k + 1, i, j),
    decreases i + 1, j + 1,
{
    if j >= 0 && i >= 0 {
        if approx_prefix_match(p, t, k, i - 1, j - 1) {
            lemma_approx_monotone(p, t, k, i - 1, j - 1);
        }
        if k > 0 {
            let e = (k - 1) as nat;
            if approx_prefix_match(p, t, e, i - 1, j - 1) {
                lemma_approx_monotone(p, t, e, i - 1, j - 1);
            }
            if approx_prefix_match(p, t, e, i, j - 1) {
                lemma_approx_monotone(p, t, e, i, j - 1);
            }
            if approx_prefix_match(p, t, e, i - 1, j) {
                lemma_approx_monotone(p, t, e, i - 1, j);
            }
        }
    }
}

/// A match with `k` edits is one with any larger budget.
pub proof fn lemma_approx_monotone_to(p: Seq<u8>, t: Seq<u8>, k: nat, k2: nat, i: int, j: int)
    requires
        approx_prefix_match(p, t, k, i, j),
        k <= k2,
    ensures
        approx_prefix_match(p, t, k2, i, j),
    decreases k2 - k,
{
    if k < k2 {
        lemma_approx_monotone(p, t, k, i, j);
        lemma_approx_monotone_to(p, t, k + 1, k2, i, j);
    }
}

/// The distance to a sequence is at most one more than the distance to it
/// without its last element, from either side; and at most the distance of
/// both without their last elements, plus one when those differ.
pub proof fn lemma_edit_distance_steps<A>(a: Seq<A>, b: Seq<A>)
    ensures
        a.len() > 0 ==> edit_distance(a, b) <= edit_distance(a.drop_last(), b) + 1,
        b.len() > 0 ==> edit_distance(a, b) <= edit_distance(a, b.drop_last()) + 1,
        a.len() > 0 && b.len() > 0 ==> edit_distance(a, b) <= edit_distance(a.drop_last(), b.drop_last())
            + if a.last() == b.last() { 0nat } else { 1nat },
{
}

/// The matcher is sound: where it reports the prefix `p[0..=j]` ending at
/// byte `i` with `k` edits, some stretch of the text ending at `i` (possibly
/// empty) is within edit distance `k` of that prefix.
pub proof fn lemma_approx_match_sound(p: Seq<u8>, t: Seq<u8>, k: nat, i: int, j: int)
    requires
        approx_prefix_match(p, t, k, i, j),
        -1 <= j,
        -1 <= i,
        j < p.len(),
        i < t.len(),
    ensures
        exists|s: int| 0 <= s <= i + 1 && #[trigger] edit_distance(p.take(j + 1), t.subrange(s, i + 1)) <= k,
    decreases k, i + 1,
{
    if j < 0 {
        let s = i + 1;
        assert(p.take(j + 1).len() == 0);
        assert(edit_distance(p.take(j + 1), t.subrange(s, i + 1)) == 0);
    } else if i < 0 {
        let s = 0;
        assert(t.subrange(s, i + 1).len() == 0);
        assert(edit_distance(p.take(j + 1), t.subrange(s, i + 1)) == j + 1);
    } else {
        let pj = p.take(j + 1);
        assert(pj.drop_last() =~= p.take(j));
        if approx_prefix_match(p, t, k, i - 1, j - 1) && t[i] == p[j] {
            lemma_approx_match_sound(p, t, k, i - 1, j - 1);
            let s = choose|s: int| 0 <= s <= i && #[trigger] edit_distance(p.take(j), t.subrange(s, i)) <= k;
            let ts = t.subrange(s, i + 1);
            assert(ts.drop_last() =~= t.subrange(s, i));
            lemma_edit_distance_steps(pj, ts);
            assert(edit_distance(pj, ts) <= k);
        } else {
            let e = (k - 1) as nat;
            if approx_prefix_match(p, t, e, i - 1, j - 1) {
                lemma_approx_match_sound(p, t, e, i - 1, j - 1);
                let s = choose|s: int| 0 <= s <= i && #[trigger] edit_distance(p.take(j), t.subrange(s, i)) <= e;
                let ts = t.subrange(s, i + 1);
                assert(ts.drop_last() =~= t.subrange(s, i));
                lemma_edit_distance_steps(pj, ts);
                assert(edit_distance(pj, ts) <= k);
            } else if approx_prefix_match(p, t, e, i, j - 1) {
                lemma_approx_match_sound(p, t, e, i, j - 1);
                let s = choose|s: int| 0 <= s <= i + 1 && #[trigger] edit_distance(p.take(j), t.subrange(s, i + 1)) <= e;
                let ts = t.subrange(s, i + 1);
                lemma_edit_distance_steps(pj, ts);
                assert(edit_distance(pj, ts) <= k);
            } else {
                assert(approx_prefix_match(p, t, e, i - 1, j));
                lemma_approx_match_sound(p, t, e, i - 1, j);
                let s = choose|s: int| 0 <= s <= i && #[trigger] edit_distance(pj, t.subrange(s, i)) <= e;
                let ts = t.subrange(s, i + 1);
                assert(ts.drop_last() =~= t.subrange(s, i));
                lemma_edit_distance_steps(pj, ts);
                assert(edit_distance(pj, ts) <= k);
            }
        }
    }
}

/// The matcher is complete: where some stretch of the text ending at byte `i`
/// (possibly empty) is within edit distance `k` of the prefix `p[0..=j]`, the
/// matcher reports that prefix ending at `i` with `k` edits.
pub proof fn lemma_approx_match_complete(p: Seq<u8>, t: Seq<u8>, k: nat, i: int, j: int, s: int)
    requires
        -1 <= j < p.len(),
        -1 <= i < t.len(),
        0 <= s <= i + 1,
        edit_distance(p.take(j + 1), t.subrange(s, i + 1)) <= k,
    ensures
        approx_prefix_match(p, t, k, i, j),
    decreases i + 1 - s + j + 1,
{
    if j >= 0 {
        let a = p.take(j + 1);
        let b = t.subrange(s, i + 1);
        assert(a.drop_last() =~= p.take(j));
        if b.len() == 0 {
            if i >= 0 {
                assert(edit_distance(a, b) == j + 1);
                assert(edit_distance(p.take(j), t.subrange(s, i + 1)) == j);
                lemma_approx_match_complete(p, t, (k - 1) as nat, i, j - 1, s);
            }
        } else {
            assert(b.drop_last() =~= t.subrange(s, i));
            assert(a.last() == p[j] && b.last() == t[i]);
            let e = (k - 1) as nat;
            if edit_distance(a.drop_last(), b) + 1 <= k {
                lemma_approx_match_complete(p, t, e, i, j - 1, s);
            } else if edit_distance(a, b.drop_last()) + 1 <= k {
                lemma_approx_match_complete(p, t, e, i - 1, j, s);
            } else if p[j] == t[i] {
                lemma_approx_match_complete(p, t, k, i - 1, j - 1, s);
            } else {
                lemma_approx_match_complete(p, t, e, i - 1, j - 1, s);
            }
        }
    }
}

/// Some stretch of the text ending at byte `i` (possibly empty) is within edit
/// distance `k` of the pattern.
pub open spec fn ends_within(p: Seq<u8>, t: Seq<u8>, k: nat, i: int) -> bool {
    exists|s: int| 0 <= s <= i + 1 && #[trigger] edit_distance(p, t.subrange(s, i + 1)) <= k
}

/// The first text byte at which a stretch of the text within `k` edits of the
/// pattern ends: `Some(i)` for the least such `i`, `None` when there is none.
pub open spec fn first_approx_match(p: Seq<u8>, t: Seq<u8>, k: nat) -> Option<int> {
    if exists|i: int| 0 <= i < t.len() && #[trigger] ends_within(p, t, k, i) {
        Some(choose|i: int| 0 <= i < t.len() && #[trigger] ends_within(p, t, k, i)
            && forall|i2: int| 0 <= i2 < i ==> !#[trigger] ends_within(p, t, k, i2))
    } else {
        None
    }
}

/// A stretch within `k` edits is within `k + 1`.
proof fn lemma_ends_within_more(p: Seq<u8>, t: Seq<u8>, k: nat, i: int)
    requires
        ends_within(p, t, k, i),
    ensures
        ends_within(p, t, k + 1, i),
{
    let s = choose|s: int| 0 <= s <= i + 1 && #[trigger] edit_distance(p, t.subrange(s, i + 1)) <= k;
    assert(edit_distance(p, t.subrange(s, i + 1)) <= k + 1);
}

/// Where some stretch ends within the budget, a first such end exists.
proof fn lemma_least_end(p: Seq<u8>, t: Seq<u8>, k: nat, i: int)
    requires
        0 <= i < t.len(),
        ends_within(p, t, k, i),
    ensures
        exists|m: int| 0 <= m <= i && #[trigger] ends_within(p, t, k, m)
            && forall|i2: int| 0 <= i2 < m ==> !#[trigger] ends_within(p, t, k, i2),
    decreases i,
{
    if exists|i2: int| 0 <= i2 < i && #[trigger] ends_within(p, t, k, i2) {
        let i2 = choose|i2: int| 0 <= i2 < i && #[trigger] ends_within(p, t, k, i2);
        lemma_least_end(p, t, k, i2);
    } else {
        assert(forall|i2: int| 0 <= i2 < i ==> !#[trigger] ends_within(p, t, k, i2));
    }
}

/// Allowing one more edit never loses a match nor moves it later.
pub proof fn lemma_more_errors_match_no_later(p: Seq<u8>, t: Seq<u8>, k: nat)
    ensures
        first_approx_match(p, t, k) matches Some(i) ==> (first_approx_match(p, t, k + 1) matches Some(j) && j <= i),
{
    if exists|i: int| 0 <= i < t.len() && #[trigger] ends_within(p, t, k, i) {
        let i0 = choose|i: int| 0 <= i < t.len() && #[trigger] ends_within(p, t, k, i);
        lemma_least_end(p, t, k, i0);
        let i = choose|i: int| 0 <= i < t.len() && #[trigger] ends_within(p, t, k, i)
            && forall|i2: int| 0 <= i2 < i ==> !#[trigger] ends_within(p, t, k, i2);
        assert(first_approx_match(p, t, k) == Some(i));
        lemma_ends_within_more(p, t, k, i);
        lemma_least_end(p, t, k + 1, i);
        let j = choose|j: int| 0 <= j < t.len() && #[trigger] ends_within(p, t, k + 1, j)
            && forall|i2: int| 0 <= i2 < j ==> !#[trigger] ends_within(p, t, k + 1, i2);
        assert(first_approx_match(p, t, k + 1) == Some(j));
        if j > i {
            assert(!ends_within(p, t, k + 1, i));
        }
    }
}

/// The bytes a matcher keeps of a pattern: its first 64.
pub open spec fn kept_pattern(b: Seq<u8>) -> Seq<u8> {
    b.take(if b.len() <= 64 { b.len() as int } else { 64 })
}

/// Only the first 64 pattern bytes count: two patterns that agree on them find
/// the same first match in every text with every edit budget.
pub proof fn lemma_only_first_64_bytes_count(b1: Seq<u8>, b2: Seq<u8>, t: Seq<u8>, k: nat)
    requires
        b1.take(if b1.len() <= 64 { b1.len() as int } else { 64 }) == b2.take(if b2.len() <= 64 { b2.len() as int } else { 64 }),
    ensures
        first_approx_match(kept_pattern(b1), t, k) == first_approx_match(kept_pattern(b2), t, k),
{
}

/// What the matcher tracks for the whole pattern is `ends_within`.
proof fn lemma_ends_within(p: Seq<u8>, t: Seq<u8>, k: nat, i: int)
    requires
        p.len() > 0,
        0 <= i < t.len(),
    ensures
        ends_within(p, t, k, i) == approx_prefix_match(p, t, k, i, p.len() - 1),
{
    assert(p.take(p.len() as int) =~= p);
    if approx_prefix_match(p, t, k, i, p.len() - 1) {
        lemma_approx_match_sound(p, t, k, i, p.len() - 1);
    }
    if ends_within(p, t, k, i) {
        let s = choose|s: int| 0 <= s <= i + 1 && #[trigger] edit_distance(p, t.subrange(s, i + 1)) <= k;
        lemma_approx_match_complete(p, t, k, i, p.len() - 1, s);
    }
}

/// A matcher for one pattern (its first 64 bytes) with an edit budget.
pub struct FuzzyMatcher {
    pattern_len: usize,
    char_masks: [u64; 256],
    max_errors: usize,
    pattern: Ghost<Seq<u8>>,
}

impl FuzzyMatcher {
    /// The bytes the matcher looks for.
    pub closed spec fn pattern(&self) -> Seq<u8> {
        self.pattern@
    }

    /// The most edits a match may take.
    pub closed spec fn max_errors(&self) -> nat {
        self.max_errors as nat
    }

    /// Each byte value's mask has a clear bit at every pattern index holding that
    /// byte, and set bits everywhere else.
    #[verifier::type_invariant]
    spec fn masks_match_pattern(&self) -> bool {
        &&& self.pattern@.len() == self.pattern_len <= 64
        &&& forall|c: int, j: u64|
            0 <= c < 256 && j < 64 ==> (#[trigger] word_bit(self.char_masks@[c], j) <==> !(j
                < self.pattern_len && self.pattern@[j as int] == c))
    }

    /// A matcher for the first 64 bytes of `pattern`'s UTF-8 encoding, allowing
    /// up to `max_errors` edits.
    pub fn new(pattern: &str, max_errors: usize) -> (m: Self)
        ensures
            m.pattern() == kept_pattern(pattern.spec_bytes()),
            m.max_errors() == max_errors,
    {
        let mut char_masks = [!0u64; 256];
        let p_bytes = pattern.as_bytes();
        let len = if p_bytes.len() <= 64 { p_bytes.len() } else { 64 };
        proof {
            assert forall|j: u64| j < 64 implies word_bit(!0u64, j) by {
                assert(((!0u64) >> j) & 1 == 1) by (bit_vector) requires j < 64;
            }
        }
        let mut i: usize = 0;
        while i < len
            invariant
                i <= len <= 64,
                len <= p_bytes@.len(),
                forall|c: int, j: u64|
                    0 <= c < 256 && j < 64 ==> (#[trigger] word_bit(char_masks@[c], j) <==> !(j < i
                        && p_bytes@[j as int] == c)),
            decreases len - i,
        {
            let c = p_bytes[i] as usize;
            let w = char_masks[c];
            let cleared = w & !(1u64 << (i as u64));
            proof {
                assert forall|j: u64| j < 64 implies word_bit(cleared, j) == (word_bit(w, j) && j
                    != i as u64) by {
                    let ii = i as u64;
                    assert(((w & !(1u64 << ii)) >> j) & 1 == 1 <==> ((w >> j) & 1 == 1 && j != ii))
                        by (bit_vector)
                        requires ii < 64, j < 64;
                }
            }
            char_masks[c] = cleared;
            i = i + 1;
        }
        FuzzyMatcher {
            pattern_len: len,
            char_masks,
            max_errors,
            pattern: Ghost(p_bytes@.take(len as int)),
        }
    }

    /// The end position of the first fuzzy match: the least byte index `i` of
    /// `haystack` at which some stretch of it (possibly empty) within
    /// `max_errors` edits of the pattern ends, or `None`. An empty pattern
    /// matches at 0.
    pub fn find(&self, haystack: &str) -> (res: Option<usize>)
        requires
            self.max_errors() < usize::MAX,
        ensures
            self.pattern().len() == 0 ==> res == Some(0usize),
            self.pattern().len() > 0 ==> match res {
                Some(i) => first_approx_match(self.pattern(), haystack.spec_bytes(), self.max_errors())
                    == Some(i as int),
                None => first_approx_match(self.pattern(), haystack.spec_bytes(), self.max_errors())
                    is None,
            },
    {
        proof {
            use_type_invariant(self);
        }
        if self.pattern_len == 0 {
            return Some(0);
        }
        let h_bytes = haystack.as_bytes();
        let ghost p = self.pattern@;
        let ghost t = h_bytes@;
        let ghost km = self.max_errors as nat;
        let mut r: Vec<u64> = Vec::new();
        let mut k0: usize = 0;
        while k0 <= self.max_errors
            invariant
                self.max_errors < usize::MAX,
                k0 <= self.max_errors + 1,
                r@.len() == k0,
                forall|x: int, j: u64| 0 <= x < k0 && j < 64 ==> (#[trigger] word_bit(r@[x], j) <==> x <= j),
            decreases self.max_errors + 1 - k0,
        {
            // Before the text, the first `k0` pattern bytes can be skipped with `k0` edits.
            let init = if k0 < 64 { !0u64 << (k0 as u64) } else { 0u64 };
            proof {
                assert forall|j: u64| j < 64 implies (word_bit(init, j) <==> k0 <= j) by {
                    if k0 < 64 {
                        let kk = k0 as u64;
                        assert(((!0u64 << kk) >> j) & 1 == 1 <==> kk <= j) by (bit_vector)
                            requires kk < 64, j < 64;
                    } else {
                        assert((0u64 >> j) & 1 == 1 <==> false) by (bit_vector);
                    }
                }
            }
            r.push(init);
            k0 = k0 + 1;
        }
        let pl = self.pattern_len;
        let match_mask = 1u64 << ((pl - 1) as u64);
        proof {
            assert forall|x: int, j: u64| 0 <= x <= km && j < pl implies (#[trigger] word_bit(r@[x], j)
                == !approx_prefix_match(p, t, x as nat, -1, j as int)) by {
            }
        }
        let mut i: usize = 0;
        while i < h_bytes.len()
            invariant
                self.masks_match_pattern(),
                p == self.pattern@,
                t == h_bytes@,
                t == haystack.spec_bytes(),
                km == self.max_errors,
                self.max_errors < usize::MAX,
                0 < pl == self.pattern_len == p.len() <= 64,
                match_mask == 1u64 << ((pl - 1) as u64),
                i <= t.len(),
                r@.len() == km + 1,
                forall|x: int, j: u64| 0 <= x <= km && j < pl ==> (#[trigger] word_bit(r@[x], j)
                    == !approx_prefix_match(p, t, x as nat, i - 1, j as int)),
                forall|i2: int| 0 <= i2 < i ==> !#[trigger] approx_prefix_match(p, t, km, i2, pl - 1),
            decreases t.len() - i,
        {
            let byte = h_bytes[i];
            let char_mask = self.char_masks[byte as usize];
            let mut prev_r_error = r[0];
            let new0 = (r[0] << 1u64) | char_mask;
            proof {
                assert(char_mask == self.char_masks@[byte as int]);
                assert(byte == t[i as int]);
                assert forall|j: u64| j < pl implies (word_bit(new0, j) == !approx_prefix_match(p, t, 0, i as int, j as int)) by {
                    lemma_shift_or_bit(r@[0], char_mask, j);
                    if j > 0 {
                        assert(word_bit(r@[0], (j - 1) as u64) == !approx_prefix_match(p, t, 0, i - 1, j - 1));
                    }
                    assert(word_bit(self.char_masks@[byte as int], j) == !(j < pl && p[j as int] == byte as int));
                    assert(word_bit(char_mask, j) == !(t[i as int] == p[j as int]));
                    if j == 0 {
                        assert(approx_prefix_match(p, t, 0, i - 1, -1));
                    }
                    assert(approx_prefix_match(p, t, 0, i as int, j as int) == (approx_prefix_match(p, t, 0, i - 1, j - 1) && t[i as int] == p[j as int]));
                }
            }
            r.set(0, new0);
            if new0 & match_mask == 0 {
                proof {
                    lemma_match_bit(new0, (pl - 1) as u64);
                    lemma_approx_monotone_to(p, t, 0, km, i as int, pl - 1);
                    self.lemma_first(p, t, km, i as int);
                    assert(first_approx_match(p, t, km) == Some(i as int));
                    assert(p == self.pattern());
                    assert(t == haystack.spec_bytes());
                    assert(km == self.max_errors());
                }
                return Some(i);
            }
            proof {
                lemma_match_bit(new0, (pl - 1) as u64);
            }
            let mut k: usize = 1;
            while k <= self.max_errors
                invariant
                    self.masks_match_pattern(),
                    p == self.pattern@,
                    t == h_bytes@,
                    t == haystack.spec_bytes(),
                    km == self.max_errors,
                    self.max_errors < usize::MAX,
                    0 < pl == self.pattern_len == p.len() <= 64,
                    match_mask == 1u64 << ((pl - 1) as u64),
                    i < t.len(),
                    byte == t[i as int],
                    char_mask == self.char_masks@[byte as int],
                    r@.len() == km + 1,
                    1 <= k <= km + 1,
                    forall|x: int, j: u64| 0 <= x < k && j < pl ==> (#[trigger] word_bit(r@[x], j)
                        == !approx_prefix_match(p, t, x as nat, i as int, j as int)),
                    forall|x: int, j: u64| k <= x <= km && j < pl ==> (#[trigger] word_bit(r@[x], j)
                        == !approx_prefix_match(p, t, x as nat, i - 1, j as int)),
                    forall|j: u64| j < pl ==> (#[trigger] word_bit(prev_r_error, j)
                        == !approx_prefix_match(p, t, (k - 1) as nat, i - 1, j as int)),
                    forall|x: nat| x < k ==> !#[trigger] approx_prefix_match(p, t, x, i as int, pl - 1),
                    forall|i2: int| 0 <= i2 < i ==> !#[trigger] approx_prefix_match(p, t, km, i2, pl - 1),
                decreases km + 1 - k,
            {
                let old_r_k = r[k];
                let current_match = (old_r_k << 1u64) | char_mask;
                let substitution = prev_r_error << 1u64;
                let insertion = r[k - 1] << 1u64;
                let deletion = prev_r_error;
                let nk = current_match & substitution & insertion & deletion;
                proof {
                    assert forall|j: u64| j < pl implies (word_bit(nk, j) == !approx_prefix_match(p, t, k as nat, i as int, j as int)) by {
                        lemma_step_bit(old_r_k, char_mask, prev_r_error, r@[k - 1], j);
                        assert(word_bit(char_mask, j) == !(t[i as int] == p[j as int]));
                        assert(word_bit(prev_r_error, j) == !approx_prefix_match(p, t, (k - 1) as nat, i - 1, j as int));
                        assert(word_bit(r@[k - 1], j) == !approx_prefix_match(p, t, (k - 1) as nat, i as int, j as int));
                        assert(word_bit(self.char_masks@[byte as int], j) == !(j < pl && p[j as int] == byte as int));
                        let e = (k - 1) as nat;
                        assert(approx_prefix_match(p, t, k as nat, i as int, j as int) == (
                            (approx_prefix_match(p, t, k as nat, i - 1, j - 1) && t[i as int] == p[j as int])
                            || approx_prefix_match(p, t, e, i - 1, j - 1)
                            || approx_prefix_match(p, t, e, i as int, j - 1)
                            || approx_prefix_match(p, t, e, i - 1, j as int)));
                        if j == 0 {
                            assert(approx_prefix_match(p, t, k as nat, i - 1, -1));
                            assert(approx_prefix_match(p, t, e, i - 1, -1));
                            assert(approx_prefix_match(p, t, e, i as int, -1));
                        }
                        if j > 0 {
                            assert(word_bit(old_r_k, (j - 1) as u64) == !approx_prefix_match(p, t, k as nat, i - 1, j - 1));
                            assert(word_bit(prev_r_error, (j - 1) as u64) == !approx_prefix_match(p, t, (k - 1) as nat, i - 1, j - 1));
                            assert(word_bit(r@[k - 1], (j - 1) as u64) == !approx_prefix_match(p, t, (k - 1) as nat, i as int, j - 1));
                        }
                    }
                }
                prev_r_error = old_r_k;
                r.set(k, nk);
                if nk & match_mask == 0 {
                    proof {
                        lemma_match_bit(nk, (pl - 1) as u64);
                        lemma_approx_monotone_to(p, t, k as nat, km, i as int, pl - 1);
                        self.lemma_first(p, t, km, i as int);
                    }
                    return Some(i);
                }
                proof {
                    lemma_match_bit(nk, (pl - 1) as u64);
                }
                k = k + 1;
            }
            proof {
                assert(!approx_prefix_match(p, t, km, i as int, pl - 1));
            }
            i = i + 1;
        }
        proof {
            if exists|i: int| 0 <= i < t.len() && #[trigger] ends_within(p, t, km, i) {
                let w = choose|i: int| 0 <= i < t.len() && #[trigger] ends_within(p, t, km, i);
                lemma_ends_within(p, t, km, w);
                assert(!approx_prefix_match(p, t, km, w, pl - 1));
            }
        }
        None
    }

    proof fn lemma_first(&self, p: Seq<u8>, t: Seq<u8>, km: nat, i: int)
        requires
            p.len() > 0,
            0 <= i < t.len(),
            approx_prefix_match(p, t, km, i, p.len() - 1),
            forall|i2: int| 0 <= i2 < i ==> !#[trigger] approx_prefix_match(p, t, km, i2, p.len() - 1),
        ensures
            first_approx_match(p, t, km) == Some(i),
    {
        lemma_ends_within(p, t, km, i);
        assert forall|i2: int| 0 <= i2 < i implies !#[trigger] ends_within(p, t, km, i2) by {
            lemma_ends_within(p, t, km, i2);
        }
        let w = choose|w: int| 0 <= w < t.len() && #[trigger] ends_within(p, t, km, w)
            && forall|i2: int| 0 <= i2 < w ==> !#[trigger] ends_within(p, t, km, i2);
        if w < i {
        } else if w > i {
            assert(!ends_within(p, t, km, i));
        }
    }
}

proof fn lemma_match_bit(w: u64, b: u64)
    requires
        b < 64,
    ensures
        (w & (1u64 << b) == 0) == !word_bit(w, b),
{
    assert((w & (1u64 << b) == 0) == !((w >> b) & 1 == 1)) by (bit_vector)
        requires b < 64;
}

proof fn lemma_shift_or_bit(x: u64, m: u64, j: u64)
    requires
        j < 64,
    ensures
        word_bit((x << 1u64) | m, j) == ((j > 0 && word_bit(x, (j - 1) as u64)) || word_bit(m, j)),
{
    assert(((((x << 1u64) | m) >> j) & 1 == 1) == ((j > 0 && (x >> ((j - 1) as u64)) & 1 == 1) || (m
        >> j) & 1 == 1)) by (bit_vector)
        requires j < 64;
}

proof fn lemma_and_bit(a: u64, b: u64, j: u64)
    requires
        j < 64,
    ensures
        word_bit(a & b, j) == (word_bit(a, j) && word_bit(b, j)),
{
    assert((((a & b) >> j) & 1 == 1) == ((a >> j) & 1 == 1 && (b >> j) & 1 == 1)) by (bit_vector)
        requires j < 64;
}

proof fn lemma_shl1_bit(x: u64, j: u64)
    requires
        j < 64,
    ensures
        word_bit(x << 1u64, j) == (j > 0 && word_bit(x, (j - 1) as u64)),
{
    assert((((x << 1u64) >> j) & 1 == 1) == (j > 0 && (x >> ((j - 1) as u64)) & 1 == 1))
        by (bit_vector)
        requires j < 64;
}

proof fn lemma_step_bit(ok: u64, m: u64, pe: u64, nr: u64, j: u64)
    requires
        j < 64,
    ensures
        word_bit(((ok << 1u64) | m) & (pe << 1u64) & (nr << 1u64) & pe, j) == (((j > 0 && word_bit(
            ok,
            (j - 1) as u64,
        )) || word_bit(m, j)) && (j > 0 && word_bit(pe, (j - 1) as u64)) && (j > 0 && word_bit(
            nr,
            (j - 1) as u64,
        )) && word_bit(pe, j)),
{
    let a = (ok << 1u64) | m;
    let b = pe << 1u64;
    let c = nr << 1u64;
    lemma_shift_or_bit(ok, m, j);
    lemma_shl1_bit(pe, j);
    lemma_shl1_bit(nr, j);
    lemma_and_bit(a, b, j);
    lemma_and_bit(a & b, c, j);
    lemma_and_bit(a & b & c, pe, j);
}

/// The characters of `s`, in order.
pub(crate) fn chars_of(s: &str) -> (v: Vec<char>)
    ensures
        v@ == s@,
{
    let mut v: Vec<char> = Vec::new();
    for c in it: s.chars()
        invariant
            v@ == it.seq().take(it.index() as int),
    {
        v.push(c);
    }
    v
}

/// The Levenshtein distance of `s1` and `s2`, counted in characters, from the
/// full table of prefix distances.
pub fn levenshtein_distance(s1: &str, s2: &str) -> (d: usize)
    requires
        s1@.len() < usize::MAX,
        s2@.len() < usize::MAX,
    ensures
        d == edit_distance(s1@, s2@),
{
    let v1 = chars_of(s1);
    let v2 = chars_of(s2);
    let n = v1.len();
    let m = v2.len();
    if n == 0 {
        return m;
    }
    if m == 0 {
        return n;
    }
    let ghost a = v1@;
    let ghost b = v2@;
    let mut dp: Vec<Vec<usize>> = Vec::new();
    // Row 0: the distance of the empty prefix to each prefix of `s2`.
    let mut row0: Vec<usize> = Vec::new();
    let mut j: usize = 0;
    while j <= m
        invariant
            m == b.len() < usize::MAX,
            j <= m + 1,
            row0@.len() == j,
            forall|k: int| 0 <= k < j ==> row0@[k] == edit_distance(a.take(0), b.take(k)),
        decreases m + 1 - j,
    {
        row0.push(j);
        assert(a.take(0).len() == 0);
        j = j + 1;
    }
    dp.push(row0);
    let mut i: usize = 1;
    while i <= n
        invariant
            n == a.len() < usize::MAX,
            m == b.len() < usize::MAX,
            v1@ == a,
            v2@ == b,
            1 <= i <= n + 1,
            dp@.len() == i,
            forall|r: int| 0 <= r < i ==> (#[trigger] dp@[r])@.len() == m + 1,
            forall|r: int, k: int|
                0 <= r < i && 0 <= k <= m ==> #[trigger] dp@[r]@[k] == edit_distance(a.take(r), b.take(k)),
        decreases n + 1 - i,
    {
        let mut row: Vec<usize> = Vec::new();
        row.push(i);
        assert(b.take(0).len() == 0);
        let mut j: usize = 1;
        while j <= m
            invariant
                n == a.len() < usize::MAX,
                m == b.len() < usize::MAX,
                v1@ == a,
                v2@ == b,
                1 <= i <= n,
                1 <= j <= m + 1,
                dp@.len() == i,
                forall|r: int| 0 <= r < i ==> (#[trigger] dp@[r])@.len() == m + 1,
                forall|r: int, k: int|
                    0 <= r < i && 0 <= k <= m ==> #[trigger] dp@[r]@[k] == edit_distance(a.take(r), b.take(k)),
                row@.len() == j,
                forall|k: int| 0 <= k < j ==> row@[k] == edit_distance(a.take(i as int), b.take(k)),
            decreases m + 1 - j,
        {
            let cost: usize = if v1[i - 1] == v2[j - 1] { 0 } else { 1 };
            proof {
                lemma_edit_distance_step(a, b, i as int, j as int);
                lemma_edit_distance_bound(a.take(i - 1), b.take(j as int));
                lemma_edit_distance_bound(a.take(i as int), b.take(j - 1));
                lemma_edit_distance_bound(a.take(i - 1), b.take(j - 1));
            }
            let up = dp[i - 1][j] + 1;
            let left = row[j - 1] + 1;
            let diag = dp[i - 1][j - 1] + cost;
            let best = if up <= left { up } else { left };
            let best = if best <= diag { best } else { diag };
            row.push(best);
            j = j + 1;
        }
        dp.push(row);
        i = i + 1;
    }
    assert(a.take(n as int) =~= a);
    assert(b.take(m as int) =~= b);
    dp[n][m]
}

} // verus!
