//! A fixed-size set of bit positions, packed 64 to a word, with in-place
//! dilation ("proximity expansion").
use vstd::prelude::*;

verus! {

/// Bit `b` (0 = least significant) of `w`.
pub open spec fn word_bit(w: u64, b: u64) -> bool {
    (w >> b) & 1 == 1
}

/// Whether position `i` is set in the words `ws`: bit `i % 64` of word `i / 64`.
/// Positions outside `0 .. 64 * ws.len()` are never set.
pub open spec fn bit_of(ws: Seq<u64>, i: int) -> bool {
    0 <= i < 64 * ws.len() && word_bit(ws[i / 64], (i % 64) as u64)
}

/// Some position `i - t` for `t` in `0 ..= d` is set in `ws`.
pub open spec fn set_within_before(ws: Seq<u64>, i: int, d: int) -> bool {
    exists|t: int| 0 <= t <= d && #[trigger] bit_of(ws, i - t)
}

/// Some position `i + t` for `t` in `0 ..= d` is set in `ws`.
pub open spec fn set_within_after(ws: Seq<u64>, i: int, d: int) -> bool {
    exists|t: int| 0 <= t <= d && #[trigger] bit_of(ws, i + t)
}

#[derive(Clone, Debug)]
pub struct BitSet {
    pub words: Vec<u64>,
}

impl BitSet {
    /// The number of positions the set can hold: 64 per word.
    #[verifier::inline]
    pub open spec fn capacity(&self) -> nat {
        64 * self.words@.len()
    }

    /// Whether position `i` is in the set.
    #[verifier::inline]
    pub open spec fn contains(&self, i: int) -> bool {
        bit_of(self.words@, i)
    }
}

// ---------------------------------------------------------------------------
// Word-level facts
// ---------------------------------------------------------------------------

proof fn lemma_word_or(a: u64, s: u64, b: u64)
    requires
        b < 64,
    ensures
        word_bit(a | s, b) == (word_bit(a, b) || word_bit(s, b)),
{
    assert(((a | s) >> b) & 1 == 1 <==> ((a >> b) & 1 == 1 || (s >> b) & 1 == 1)) by (bit_vector)
        requires b < 64;
}

proof fn lemma_word_and(a: u64, s: u64, b: u64)
    requires
        b < 64,
    ensures
        word_bit(a & s, b) == (word_bit(a, b) && word_bit(s, b)),
{
    assert(((a & s) >> b) & 1 == 1 <==> ((a >> b) & 1 == 1 && (s >> b) & 1 == 1)) by (bit_vector)
        requires b < 64;
}

proof fn lemma_word_shl(x: u64, r: u64, b: u64)
    requires
        r < 64,
        b < 64,
    ensures
        word_bit(x << r, b) == (b >= r && word_bit(x, (b - r) as u64)),
{
    assert(((x << r) >> b) & 1 == 1 <==> (b >= r && (x >> ((b - r) as u64)) & 1 == 1))
        by (bit_vector)
        requires r < 64, b < 64;
}

proof fn lemma_word_shr(x: u64, r: u64, b: u64)
    requires
        r < 64,
        b < 64,
    ensures
        word_bit(x >> r, b) == (b + r < 64 && word_bit(x, (b + r) as u64)),
{
    assert(((x >> r) >> b) & 1 == 1 <==> (b + r < 64 && (x >> ((b + r) as u64)) & 1 == 1))
        by (bit_vector)
        requires r < 64, b < 64;
}

proof fn lemma_word_shl_join(x: u64, y: u64, r: u64, b: u64)
    requires
        0 < r < 64,
        b < 64,
    ensures
        word_bit((x << r) | (y >> ((64 - r) as u64)), b) == if b >= r {
            word_bit(x, (b - r) as u64)
        } else {
            word_bit(y, (b + 64 - r) as u64)
        },
{
    assert((((x << r) | (y >> ((64 - r) as u64))) >> b) & 1 == 1 <==> (if b >= r {
        (x >> ((b - r) as u64)) & 1 == 1
    } else {
        (y >> ((b + 64 - r) as u64)) & 1 == 1
    })) by (bit_vector)
        requires 0 < r < 64, b < 64;
}

proof fn lemma_word_shr_join(x: u64, y: u64, r: u64, b: u64)
    requires
        0 < r < 64,
        b < 64,
    ensures
        word_bit((x >> r) | (y << ((64 - r) as u64)), b) == if b + r < 64 {
            word_bit(x, (b + r) as u64)
        } else {
            word_bit(y, (b + r - 64) as u64)
        },
{
    assert((((x >> r) | (y << ((64 - r) as u64))) >> b) & 1 == 1 <==> (if b + r < 64 {
        (x >> ((b + r) as u64)) & 1 == 1
    } else {
        (y >> ((b + r - 64) as u64)) & 1 == 1
    })) by (bit_vector)
        requires 0 < r < 64, b < 64;
}

proof fn lemma_word_set(w: u64, r: u64, b: u64)
    requires
        r < 64,
        b < 64,
    ensures
        word_bit(w | (1u64 << r), b) == (word_bit(w, b) || b == r),
{
    assert(((w | (1u64 << r)) >> b) & 1 == 1 <==> ((w >> b) & 1 == 1 || b == r)) by (bit_vector)
        requires r < 64, b < 64;
}

proof fn lemma_word_zero(b: u64)
    requires
        b < 64,
    ensures
        !word_bit(0, b),
{
    assert((0u64 >> b) & 1 != 1) by (bit_vector)
        requires b < 64;
}

/// A nonzero word has a set bit.
proof fn lemma_word_nonzero(w: u64)
    requires
        w != 0,
    ensures
        exists|b: u64| b < 64 && #[trigger] word_bit(w, b),
    decreases w,
{
    if w & 1 == 1 {
        assert((w >> 0u64) & 1 == w & 1) by (bit_vector);
        assert(word_bit(w, 0));
    } else {
        let h = w >> 1u64;
        assert(w != 0 && w & 1 != 1 ==> (w >> 1u64) != 0 && (w >> 1u64) < w) by (bit_vector);
        lemma_word_nonzero(h);
        let b = choose|b: u64| b < 64 && #[trigger] word_bit(h, b);
        assert(b < 64 && ((w >> 1u64) >> b) & 1 == 1 ==> b < 63 && (w >> ((b + 1) as u64)) & 1
            == 1) by (bit_vector);
        assert(word_bit(w, (b + 1) as u64));
    }
}

/// Position `64 * j + b` lies in word `j` at bit `b`.
proof fn lemma_split(i: int, j: int, b: int)
    requires
        0 <= b < 64,
        i == 64 * j + b,
    ensures
        i / 64 == j,
        i % 64 == b,
{
}


/// One forward shift-or step widens the reach of every set position from `c`
/// to `c + s`, as long as the shift leaves no gap (`s <= c + 1`).
proof fn lemma_grow_before(old_ws: Seq<u64>, cur: Seq<u64>, new_ws: Seq<u64>, c: int, s: int)
    requires
        0 <= c,
        1 <= s <= c + 1,
        cur.len() == old_ws.len(),
        new_ws.len() == old_ws.len(),
        forall|i: int| #[trigger] bit_of(cur, i) == (0 <= i < 64 * old_ws.len() && set_within_before(old_ws, i, c)),
        forall|i: int| #[trigger] bit_of(new_ws, i) == (bit_of(cur, i) || (s <= i < 64 * cur.len() && bit_of(cur, i - s))),
    ensures
        forall|i: int| #[trigger] bit_of(new_ws, i) == (0 <= i < 64 * old_ws.len() && set_within_before(old_ws, i, c + s)),
{
    assert forall|i: int| #[trigger] bit_of(new_ws, i) == (0 <= i < 64 * old_ws.len() && set_within_before(old_ws, i, c + s)) by {
        if bit_of(new_ws, i) {
            if bit_of(cur, i) {
                let t = choose|t: int| 0 <= t <= c && #[trigger] bit_of(old_ws, i - t);
                assert(bit_of(old_ws, i - t));
            } else {
                assert(bit_of(cur, i - s));
                let t = choose|t: int| 0 <= t <= c && #[trigger] bit_of(old_ws, i - s - t);
                assert(bit_of(old_ws, i - (s + t)));
            }
        }
        if 0 <= i < 64 * old_ws.len() && set_within_before(old_ws, i, c + s) {
            let t = choose|t: int| 0 <= t <= c + s && #[trigger] bit_of(old_ws, i - t);
            if t <= c {
                assert(bit_of(cur, i));
            } else {
                assert(bit_of(old_ws, (i - s) - (t - s)));
                assert(bit_of(cur, i - s));
            }
        }
    }
}

/// The backward counterpart of `lemma_grow_before`.
proof fn lemma_grow_after(old_ws: Seq<u64>, cur: Seq<u64>, new_ws: Seq<u64>, c: int, s: int)
    requires
        0 <= c,
        1 <= s <= c + 1,
        cur.len() == old_ws.len(),
        new_ws.len() == old_ws.len(),
        forall|i: int| #[trigger] bit_of(cur, i) == (0 <= i < 64 * old_ws.len() && set_within_after(old_ws, i, c)),
        forall|i: int| #[trigger] bit_of(new_ws, i) == (bit_of(cur, i) || (0 <= i && bit_of(cur, i + s))),
    ensures
        forall|i: int| #[trigger] bit_of(new_ws, i) == (0 <= i < 64 * old_ws.len() && set_within_after(old_ws, i, c + s)),
{
    assert forall|i: int| #[trigger] bit_of(new_ws, i) == (0 <= i < 64 * old_ws.len() && set_within_after(old_ws, i, c + s)) by {
        if bit_of(new_ws, i) {
            if bit_of(cur, i) {
                let t = choose|t: int| 0 <= t <= c && #[trigger] bit_of(old_ws, i + t);
                assert(bit_of(old_ws, i + t));
            } else {
                assert(bit_of(cur, i + s));
                let t = choose|t: int| 0 <= t <= c && #[trigger] bit_of(old_ws, i + s + t);
                assert(bit_of(old_ws, i + (s + t)));
            }
        }
        if 0 <= i < 64 * old_ws.len() && set_within_after(old_ws, i, c + s) {
            let t = choose|t: int| 0 <= t <= c + s && #[trigger] bit_of(old_ws, i + t);
            if t <= c {
                assert(bit_of(cur, i));
            } else {
                assert(bit_of(old_ws, (i + s) + (t - s)));
                assert(bit_of(cur, i + s));
            }
        }
    }
}

// ---------------------------------------------------------------------------
// Executable code
// ---------------------------------------------------------------------------

impl BitSet {
    /// An empty set able to hold `size_bits` positions (rounded up to whole words).
    pub fn new(size_bits: usize) -> (s: Self)
        requires
            size_bits + 63 <= usize::MAX,
        ensures
            s.words@.len() == (size_bits + 63) / 64,
            forall|i: int| !s.contains(i),
    {
        let num_words = (size_bits + 63) / 64;
        let mut words: Vec<u64> = Vec::new();
        let mut k: usize = 0;
        while k < num_words
            invariant
                k <= num_words,
                words@.len() == k,
                forall|j: int| 0 <= j < k ==> words@[j] == 0,
            decreases num_words - k,
        {
            words.push(0);
            k = k + 1;
        }
        let s = BitSet { words };
        assert forall|i: int| !s.contains(i) by {
            if 0 <= i < s.capacity() {
                lemma_word_zero((i % 64) as u64);
            }
        }
        s
    }

    /// Adds position `bit`; a position beyond the capacity is ignored.
    pub fn set(&mut self, bit: usize)
        ensures
            final(self).words@.len() == old(self).words@.len(),
            forall|i: int| #[trigger] final(self).contains(i) == (old(self).contains(i) || (i == bit
                && bit < old(self).capacity())),
    {
        let idx = bit / 64;
        if idx < self.words.len() {
            let r = (bit % 64) as u64;
            let w = self.words[idx];
            let ghost old_words = self.words@;
            self.words.set(idx, w | (1u64 << r));
            assert forall|i: int| #[trigger] self.contains(i) == (bit_of(old_words, i) || (i == bit
                && bit < 64 * old_words.len())) by {
                if 0 <= i < 64 * old_words.len() {
                    let b = (i % 64) as u64;
                    if i / 64 == idx as int {
                        lemma_word_set(w, r, b);
                        lemma_split(bit as int, idx as int, r as int);
                    } else {
                        assert(i != bit);
                    }
                }
            }
        }
    }

    /// Whether no position is set.
    pub fn is_empty(&self) -> (e: bool)
        ensures
            e == (forall|i: int| !self.contains(i)),
    {
        let mut k: usize = 0;
        while k < self.words.len()
            invariant
                k <= self.words@.len(),
                forall|j: int| 0 <= j < k ==> self.words@[j] == 0,
            decreases self.words@.len() - k,
        {
            if self.words[k] != 0 {
                proof {
                    lemma_word_nonzero(self.words@[k as int]);
                    let b = choose|b: u64| b < 64 && #[trigger] word_bit(self.words@[k as int], b);
                    let i = 64 * (k as int) + b as int;
                    lemma_split(i, k as int, b as int);
                    assert(self.contains(i));
                }
                return false;
            }
            k = k + 1;
        }
        assert forall|i: int| !self.contains(i) by {
            if 0 <= i < self.capacity() {
                lemma_word_zero((i % 64) as u64);
            }
        }
        true
    }

    /// Expands the set by distance `d` in both directions: afterwards a position
    /// is set exactly when some position within `d` of it was set before (as far
    /// as the capacity goes).
    pub fn proximity_expand(&mut self, d: usize)
        ensures
            final(self).words@.len() == old(self).words@.len(),
            forall|i: int| #[trigger] final(self).contains(i) == (0 <= i < old(self).capacity()
                && exists|j: int| i - d <= j <= i + d && #[trigger] old(self).contains(j)),
    {
        let ghost old_ws = self.words@;
        if d == 0 {
            assert forall|i: int| #[trigger] self.contains(i) == (0 <= i < 64 * old_ws.len()
                && exists|j: int| i - d <= j <= i + d && #[trigger] bit_of(old_ws, j)) by {
                if self.contains(i) {
                    assert(bit_of(old_ws, i));
                }
            }
            return;
        }
        let before = BitSet { words: self.words.clone() };
        assert(before.words@ =~= old_ws);
        self.expand_direction(d, true);
        let mut left_expanded = before;
        left_expanded.expand_direction(d, false);
        let ghost right_ws = self.words@;
        let n = self.words.len();
        let mut k: usize = 0;
        while k < n
            invariant
                n == self.words@.len() == right_ws.len() == left_expanded.words@.len() == old_ws.len(),
                k <= n,
                forall|j: int| k <= j < n ==> self.words@[j] == right_ws[j],
                forall|j: int| 0 <= j < k ==> self.words@[j] == right_ws[j] | left_expanded.words@[j],
            decreases n - k,
        {
            let v = self.words[k] | left_expanded.words[k];
            self.words.set(k, v);
            k = k + 1;
        }
        assert forall|i: int| #[trigger] self.contains(i) == (0 <= i < 64 * old_ws.len()
            && exists|j: int| i - d <= j <= i + d && #[trigger] bit_of(old_ws, j)) by {
            if 0 <= i < 64 * n {
                let w = i / 64;
                lemma_word_or(right_ws[w], left_expanded.words@[w], (i % 64) as u64);
                assert(self.contains(i) == (bit_of(right_ws, i) || left_expanded.contains(i)));
                if bit_of(right_ws, i) {
                    let t = choose|t: int| 0 <= t <= d && #[trigger] bit_of(old_ws, i - t);
                    assert(bit_of(old_ws, i - t));
                }
                if left_expanded.contains(i) {
                    let t = choose|t: int| 0 <= t <= d && #[trigger] bit_of(old_ws, i + t);
                    assert(bit_of(old_ws, i + t));
                }
                if exists|j: int| i - d <= j <= i + d && #[trigger] bit_of(old_ws, j) {
                    let j = choose|j: int| i - d <= j <= i + d && #[trigger] bit_of(old_ws, j);
                    if j <= i {
                        assert(bit_of(old_ws, i - (i - j)));
                        assert(set_within_before(old_ws, i, d as int));
                    } else {
                        assert(bit_of(old_ws, i + (j - i)));
                        assert(set_within_after(old_ws, i, d as int));
                    }
                }
            }
        }
    }

    /// Expands the set by distance `d` in one direction: forward (towards higher
    /// positions) or backward. Shifts double in length while they fit within
    /// `d`, and one last shift makes up the rest, so the work is logarithmic in `d`.
    fn expand_direction(&mut self, d: usize, forward: bool)
        ensures
            final(self).words@.len() == old(self).words@.len(),
            forward ==> forall|i: int| #[trigger] final(self).contains(i) == (0 <= i < old(self).capacity()
                && set_within_before(old(self).words@, i, d as int)),
            !forward ==> forall|i: int| #[trigger] final(self).contains(i) == (0 <= i < old(self).capacity()
                && set_within_after(old(self).words@, i, d as int)),
    {
        let ghost old_ws = self.words@;
        let mut covered: usize = 0;
        assert forall|i: int| #[trigger] self.contains(i) == (0 <= i < 64 * old_ws.len()
            && set_within_before(old_ws, i, 0)) by {
            if self.contains(i) {
                assert(bit_of(old_ws, i - 0));
            }
        }
        assert forall|i: int| #[trigger] self.contains(i) == (0 <= i < 64 * old_ws.len()
            && set_within_after(old_ws, i, 0)) by {
            if self.contains(i) {
                assert(bit_of(old_ws, i + 0));
            }
        }
        while covered < d
            invariant
                covered <= d,
                self.words@.len() == old_ws.len(),
                forward ==> forall|i: int| #[trigger] self.contains(i) == (0 <= i < 64 * old_ws.len()
                    && set_within_before(old_ws, i, covered as int)),
                !forward ==> forall|i: int| #[trigger] self.contains(i) == (0 <= i < 64 * old_ws.len()
                    && set_within_after(old_ws, i, covered as int)),
            decreases d - covered,
        {
            // The next shift: double the reach, or make up exactly what is left.
            let step = if d - covered > covered { covered + 1 } else { d - covered };
            let ghost cur = self.words@;
            if forward {
                self.or_shl_self(step);
                proof {
                    lemma_grow_before(old_ws, cur, self.words@, covered as int, step as int);
                }
            } else {
                self.or_shr_self(step);
                proof {
                    lemma_grow_after(old_ws, cur, self.words@, covered as int, step as int);
                }
            }
            covered = covered + step;
        }
    }

    /// Adds every position `i + k` for `i` in the set, as far as the capacity goes.
    fn or_shl_self(&mut self, k: usize)
        ensures
            final(self).words@.len() == old(self).words@.len(),
            forall|i: int| #[trigger] final(self).contains(i) == (old(self).contains(i) || (k <= i
                < old(self).capacity() && old(self).contains(i - k))),
    {
        let ghost old_ws = self.words@;
        let q = k / 64;
        let r = k % 64;
        let n = self.words.len();
        if q >= n {
            // Every shifted position lies beyond the capacity.
            return;
        }
        if r == 0 {
            let mut i = n;
            while i > q
                invariant
                    q < n == old_ws.len() == self.words@.len(),
                    q <= i <= n,
                    forall|j: int| 0 <= j < i ==> self.words@[j] == old_ws[j],
                    forall|j: int| i <= j < n ==> self.words@[j] == old_ws[j] | old_ws[j - q],
                decreases i,
            {
                i = i - 1;
                let v = self.words[i] | self.words[i - q];
                self.words.set(i, v);
            }
            assert forall|x: int| #[trigger] self.contains(x) == (bit_of(old_ws, x) || (k <= x < 64
                * old_ws.len() && bit_of(old_ws, x - k))) by {
                if 0 <= x < 64 * n {
                    let j = x / 64;
                    let b = (x % 64) as u64;
                    if j >= q {
                        lemma_word_or(old_ws[j], old_ws[j - q], b);
                        lemma_split(x - k, j - q, b as int);
                    } else {
                        assert(x < k);
                    }
                }
            }
        } else {
            let r_inv = 64 - r;
            let mut i = n;
            while i > q + 1
                invariant
                    q < n == old_ws.len() == self.words@.len(),
                    0 < r < 64,
                    r_inv == 64 - r,
                    q + 1 <= i <= n,
                    forall|j: int| 0 <= j < i ==> self.words@[j] == old_ws[j],
                    forall|j: int|
                        i <= j < n ==> self.words@[j] == old_ws[j] | ((old_ws[j - q] << (r as u64))
                            | (old_ws[j - q - 1] >> (r_inv as u64))),
                decreases i,
            {
                i = i - 1;
                let shifted = (self.words[i - q] << (r as u64)) | (self.words[i - q - 1] >> (
                r_inv as u64));
                let v = self.words[i] | shifted;
                self.words.set(i, v);
            }
            let v = self.words[q] | (self.words[0] << (r as u64));
            self.words.set(q, v);
            assert forall|x: int| #[trigger] self.contains(x) == (bit_of(old_ws, x) || (k <= x < 64
                * old_ws.len() && bit_of(old_ws, x - k))) by {
                if 0 <= x < 64 * n {
                    let j = x / 64;
                    let b = (x % 64) as u64;
                    if j > q {
                        let s = (old_ws[j - q] << (r as u64)) | (old_ws[j - q - 1] >> (r_inv as u64));
                        lemma_word_or(old_ws[j], s, b);
                        lemma_word_shl_join(old_ws[j - q], old_ws[j - q - 1], r as u64, b);
                        if b >= r {
                            lemma_split(x - k, j - q, b - r);
                        } else {
                            lemma_split(x - k, j - q - 1, b + 64 - r);
                        }
                    } else if j == q {
                        lemma_word_or(old_ws[q as int], old_ws[0] << (r as u64), b);
                        lemma_word_shl(old_ws[0], r as u64, b);
                        if b >= r {
                            lemma_split(x - k, 0, b - r);
                        }
                    } else {
                        assert(x < k);
                    }
                }
            }
        }
    }

    /// Adds every position `i - k` for `i` in the set, as far down as 0.
    fn or_shr_self(&mut self, k: usize)
        ensures
            final(self).words@.len() == old(self).words@.len(),
            forall|i: int| #[trigger] final(self).contains(i) == (old(self).contains(i) || (0 <= i
                && old(self).contains(i + k))),
    {
        let ghost old_ws = self.words@;
        let q = k / 64;
        let r = k % 64;
        let n = self.words.len();
        if q >= n {
            // Every shifted position lies below 0.
            assert forall|x: int| #[trigger] self.contains(x) == (bit_of(old_ws, x) || (0 <= x
                && bit_of(old_ws, x + k))) by {
            }
            return;
        }
        if r == 0 {
            let mut i: usize = 0;
            while i < n - q
                invariant
                    q < n == old_ws.len() == self.words@.len(),
                    0 <= i <= n - q,
                    forall|j: int| i <= j < n ==> self.words@[j] == old_ws[j],
                    forall|j: int| 0 <= j < i ==> self.words@[j] == old_ws[j] | old_ws[j + q],
                decreases n - q - i,
            {
                let v = self.words[i] | self.words[i + q];
                self.words.set(i, v);
                i = i + 1;
            }
            assert forall|x: int| #[trigger] self.contains(x) == (bit_of(old_ws, x) || (0 <= x
                && bit_of(old_ws, x + k))) by {
                if 0 <= x < 64 * n {
                    let j = x / 64;
                    let b = (x % 64) as u64;
                    if j < n - q {
                        lemma_word_or(old_ws[j], old_ws[j + q], b);
                        lemma_split(x + k, j + q, b as int);
                    } else {
                        assert(x + k >= 64 * n);
                    }
                }
            }
        } else {
            let r_inv = 64 - r;
            let mut i: usize = 0;
            while i < n - q - 1
                invariant
                    q < n == old_ws.len() == self.words@.len(),
                    0 < r < 64,
                    r_inv == 64 - r,
                    0 <= i <= n - q - 1,
                    forall|j: int| i <= j < n ==> self.words@[j] == old_ws[j],
                    forall|j: int|
                        0 <= j < i ==> self.words@[j] == old_ws[j] | ((old_ws[j + q] >> (r as u64))
                            | (old_ws[j + q + 1] << (r_inv as u64))),
                decreases n - q - 1 - i,
            {
                let shifted = (self.words[i + q] >> (r as u64)) | (self.words[i + q + 1] << (
                r_inv as u64));
                let v = self.words[i] | shifted;
                self.words.set(i, v);
                i = i + 1;
            }
            let last_idx = n - q - 1;
            let v = self.words[last_idx] | (self.words[n - 1] >> (r as u64));
            self.words.set(last_idx, v);
            assert forall|x: int| #[trigger] self.contains(x) == (bit_of(old_ws, x) || (0 <= x
                && bit_of(old_ws, x + k))) by {
                if 0 <= x < 64 * n {
                    let j = x / 64;
                    let b = (x % 64) as u64;
                    if j < n - q - 1 {
                        let s = (old_ws[j + q] >> (r as u64)) | (old_ws[j + q + 1] << (r_inv as u64));
                        lemma_word_or(old_ws[j], s, b);
                        lemma_word_shr_join(old_ws[j + q], old_ws[j + q + 1], r as u64, b);
                        if b + r < 64 {
                            lemma_split(x + k, j + q, b + r);
                        } else {
                            lemma_split(x + k, j + q + 1, b + r - 64);
                        }
                    } else if j == n - q - 1 {
                        lemma_word_or(old_ws[j], old_ws[n - 1] >> (r as u64), b);
                        lemma_word_shr(old_ws[n - 1], r as u64, b);
                        if b + r < 64 {
                            lemma_split(x + k, n - 1, b + r);
                        } else {
                            assert(x + k >= 64 * n);
                        }
                    } else {
                        assert(x + k >= 64 * n);
                    }
                }
            }
        }
    }
}

impl BitSet {
    /// A copy of the set.
    pub fn copy(&self) -> (c: BitSet)
        ensures
            c.words@ == self.words@,
    {
        let mut words: Vec<u64> = Vec::new();
        let mut k: usize = 0;
        while k < self.words.len()
            invariant
                k <= self.words@.len(),
                words@ == self.words@.take(k as int),
            decreases self.words@.len() - k,
        {
            words.push(self.words[k]);
            proof {
                assert(self.words@.take(k + 1) =~= self.words@.take(k as int).push(self.words@[k as int]));
            }
            k = k + 1;
        }
        proof {
            assert(self.words@.take(self.words@.len() as int) =~= self.words@);
        }
        BitSet { words }
    }

    /// Whether some position is in both sets.
    pub fn intersects(&self, other: &BitSet) -> (r: bool)
        ensures
            r == exists|i: int| #[trigger] self.contains(i) && other.contains(i),
    {
        let n = if self.words.len() < other.words.len() {
            self.words.len()
        } else {
            other.words.len()
        };
        let mut k: usize = 0;
        while k < n
            invariant
                k <= n,
                n <= self.words@.len(),
                n <= other.words@.len(),
                n == self.words@.len() || n == other.words@.len(),
                forall|i: int| 0 <= i < 64 * k ==> !(#[trigger] self.contains(i) && other.contains(i)),
            decreases n - k,
        {
            let w = self.words[k] & other.words[k];
            if w != 0 {
                proof {
                    lemma_word_nonzero(w);
                    let b = choose|b: u64| b < 64 && #[trigger] word_bit(w, b);
                    lemma_word_and(self.words@[k as int], other.words@[k as int], b);
                    let i = 64 * (k as int) + b as int;
                    lemma_split(i, k as int, b as int);
                    assert(self.contains(i) && other.contains(i));
                }
                return true;
            }
            proof {
                assert forall|i: int| 0 <= i < 64 * (k + 1) implies !(#[trigger] self.contains(i) && other.contains(i)) by {
                    if i >= 64 * k {
                        let b = (i % 64) as u64;
                        lemma_split(i, k as int, b as int);
                        lemma_word_and(self.words@[k as int], other.words@[k as int], b);
                        lemma_word_zero(b);
                    }
                }
            }
            k = k + 1;
        }
        false
    }

    /// Adds the positions of `other` that lie within this set's capacity.
    pub fn union_with(&mut self, other: &BitSet)
        ensures
            final(self).words@.len() == old(self).words@.len(),
            forall|i: int| #[trigger] final(self).contains(i) == (old(self).contains(i) || (other.contains(i)
                && i < old(self).capacity())),
    {
        let ghost ws = self.words@;
        let n = if self.words.len() < other.words.len() {
            self.words.len()
        } else {
            other.words.len()
        };
        let mut k: usize = 0;
        while k < n
            invariant
                k <= n,
                n <= ws.len(),
                n <= other.words@.len(),
                n == ws.len() || n == other.words@.len(),
                self.words@.len() == ws.len(),
                forall|j: int| k <= j < ws.len() ==> self.words@[j] == ws[j],
                forall|i: int| 0 <= i < 64 * k ==> (#[trigger] self.contains(i) == (bit_of(ws, i) || other.contains(i))),
            decreases n - k,
        {
            let w = self.words[k] | other.words[k];
            let ghost before = self.words@;
            self.words.set(k, w);
            proof {
                assert forall|i: int| 0 <= i < 64 * (k + 1) implies (#[trigger] self.contains(i) == (bit_of(ws, i) || other.contains(i))) by {
                    let b = (i % 64) as u64;
                    if i >= 64 * k {
                        lemma_split(i, k as int, b as int);
                        lemma_word_or(ws[k as int], other.words@[k as int], b);
                    } else {
                        lemma_split(i, i / 64, i % 64);
                        assert(i / 64 < k);
                        assert(self.words@[i / 64] == before[i / 64]);
                        assert(bit_of(self.words@, i) == bit_of(before, i));
                    }
                }
            }
            k = k + 1;
        }
        proof {
            assert forall|i: int| #[trigger] self.contains(i) == (bit_of(ws, i) || (other.contains(i) && i < 64 * ws.len())) by {
                if 64 * n <= i < 64 * ws.len() {
                    assert(n < ws.len());
                    assert(n == other.words@.len());
                    assert(self.words@[i / 64] == ws[i / 64]);
                }
            }
        }
    }
}

} // verus!
