//! The first engine's searcher: it reads an index of positional posting lists
//! (files, blocks of three numbers, terms), and scores a block by the words it
//! holds and by how close each word comes to the words before it, measured on
//! bit sets of the block's byte positions.
use vstd::prelude::*;

use crate::pfr::bitset::BitSet;
use crate::pfr::indexer::BlockRef;
use crate::pfr::PfrError;
use crate::skanda::index_file::{get32, get64, postings_valid, read_files, read_terms, read_u32, read_u64};
use crate::skanda::indexer::{lemma_seq_index, postings_view, seq_index, token_scan, tokens};
use crate::text::{alphanumeric, from_utf8_lossy, is_alphanumeric, lossy_text, lowercase, push_char, to_lowercase};
use crate::skanda::snippet::{dots, find_first_hit, first_hit};
use vstd::string::StringSliceAdditionalSpecFns;
use vstd::utf8::{decode_utf8, encode_utf8, is_char_boundary, valid_utf8};
use crate::skanda::searcher::{
    block_positions, candidate_blocks_of, candidate_set, entry_list, find_block, ids_match,
    posting_list_ok, postings_ok, read_files_at, read_terms_at, strings_view, term_map_ok,
    term_postings,
};
use vstd::hash_map::StringHashMap;

verus! {

/// The block at `c`: file id, offset, length (16 bytes).
pub open spec fn read_ref(b: Seq<u8>, c: int) -> Option<(BlockRef, int)> {
    if 0 <= c && c + 16 <= b.len() {
        Some(((get32(b, c), get64(b, c + 4), get32(b, c + 12)), c + 16))
    } else {
        None
    }
}

/// `k` blocks read from `c` on, after those in `acc`.
pub open spec fn read_refs(b: Seq<u8>, c: int, k: nat, acc: Seq<BlockRef>) -> Option<(Seq<BlockRef>, int)>
    decreases k,
{
    if k == 0 {
        Some((acc, c))
    } else {
        match read_ref(b, c) {
            Some((r, c1)) => read_refs(b, c1, (k - 1) as nat, acc.push(r)),
            None => None,
        }
    }
}

/// Every block names a listed file, and its bit sets fit a `usize` count.
pub open spec fn refs_valid(blocks: Seq<BlockRef>, nfiles: nat) -> bool {
    forall|i: int| 0 <= i < blocks.len() ==> (#[trigger] blocks[i]).0 < nfiles && blocks[i].2 + 63 <= usize::MAX
}

/// Files, blocks, terms and posting lists, as plain values.
pub type RefIndexView = (Seq<Seq<char>>, Seq<BlockRef>, Seq<Seq<char>>, Seq<Seq<(u32, Seq<u32>)>>);

/// The index a file of this searcher holds: the files, the blocks and the
/// terms, each list after its 32-bit count; `None` when the file is cut short,
/// holds a posting list that does not decode, or names a file or block it does
/// not list.
pub open spec fn parse_ref_index(b: Seq<u8>) -> Option<RefIndexView> {
    if b.len() < 4 {
        None
    } else {
        match read_files(b, 4, get32(b, 0) as nat, seq![]) {
            Some((files, c1)) => if c1 + 4 > b.len() {
                None
            } else {
                match read_refs(b, c1 + 4, get32(b, c1) as nat, seq![]) {
                    Some((blocks, c2)) => if c2 + 4 > b.len() {
                        None
                    } else {
                        match read_terms(b, c2 + 4, get32(b, c2) as nat, seq![], seq![]) {
                            Some((terms, postings, _c3)) => if refs_valid(blocks, files.len()) && postings_valid(
                                postings,
                                blocks.len(),
                            ) {
                                Some((files, blocks, terms, postings))
                            } else {
                                None
                            },
                            None => None,
                        }
                    },
                    None => None,
                }
            },
            None => None,
        }
    }
}

/// A loaded index, ready to answer queries.
pub struct Searcher {
    terms: Vec<String>,
    postings: Vec<Vec<(u32, Vec<u32>)>>,
    term_ids: StringHashMap<usize>,
    blocks: Vec<BlockRef>,
    files: Vec<String>,
}

impl Searcher {
    /// The indexed files.
    pub closed spec fn files(&self) -> Seq<Seq<char>> {
        strings_view(self.files@)
    }

    /// The blocks: file id, byte offset, byte length.
    pub closed spec fn blocks(&self) -> Seq<BlockRef> {
        self.blocks@
    }

    /// The terms.
    pub closed spec fn terms(&self) -> Seq<Seq<char>> {
        strings_view(self.terms@)
    }

    /// Each term's posting list: block id and positions in the block.
    pub closed spec fn postings(&self) -> Seq<Seq<(u32, Seq<u32>)>> {
        postings_view(self.postings@)
    }

    /// Terms distinct and mapped; every block names a file; every posting a
    /// block, in increasing block order with sorted positions.
    pub closed spec fn wf(&self) -> bool {
        let p = self.postings();
        &&& term_map_ok(self.terms(), p.len(), self.term_ids@)
        &&& refs_valid(self.blocks@, self.files@.len())
        &&& postings_valid(p, self.blocks@.len())
        &&& forall|i: int| 0 <= i < p.len() ==> posting_list_ok(#[trigger] p[i])
    }
}

/// The `nb` blocks from `cursor` on, as `read_refs` reads them.
fn read_refs_at(bytes: &[u8], cursor: usize, nb: u32) -> (r: Option<(Vec<BlockRef>, usize)>)
    ensures
        match r {
            Some((blocks, c)) => read_refs(bytes@, cursor as int, nb as nat, seq![]) == Some((blocks@, c as int)),
            None => read_refs(bytes@, cursor as int, nb as nat, seq![]) is None,
        },
{
    let ghost b = bytes@;
    let ghost c0 = cursor as int;
    let mut blocks: Vec<BlockRef> = Vec::new();
    let mut cur = cursor;
    let mut i: u32 = 0;
    while i < nb
        invariant
            b == bytes@,
            c0 == cursor as int,
            i <= nb,
            read_refs(b, c0, nb as nat, seq![]) == read_refs(b, cur as int, (nb - i) as nat, blocks@),
        decreases nb - i,
    {
        if cur > bytes.len() || bytes.len() - cur < 16 {
            return None;
        }
        let f = read_u32(bytes, cur).unwrap();
        let off = read_u64(bytes, cur + 4).unwrap();
        let len = read_u32(bytes, cur + 12).unwrap();
        blocks.push((f, off, len));
        cur = cur + 16;
        i = i + 1;
    }
    Some((blocks, cur))
}

/// Whether every block names one of `nfiles` files and its bit sets fit.
fn refs_ok(blocks: &Vec<BlockRef>, nfiles: usize) -> (ok: bool)
    ensures
        ok == refs_valid(blocks@, nfiles as nat),
{
    let mut k: usize = 0;
    while k < blocks.len()
        invariant
            k <= blocks@.len(),
            forall|j: int| 0 <= j < k ==> (#[trigger] blocks@[j]).0 < nfiles && blocks@[j].2 + 63 <= usize::MAX,
        decreases blocks@.len() - k,
    {
        let (f, _, len) = blocks[k];
        if f as usize >= nfiles || len as usize > usize::MAX - 63 {
            return false;
        }
        k = k + 1;
    }
    true
}

impl Searcher {
    /// Loads an index from the bytes of an index file (see `parse_ref_index`):
    /// `InvalidIndex` exactly when they do not hold one. An index whose blocks
    /// name a file it does not list, or whose postings name a block it does not
    /// list, is refused here rather than loaded for a later lookup to fail on.
    pub fn from_bytes(bytes: &[u8]) -> (r: Result<Searcher, PfrError>)
        ensures
            match r {
                Ok(s) => s.wf() && parse_ref_index(bytes@) == Some((s.files(), s.blocks(), s.terms(), s.postings())),
                Err(e) => e is InvalidIndex && parse_ref_index(bytes@) is None,
            },
    {
        if bytes.len() < 4 {
            return Err(PfrError::InvalidIndex);
        }
        let nf = read_u32(bytes, 0).unwrap();
        let (files, c1) = match read_files_at(bytes, 4, nf) {
            Some(x) => x,
            None => return Err(PfrError::InvalidIndex),
        };
        let nb = match read_u32(bytes, c1) {
            Some(n) => n,
            None => return Err(PfrError::InvalidIndex),
        };
        let (blocks, c2) = match read_refs_at(bytes, c1 + 4, nb) {
            Some(x) => x,
            None => return Err(PfrError::InvalidIndex),
        };
        let nt = match read_u32(bytes, c2) {
            Some(n) => n,
            None => return Err(PfrError::InvalidIndex),
        };
        let (terms, postings, term_ids, _c3) = match read_terms_at(bytes, c2 + 4, nt) {
            Some(x) => x,
            None => return Err(PfrError::InvalidIndex),
        };
        if !refs_ok(&blocks, files.len()) || !postings_ok(&postings, blocks.len()) {
            return Err(PfrError::InvalidIndex);
        }
        let s = Searcher { terms, postings, term_ids, blocks, files };
        Ok(s)
    }
}

// ---------------------------------------------------------------------------
// Query words
// ---------------------------------------------------------------------------

/// The words of a text in order, repeats kept: its maximal runs of
/// alphanumeric characters.
pub open spec fn word_list(chars: Seq<char>) -> Seq<Seq<char>> {
    tokens(chars).map_values(|t: (Seq<char>, nat)| t.0)
}

/// The words of a text (see `word_list`).
pub fn split_words(text: &str) -> (ws: Vec<String>)
    ensures
        strings_view(ws@) == word_list(text@),
{
    let mut ws: Vec<String> = Vec::new();
    let mut cur = String::new();
    proof {
        assert(text@.take(0) =~= Seq::<char>::empty());
        assert(strings_view(ws@) =~= Seq::<Seq<char>>::empty());
        assert(token_scan(Seq::<char>::empty()).0.map_values(|t: (Seq<char>, nat)| t.0) =~= Seq::<Seq<char>>::empty());
    }
    for c in it: text.chars()
        invariant
            it.seq() == text@,
            strings_view(ws@) == token_scan(it.seq().take(it.index() as int)).0.map_values(|t: (Seq<char>, nat)| t.0),
            cur@ == token_scan(it.seq().take(it.index() as int)).2,
    {
        let ghost i = it.index() as int;
        let ghost pre = it.seq().take(i);
        let ghost post = it.seq().take(i + 1);
        let ghost st = token_scan(pre);
        proof {
            assert(post.drop_last() =~= pre);
            assert(post.last() == c);
        }
        if is_alphanumeric(c) {
            push_char(&mut cur, c);
        } else if cur.as_str().unicode_len() > 0 {
            let ghost before = strings_view(ws@);
            let word = cur;
            ws.push(word);
            cur = String::new();
            proof {
                assert(strings_view(ws@) =~= before.push(word@));
                assert(st.0.push((st.2, st.1)).map_values(|t: (Seq<char>, nat)| t.0) =~= st.0.map_values(
                    |t: (Seq<char>, nat)| t.0,
                ).push(st.2));
            }
        } else {
            cur = String::new();
        }
    }
    proof {
        assert(text@.take(text@.len() as int) =~= text@);
    }
    if cur.as_str().unicode_len() > 0 {
        let ghost st = token_scan(text@);
        let ghost before = strings_view(ws@);
        let word = cur;
        ws.push(word);
        proof {
            assert(strings_view(ws@) =~= before.push(word@));
            assert(st.0.push((st.2, st.1)).map_values(|t: (Seq<char>, nat)| t.0) =~= st.0.map_values(
                |t: (Seq<char>, nat)| t.0,
            ).push(st.2));
        }
    }
    ws
}

// ---------------------------------------------------------------------------
// Proximity on bit sets
// ---------------------------------------------------------------------------

/// How many positions a block's bit sets hold: its length rounded up to 64.
pub open spec fn bit_capacity(len: u32) -> int {
    64 * ((len + 63) / 64)
}

/// The positions of a word in a block as its bit set holds them.
pub open spec fn hit_set(ps: Seq<u32>, cap: int) -> Set<int> {
    Set::new(|i: int| 0 <= i < cap && exists|k: int| 0 <= k < ps.len() && ps[k] == i)
}

/// The positions within `d` of one in `s`, inside `0..cap`.
pub open spec fn widen(s: Set<int>, d: int, cap: int) -> Set<int> {
    Set::new(|i: int| 0 <= i < cap && exists|j: int| i - d <= j <= i + d && s.contains(j))
}

/// The distance within which a word counts as near the words before it.
pub const NEAR_BYTES: usize = 250;

/// The positions near the words before word `i` (for `i >= 1`): those of the
/// first word widened, and of each later word that occurs, widened.
pub open spec fn near_mask(sets: Seq<Set<int>>, i: int, cap: int) -> Set<int>
    decreases i,
{
    if i <= 1 {
        widen(sets[0], NEAR_BYTES as int, cap)
    } else if sets[i - 1] == Set::<int>::empty() {
        near_mask(sets, i - 1, cap)
    } else {
        near_mask(sets, i - 1, cap).union(widen(sets[i - 1], NEAR_BYTES as int, cap))
    }
}

/// For each word after the first: nothing when it does not occur in the block,
/// else whether it occurs near the words before it.
pub open spec fn proximity_of(sets: Seq<Set<int>>, cap: int, i: int) -> Option<bool> {
    if sets[i] == Set::<int>::empty() {
        None
    } else {
        Some(exists|x: int| sets[i].contains(x) && near_mask(sets, i, cap).contains(x))
    }
}

/// Position `x` of the block lies within `NEAR_BYTES` of an occurrence of one
/// of the words before word `i`.
pub open spec fn near_earlier(sets: Seq<Set<int>>, i: int, x: int) -> bool {
    exists|j: int, y: int| 0 <= j < i && #[trigger] sets[j].contains(y) && x - NEAR_BYTES <= y <= x + NEAR_BYTES
}

proof fn lemma_near_mask(sets: Seq<Set<int>>, i: int, cap: int, x: int)
    requires
        1 <= i <= sets.len(),
    ensures
        near_mask(sets, i, cap).contains(x) == (0 <= x < cap && near_earlier(sets, i, x)),
    decreases i,
{
    if i > 1 {
        lemma_near_mask(sets, i - 1, cap, x);
        if near_earlier(sets, i, x) && !near_earlier(sets, i - 1, x) {
            let (j, y) = choose|j: int, y: int| 0 <= j < i && #[trigger] sets[j].contains(y) && x - NEAR_BYTES <= y <= x + NEAR_BYTES;
            assert(j == i - 1);
            if sets[i - 1] == Set::<int>::empty() {
                assert(!sets[i - 1].contains(y));
            }
        }
        if near_earlier(sets, i - 1, x) {
            let (j, y) = choose|j: int, y: int| 0 <= j < i - 1 && #[trigger] sets[j].contains(y) && x - NEAR_BYTES <= y <= x + NEAR_BYTES;
            assert(0 <= j < i && sets[j].contains(y));
        }
        if sets[i - 1] != Set::<int>::empty() && widen(sets[i - 1], NEAR_BYTES as int, cap).contains(x) {
            let y = choose|y: int| x - NEAR_BYTES <= y <= x + NEAR_BYTES && #[trigger] sets[i - 1].contains(y);
            assert(sets[i - 1].contains(y));
        }
    } else {
        if near_earlier(sets, i, x) {
            let (j, y) = choose|j: int, y: int| 0 <= j < i && #[trigger] sets[j].contains(y) && x - NEAR_BYTES <= y <= x + NEAR_BYTES;
            assert(j == 0);
        }
        if widen(sets[0], NEAR_BYTES as int, cap).contains(x) {
            let y = choose|y: int| x - NEAR_BYTES <= y <= x + NEAR_BYTES && #[trigger] sets[0].contains(y);
            assert(sets[0].contains(y));
        }
    }
}

/// The proximity law: a later word that occurs in the block is near exactly
/// when one of its positions (inside the bit capacity) lies within
/// `NEAR_BYTES` of some occurrence of some word before it; a word that does not
/// occur has no proximity.
pub proof fn lemma_proximity_law(sets: Seq<Set<int>>, cap: int, i: int)
    requires
        1 <= i < sets.len(),
    ensures
        proximity_of(sets, cap, i) == if sets[i] == Set::<int>::empty() {
            None
        } else {
            Some(exists|x: int, j: int, y: int| 0 <= x < cap && #[trigger] sets[i].contains(x) && 0 <= j < i
                && #[trigger] sets[j].contains(y) && x - NEAR_BYTES <= y <= x + NEAR_BYTES)
        },
{
    if sets[i] != Set::<int>::empty() {
        let lhs = exists|x: int| sets[i].contains(x) && near_mask(sets, i, cap).contains(x);
        let rhs = exists|x: int, j: int, y: int| 0 <= x < cap && #[trigger] sets[i].contains(x) && 0 <= j < i
            && #[trigger] sets[j].contains(y) && x - NEAR_BYTES <= y <= x + NEAR_BYTES;
        if lhs {
            let x = choose|x: int| sets[i].contains(x) && near_mask(sets, i, cap).contains(x);
            lemma_near_mask(sets, i, cap, x);
            let (j, y) = choose|j: int, y: int| 0 <= j < i && #[trigger] sets[j].contains(y) && x - NEAR_BYTES <= y <= x + NEAR_BYTES;
            assert(sets[i].contains(x) && sets[j].contains(y));
        }
        if rhs {
            let (x, j, y) = choose|x: int, j: int, y: int| 0 <= x < cap && #[trigger] sets[i].contains(x) && 0 <= j < i
                && #[trigger] sets[j].contains(y) && x - NEAR_BYTES <= y <= x + NEAR_BYTES;
            lemma_near_mask(sets, i, cap, x);
            assert(near_earlier(sets, i, x));
        }
        assert(lhs == rhs);
    }
}

/// The positions a block holds of word `w`, as a set.
pub open spec fn word_set(
    terms: Seq<Seq<char>>,
    postings: Seq<Seq<(u32, Seq<u32>)>>,
    w: Seq<char>,
    b: u32,
    cap: int,
) -> Set<int> {
    match block_positions(term_postings(terms, postings, w), b) {
        Some(ps) => hit_set(ps, cap),
        None => Set::empty(),
    }
}

/// The bit set of the positions `ps` in a block of `len` bytes.
fn positions_bitset(ps: &Vec<u32>, len: u32) -> (bs: BitSet)
    requires
        len + 63 <= usize::MAX,
    ensures
        bs.capacity() == bit_capacity(len),
        forall|i: int| #[trigger] bs.contains(i) == hit_set(ps@, bit_capacity(len)).contains(i),
{
    let mut bs = BitSet::new(len as usize);
    let mut j: usize = 0;
    while j < ps.len()
        invariant
            j <= ps@.len(),
            bs.capacity() == bit_capacity(len),
            forall|i: int| #[trigger] bs.contains(i) == (0 <= i < bit_capacity(len) && exists|k: int| 0 <= k < j && ps@[k] == i),
        decreases ps@.len() - j,
    {
        let ghost before = bs;
        bs.set(ps[j] as usize);
        proof {
            assert forall|i: int| #[trigger] bs.contains(i) == (0 <= i < bit_capacity(len) && exists|k: int| 0 <= k < j + 1 && ps@[k] == i) by {
                if 0 <= i < bit_capacity(len) && exists|k: int| 0 <= k < j + 1 && ps@[k] == i {
                    let k = choose|k: int| 0 <= k < j + 1 && ps@[k] == i;
                    if k < j {
                        assert(before.contains(i));
                    }
                }
            }
        }
        j = j + 1;
    }
    bs
}

// ---------------------------------------------------------------------------
// What a block holds of a query
// ---------------------------------------------------------------------------

/// What a query finds in one block.
pub struct Candidate {
    /// The block.
    pub block_id: u32,
    /// For each query word (repeats kept): the block holds it.
    pub found: Vec<bool>,
    /// For each query word after the first: see `proximity_of`.
    pub proximity: Vec<Option<bool>>,
}

/// The sets of positions the block holds of each word.
pub open spec fn word_sets(
    terms: Seq<Seq<char>>,
    postings: Seq<Seq<(u32, Seq<u32>)>>,
    ws: Seq<Seq<char>>,
    b: u32,
    cap: int,
) -> Seq<Set<int>> {
    Seq::new(ws.len(), |i: int| word_set(terms, postings, ws[i], b, cap))
}

/// `c` is what the words `ws` find in its block.
pub open spec fn candidate_ok(
    terms: Seq<Seq<char>>,
    postings: Seq<Seq<(u32, Seq<u32>)>>,
    blocks: Seq<BlockRef>,
    ws: Seq<Seq<char>>,
    c: Candidate,
) -> bool {
    let b = c.block_id;
    let cap = bit_capacity(blocks[b as int].2);
    let sets = word_sets(terms, postings, ws, b, cap);
    &&& b < blocks.len()
    &&& c.found@.len() == ws.len()
    &&& forall|i: int| 0 <= i < ws.len() ==> #[trigger] c.found@[i] == block_positions(term_postings(terms, postings, ws[i]), b) is Some
    &&& c.proximity@.len() == if ws.len() > 0 { ws.len() - 1 } else { 0 }
    &&& forall|i: int| 0 <= i < c.proximity@.len() ==> #[trigger] c.proximity@[i] == proximity_of(sets, cap, i + 1)
}

impl Searcher {
    /// The term index of each word.
    fn word_ids(&self, ws: &Vec<String>) -> (ids: Vec<Option<usize>>)
        requires
            self.wf(),
        ensures
            ids_match(self.terms(), strings_view(ws@), ids@),
            forall|e: int| 0 <= e < ids@.len() && (#[trigger] ids@[e]) is Some ==> ids@[e]->0 < self.postings@.len(),
    {
        let ghost wv = strings_view(ws@);
        let mut ids: Vec<Option<usize>> = Vec::new();
        let mut e: usize = 0;
        while e < ws.len()
            invariant
                self.wf(),
                wv == strings_view(ws@),
                e <= ws@.len(),
                ids@.len() == e,
                forall|x: int| 0 <= x < e ==> match #[trigger] ids@[x] {
                    Some(i) => seq_index(self.terms(), wv[x]) == Some(i as int),
                    None => seq_index(self.terms(), wv[x]) is None,
                },
                forall|x: int| 0 <= x < ids@.len() && (#[trigger] ids@[x]) is Some ==> ids@[x]->0 < self.postings@.len(),
            decreases ws@.len() - e,
        {
            let ghost w = wv[e as int];
            proof {
                assert(w == ws@[e as int]@);
                lemma_seq_index(self.terms(), w);
            }
            let id = match self.term_ids.get(ws[e].as_str()) {
                Some(i) => {
                    proof {
                        assert(self.terms().contains(w));
                    }
                    Some(*i)
                },
                None => {
                    proof {
                        if self.terms().contains(w) {
                            let j = choose|j: int| 0 <= j < self.terms().len() && self.terms()[j] == w;
                        }
                    }
                    None
                },
            };
            ids.push(id);
            e = e + 1;
        }
        ids
    }

    /// What the words `ws` (with term indices `ids`) find in block `b`.
    fn candidate(&self, ws: &Vec<String>, ids: &Vec<Option<usize>>, b: u32) -> (c: Candidate)
        requires
            self.wf(),
            ids_match(self.terms(), strings_view(ws@), ids@),
            forall|e: int| 0 <= e < ids@.len() && (#[trigger] ids@[e]) is Some ==> ids@[e]->0 < self.postings@.len(),
            b < self.blocks@.len(),
        ensures
            c.block_id == b,
            candidate_ok(self.terms(), self.postings(), self.blocks(), strings_view(ws@), c),
    {
        let ghost wv = strings_view(ws@);
        let ghost t = self.terms();
        let ghost p = self.postings();
        let len = self.blocks[b as usize].2;
        let ghost cap = bit_capacity(len);
        let ghost sets = word_sets(t, p, wv, b, cap);
        let mut found: Vec<bool> = Vec::new();
        let mut bits: Vec<BitSet> = Vec::new();
        let mut e: usize = 0;
        while e < ids.len()
            invariant
                self.wf(),
                wv == strings_view(ws@),
                t == self.terms(),
                p == self.postings(),
                len == self.blocks@[b as int].2,
                len + 63 <= usize::MAX,
                cap == bit_capacity(len),
                sets == word_sets(t, p, wv, b, cap),
                ids_match(t, wv, ids@),
                forall|f: int| 0 <= f < ids@.len() && (#[trigger] ids@[f]) is Some ==> ids@[f]->0 < self.postings@.len(),
                e <= ids@.len(),
                found@.len() == e,
                bits@.len() == e,
                forall|x: int| 0 <= x < e ==> #[trigger] found@[x] == block_positions(term_postings(t, p, wv[x]), b) is Some,
                forall|x: int| 0 <= x < e ==> (#[trigger] bits@[x]).capacity() == cap,
                forall|x: int, i: int| 0 <= x < e ==> #[trigger] bits@[x].contains(i) == sets[x].contains(i),
            decreases ids@.len() - e,
        {
            proof {
                lemma_seq_index(t, wv[e as int]);
            }
            let mut hit = false;
            let bs = match ids[e] {
                Some(i) => {
                    proof {
                        assert(term_postings(t, p, wv[e as int]) == p[i as int]);
                        assert(p[i as int] == entry_list(self.postings@[i as int]@));
                        assert(posting_list_ok(p[i as int]));
                    }
                    match find_block(&self.postings[i], b) {
                        Some(k) => {
                            hit = true;
                            positions_bitset(&self.postings[i][k].1, len)
                        },
                        None => BitSet::new(len as usize),
                    }
                },
                None => {
                    proof {
                        assert(term_postings(t, p, wv[e as int]) == Seq::<(u32, Seq<u32>)>::empty());
                    }
                    BitSet::new(len as usize)
                },
            };
            proof {
                assert(hit == block_positions(term_postings(t, p, wv[e as int]), b) is Some);
                assert forall|i: int| #[trigger] bs.contains(i) == sets[e as int].contains(i) by {
                }
            }
            found.push(hit);
            bits.push(bs);
            e = e + 1;
        }
        let mut proximity: Vec<Option<bool>> = Vec::new();
        if bits.len() > 0 {
            let mut density = bits[0].copy();
            let ghost d0 = density;
            density.proximity_expand(NEAR_BYTES);
            proof {
                assert(near_mask(sets, 1, cap) == widen(sets[0], NEAR_BYTES as int, cap));
                assert forall|i: int| #[trigger] density.contains(i) == near_mask(sets, 1, cap).contains(i) by {
                    if density.contains(i) {
                        let j = choose|j: int| i - NEAR_BYTES <= j <= i + NEAR_BYTES && #[trigger] d0.contains(j);
                        assert(bits@[0].contains(j));
                        assert(sets[0].contains(j));
                    }
                    if widen(sets[0], NEAR_BYTES as int, cap).contains(i) {
                        let j = choose|j: int| i - NEAR_BYTES <= j <= i + NEAR_BYTES && sets[0].contains(j);
                        assert(bits@[0].contains(j));
                        assert(d0.contains(j));
                    }
                }
            }
            let mut x: usize = 1;
            while x < bits.len()
                invariant
                    1 <= x <= bits@.len(),
                    bits@.len() == sets.len(),
                    forall|y: int| 0 <= y < bits@.len() ==> (#[trigger] bits@[y]).capacity() == cap,
                    forall|y: int, i: int| 0 <= y < bits@.len() ==> #[trigger] bits@[y].contains(i) == sets[y].contains(i),
                    density.capacity() == cap,
                    forall|i: int| #[trigger] density.contains(i) == near_mask(sets, x as int, cap).contains(i),
                    proximity@.len() == x - 1,
                    forall|y: int| 0 <= y < x - 1 ==> #[trigger] proximity@[y] == proximity_of(sets, cap, y + 1),
                decreases bits@.len() - x,
            {
                if bits[x].is_empty() {
                    proof {
                        assert(sets[x as int] =~= Set::<int>::empty()) by {
                            assert forall|i: int| !sets[x as int].contains(i) by {
                                assert(!bits@[x as int].contains(i));
                            }
                        }
                        assert(near_mask(sets, x + 1, cap) == near_mask(sets, x as int, cap));
                    }
                    proximity.push(None);
                } else {
                    let near = bits[x].intersects(&density);
                    let ghost wi = choose|i: int| bits@[x as int].contains(i);
                    proof {
                        assert(sets[x as int].contains(wi));
                        assert(sets[x as int] != Set::<int>::empty());
                        if near {
                            let i = choose|i: int| #[trigger] bits@[x as int].contains(i) && density.contains(i);
                            assert(sets[x as int].contains(i) && near_mask(sets, x as int, cap).contains(i));
                        }
                        if exists|i: int| sets[x as int].contains(i) && near_mask(sets, x as int, cap).contains(i) {
                            let i = choose|i: int| sets[x as int].contains(i) && near_mask(sets, x as int, cap).contains(i);
                            assert(bits@[x as int].contains(i) && density.contains(i));
                        }
                    }
                    proximity.push(Some(near));
                    let mut next = bits[x].copy();
                    let ghost n0 = next;
                    next.proximity_expand(NEAR_BYTES);
                    let ghost before = density;
                    density.union_with(&next);
                    proof {
                        let wx = widen(sets[x as int], NEAR_BYTES as int, cap);
                        assert(near_mask(sets, x + 1, cap) == near_mask(sets, x as int, cap).union(wx));
                        assert forall|i: int| #[trigger] next.contains(i) == wx.contains(i) by {
                            if next.contains(i) {
                                let j = choose|j: int| i - NEAR_BYTES <= j <= i + NEAR_BYTES && #[trigger] n0.contains(j);
                                assert(bits@[x as int].contains(j));
                                assert(sets[x as int].contains(j));
                            }
                            if wx.contains(i) {
                                let j = choose|j: int| i - NEAR_BYTES <= j <= i + NEAR_BYTES && sets[x as int].contains(j);
                                assert(bits@[x as int].contains(j));
                                assert(n0.contains(j));
                            }
                        }
                        assert forall|i: int| #[trigger] density.contains(i) == near_mask(sets, x + 1, cap).contains(i) by {
                            if next.contains(i) {
                                assert(i < cap);
                            }
                        }
                    }
                }
                x = x + 1;
            }
        }
        proof {
            assert(found@.len() == wv.len());
        }
        Candidate { block_id: b, found, proximity }
    }
}

/// What a query looks for and each block that holds all of it.
pub struct QueryPlan {
    /// The query's words, lowercase, in order, repeats kept.
    pub words: Vec<String>,
    /// For each word, how many blocks hold it.
    pub doc_freqs: Vec<usize>,
    /// The blocks holding every word, in increasing block order.
    pub candidates: Vec<Candidate>,
}

/// The blocks that hold every one of the words `ws`: the intersection of
/// their block lists (empty for no words).
pub open spec fn shared_set(terms: Seq<Seq<char>>, postings: Seq<Seq<(u32, Seq<u32>)>>, ws: Seq<Seq<char>>) -> Set<u32> {
    Set::new(
        |b: u32|
            ws.len() > 0 && forall|e: int| 0 <= e < ws.len() ==> #[trigger] block_positions(term_postings(terms, postings, ws[e]), b) is Some,
    )
}

/// Whether every entry is true.
fn all_true(v: &Vec<bool>) -> (r: bool)
    ensures
        r == forall|i: int| 0 <= i < v@.len() ==> #[trigger] v@[i],
{
    let mut i: usize = 0;
    while i < v.len()
        invariant
            i <= v@.len(),
            forall|j: int| 0 <= j < i ==> #[trigger] v@[j],
        decreases v@.len() - i,
    {
        if !v[i] {
            return false;
        }
        i = i + 1;
    }
    true
}

impl Searcher {
    /// Everything about a query that `search` needs before it scores: the
    /// words of its lowercase form, the number of blocks holding each, and for
    /// each block holding all of them, what it holds (see `candidate_ok`).
    pub fn plan(&self, query: &str) -> (pl: QueryPlan)
        requires
            self.wf(),
        ensures
            ({
                let ws = strings_view(pl.words@);
                &&& ws == word_list(lowercase(query@))
                &&& pl.doc_freqs@.len() == ws.len()
                &&& forall|i: int| 0 <= i < ws.len() ==> #[trigger] pl.doc_freqs@[i] == term_postings(self.terms(), self.postings(), ws[i]).len()
                &&& forall|x: int, y: int| 0 <= x < y < pl.candidates@.len() ==> pl.candidates@[x].block_id < pl.candidates@[y].block_id
                &&& forall|b: u32| (exists|x: int| 0 <= x < pl.candidates@.len() && (#[trigger] pl.candidates@[x]).block_id == b)
                    <==> shared_set(self.terms(), self.postings(), ws).contains(b)
                &&& forall|x: int| 0 <= x < pl.candidates@.len() ==> candidate_ok(self.terms(), self.postings(), self.blocks(), ws, #[trigger] pl.candidates@[x])
            }),
    {
        let lower = to_lowercase(query);
        let words = split_words(lower.as_str());
        let ids = self.word_ids(&words);
        let ghost wv = strings_view(words@);
        let mut doc_freqs: Vec<usize> = Vec::new();
        let mut e: usize = 0;
        while e < words.len()
            invariant
                self.wf(),
                wv == strings_view(words@),
                ids_match(self.terms(), wv, ids@),
                forall|f: int| 0 <= f < ids@.len() && (#[trigger] ids@[f]) is Some ==> ids@[f]->0 < self.postings@.len(),
                e <= words@.len(),
                doc_freqs@.len() == e,
                forall|f: int| 0 <= f < e ==> #[trigger] doc_freqs@[f] == term_postings(self.terms(), self.postings(), wv[f]).len(),
            decreases words@.len() - e,
        {
            proof {
                lemma_seq_index(self.terms(), wv[e as int]);
            }
            let df = match ids[e] {
                Some(i) => {
                    proof {
                        assert(self.postings()[i as int] == entry_list(self.postings@[i as int]@));
                    }
                    self.postings[i].len()
                },
                None => 0,
            };
            doc_freqs.push(df);
            e = e + 1;
        }
        let blocks = candidate_blocks_of(&self.postings, self.blocks.len(), &ids, Ghost(self.terms()), Ghost(wv));
        let ghost t = self.terms();
        let ghost p = self.postings();
        let mut candidates: Vec<Candidate> = Vec::new();
        let mut x: usize = 0;
        while x < blocks.len()
            invariant
                self.wf(),
                t == self.terms(),
                p == self.postings(),
                wv == strings_view(words@),
                ids_match(t, wv, ids@),
                forall|f: int| 0 <= f < ids@.len() && (#[trigger] ids@[f]) is Some ==> ids@[f]->0 < self.postings@.len(),
                forall|y: int| 0 <= y < blocks@.len() ==> (#[trigger] blocks@[y]) < self.blocks@.len(),
                forall|y: int, z: int| 0 <= y < z < blocks@.len() ==> blocks@[y] < blocks@[z],
                x <= blocks@.len(),
                forall|y: int| 0 <= y < candidates@.len() ==> candidate_ok(t, p, self.blocks(), wv, #[trigger] candidates@[y]),
                forall|y: int| 0 <= y < candidates@.len() ==> exists|z: int| 0 <= z < x && blocks@[z] == (#[trigger] candidates@[y]).block_id,
                forall|y: int, z: int| 0 <= y < z < candidates@.len() ==> candidates@[y].block_id < candidates@[z].block_id,
                forall|b: u32| (exists|y: int| 0 <= y < candidates@.len() && (#[trigger] candidates@[y]).block_id == b)
                    <==> (exists|z: int| 0 <= z < x && blocks@[z] == b) && shared_set(t, p, wv).contains(b),
            decreases blocks@.len() - x,
        {
            let c = self.candidate(&words, &ids, blocks[x]);
            let ghost bx = blocks@[x as int];
            if all_true(&c.found) && words.len() > 0 {
                proof {
                    assert(shared_set(t, p, wv).contains(bx)) by {
                        assert forall|e: int| 0 <= e < wv.len() implies #[trigger] block_positions(term_postings(t, p, wv[e]), bx) is Some by {
                            assert(c.found@[e]);
                        }
                    }
                    assert forall|y: int| 0 <= y < candidates@.len() implies (#[trigger] candidates@[y]).block_id < bx by {
                        let z = choose|z: int| 0 <= z < x && blocks@[z] == candidates@[y].block_id;
                    }
                }
                let ghost old_c = candidates@;
                candidates.push(c);
                proof {
                    assert forall|y: int| 0 <= y < candidates@.len() implies exists|z: int| 0 <= z < x + 1 && blocks@[z] == (#[trigger] candidates@[y]).block_id by {
                        if y < old_c.len() {
                            assert(candidates@[y] == old_c[y]);
                            let z = choose|z: int| 0 <= z < x && blocks@[z] == old_c[y].block_id;
                        } else {
                            assert(blocks@[x as int] == candidates@[y].block_id);
                        }
                    }
                    assert forall|b: u32| (exists|y: int| 0 <= y < candidates@.len() && (#[trigger] candidates@[y]).block_id == b)
                        <==> (exists|z: int| 0 <= z < x + 1 && blocks@[z] == b) && shared_set(t, p, wv).contains(b) by {
                        if exists|y: int| 0 <= y < candidates@.len() && (#[trigger] candidates@[y]).block_id == b {
                            let y = choose|y: int| 0 <= y < candidates@.len() && (#[trigger] candidates@[y]).block_id == b;
                            if y < old_c.len() {
                                assert(old_c[y].block_id == b);
                            } else {
                                assert(blocks@[x as int] == b);
                            }
                        }
                        if (exists|z: int| 0 <= z < x + 1 && blocks@[z] == b) && shared_set(t, p, wv).contains(b) {
                            let z = choose|z: int| 0 <= z < x + 1 && blocks@[z] == b;
                            if z < x {
                                let y = choose|y: int| 0 <= y < old_c.len() && (#[trigger] old_c[y]).block_id == b;
                                assert(candidates@[y] == old_c[y]);
                            } else {
                                assert(candidates@[old_c.len() as int].block_id == b);
                            }
                        }
                    }
                }
            } else {
                proof {
                    if words.len() > 0 {
                        let i = choose|i: int| 0 <= i < c.found@.len() && !c.found@[i];
                        assert(block_positions(term_postings(t, p, wv[i]), bx) is None);
                    }
                    assert(!shared_set(t, p, wv).contains(bx));
                    assert forall|b: u32| (exists|y: int| 0 <= y < candidates@.len() && (#[trigger] candidates@[y]).block_id == b)
                        <==> (exists|z: int| 0 <= z < x + 1 && blocks@[z] == b) && shared_set(t, p, wv).contains(b) by {
                        if (exists|z: int| 0 <= z < x + 1 && blocks@[z] == b) && shared_set(t, p, wv).contains(b) {
                            let z = choose|z: int| 0 <= z < x + 1 && blocks@[z] == b;
                            assert(z < x);
                        }
                    }
                    assert forall|y: int| 0 <= y < candidates@.len() implies exists|z: int| 0 <= z < x + 1 && blocks@[z] == (#[trigger] candidates@[y]).block_id by {
                        let z = choose|z: int| 0 <= z < x && blocks@[z] == candidates@[y].block_id;
                    }
                }
            }
            x = x + 1;
        }
        let pl = QueryPlan { words, doc_freqs, candidates };
        proof {
            assert forall|b: u32| (exists|x: int| 0 <= x < pl.candidates@.len() && (#[trigger] pl.candidates@[x]).block_id == b)
                    <==> shared_set(t, p, wv).contains(b) by {
                let inv = (exists|y: int| 0 <= y < candidates@.len() && (#[trigger] candidates@[y]).block_id == b)
                    <==> (exists|z: int| 0 <= z < x && blocks@[z] == b) && shared_set(t, p, wv).contains(b);
                assert(inv);
                assert(pl.candidates@ == candidates@);
                if shared_set(t, p, wv).contains(b) {
                    assert(block_positions(term_postings(t, p, wv[0]), b) is Some);
                    let k = choose|k: int| 0 <= k < term_postings(t, p, wv[0]).len() && (#[trigger] term_postings(t, p, wv[0])[k]).0 == b;
                    assert(candidate_set(t, p, wv).contains(b));
                    assert(blocks@.contains(b));
                    let z = choose|z: int| 0 <= z < blocks@.len() && blocks@[z] == b;
                    assert(exists|z2: int| 0 <= z2 < blocks@.len() && blocks@[z2] == b);
                }
            }
        }
        pl
    }
}

// ---------------------------------------------------------------------------
// Snippets and results
// ---------------------------------------------------------------------------

/// The byte window around a hit at `idx`: from 100 bytes before it to 200
/// bytes after it, cut to the text.
pub open spec fn plain_window(b: Seq<u8>, idx: int) -> (int, int) {
    (
        if idx >= 100 {
            idx - 100
        } else {
            0
        },
        if idx + 200 <= b.len() {
            idx + 200
        } else {
            b.len() as int
        },
    )
}

/// The window is a piece of text: in order, both ends on character boundaries.
pub open spec fn window_is_text(b: Seq<u8>, w: (int, int)) -> bool {
    w.0 <= w.1 && is_char_boundary(b, w.0) && is_char_boundary(b, w.1)
}

/// The snippet of `text` around the first hit, in its lowercase form, of the
/// first of `terms` that occurs there: the window of `plain_window` framed by
/// "..."; `None` when no term occurs, or when the window does not cut the text
/// at character boundaries.
pub fn cut_snippet(text: &str, terms: &Vec<String>) -> (r: Option<String>)
    ensures
        match first_hit(encode_utf8(lowercase(text@)), terms@.map_values(|t: String| t@), 0) {
            Some(idx) => {
                let b = encode_utf8(text@);
                let w = plain_window(b, idx);
                if window_is_text(b, w) {
                    r is Some && r->0@ == dots() + decode_utf8(b.subrange(w.0, w.1)) + dots()
                } else {
                    r is None
                }
            },
            None => r is None,
        },
{
    let lower = to_lowercase(text);
    let idx = match find_first_hit(lower.as_str(), terms) {
        Some(i) => i,
        None => return None,
    };
    let ghost b = text.spec_bytes();
    let len = text.as_bytes().len();
    proof {
        vstd::utf8::encode_utf8_valid_utf8(text@);
    }
    let start: usize = if idx >= 100 {
        idx - 100
    } else {
        0
    };
    let end: usize = if len >= 200 && idx <= len - 200 {
        idx + 200
    } else {
        len
    };
    if start > end || !text.is_char_boundary(start) || !text.is_char_boundary(end) {
        return None;
    }
    let (_, rest) = text.split_at(start);
    proof {
        vstd::utf8::encode_utf8_valid_utf8(rest@);
        assert(rest.spec_bytes() == b.subrange(start as int, b.len() as int));
        let r = b.subrange(start as int, b.len() as int);
        vstd::utf8::is_char_boundary_start_end_of_seq(r);
        if start < end && end < len {
            vstd::utf8::is_char_boundary_iff_not_is_continuation_byte(b, end as int);
            vstd::utf8::is_char_boundary_iff_not_is_continuation_byte(r, end - start);
            assert(r[end - start] == b[end as int]);
        }
        if end == len {
            assert(r.len() == end - start);
        }
    }
    let (piece, _) = rest.split_at(end - start);
    proof {
        assert(piece.spec_bytes() =~= b.subrange(start as int, end as int));
        vstd::utf8::encode_utf8_decode_utf8(piece@);
        reveal_strlit("...");
    }
    let mut out = "...".to_owned();
    out.append(piece);
    out.append("...");
    Some(out)
}

/// The snippet of a block read from its file: its bytes taken as text the
/// way `String::from_utf8_lossy` takes them, then as `cut_snippet`.
pub fn block_cut_snippet(bytes: &[u8], terms: &Vec<String>) -> (r: Option<String>)
    ensures
        match first_hit(encode_utf8(lowercase(lossy_text(bytes@))), terms@.map_values(|t: String| t@), 0) {
            Some(idx) => {
                let b = encode_utf8(lossy_text(bytes@));
                let w = plain_window(b, idx);
                if window_is_text(b, w) {
                    r is Some && r->0@ == dots() + decode_utf8(b.subrange(w.0, w.1)) + dots()
                } else {
                    r is None
                }
            },
            None => r is None,
        },
{
    let text = from_utf8_lossy(bytes);
    cut_snippet(text.as_str(), terms)
}

/// One search result: the file and the text around the hit.
pub struct SearchResult {
    pub file_path: String,
    pub snippet: String,
}

impl Searcher {
    /// The number of blocks.
    pub fn block_count(&self) -> (n: usize)
        ensures
            n == self.blocks().len(),
    {
        self.blocks.len()
    }

    /// The number of indexed files.
    pub fn file_count(&self) -> (n: usize)
        ensures
            n == self.files().len(),
    {
        self.files.len()
    }

    /// The path of file `f`.
    pub fn file_path(&self, f: usize) -> (p: &str)
        requires
            f < self.files().len(),
        ensures
            p@ == self.files()[f as int],
    {
        self.files[f].as_str()
    }

    /// Block `b`: file id, byte offset, byte length.
    pub fn block(&self, b: u32) -> (blk: BlockRef)
        requires
            b < self.blocks().len(),
        ensures
            blk == self.blocks()[b as int],
    {
        self.blocks[b as usize]
    }
}

} // verus!
