//! The integer side of query answering: proximity of term positions, phrase
//! detection, and the choice of result blocks.
use vstd::prelude::*;

use crate::pfr::compression::sorted_ids;
use crate::pfr::fuzzy_search::edit_distance;
use crate::skanda::bktree::BKTree;
use crate::skanda::compression::{decode_inverted_entry, entries_from, entries_sorted};
use crate::skanda::index_file::{
    blocks_valid, collapse, get32, inverted_entry_ok, lemma_collapse, lemma_entries_from_sorted,
    parse_index, postings_valid, put_term, read_block, read_blocks, read_files, read_string,
    read_term, read_terms, read_u16, read_u32, read_u64,
};
use crate::skanda::indexer::{
    add_groups, block_terms, index_magic, is_stop_word, lemma_add_groups_records, lemma_seq_index,
    postings_view, seq_index, stop_word, Block, INDEX_VERSION,
};
use crate::skanda::SkandaError;
use crate::skanda::query::{distinct, lemma_distinct, query_words};
use crate::text::{
    alphanumeric, char_to_lowercase, from_utf8_lossy, is_alphanumeric, lossy_text, lowercase,
    lowercase_first, push_char, to_lowercase,
};
use vstd::hash_map::StringHashMap;
use vstd::utf8::encode_utf8;

verus! {

/// Most results a search returns.
pub const TOP_K: usize = 20;

/// Two result blocks of one file closer than this many bytes count as one passage.
pub const DEDUP_WINDOW: u64 = 500;

/// `|x - y|`.
pub open spec fn dist_u32(x: u32, y: u32) -> int {
    if x >= y {
        x - y
    } else {
        y - x
    }
}

/// Merge-scans two sorted position arrays for the smallest distance between a
/// position of one and a position of the other; `u32::MAX` when either is empty.
pub fn min_position_distance(a: &[u32], b: &[u32]) -> (d: u32)
    requires
        sorted_ids(a@),
        sorted_ids(b@),
    ensures
        a@.len() == 0 || b@.len() == 0 ==> d == u32::MAX,
        a@.len() > 0 && b@.len() > 0 ==> {
            &&& forall|i: int, j: int| 0 <= i < a@.len() && 0 <= j < b@.len() ==> d <= #[trigger] dist_u32(a@[i], #[trigger] b@[j])
            &&& exists|i: int, j: int| 0 <= i < a@.len() && 0 <= j < b@.len() && d == #[trigger] dist_u32(a@[i], #[trigger] b@[j])
        },
{
    if a.len() == 0 || b.len() == 0 {
        return u32::MAX;
    }
    let mut min_dist = u32::MAX;
    let mut i: usize = 0;
    let mut j: usize = 0;
    let ghost mut wi: int = 0;
    let ghost mut wj: int = 0;
    while i < a.len() && j < b.len()
        invariant
            sorted_ids(a@),
            sorted_ids(b@),
            a@.len() > 0 && b@.len() > 0,
            i <= a@.len(),
            j <= b@.len(),
            // Every pair with an index already passed is no closer than `min_dist`.
            forall|x: int, y: int| 0 <= x < a@.len() && 0 <= y < b@.len() && (x < i || y < j) ==> min_dist
                <= #[trigger] dist_u32(a@[x], #[trigger] b@[y]),
            (i > 0 || j > 0) ==> 0 <= wi < a@.len() && 0 <= wj < b@.len() && min_dist == dist_u32(a@[wi], b@[wj]),
            i == 0 && j == 0 ==> min_dist == u32::MAX,
        decreases a@.len() - i + b@.len() - j,
    {
        let ai = a[i];
        let bj = b[j];
        let dist = if ai >= bj { ai - bj } else { bj - ai };
        if dist < min_dist {
            min_dist = dist;
            proof {
                wi = i as int;
                wj = j as int;
            }
        } else if i == 0 && j == 0 {
            proof {
                wi = 0;
                wj = 0;
            }
        }
        if ai <= bj {
            // No later position of `b` is closer to `a[i]`.
            assert forall|y: int| j <= y < b@.len() implies min_dist <= #[trigger] dist_u32(ai, b@[y]) by {
                assert(b@[j as int] <= b@[y]);
            }
            i = i + 1;
        } else {
            // No later position of `a` is closer to `b[j]`.
            assert forall|x: int| i <= x < a@.len() implies min_dist <= #[trigger] dist_u32(a@[x], bj) by {
                assert(a@[i as int] <= a@[x]);
            }
            j = j + 1;
        }
    }
    min_dist
}


/// The bytes a term takes in UTF-8.
pub open spec fn byte_len(s: Seq<char>) -> nat {
    encode_utf8(s).len()
}

/// The positions recorded for `term`: those of its first entry, if any.
pub open spec fn lookup_positions(entries: Seq<(Seq<char>, Seq<u32>)>, term: Seq<char>) -> Option<Seq<u32>>
    decreases entries.len(),
{
    if entries.len() == 0 {
        None
    } else if entries[0].0 == term {
        Some(entries[0].1)
    } else {
        lookup_positions(entries.drop_first(), term)
    }
}

/// The offset of phrase term `t` from the start of the phrase: each earlier term's
/// bytes plus one separator byte.
pub open spec fn phrase_offset(phrase: Seq<Seq<char>>, t: int) -> int
    decreases t,
{
    if t <= 0 {
        0
    } else {
        phrase_offset(phrase, t - 1) + byte_len(phrase[t - 1]) + 1
    }
}

/// Starting at `start`, every later phrase term has a recorded position within
/// two bytes of where it would follow the terms before it.
pub open spec fn phrase_follows(phrase: Seq<Seq<char>>, entries: Seq<(Seq<char>, Seq<u32>)>, start: int) -> bool {
    forall|t: int|
        1 <= t < phrase.len() ==> match lookup_positions(entries, #[trigger] phrase[t]) {
            Some(ps) => exists|k: int| 0 <= k < ps.len() && dist_int(#[trigger] ps[k] as int, start + phrase_offset(phrase, t)) <= 2,
            None => false,
        }
}

/// `|x - y|` over the integers.
pub open spec fn dist_int(x: int, y: int) -> int {
    if x >= y {
        x - y
    } else {
        y - x
    }
}

/// The phrase occurs in the block: some recorded position of its first term
/// starts a run in which each later term follows (within two bytes, to allow
/// for multi-byte separators).
pub open spec fn phrase_occurs(phrase: Seq<Seq<char>>, entries: Seq<(Seq<char>, Seq<u32>)>) -> bool {
    match lookup_positions(entries, phrase[0]) {
        Some(ps) => exists|k: int| 0 <= k < ps.len() && #[trigger] phrase_follows(phrase, entries, ps[k] as int),
        None => false,
    }
}

/// The characters of each string.
pub open spec fn strings_view(v: Seq<String>) -> Seq<Seq<char>> {
    v.map_values(|s: String| s@)
}

/// The term/positions pairs of a block, as plain values.
pub open spec fn entries_view(entries: Seq<(String, Vec<u32>)>) -> Seq<(Seq<char>, Seq<u32>)> {
    entries.map_values(|e: (String, Vec<u32>)| (e.0@, e.1@))
}

/// The positions recorded for `term` in `entries` (the first entry for it).
pub fn lookup_term<'a>(entries: &'a [(String, Vec<u32>)], term: &String) -> (r: Option<&'a Vec<u32>>)
    ensures
        match r {
            Some(v) => lookup_positions(entries_view(entries@), term@) == Some(v@),
            None => lookup_positions(entries_view(entries@), term@) is None,
        },
{
    let mut i: usize = 0;
    assert(entries_view(entries@).subrange(0, entries@.len() as int) =~= entries_view(entries@));
    while i < entries.len()
        invariant
            i <= entries@.len(),
            lookup_positions(entries_view(entries@), term@) == lookup_positions(
                entries_view(entries@).subrange(i as int, entries@.len() as int),
                term@,
            ),
        decreases entries@.len() - i,
    {
        let ghost rest = entries_view(entries@).subrange(i as int, entries@.len() as int);
        assert(rest[0] == (entries@[i as int].0@, entries@[i as int].1@));
        if entries[i].0 == *term {
            return Some(&entries[i].1);
        }
        assert(rest.drop_first() =~= entries_view(entries@).subrange(i + 1, entries@.len() as int));
        i = i + 1;
    }
    None
}

/// `e` gives, from `start` on, where each term of the phrase starts when the
/// terms follow one another with one separator byte between them.
pub open spec fn offsets_chain(phrase: Seq<Seq<char>>, e: Seq<int>, start: int) -> bool {
    &&& e.len() == phrase.len()
    &&& e.len() > 0 ==> e[0] == start
    &&& forall|t: int| 1 <= t < e.len() ==> #[trigger] e[t] == e[t - 1] + encode_utf8(phrase[t - 1]).len() + 1
}

/// Term `w` has a recorded position within two bytes of `x`.
pub open spec fn recorded_near(entries: Seq<(Seq<char>, Seq<u32>)>, w: Seq<char>, x: int) -> bool {
    match lookup_positions(entries, w) {
        Some(ps) => exists|m: int| 0 <= m < ps.len() && -2 <= #[trigger] ps[m] - x <= 2,
        None => false,
    }
}

proof fn lemma_chain_offsets(phrase: Seq<Seq<char>>, e: Seq<int>, start: int, t: int)
    requires
        offsets_chain(phrase, e, start),
        0 <= t < e.len(),
    ensures
        e[t] == start + phrase_offset(phrase, t),
    decreases t,
{
    if t > 0 {
        lemma_chain_offsets(phrase, e, start, t - 1);
        assert(e[t] == e[t - 1] + encode_utf8(phrase[t - 1]).len() + 1);
    }
}

/// The phrase law: a phrase occurs in a block exactly when its first term has
/// a recorded position `start` from which every later term has a recorded
/// position within two bytes of where it would start, each term following the
/// one before it after its bytes and one separator.
pub proof fn lemma_phrase_law(phrase: Seq<Seq<char>>, entries: Seq<(Seq<char>, Seq<u32>)>)
    requires
        phrase.len() > 0,
    ensures
        phrase_occurs(phrase, entries) <==> (lookup_positions(entries, phrase[0]) matches Some(ps0) && exists|k: int, e: Seq<int>|
            0 <= k < ps0.len() && #[trigger] offsets_chain(phrase, e, ps0[k] as int)
                && forall|t: int| 1 <= t < phrase.len() ==> #[trigger] recorded_near(entries, phrase[t], e[t])),
{
    match lookup_positions(entries, phrase[0]) {
        Some(ps0) => {
            if phrase_occurs(phrase, entries) {
                let k = choose|k: int| 0 <= k < ps0.len() && #[trigger] phrase_follows(phrase, entries, ps0[k] as int);
                let start = ps0[k] as int;
                let e = Seq::new(phrase.len(), |t: int| start + phrase_offset(phrase, t));
                assert(offsets_chain(phrase, e, start)) by {
                    assert forall|t: int| 1 <= t < e.len() implies #[trigger] e[t] == e[t - 1] + encode_utf8(phrase[t - 1]).len() + 1 by {
                        assert(phrase_offset(phrase, t) == phrase_offset(phrase, t - 1) + byte_len(phrase[t - 1]) + 1);
                    }
                }
                assert forall|t: int| 1 <= t < phrase.len() implies #[trigger] recorded_near(entries, phrase[t], e[t]) by {
                    let ps = lookup_positions(entries, phrase[t])->0;
                    let m = choose|m: int| 0 <= m < ps.len() && dist_int(#[trigger] ps[m] as int, start + phrase_offset(phrase, t)) <= 2;
                    assert(-2 <= ps[m] - e[t] <= 2);
                }
            }
            if exists|k: int, e: Seq<int>| 0 <= k < ps0.len() && #[trigger] offsets_chain(phrase, e, ps0[k] as int)
                && forall|t: int| 1 <= t < phrase.len() ==> #[trigger] recorded_near(entries, phrase[t], e[t]) {
                let (k, e) = choose|k: int, e: Seq<int>| 0 <= k < ps0.len() && #[trigger] offsets_chain(phrase, e, ps0[k] as int)
                    && forall|t: int| 1 <= t < phrase.len() ==> #[trigger] recorded_near(entries, phrase[t], e[t]);
                let start = ps0[k] as int;
                assert forall|t: int| 1 <= t < phrase.len() implies match lookup_positions(entries, #[trigger] phrase[t]) {
                    Some(ps) => exists|m: int| 0 <= m < ps.len() && dist_int(#[trigger] ps[m] as int, start + phrase_offset(phrase, t)) <= 2,
                    None => false,
                } by {
                    lemma_chain_offsets(phrase, e, start, t);
                    assert(recorded_near(entries, phrase[t], e[t]));
                    let ps = lookup_positions(entries, phrase[t])->0;
                    let m = choose|m: int| 0 <= m < ps.len() && -2 <= #[trigger] ps[m] - e[t] <= 2;
                    assert(dist_int(ps[m] as int, start + phrase_offset(phrase, t)) <= 2);
                }
                assert(phrase_follows(phrase, entries, start));
            }
        },
        None => {},
    }
}

/// Returns true if the phrase terms appear consecutively inside the block.
/// Matches are tolerant of ±2 bytes to account for multi-byte separators.
pub fn phrase_in_block(phrase: &[String], positions: &[(String, Vec<u32>)]) -> (found: bool)
    requires
        phrase@.len() > 0,
    ensures
        found == phrase_occurs(strings_view(phrase@), entries_view(positions@)),
{
    let ghost ph = strings_view(phrase@);
    let ghost ents = entries_view(positions@);
    let first_positions = match lookup_term(positions, &phrase[0]) {
        Some(p) => p,
        None => {
            return false;
        },
    };
    assert(ph[0] == phrase@[0]@);
    assert(lookup_positions(entries_view(positions@), phrase@[0]@) == Some(first_positions@));
    let mut s: usize = 0;
    while s < first_positions.len()
        invariant
            ph == strings_view(phrase@),
            ents == entries_view(positions@),
            phrase@.len() > 0,
            lookup_positions(ents, ph[0]) == Some(first_positions@),
            s <= first_positions@.len(),
            forall|k: int| 0 <= k < s ==> !#[trigger] phrase_follows(ph, ents, first_positions@[k] as int),
        decreases first_positions@.len() - s,
    {
        let start_pos = first_positions[s];
        // `expected` is where term `t - 1` would start.
        let mut expected: u64 = start_pos as u64;
        let mut t: usize = 1;
        let mut all_follow = true;
        while t < phrase.len()
            invariant
                ph == strings_view(phrase@),
                ents == entries_view(positions@),
                1 <= t <= phrase@.len(),
                expected == start_pos + phrase_offset(ph, t - 1),
                forall|u: int| 1 <= u < t ==> match lookup_positions(ents, #[trigger] ph[u]) {
                    Some(ps) => exists|k: int| 0 <= k < ps.len() && dist_int(#[trigger] ps[k] as int, start_pos + phrase_offset(ph, u)) <= 2,
                    None => false,
                },
                !all_follow ==> !phrase_follows(ph, ents, start_pos as int),
            ensures
                all_follow == phrase_follows(ph, ents, start_pos as int),
            decreases phrase@.len() - t,
        {
            assert(ph[t as int] == phrase@[t as int]@);
            assert(ph[t - 1] == phrase@[t - 1]@);
            assert(phrase_offset(ph, t as int) == phrase_offset(ph, t - 1) + byte_len(ph[t - 1]) + 1);
            let step = phrase[t - 1].as_str().as_bytes().len() as u64;
            assert(step == byte_len(ph[t - 1]));
            if expected > u64::MAX - 1 || step > u64::MAX - 1 - expected {
                // Term `t` would start beyond every 32-bit position.
                proof {
                    match lookup_positions(ents, ph[t as int]) {
                        Some(ps) => {
                            assert forall|k: int| 0 <= k < ps.len() implies dist_int(#[trigger] ps[k] as int, start_pos + phrase_offset(ph, t as int)) > 2 by {
                            }
                        },
                        None => {},
                    }
                }
                all_follow = false;
                break;
            }
            let here = expected + step + 1;
            assert(here == start_pos + phrase_offset(ph, t as int));
            match lookup_term(positions, &phrase[t]) {
                Some(pos_list) => {
                    let near = any_within_two(pos_list, here);
                    if !near {
                        proof {
                            let tt = t as int;
                            assert(lookup_positions(ents, ph[tt]) == Some(pos_list@));
                            if phrase_follows(ph, ents, start_pos as int) {
                                assert(match lookup_positions(ents, ph[tt]) {
                                    Some(ps) => exists|k: int| 0 <= k < ps.len() && dist_int(#[trigger] ps[k] as int, start_pos + phrase_offset(ph, tt)) <= 2,
                                    None => false,
                                });
                            }
                        }
                        all_follow = false;
                        break;
                    }
                },
                None => {
                    all_follow = false;
                    break;
                },
            }
            expected = here;
            t = t + 1;
        }
        if all_follow {
            return true;
        }
        s = s + 1;
    }
    false
}

/// Some position in `list` lies within two of `expected`.
fn any_within_two(list: &Vec<u32>, expected: u64) -> (r: bool)
    ensures
        r == exists|m: int| 0 <= m < list@.len() && dist_int(#[trigger] list@[m] as int, expected as int) <= 2,
{
    let mut k: usize = 0;
    while k < list.len()
        invariant
            k <= list@.len(),
            forall|m: int| 0 <= m < k ==> dist_int(#[trigger] list@[m] as int, expected as int) > 2,
        decreases list@.len() - k,
    {
        let p = list[k] as u64;
        let diff = if p >= expected { p - expected } else { expected - p };
        if diff <= 2 {
            assert(dist_int(list@[k as int] as int, expected as int) <= 2);
            return true;
        }
        k = k + 1;
    }
    false
}

/// Offsets grow with the index.
pub proof fn lemma_phrase_offset_mono(phrase: Seq<Seq<char>>, t: int, u: int)
    requires
        0 <= t <= u,
    ensures
        phrase_offset(phrase, t) <= phrase_offset(phrase, u),
    decreases u - t,
{
    if t < u {
        lemma_phrase_offset_mono(phrase, t, u - 1);
    }
}


/// A block: (file id, byte offset, byte length, term count).
pub type BlockInfo = (u32, u64, u32, u16);

/// The bytes between two blocks of a file; 0 when they overlap.
pub open spec fn block_gap(a: BlockInfo, k: BlockInfo) -> int {
    let a_end = a.1 + a.2;
    let k_end = k.1 + k.2;
    if a.1 >= k_end {
        a.1 - k_end
    } else if k.1 >= a_end {
        k.1 - a_end
    } else {
        0
    }
}

/// Block `b` belongs to the same passage as one of the blocks `kept`: same file,
/// less than `DEDUP_WINDOW` bytes apart.
pub open spec fn near_kept(blocks: Seq<BlockInfo>, kept: Seq<u32>, b: u32) -> bool {
    exists|i: int|
        0 <= i < kept.len() && blocks[b as int].0 == blocks[#[trigger] kept[i] as int].0 && block_gap(
            blocks[b as int],
            blocks[kept[i] as int],
        ) < DEDUP_WINDOW
}

/// Going through `ranked` best first, the blocks kept: each block not in the
/// passage of a block kept before it, until `TOP_K` are kept.
pub open spec fn dedup_kept(ranked: Seq<u32>, blocks: Seq<BlockInfo>) -> Seq<u32>
    decreases ranked.len(),
{
    if ranked.len() == 0 {
        seq![]
    } else {
        let prev = dedup_kept(ranked.drop_last(), blocks);
        let b = ranked.last();
        if prev.len() >= TOP_K || near_kept(blocks, prev, b) {
            prev
        } else {
            prev.push(b)
        }
    }
}

/// Once `TOP_K` blocks are kept, later blocks of the ranking change nothing.
proof fn lemma_dedup_full(ranked: Seq<u32>, blocks: Seq<BlockInfo>, i: int, j: int)
    requires
        0 <= i <= j <= ranked.len(),
        dedup_kept(ranked.take(i), blocks).len() >= TOP_K,
    ensures
        dedup_kept(ranked.take(j), blocks) == dedup_kept(ranked.take(i), blocks),
    decreases j - i,
{
    if j > i {
        lemma_dedup_full(ranked, blocks, i, j - 1);
        assert(ranked.take(j).drop_last() =~= ranked.take(j - 1));
    }
}

/// The deduplication law: at most `TOP_K` blocks are kept, each of them from
/// the ranking, and no kept block lies in the passage of a block kept before
/// it (same file, fewer than `DEDUP_WINDOW` bytes apart).
pub proof fn lemma_dedup_kept(ranked: Seq<u32>, blocks: Seq<BlockInfo>)
    ensures
        ({
            let k = dedup_kept(ranked, blocks);
            &&& k.len() <= TOP_K
            &&& forall|x: int| 0 <= x < k.len() ==> ranked.contains(#[trigger] k[x])
            &&& forall|i: int, j: int| 0 <= i < j < k.len() ==> !(blocks[#[trigger] k[j] as int].0 == blocks[#[trigger] k[i] as int].0
                && block_gap(blocks[k[j] as int], blocks[k[i] as int]) < DEDUP_WINDOW)
        }),
    decreases ranked.len(),
{
    if ranked.len() > 0 {
        let d = ranked.drop_last();
        lemma_dedup_kept(d, blocks);
        let prev = dedup_kept(d, blocks);
        let b = ranked.last();
        let k = dedup_kept(ranked, blocks);
        assert forall|x: int| 0 <= x < prev.len() implies ranked.contains(#[trigger] prev[x]) by {
            let y = choose|y: int| 0 <= y < d.len() && d[y] == prev[x];
            assert(ranked[y] == d[y]);
        }
        if !(prev.len() >= TOP_K || near_kept(blocks, prev, b)) {
            assert(k == prev.push(b));
            assert forall|x: int| 0 <= x < k.len() implies ranked.contains(#[trigger] k[x]) by {
                if x == k.len() - 1 {
                    assert(ranked[ranked.len() - 1] == b);
                } else {
                    assert(k[x] == prev[x]);
                }
            }
            assert forall|i: int, j: int| 0 <= i < j < k.len() implies !(blocks[#[trigger] k[j] as int].0 == blocks[#[trigger] k[i] as int].0
                && block_gap(blocks[k[j] as int], blocks[k[i] as int]) < DEDUP_WINDOW) by {
                assert(k[i] == prev[i]);
                if j < k.len() - 1 {
                    assert(k[j] == prev[j]);
                } else {
                    assert(k[j] == b);
                    if blocks[b as int].0 == blocks[prev[i] as int].0 && block_gap(blocks[b as int], blocks[prev[i] as int]) < DEDUP_WINDOW {
                        assert(near_kept(blocks, prev, b));
                    }
                }
            }
        }
    }
}

/// Block `a` lies within `DEDUP_WINDOW` bytes of block `k` of the same file:
/// `a` starts fewer than `DEDUP_WINDOW` bytes after `k` ends, or ends fewer
/// than `DEDUP_WINDOW` bytes before `k` starts, or the two overlap.
pub open spec fn same_passage(a: BlockInfo, k: BlockInfo) -> bool {
    let a_end = a.1 + a.2;
    let k_end = k.1 + k.2;
    &&& a.0 == k.0
    &&& (a.1 >= k_end && a.1 - k_end < DEDUP_WINDOW) || (k.1 >= a_end && k.1 - a_end < DEDUP_WINDOW)
        || (a.1 < k_end && k.1 < a_end)
}

/// The deduplication law, step by step: going through the ranking, a block is
/// kept exactly when fewer than `TOP_K` blocks are kept so far and none of
/// them is in the same passage; otherwise the kept blocks stay as they are.
pub proof fn lemma_dedup_step(ranked: Seq<u32>, blocks: Seq<BlockInfo>, x: int)
    requires
        0 <= x < ranked.len(),
    ensures
        ({
            let prev = dedup_kept(ranked.take(x), blocks);
            let next = dedup_kept(ranked.take(x + 1), blocks);
            let a = blocks[ranked[x] as int];
            if prev.len() < TOP_K && !(exists|i: int| 0 <= i < prev.len() && same_passage(a, blocks[#[trigger] prev[i] as int])) {
                next == prev.push(ranked[x])
            } else {
                next == prev
            }
        }),
{
    assert(ranked.take(x + 1).drop_last() =~= ranked.take(x));
    assert(ranked.take(x + 1).last() == ranked[x]);
    let prev = dedup_kept(ranked.take(x), blocks);
    let a = blocks[ranked[x] as int];
    assert forall|i: int| 0 <= i < prev.len() implies (same_passage(a, blocks[#[trigger] prev[i] as int]) <==> (a.0
        == blocks[prev[i] as int].0 && block_gap(a, blocks[prev[i] as int]) < DEDUP_WINDOW)) by {}
    if near_kept(blocks, prev, ranked[x]) {
        let i = choose|i: int| 0 <= i < prev.len() && blocks[ranked[x] as int].0 == blocks[#[trigger] prev[i] as int].0
            && block_gap(blocks[ranked[x] as int], blocks[prev[i] as int]) < DEDUP_WINDOW;
        assert(same_passage(a, blocks[prev[i] as int]));
    }
    if exists|i: int| 0 <= i < prev.len() && same_passage(a, blocks[#[trigger] prev[i] as int]) {
        let i = choose|i: int| 0 <= i < prev.len() && same_passage(a, blocks[#[trigger] prev[i] as int]);
        assert(near_kept(blocks, prev, ranked[x]));
    }
}

/// Whether block `b_id` falls in the passage of a block in `kept`.
fn in_kept_passage(kept: &Vec<u32>, blocks: &[BlockInfo], b_id: u32) -> (close: bool)
    requires
        forall|x: int| 0 <= x < kept@.len() ==> (#[trigger] kept@[x]) < blocks@.len(),
        forall|x: int| 0 <= x < kept@.len() ==> blocks@[#[trigger] kept@[x] as int].1 + blocks@[kept@[x] as int].2 <= u64::MAX,
        b_id < blocks@.len(),
        blocks@[b_id as int].1 + blocks@[b_id as int].2 <= u64::MAX,
    ensures
        close == near_kept(blocks@, kept@, b_id),
{
    let (f_id, offset, len, _) = blocks[b_id as usize];
    let b_end = offset + len as u64;
    let mut k: usize = 0;
    while k < kept.len()
        invariant
            k <= kept@.len(),
            forall|x: int| 0 <= x < kept@.len() ==> (#[trigger] kept@[x]) < blocks@.len(),
            forall|x: int| 0 <= x < kept@.len() ==> blocks@[#[trigger] kept@[x] as int].1 + blocks@[kept@[x] as int].2 <= u64::MAX,
            b_id < blocks@.len(),
            blocks@[b_id as int].0 == f_id,
            blocks@[b_id as int].1 == offset,
            blocks@[b_id as int].2 == len,
            b_end == offset + len,
            forall|x: int| 0 <= x < k ==> !(blocks@[b_id as int].0 == blocks@[#[trigger] kept@[x] as int].0
                && block_gap(blocks@[b_id as int], blocks@[kept@[x] as int]) < DEDUP_WINDOW),
        decreases kept@.len() - k,
    {
        let (kf, ko, kl, _) = blocks[kept[k] as usize];
        if kf == f_id {
            let k_end = ko + kl as u64;
            let gap = if offset >= k_end {
                offset - k_end
            } else if ko >= b_end {
                ko - b_end
            } else {
                0
            };
            if gap < DEDUP_WINDOW {
                assert(blocks@[b_id as int].0 == blocks@[kept@[k as int] as int].0 && block_gap(blocks@[b_id as int], blocks@[kept@[k as int] as int]) < DEDUP_WINDOW);
                return true;
            }
        }
        k = k + 1;
    }
    false
}

/// From a best-first list of block ids, keeps only the best block per file
/// passage: a block is dropped when it overlaps, or lies within `DEDUP_WINDOW`
/// bytes of, a block of the same file kept before it. At most `TOP_K` are kept.
pub fn deduplicate(ranked: &[u32], blocks: &[BlockInfo]) -> (kept: Vec<u32>)
    requires
        forall|i: int| 0 <= i < ranked@.len() ==> (#[trigger] ranked@[i]) < blocks@.len(),
        forall|i: int| 0 <= i < ranked@.len() ==> blocks@[#[trigger] ranked@[i] as int].1 + blocks@[ranked@[i] as int].2 <= u64::MAX,
    ensures
        kept@ == dedup_kept(ranked@, blocks@),
{
    let mut kept: Vec<u32> = Vec::new();
    let mut i: usize = 0;
    assert(ranked@.take(ranked@.len() as int) =~= ranked@);
    assert(ranked@.take(0) =~= Seq::<u32>::empty());
    while i < ranked.len()
        invariant_except_break
            kept@ == dedup_kept(ranked@.take(i as int), blocks@),
            kept@.len() < TOP_K,
        invariant
            i <= ranked@.len(),
            ranked@.take(ranked@.len() as int) == ranked@,
            forall|x: int| 0 <= x < ranked@.len() ==> (#[trigger] ranked@[x]) < blocks@.len(),
            forall|x: int| 0 <= x < ranked@.len() ==> blocks@[#[trigger] ranked@[x] as int].1 + blocks@[ranked@[x] as int].2 <= u64::MAX,
            forall|x: int| 0 <= x < kept@.len() ==> (#[trigger] kept@[x]) < blocks@.len(),
            forall|x: int| 0 <= x < kept@.len() ==> blocks@[#[trigger] kept@[x] as int].1 + blocks@[kept@[x] as int].2 <= u64::MAX,
        ensures
            kept@ == dedup_kept(ranked@, blocks@),
        decreases ranked@.len() - i,
    {
        let b_id = ranked[i];
        assert(ranked@.take(i + 1).drop_last() =~= ranked@.take(i as int));
        assert(ranked@.take(i + 1).last() == b_id);
        let close = in_kept_passage(&kept, blocks, b_id);
        if !close {
            kept.push(b_id);
            if kept.len() >= TOP_K {
                proof {
                    lemma_dedup_full(ranked@, blocks@, i + 1, ranked@.len() as int);
                    assert(ranked@.take(ranked@.len() as int) =~= ranked@);
                }
                break;
            }
        }
        i = i + 1;
    }
    proof {
        assert(ranked@.take(ranked@.len() as int) =~= ranked@);
    }
    kept
}


/// The state of a query scan: inside quotes or not, the regular terms so far,
/// the phrases so far, the terms of the open phrase, and the token being read.
pub type QueryScan = (bool, Seq<Seq<char>>, Seq<Seq<Seq<char>>>, Seq<Seq<char>>, Seq<char>);

/// Ends the token being read: its lowercase form joins the open phrase inside
/// quotes, or the regular terms outside them unless it is a stop word.
pub open spec fn scan_flush(st: QueryScan) -> QueryScan {
    let (in_quote, regular, phrases, phrase, token) = st;
    if token.len() == 0 {
        st
    } else {
        let tok = lowercase(token);
        if in_quote {
            (in_quote, regular, phrases, phrase.push(tok), seq![])
        } else if !stop_word(tok) {
            (in_quote, regular.push(tok), phrases, phrase, seq![])
        } else {
            (in_quote, regular, phrases, phrase, seq![])
        }
    }
}

/// One character of the query: a quote opens or closes a phrase (a closed
/// phrase of fewer than two terms becomes regular terms, less stop words), an alphanumeric
/// character extends the token (lowercased), anything else ends the token.
pub open spec fn scan_step(st: QueryScan, ch: char) -> QueryScan {
    if ch == '"' {
        let (in_quote, regular, phrases, phrase, token) = scan_flush(st);
        if in_quote {
            if phrase.len() >= 2 {
                (false, regular, phrases.push(phrase), seq![], token)
            } else {
                (false, regular + without_stop_words(phrase), phrases, seq![], token)
            }
        } else {
            (true, regular, phrases, phrase, token)
        }
    } else if alphanumeric(ch) {
        (st.0, st.1, st.2, st.3, st.4.push(lowercase_first(ch)))
    } else {
        scan_flush(st)
    }
}

/// The scan after reading `chars`.
pub open spec fn scan_query(chars: Seq<char>) -> QueryScan
    decreases chars.len(),
{
    if chars.len() == 0 {
        (false, seq![], seq![], seq![], seq![])
    } else {
        scan_step(scan_query(chars.drop_last()), chars.last())
    }
}

/// The terms of a phrase left open at the end, minus stop words.
pub open spec fn without_stop_words(ws: Seq<Seq<char>>) -> Seq<Seq<char>>
    decreases ws.len(),
{
    if ws.len() == 0 {
        seq![]
    } else {
        let rest = without_stop_words(ws.drop_last());
        if stop_word(ws.last()) {
            rest
        } else {
            rest.push(ws.last())
        }
    }
}

/// The regular terms and the phrases of a query: the scan, its last token
/// ended, and a phrase left open treated as regular terms.
pub open spec fn query_terms(chars: Seq<char>) -> (Seq<Seq<char>>, Seq<Seq<Seq<char>>>) {
    let (in_quote, regular, phrases, phrase, token) = scan_flush(scan_query(chars));
    (regular + without_stop_words(phrase), phrases)
}

/// Dropping stop words leaves none.
proof fn lemma_without_stop_words(ws: Seq<Seq<char>>)
    ensures
        forall|i: int| 0 <= i < without_stop_words(ws).len() ==> !stop_word(#[trigger] without_stop_words(ws)[i]),
    decreases ws.len(),
{
    if ws.len() > 0 {
        let rest = without_stop_words(ws.drop_last());
        lemma_without_stop_words(ws.drop_last());
        if !stop_word(ws.last()) {
            assert forall|i: int| 0 <= i < rest.push(ws.last()).len() implies !stop_word(#[trigger] rest.push(ws.last())[i]) by {
                if i < rest.len() {
                    assert(rest.push(ws.last())[i] == rest[i]);
                }
            }
        }
    }
}

/// No regular term is a stop word, and every phrase has at least two terms.
pub open spec fn terms_clean(regular: Seq<Seq<char>>, phrases: Seq<Seq<Seq<char>>>) -> bool {
    &&& forall|i: int| 0 <= i < regular.len() ==> !stop_word(#[trigger] regular[i])
    &&& forall|i: int| 0 <= i < phrases.len() ==> (#[trigger] phrases[i]).len() >= 2
}

/// Ending a token keeps the regular terms and the phrases clean.
proof fn lemma_flush_clean(st: QueryScan)
    requires
        terms_clean(st.1, st.2),
    ensures
        terms_clean(scan_flush(st).1, scan_flush(st).2),
{
    let f = scan_flush(st);
    if st.4.len() > 0 && !st.0 && !stop_word(lowercase(st.4)) {
        assert forall|i: int| 0 <= i < f.1.len() implies !stop_word(#[trigger] f.1[i]) by {
            if i < st.1.len() {
                assert(f.1[i] == st.1[i]);
            }
        }
    }
}

/// Appending terms that are not stop words keeps the regular terms clean.
proof fn lemma_append_clean(a: Seq<Seq<char>>, b: Seq<Seq<char>>)
    requires
        forall|i: int| 0 <= i < a.len() ==> !stop_word(#[trigger] a[i]),
        forall|i: int| 0 <= i < b.len() ==> !stop_word(#[trigger] b[i]),
    ensures
        forall|i: int| 0 <= i < (a + b).len() ==> !stop_word(#[trigger] (a + b)[i]),
{
    assert forall|i: int| 0 <= i < (a + b).len() implies !stop_word(#[trigger] (a + b)[i]) by {
        if i < a.len() {
            assert((a + b)[i] == a[i]);
        } else {
            assert((a + b)[i] == b[i - a.len()]);
        }
    }
}

/// The scan keeps its regular terms clean of stop words and closes only
/// phrases of two or more terms.
proof fn lemma_scan_clean(chars: Seq<char>)
    ensures
        terms_clean(scan_query(chars).1, scan_query(chars).2),
    decreases chars.len(),
{
    if chars.len() > 0 {
        let d = chars.drop_last();
        lemma_scan_clean(d);
        let st = scan_query(d);
        let ch = chars.last();
        let f = scan_flush(st);
        lemma_flush_clean(st);
        if ch == '"' && f.0 {
            if f.3.len() >= 2 {
                let ps = f.2.push(f.3);
                assert forall|i: int| 0 <= i < ps.len() implies (#[trigger] ps[i]).len() >= 2 by {
                    if i < f.2.len() {
                        assert(ps[i] == f.2[i]);
                    }
                }
            } else {
                lemma_without_stop_words(f.3);
                lemma_append_clean(f.1, without_stop_words(f.3));
            }
        }
    }
}

/// Stop words never become regular terms, and every phrase has at least two
/// terms; a query without a quote character has no phrases at all.
pub proof fn lemma_query_terms_clean(query: Seq<char>)
    ensures
        terms_clean(query_terms(query).0, query_terms(query).1),
        !query.contains('"') ==> query_terms(query).1.len() == 0,
{
    lemma_scan_clean(query);
    let st = scan_query(query);
    lemma_flush_clean(st);
    let f = scan_flush(st);
    lemma_without_stop_words(f.3);
    lemma_append_clean(f.1, without_stop_words(f.3));
    if !query.contains('"') {
        lemma_scan_no_phrases(query);
    }
}

/// Without quote characters the scan opens no phrase.
proof fn lemma_scan_no_phrases(chars: Seq<char>)
    requires
        !chars.contains('"'),
    ensures
        scan_query(chars).2.len() == 0,
    decreases chars.len(),
{
    if chars.len() > 0 {
        let d = chars.drop_last();
        assert(!d.contains('"')) by {
            if d.contains('"') {
                let i = choose|i: int| 0 <= i < d.len() && d[i] == '"';
                assert(chars[i] == '"');
            }
        }
        assert(chars.last() != '"') by {
            if chars.last() == '"' {
                assert(chars[chars.len() - 1] == '"');
            }
        }
        lemma_scan_no_phrases(d);
    }
}

/// The characters of each string of each phrase.
pub open spec fn phrases_view(v: Seq<Vec<String>>) -> Seq<Seq<Seq<char>>> {
    v.map_values(|p: Vec<String>| strings_view(p@))
}

/// Ends the token being read (the executable side of `scan_flush`).
fn flush_token(in_quote: bool, regular: &mut Vec<String>, phrase: &mut Vec<String>, token: &mut String)
    ensures
        ({
            let st = scan_flush(
                (in_quote, strings_view(old(regular)@), seq![], strings_view(old(phrase)@), old(token)@),
            );
            &&& strings_view(final(regular)@) == st.1
            &&& strings_view(final(phrase)@) == st.3
            &&& final(token)@ == st.4
        }),
{
    if !token.as_str().is_empty() {
        let tok = to_lowercase(token.as_str());
        if in_quote {
            phrase.push(tok);
            assert(strings_view(phrase@) =~= strings_view(old(phrase)@).push(tok@));
        } else if !is_stop_word(tok.as_str()) {
            regular.push(tok);
            assert(strings_view(regular@) =~= strings_view(old(regular)@).push(tok@));
        }
        *token = String::new();
    }
}

/// Appends the words of `ws` that are not stop words.
fn append_content_words(regular: &mut Vec<String>, ws: &Vec<String>)
    ensures
        strings_view(final(regular)@) == strings_view(old(regular)@) + without_stop_words(strings_view(ws@)),
{
    let ghost rv = strings_view(regular@);
    let ghost cv = strings_view(ws@);
    let mut k: usize = 0;
    proof {
        assert(cv.take(0) =~= Seq::<Seq<char>>::empty());
        assert(rv + without_stop_words(cv.take(0)) =~= rv);
    }
    while k < ws.len()
        invariant
            cv == strings_view(ws@),
            k <= ws@.len(),
            strings_view(regular@) == rv + without_stop_words(cv.take(k as int)),
        decreases ws@.len() - k,
    {
        assert(cv.take(k + 1).drop_last() =~= cv.take(k as int));
        assert(cv.take(k + 1).last() == ws@[k as int]@);
        if !is_stop_word(ws[k].as_str()) {
            let t = ws[k].clone();
            let ghost r0 = strings_view(regular@);
            regular.push(t);
            assert(strings_view(regular@) =~= r0.push(t@));
            assert(rv + without_stop_words(cv.take(k + 1)) =~= (rv + without_stop_words(cv.take(k as int))).push(t@));
        }
        k = k + 1;
    }
    assert(cv.take(k as int) =~= cv);
}

/// Splits a query into individual terms and quoted phrases.
/// Stop words are filtered from regular terms but kept inside phrases
/// (phrase terms that don't exist in the index simply won't match).
pub fn parse_query(query: &str) -> (r: (Vec<String>, Vec<Vec<String>>))
    ensures
        (strings_view(r.0@), phrases_view(r.1@)) == query_terms(query@),
        forall|i: int| 0 <= i < r.0@.len() ==> !stop_word((#[trigger] r.0@[i])@),
        forall|i: int| 0 <= i < r.1@.len() ==> (#[trigger] r.1@[i])@.len() >= 2,
{
    let mut regular_terms: Vec<String> = Vec::new();
    let mut phrases: Vec<Vec<String>> = Vec::new();
    let mut in_quote = false;
    let mut current_phrase_terms: Vec<String> = Vec::new();
    let mut current_token = String::new();
    proof {
        assert(query@.take(0) =~= Seq::<char>::empty());
        assert(strings_view(regular_terms@) =~= Seq::<Seq<char>>::empty());
        assert(strings_view(current_phrase_terms@) =~= Seq::<Seq<char>>::empty());
        assert(phrases_view(phrases@) =~= Seq::<Seq<Seq<char>>>::empty());
    }
    for ch in it: query.chars()
        invariant
            it.seq() == query@,
            (in_quote, strings_view(regular_terms@), phrases_view(phrases@), strings_view(current_phrase_terms@), current_token@)
                == scan_query(it.seq().take(it.index() as int)),
    {
        let ghost i = it.index() as int;
        let ghost before = (in_quote, strings_view(regular_terms@), phrases_view(phrases@), strings_view(current_phrase_terms@), current_token@);
        proof {
            assert(it.seq().take(i + 1).drop_last() =~= it.seq().take(i));
            assert(it.seq().take(i + 1).last() == ch);
        }
        if ch == '"' {
            flush_token(in_quote, &mut regular_terms, &mut current_phrase_terms, &mut current_token);
            if in_quote {
                if current_phrase_terms.len() >= 2 {
                    let mut done: Vec<String> = Vec::new();
                    std::mem::swap(&mut done, &mut current_phrase_terms);
                    let ghost pv = phrases_view(phrases@);
                    phrases.push(done);
                    assert(phrases_view(phrases@) =~= pv.push(strings_view(done@)));
                    assert(strings_view(current_phrase_terms@) =~= Seq::<Seq<char>>::empty());
                } else {
                    append_content_words(&mut regular_terms, &current_phrase_terms);
                    current_phrase_terms = Vec::new();
                    assert(strings_view(current_phrase_terms@) =~= Seq::<Seq<char>>::empty());
                }
                in_quote = false;
            } else {
                in_quote = true;
            }
        } else if is_alphanumeric(ch) {
            let lc = char_to_lowercase(ch);
            push_char(&mut current_token, lc);
        } else {
            flush_token(in_quote, &mut regular_terms, &mut current_phrase_terms, &mut current_token);
        }
    }
    proof {
        assert(query@.take(query@.len() as int) =~= query@);
    }
    flush_token(in_quote, &mut regular_terms, &mut current_phrase_terms, &mut current_token);
    append_content_words(&mut regular_terms, &current_phrase_terms);
    proof {
        lemma_query_terms_clean(query@);
        let rv = strings_view(regular_terms@);
        let pv = phrases_view(phrases@);
        assert forall|i: int| 0 <= i < regular_terms@.len() implies !stop_word((#[trigger] regular_terms@[i])@) by {
            assert(rv[i] == regular_terms@[i]@);
        }
        assert forall|i: int| 0 <= i < phrases@.len() implies (#[trigger] phrases@[i])@.len() >= 2 by {
            assert(pv[i] == strings_view(phrases@[i]@));
        }
    }
    (regular_terms, phrases)
}

// ---------------------------------------------------------------------------
// The loaded index
// ---------------------------------------------------------------------------

/// Terms shorter than this many bytes stay out of the fuzzy vocabulary (they
/// give noisy near matches).
pub const MIN_FUZZY_TERM_LEN: usize = 3;

/// The terms that fuzzy search may reach.
pub open spec fn fuzzy_terms(terms: Seq<Seq<char>>) -> Set<Seq<char>> {
    terms.to_set().filter(|t: Seq<char>| byte_len(t) >= MIN_FUZZY_TERM_LEN)
}

/// A loaded index, ready to answer queries.
pub struct Searcher {
    terms: Vec<String>,
    postings: Vec<Vec<(u32, Vec<u32>)>>,
    term_ids: StringHashMap<usize>,
    blocks: Vec<Block>,
    files: Vec<String>,
    bk_tree: BKTree,
}

/// A posting list, as plain values.
pub open spec fn entry_list(l: Seq<(u32, Vec<u32>)>) -> Seq<(u32, Seq<u32>)> {
    l.map_values(|e: (u32, Vec<u32>)| (e.0, e.1@))
}

/// Block ids strictly increasing, positions sorted.
pub open spec fn posting_list_ok(p: Seq<(u32, Seq<u32>)>) -> bool {
    &&& forall|j: int, k: int| 0 <= j < k < p.len() ==> (#[trigger] p[j]).0 < (#[trigger] p[k]).0
    &&& forall|k: int| 0 <= k < p.len() ==> sorted_ids(#[trigger] p[k].1)
}

/// Terms distinct, the map from term to index agrees with the terms, one posting
/// list per term.
pub open spec fn term_map_ok(terms: Seq<Seq<char>>, postings_len: nat, ids: Map<Seq<char>, usize>) -> bool {
    &&& terms.len() == postings_len
    &&& forall|i: int, j: int| 0 <= i < j < terms.len() ==> terms[i] != terms[j]
    &&& forall|w: Seq<char>| #[trigger] ids.contains_key(w) <==> terms.contains(w)
    &&& forall|w: Seq<char>| #[trigger] ids.contains_key(w) ==> ids[w] < terms.len() && terms[ids[w] as int] == w
}

impl Searcher {
    /// The indexed files.
    pub closed spec fn files(&self) -> Seq<Seq<char>> {
        strings_view(self.files@)
    }

    /// The blocks: file id, byte offset, byte length, word count.
    pub closed spec fn blocks(&self) -> Seq<Block> {
        self.blocks@
    }

    /// The terms.
    pub closed spec fn terms(&self) -> Seq<Seq<char>> {
        strings_view(self.terms@)
    }

    /// Each term's posting list: block id and positions in the block.
    pub closed spec fn postings(&self) -> Seq<Seq<(u32, Seq<u32>)>> {
        postings_view(self.postings@)
    }

    /// The words the fuzzy search reaches.
    pub closed spec fn vocabulary(&self) -> Seq<Seq<char>> {
        self.bk_tree.words()
    }

    /// Terms distinct and mapped; every block names a file; every posting a
    /// block, in increasing block order with sorted positions; the fuzzy
    /// vocabulary is the terms of at least `MIN_FUZZY_TERM_LEN` bytes.
    pub closed spec fn wf(&self) -> bool {
        let p = self.postings();
        &&& term_map_ok(self.terms(), p.len(), self.term_ids@)
        &&& blocks_valid(self.blocks@, self.files@.len())
        &&& postings_valid(p, self.blocks@.len())
        &&& forall|i: int| 0 <= i < p.len() ==> posting_list_ok(#[trigger] p[i])
        &&& forall|i: int| 0 <= i < self.terms@.len() ==> (#[trigger] self.terms@[i])@.len() < 0x1_0000
        &&& self.bk_tree.wf()
        &&& self.bk_tree.words().to_set() == fuzzy_terms(self.terms())
    }
}

/// Keeps, of posting entries with the same block id, the last one (see `collapse`).
fn collapse_entries(entries: Vec<(u32, Vec<u32>)>) -> (out: Vec<(u32, Vec<u32>)>)
    ensures
        entry_list(out@) == collapse(entry_list(entries@)),
{
    let ghost all = entry_list(entries@);
    let mut out: Vec<(u32, Vec<u32>)> = Vec::new();
    proof {
        assert(all.take(0) =~= Seq::<(u32, Seq<u32>)>::empty());
        assert(entry_list(out@) =~= Seq::<(u32, Seq<u32>)>::empty());
    }
    for e in it: entries.into_iter()
        invariant
            it.seq() == entries@,
            all == entry_list(entries@),
            entry_list(out@) == collapse(all.take(it.index() as int)),
    {
        let ghost x = it.index() as int;
        let ghost prev = entry_list(out@);
        proof {
            assert(all.take(x + 1).drop_last() =~= all.take(x));
            assert(all.take(x + 1).last() == (e.0, e.1@));
        }
        let n = out.len();
        if n > 0 && out[n - 1].0 == e.0 {
            let _ = out.pop();
            out.push(e);
            proof {
                assert(entry_list(out@) =~= prev.drop_last().push(all[x]));
            }
        } else {
            out.push(e);
            proof {
                assert(entry_list(out@) =~= prev.push(all[x]));
            }
        }
    }
    proof {
        assert(all.take(all.len() as int) =~= all);
    }
    out
}

/// The length-prefixed string at `cursor`, as `read_string` reads it.
fn read_string_at(bytes: &[u8], cursor: usize) -> (r: Option<(String, usize)>)
    ensures
        match r {
            Some((s, c)) => read_string(bytes@, cursor as int) == Some((s@, c as int)) && s@.len() < 0x1_0000,
            None => read_string(bytes@, cursor as int) is None,
        },
{
    let n = match read_u16(bytes, cursor) {
        Some(n) => n,
        None => return None,
    };
    if bytes.len() - cursor - 2 < n as usize {
        return None;
    }
    let end = cursor + 2 + n as usize;
    let s = from_utf8_lossy(vstd::slice::slice_subrange(bytes, cursor + 2, end));
    Some((s, end))
}

/// The `nf` strings from `cursor` on, as `read_files` reads them.
pub(crate) fn read_files_at(bytes: &[u8], cursor: usize, nf: u32) -> (r: Option<(Vec<String>, usize)>)
    ensures
        match r {
            Some((files, c)) => read_files(bytes@, cursor as int, nf as nat, seq![]) == Some((strings_view(files@), c as int))
                && forall|k: int| 0 <= k < files@.len() ==> (#[trigger] files@[k])@.len() < 0x1_0000,
            None => read_files(bytes@, cursor as int, nf as nat, seq![]) is None,
        },
{
    let ghost b = bytes@;
    let ghost c0 = cursor as int;
    let mut files: Vec<String> = Vec::new();
    let mut cur = cursor;
    let mut i: u32 = 0;
    proof {
        assert(strings_view(files@) =~= Seq::<Seq<char>>::empty());
    }
    while i < nf
        invariant
            b == bytes@,
            c0 == cursor as int,
            i <= nf,
            read_files(b, c0, nf as nat, seq![]) == read_files(b, cur as int, (nf - i) as nat, strings_view(files@)),
            forall|k: int| 0 <= k < files@.len() ==> (#[trigger] files@[k])@.len() < 0x1_0000,
        decreases nf - i,
    {
        let (s, end) = match read_string_at(bytes, cur) {
            Some(x) => x,
            None => return None,
        };
        let ghost before = strings_view(files@);
        files.push(s);
        proof {
            assert(strings_view(files@) =~= before.push(s@));
        }
        cur = end;
        i = i + 1;
    }
    Some((files, cur))
}

/// The `nb` blocks from `cursor` on, as `read_blocks` reads them.
fn read_blocks_at(bytes: &[u8], cursor: usize, nb: u32) -> (r: Option<(Vec<Block>, usize)>)
    ensures
        match r {
            Some((blocks, c)) => read_blocks(bytes@, cursor as int, nb as nat, seq![]) == Some((blocks@, c as int)),
            None => read_blocks(bytes@, cursor as int, nb as nat, seq![]) is None,
        },
{
    let ghost b = bytes@;
    let ghost c0 = cursor as int;
    let mut blocks: Vec<Block> = Vec::new();
    let mut cur = cursor;
    let mut i: u32 = 0;
    while i < nb
        invariant
            b == bytes@,
            c0 == cursor as int,
            i <= nb,
            read_blocks(b, c0, nb as nat, seq![]) == read_blocks(b, cur as int, (nb - i) as nat, blocks@),
        decreases nb - i,
    {
        if cur > bytes.len() || bytes.len() - cur < 18 {
            return None;
        }
        let f = read_u32(bytes, cur).unwrap();
        let off = read_u64(bytes, cur + 4).unwrap();
        let len = read_u32(bytes, cur + 12).unwrap();
        let count = read_u16(bytes, cur + 16).unwrap();
        blocks.push((f, off, len, count));
        cur = cur + 18;
        i = i + 1;
    }
    Some((blocks, cur))
}

/// The term at `cursor` with its posting list, as `read_term` reads it.
fn read_term_at(bytes: &[u8], cursor: usize) -> (r: Option<(String, Vec<(u32, Vec<u32>)>, usize)>)
    ensures
        match r {
            Some((t, list, c)) => {
                &&& read_term(bytes@, cursor as int) == Some((t@, entry_list(list@), c as int))
                &&& posting_list_ok(entry_list(list@))
                &&& t@.len() < 0x1_0000
                &&& cursor + 6 <= c
            },
            None => read_term(bytes@, cursor as int) is None,
        },
{
    let (t, c) = match read_string_at(bytes, cursor) {
        Some(x) => x,
        None => return None,
    };
    let n = match read_u32(bytes, c) {
        Some(n) => n,
        None => return None,
    };
    if bytes.len() - c - 4 < n as usize {
        return None;
    }
    let end = c + 4 + n as usize;
    let enc = vstd::slice::slice_subrange(bytes, c + 4, end);
    if !inverted_entry_ok(enc) {
        return None;
    }
    let decoded = decode_inverted_entry(enc);
    proof {
        assert(entry_list(decoded@) == entries_from(enc@, 0, 0));
        lemma_entries_from_sorted(enc@, 0, 0);
        lemma_collapse(entries_from(enc@, 0, 0));
    }
    let list = collapse_entries(decoded);
    proof {
        let lv = entry_list(list@);
        let es = entries_from(enc@, 0, 0);
        assert forall|k: int| 0 <= k < lv.len() implies sorted_ids(#[trigger] lv[k].1) by {
            let j = choose|j: int| 0 <= j < es.len() && lv[k] == es[j];
        }
    }
    Some((t, list, end))
}

/// The `nt` terms from `cursor` on, put into a term map as `read_terms` does.
pub(crate) fn read_terms_at(bytes: &[u8], cursor: usize, nt: u32) -> (r: Option<
    (Vec<String>, Vec<Vec<(u32, Vec<u32>)>>, StringHashMap<usize>, usize),
>)
    ensures
        match r {
            Some((terms, postings, ids, c)) => {
                &&& read_terms(bytes@, cursor as int, nt as nat, seq![], seq![]) == Some(
                    (strings_view(terms@), postings_view(postings@), c as int),
                )
                &&& term_map_ok(strings_view(terms@), postings@.len() as nat, ids@)
                &&& forall|k: int| 0 <= k < postings@.len() ==> posting_list_ok(#[trigger] postings_view(postings@)[k])
                &&& forall|k: int| 0 <= k < terms@.len() ==> (#[trigger] terms@[k])@.len() < 0x1_0000
                &&& cursor + 6 * terms@.len() <= c
            },
            None => read_terms(bytes@, cursor as int, nt as nat, seq![], seq![]) is None,
        },
{
    let ghost b = bytes@;
    let ghost c_start = cursor as int;
    let mut cur = cursor;
    let mut terms: Vec<String> = Vec::new();
    let mut postings: Vec<Vec<(u32, Vec<u32>)>> = Vec::new();
    let mut term_ids: StringHashMap<usize> = StringHashMap::new();
    let mut i: u32 = 0;
    proof {
        assert(strings_view(terms@) =~= Seq::<Seq<char>>::empty());
        assert(postings_view(postings@) =~= Seq::<Seq<(u32, Seq<u32>)>>::empty());
    }
    while i < nt
        invariant
            b == bytes@,
            c_start == cursor as int,
            i <= nt,
            c_start + 6 * terms@.len() <= cur,
            read_terms(b, c_start, nt as nat, seq![], seq![]) == read_terms(
                b,
                cur as int,
                (nt - i) as nat,
                strings_view(terms@),
                postings_view(postings@),
            ),
            term_map_ok(strings_view(terms@), postings@.len() as nat, term_ids@),
            forall|k: int| 0 <= k < postings@.len() ==> posting_list_ok(#[trigger] postings_view(postings@)[k]),
            forall|k: int| 0 <= k < terms@.len() ==> (#[trigger] terms@[k])@.len() < 0x1_0000,
        decreases nt - i,
    {
        let (t, list, end) = match read_term_at(bytes, cur) {
            Some(x) => x,
            None => return None,
        };
        let ghost lv = entry_list(list@);
        let ghost tv = strings_view(terms@);
        let ghost pv = postings_view(postings@);
        proof {
            lemma_seq_index(tv, t@);
        }
        match term_ids.get(t.as_str()) {
            Some(idx) => {
                let idx = *idx;
                proof {
                    assert(tv.contains(t@));
                    assert(seq_index(tv, t@) == Some(idx as int));
                }
                postings.set(idx, list);
                proof {
                    assert(postings_view(postings@) =~= pv.update(idx as int, lv));
                    assert(put_term(tv, pv, t@, lv) == (tv, pv.update(idx as int, lv)));
                    assert forall|k: int| 0 <= k < postings@.len() implies posting_list_ok(#[trigger] postings_view(postings@)[k]) by {
                        if k != idx as int {
                            assert(postings_view(postings@)[k] == pv[k]);
                        }
                    }
                }
            },
            None => {
                proof {
                    assert(!tv.contains(t@));
                    assert(seq_index(tv, t@) is None);
                }
                let id = terms.len();
                let key = t.clone();
                term_ids.insert(key, id);
                terms.push(t);
                postings.push(list);
                proof {
                    let t2 = strings_view(terms@);
                    assert(t2 =~= tv.push(t@));
                    assert(postings_view(postings@) =~= pv.push(lv));
                    assert forall|a: int, bb: int| 0 <= a < bb < t2.len() implies t2[a] != t2[bb] by {
                        if bb == t2.len() - 1 {
                            assert(t2[a] == tv[a]);
                        } else {
                            assert(t2[a] == tv[a] && t2[bb] == tv[bb]);
                        }
                    }
                    assert forall|wd: Seq<char>| #[trigger] term_ids@.contains_key(wd) <==> t2.contains(wd) by {
                        if wd == t@ {
                            assert(t2[t2.len() - 1] == t@);
                        } else if tv.contains(wd) {
                            let j = choose|j: int| 0 <= j < tv.len() && tv[j] == wd;
                            assert(t2[j] == wd);
                        } else if t2.contains(wd) {
                            let j = choose|j: int| 0 <= j < t2.len() && t2[j] == wd;
                            assert(tv[j] == wd);
                        }
                    }
                    assert forall|wd: Seq<char>| #[trigger] term_ids@.contains_key(wd) implies term_ids@[wd] < t2.len()
                        && t2[term_ids@[wd] as int] == wd by {
                        if wd != t@ {
                            assert(t2[term_ids@[wd] as int] == tv[term_ids@[wd] as int]);
                        }
                    }
                    assert forall|k: int| 0 <= k < postings@.len() implies posting_list_ok(#[trigger] postings_view(postings@)[k]) by {
                        if k < pv.len() {
                            assert(postings_view(postings@)[k] == pv[k]);
                        }
                    }
                }
            },
        }
        cur = end;
        i = i + 1;
    }
    Some((terms, postings, term_ids, cur))
}

/// Whether every block names one of `nfiles` files and ends within 64-bit offsets.
fn blocks_ok(blocks: &Vec<Block>, nfiles: usize) -> (ok: bool)
    ensures
        ok == blocks_valid(blocks@, nfiles as nat),
{
    let mut k: usize = 0;
    while k < blocks.len()
        invariant
            k <= blocks@.len(),
            forall|j: int| 0 <= j < k ==> (#[trigger] blocks@[j]).0 < nfiles && blocks@[j].1 + blocks@[j].2 <= u64::MAX,
        decreases blocks@.len() - k,
    {
        let (f, off, len, _) = blocks[k];
        if f as usize >= nfiles || off > 0xFFFF_FFFF_FFFF_FFFFu64 - len as u64 {
            return false;
        }
        k = k + 1;
    }
    true
}

/// Whether every posting names one of `nblocks` blocks.
pub(crate) fn postings_ok(postings: &Vec<Vec<(u32, Vec<u32>)>>, nblocks: usize) -> (ok: bool)
    ensures
        ok == postings_valid(postings_view(postings@), nblocks as nat),
{
    let ghost pv = postings_view(postings@);
    let mut k: usize = 0;
    while k < postings.len()
        invariant
            k <= postings@.len(),
            pv == postings_view(postings@),
            forall|a: int, j: int| 0 <= a < k && 0 <= j < pv[a].len() ==> (#[trigger] pv[a][j]).0 < nblocks,
        decreases postings@.len() - k,
    {
        let list = &postings[k];
        let mut j: usize = 0;
        proof {
            assert(pv[k as int] == entry_list(list@));
        }
        while j < list.len()
            invariant
                j <= list@.len(),
                k < postings@.len(),
                pv == postings_view(postings@),
                pv[k as int] == entry_list(list@),
                forall|a: int, jj: int| 0 <= a < k && 0 <= jj < pv[a].len() ==> (#[trigger] pv[a][jj]).0 < nblocks,
                forall|jj: int| 0 <= jj < j ==> (#[trigger] pv[k as int][jj]).0 < nblocks,
            decreases list@.len() - j,
        {
            if list[j].0 as usize >= nblocks {
                proof {
                    assert(pv[k as int][j as int].0 == list@[j as int].0);
                }
                return false;
            }
            j = j + 1;
        }
        k = k + 1;
    }
    true
}

/// The BK-tree of the terms of at least `MIN_FUZZY_TERM_LEN` bytes.
fn build_vocabulary(terms: &Vec<String>) -> (tree: BKTree)
    requires
        terms@.len() < usize::MAX,
        forall|k: int| 0 <= k < terms@.len() ==> (#[trigger] terms@[k])@.len() < 0x1_0000,
    ensures
        tree.wf(),
        tree.words().to_set() == fuzzy_terms(strings_view(terms@)),
{
    let ghost tv = strings_view(terms@);
    let mut tree = BKTree::new();
    let mut k: usize = 0;
    while k < terms.len()
        invariant
            k <= terms@.len() < usize::MAX,
            tv == strings_view(terms@),
            forall|j: int| 0 <= j < terms@.len() ==> (#[trigger] terms@[j])@.len() < 0x1_0000,
            tree.wf(),
            tree.words().len() <= k,
            forall|w: Seq<char>| tree.words().contains(w) <==> (exists|j: int| 0 <= j < k && #[trigger] tv[j] == w && byte_len(w) >= MIN_FUZZY_TERM_LEN),
        decreases terms@.len() - k,
    {
        let ghost before = tree.words();
        let ghost w0 = tv[k as int];
        let nbytes = terms[k].as_str().as_bytes().len();
        proof {
            assert(tv[k as int] == terms@[k as int]@);
            assert(nbytes == byte_len(w0));
        }
        if nbytes >= MIN_FUZZY_TERM_LEN {
            tree.insert(terms[k].as_str());
            assert(tree.words() == if before.contains(w0) { before } else { before.push(w0) });
        } else {
            assert(tree.words() == before);
        }
        proof {
            assert forall|w: Seq<char>| tree.words().contains(w) <==> (exists|j: int| 0 <= j < k + 1 && #[trigger] tv[j] == w && byte_len(w) >= MIN_FUZZY_TERM_LEN) by {
                if w == tv[k as int] && byte_len(w) >= MIN_FUZZY_TERM_LEN {
                    if !before.contains(w) {
                        assert(tree.words() == before.push(w));
                        assert(tree.words()[before.len() as int] == w);
                    } else {
                        let j = choose|j: int| 0 <= j < before.len() && before[j] == w;
                        assert(tree.words()[j] == w);
                    }
                }
                if tree.words().contains(w) && !before.contains(w) {
                    assert(tree.words() == before.push(terms@[k as int]@));
                    let j = choose|j: int| 0 <= j < tree.words().len() && tree.words()[j] == w;
                    assert(j == before.len());
                }
                if before.contains(w) {
                    let j = choose|j: int| 0 <= j < before.len() && before[j] == w;
                    assert(tree.words()[j] == w);
                }
            }
        }
        k = k + 1;
    }
    proof {
        assert(tree.words().to_set() =~= fuzzy_terms(tv)) by {
            assert forall|w: Seq<char>| tree.words().to_set().contains(w) <==> fuzzy_terms(tv).contains(w) by {
                if tv.contains(w) && byte_len(w) >= MIN_FUZZY_TERM_LEN {
                    let j = choose|j: int| 0 <= j < tv.len() && tv[j] == w;
                    assert(tree.words().contains(w));
                }
            }
        }
    }
    tree
}

impl Searcher {
    /// Loads an index from the bytes of an index file (see `parse_index`):
    /// `InvalidIndex` exactly when they do not hold one. An index whose blocks
    /// name a file it does not list, or whose postings name a block it does not
    /// list, is refused here rather than loaded for a later lookup to fail on.
    /// Fuzzy search gets the terms of at least `MIN_FUZZY_TERM_LEN` bytes.
    pub fn from_bytes(bytes: &[u8]) -> (r: Result<Searcher, SkandaError>)
        ensures
            match r {
                Ok(s) => s.wf() && parse_index(bytes@) == Some((s.files(), s.blocks(), s.terms(), s.postings())),
                Err(e) => e is InvalidIndex && parse_index(bytes@) is None,
            },
    {
        let ghost b = bytes@;
        if bytes.len() < 9 {
            return Err(SkandaError::InvalidIndex);
        }
        if bytes[0] != 0x53u8 || bytes[1] != 0x4Bu8 || bytes[2] != 0x44u8 || bytes[3] != 0x58u8 {
            proof {
                if b.subrange(0, 4) == index_magic() {
                    assert(b.subrange(0, 4)[0] == b[0]);
                    assert(b.subrange(0, 4)[1] == b[1]);
                    assert(b.subrange(0, 4)[2] == b[2]);
                    assert(b.subrange(0, 4)[3] == b[3]);
                }
            }
            return Err(SkandaError::InvalidIndex);
        }
        proof {
            assert(b.subrange(0, 4) =~= index_magic());
        }
        if bytes[4] != INDEX_VERSION {
            return Err(SkandaError::InvalidIndex);
        }
        let nf = read_u32(bytes, 5).unwrap();
        let (files, c1) = match read_files_at(bytes, 9, nf) {
            Some(x) => x,
            None => return Err(SkandaError::InvalidIndex),
        };
        let nb = match read_u32(bytes, c1) {
            Some(n) => n,
            None => return Err(SkandaError::InvalidIndex),
        };
        let (blocks, c2) = match read_blocks_at(bytes, c1 + 4, nb) {
            Some(x) => x,
            None => return Err(SkandaError::InvalidIndex),
        };
        let nt = match read_u32(bytes, c2) {
            Some(n) => n,
            None => return Err(SkandaError::InvalidIndex),
        };
        let (terms, postings, term_ids, _c3) = match read_terms_at(bytes, c2 + 4, nt) {
            Some(x) => x,
            None => return Err(SkandaError::InvalidIndex),
        };
        if !blocks_ok(&blocks, files.len()) || !postings_ok(&postings, blocks.len()) {
            return Err(SkandaError::InvalidIndex);
        }
        let bk_tree = build_vocabulary(&terms);
        let s = Searcher { terms, postings, term_ids, blocks, files, bk_tree };
        Ok(s)
    }
}
// ---------------------------------------------------------------------------
// Fuzzy expansion
// ---------------------------------------------------------------------------

/// The words of a list of (word, exact) pairs.
pub open spec fn texts(v: Seq<(String, bool)>) -> Seq<Seq<char>> {
    v.map_values(|e: (String, bool)| e.0@)
}

/// The words a query looks up: its own words and, with `fuzzy`, each word of
/// the fuzzy vocabulary within one edit of one of them (of those shorter than
/// `usize::MAX` characters).
pub open spec fn expansion(words: Seq<Seq<char>>, vocab: Set<Seq<char>>, fuzzy: bool) -> Set<Seq<char>> {
    Set::new(
        |w: Seq<char>|
            words.contains(w) || (fuzzy && vocab.contains(w) && exists|j: int|
                0 <= j < words.len() && words[j].len() < usize::MAX && edit_distance(#[trigger] words[j], w) <= 1),
    )
}

/// Whether `w` is the word of one of the pairs.
fn contains_text(v: &Vec<(String, bool)>, w: &str) -> (r: bool)
    ensures
        r == texts(v@).contains(w@),
{
    let mut i: usize = 0;
    while i < v.len()
        invariant
            i <= v@.len(),
            forall|k: int| 0 <= k < i ==> texts(v@)[k] != w@,
        decreases v@.len() - i,
    {
        if crate::text::str_eq(v[i].0.as_str(), w) {
            assert(texts(v@)[i as int] == w@);
            return true;
        }
        i = i + 1;
    }
    false
}

impl Searcher {
    /// The terms to look up for the query words `words` (each once): first the
    /// words themselves, marked exact, then with `fuzzy` their neighbours in
    /// the fuzzy vocabulary (see `expansion`), marked not exact.
    #[verifier::spinoff_prover]
    pub fn expand_terms(&self, words: &Vec<String>, fuzzy: bool) -> (out: Vec<(String, bool)>)
        requires
            self.wf(),
            forall|i: int, j: int| 0 <= i < j < words@.len() ==> words@[i]@ != words@[j]@,
        ensures
            forall|i: int, j: int| 0 <= i < j < out@.len() ==> texts(out@)[i] != texts(out@)[j],
            texts(out@).take(words@.len() as int) == strings_view(words@),
            forall|i: int| 0 <= i < out@.len() ==> (#[trigger] out@[i]).1 == (i < words@.len()),
            texts(out@).to_set() == expansion(strings_view(words@), fuzzy_terms(self.terms()), fuzzy),
    {
        let ghost wv = strings_view(words@);
        let ghost vocab = fuzzy_terms(self.terms());
        let mut out: Vec<(String, bool)> = Vec::new();
        let mut i: usize = 0;
        while i < words.len()
            invariant
                i <= words@.len(),
                wv == strings_view(words@),
                texts(out@) == wv.take(i as int),
                out@.len() == i,
                forall|x: int| 0 <= x < out@.len() ==> (#[trigger] out@[x]).1,
            decreases words@.len() - i,
        {
            out.push((words[i].clone(), true));
            proof {
                assert(texts(out@) =~= wv.take(i + 1));
            }
            i = i + 1;
        }
        proof {
            assert(wv.take(wv.len() as int) =~= wv);
        }
        if fuzzy {
            let mut i: usize = 0;
            while i < words.len()
                invariant
                    i <= words@.len(),
                    self.wf(),
                    wv == strings_view(words@),
                    vocab == fuzzy_terms(self.terms()),
                    forall|a: int, b: int| 0 <= a < b < wv.len() ==> wv[a] != wv[b],
                    out@.len() >= wv.len(),
                    texts(out@).take(wv.len() as int) == wv,
                    forall|x: int| 0 <= x < out@.len() ==> (#[trigger] out@[x]).1 == (x < wv.len()),
                    forall|a: int, b: int| 0 <= a < b < out@.len() ==> texts(out@)[a] != texts(out@)[b],
                    forall|w: Seq<char>| texts(out@).contains(w) <==> (wv.contains(w) || (vocab.contains(w) && exists|j: int|
                        0 <= j < i && wv[j].len() < usize::MAX && edit_distance(#[trigger] wv[j], w) <= 1)),
                decreases words@.len() - i,
            {
                let n = words[i].as_str().unicode_len();
                proof {
                    assert(n == wv[i as int].len());
                    assert forall|w: Seq<char>| (exists|j: int| 0 <= j < i + 1 && wv[j].len() < usize::MAX && edit_distance(#[trigger] wv[j], w) <= 1)
                        <==> ((exists|j: int| 0 <= j < i && wv[j].len() < usize::MAX && edit_distance(#[trigger] wv[j], w) <= 1)
                            || (wv[i as int].len() < usize::MAX && edit_distance(wv[i as int], w) <= 1)) by {
                        if exists|j: int| 0 <= j < i + 1 && wv[j].len() < usize::MAX && edit_distance(#[trigger] wv[j], w) <= 1 {
                            let j = choose|j: int| 0 <= j < i + 1 && wv[j].len() < usize::MAX && edit_distance(#[trigger] wv[j], w) <= 1;
                            if j < i {
                            }
                        }
                    }
                }
                if n < usize::MAX {
                    proof {
                        assert(wv[i as int] == words@[i as int]@);
                        let tw = self.bk_tree.words();
                        assert forall|k: int| 0 <= k < tw.len() implies (#[trigger] tw[k]).len() + 1 <= usize::MAX by {
                            let w = tw[k];
                            assert(tw.to_set().contains(w));
                            assert(fuzzy_terms(self.terms()).contains(w));
                            assert(self.terms().contains(w));
                            let j = choose|j: int| 0 <= j < self.terms().len() && self.terms()[j] == w;
                            assert(self.terms@[j]@ == w);
                        }
                    }
                    let found = self.bk_tree.search(words[i].as_str(), 1);
                    let ghost q = wv[i as int];
                    let ghost fset = found@.map_values(|x: &str| x@).to_set();
                    proof {
                        assert(fset == self.bk_tree.words().to_set().filter(|w: Seq<char>| edit_distance(q, w) <= 1));
                    }
                    let mut k: usize = 0;
                    while k < found.len()
                        invariant
                            k <= found@.len(),
                            wv == strings_view(words@),
                            out@.len() >= wv.len(),
                            texts(out@).take(wv.len() as int) == wv,
                            forall|x: int| 0 <= x < out@.len() ==> (#[trigger] out@[x]).1 == (x < wv.len()),
                            forall|a: int, b: int| 0 <= a < b < out@.len() ==> texts(out@)[a] != texts(out@)[b],
                            forall|w: Seq<char>| texts(out@).contains(w) <==> (wv.contains(w) || (vocab.contains(w) && exists|j: int|
                                0 <= j < i && wv[j].len() < usize::MAX && edit_distance(#[trigger] wv[j], w) <= 1)
                                || exists|m: int| 0 <= m < k && #[trigger] found@[m]@ == w),
                        decreases found@.len() - k,
                    {
                        let nb = found[k];
                        let ghost before = out@;
                        if !contains_text(&out, nb) {
                            out.push((nb.to_owned(), false));
                            proof {
                                assert forall|w: Seq<char>| texts(out@).contains(w) <==> (texts(before).contains(w) || w == nb@) by {
                                    if texts(out@).contains(w) {
                                        let y = choose|y: int| 0 <= y < texts(out@).len() && texts(out@)[y] == w;
                                        if y < before.len() {
                                            assert(texts(before)[y] == w);
                                        }
                                    }
                                    if texts(before).contains(w) {
                                        let y = choose|y: int| 0 <= y < texts(before).len() && texts(before)[y] == w;
                                        assert(texts(out@)[y] == w);
                                    }
                                    if w == nb@ {
                                        assert(texts(out@)[before.len() as int] == w);
                                    }
                                }
                                assert(texts(out@) =~= texts(before).push(nb@));
                                assert(texts(out@).take(wv.len() as int) =~= texts(before).take(wv.len() as int));
                                assert forall|a: int, b: int| 0 <= a < b < out@.len() implies texts(out@)[a] != texts(out@)[b] by {
                                    if b == out@.len() - 1 {
                                        assert(texts(out@)[a] == texts(before)[a]);
                                    } else {
                                        assert(texts(out@)[a] == texts(before)[a] && texts(out@)[b] == texts(before)[b]);
                                    }
                                }
                            }
                        }
                        proof {
                            assert(found@[k as int]@ == nb@);
                            assert(texts(out@).contains(nb@));
                            assert forall|w: Seq<char>| #![trigger texts(out@).contains(w)]
                                (texts(out@).contains(w) <==> (texts(before).contains(w) || w == nb@))
                                && ((exists|m: int| 0 <= m < k + 1 && #[trigger] found@[m]@ == w)
                                <==> ((exists|m: int| 0 <= m < k && #[trigger] found@[m]@ == w) || w == nb@)) by {
                                if exists|m: int| 0 <= m < k + 1 && #[trigger] found@[m]@ == w {
                                    let m = choose|m: int| 0 <= m < k + 1 && #[trigger] found@[m]@ == w;
                                    if m < k {
                                    }
                                }
                            }
                        }
                        k = k + 1;
                    }
                    proof {
                        assert forall|w: Seq<char>| (exists|m: int| 0 <= m < found@.len() && #[trigger] found@[m]@ == w) <==> (vocab.contains(w) && edit_distance(q, w) <= 1) by {
                            if exists|m: int| 0 <= m < found@.len() && #[trigger] found@[m]@ == w {
                                let m = choose|m: int| 0 <= m < found@.len() && #[trigger] found@[m]@ == w;
                                assert(found@.map_values(|x: &str| x@)[m] == w);
                                assert(fset.contains(w));
                            }
                            if vocab.contains(w) && edit_distance(q, w) <= 1 {
                                assert(fset.contains(w));
                                let fv = found@.map_values(|x: &str| x@);
                                assert(fv.contains(w));
                                let m = choose|m: int| 0 <= m < fv.len() && #[trigger] fv[m] == w;
                                assert(found@[m]@ == w);
                            }
                        }
                        assert forall|w: Seq<char>| texts(out@).contains(w) <==> (wv.contains(w) || (vocab.contains(w) && exists|j: int|
                            0 <= j < i + 1 && wv[j].len() < usize::MAX && edit_distance(#[trigger] wv[j], w) <= 1)) by {
                            assert((exists|m: int| 0 <= m < found@.len() && #[trigger] found@[m]@ == w) <==> (vocab.contains(w) && edit_distance(q, w) <= 1));
                        }
                    }
                }
                i = i + 1;
            }
        }
        proof {
            assert(texts(out@).to_set() =~= expansion(wv, vocab, fuzzy)) by {
                assert forall|w: Seq<char>| texts(out@).to_set().contains(w) <==> expansion(wv, vocab, fuzzy).contains(w) by {
                    if !fuzzy {
                        assert(texts(out@) == wv.take(wv.len() as int));
                    }
                }
            }
        }
        out
    }
}

// ---------------------------------------------------------------------------
// Looking terms and blocks up
// ---------------------------------------------------------------------------

/// The posting list of `w`: that of the term `w`, or an empty one.
pub open spec fn term_postings(
    terms: Seq<Seq<char>>,
    postings: Seq<Seq<(u32, Seq<u32>)>>,
    w: Seq<char>,
) -> Seq<(u32, Seq<u32>)> {
    match seq_index(terms, w) {
        Some(i) => postings[i],
        None => seq![],
    }
}

/// The positions a posting list records for block `b`, if it has an entry for it.
pub open spec fn block_positions(list: Seq<(u32, Seq<u32>)>, b: u32) -> Option<Seq<u32>> {
    if exists|k: int| 0 <= k < list.len() && (#[trigger] list[k]).0 == b {
        Some(list[choose|k: int| 0 <= k < list.len() && (#[trigger] list[k]).0 == b].1)
    } else {
        None
    }
}

/// Where block `b` stands in a posting list sorted by block id, if it does.
pub(crate) fn find_block(list: &Vec<(u32, Vec<u32>)>, b: u32) -> (r: Option<usize>)
    requires
        posting_list_ok(entry_list(list@)),
    ensures
        match r {
            Some(k) => k < list@.len() && list@[k as int].0 == b && block_positions(entry_list(list@), b) == Some(
                list@[k as int].1@,
            ),
            None => block_positions(entry_list(list@), b) is None,
        },
{
    let ghost l = entry_list(list@);
    let mut lo: usize = 0;
    let mut hi: usize = list.len();
    while lo < hi
        invariant
            l == entry_list(list@),
            posting_list_ok(l),
            lo <= hi <= list@.len(),
            forall|k: int| 0 <= k < lo ==> (#[trigger] l[k]).0 < b,
            forall|k: int| hi <= k < l.len() ==> (#[trigger] l[k]).0 > b,
        decreases hi - lo,
    {
        let mid = lo + (hi - lo) / 2;
        let m = list[mid].0;
        proof {
            assert(l[mid as int].0 == m);
        }
        if m == b {
            proof {
                assert(l[mid as int].0 == b);
                let k2 = choose|k: int| 0 <= k < l.len() && (#[trigger] l[k]).0 == b;
                if k2 < mid {
                    assert(l[k2].0 < l[mid as int].0);
                } else if k2 > mid {
                    assert(l[mid as int].0 < l[k2].0);
                }
            }
            return Some(mid);
        } else if m < b {
            proof {
                assert forall|k: int| 0 <= k < mid + 1 implies (#[trigger] l[k]).0 < b by {
                    if k < mid {
                        assert(l[k].0 < l[mid as int].0);
                    }
                }
            }
            lo = mid + 1;
        } else {
            proof {
                assert forall|k: int| mid <= k < l.len() implies (#[trigger] l[k]).0 > b by {
                    if k > mid {
                        assert(l[mid as int].0 < l[k].0);
                    }
                }
            }
            hi = mid;
        }
    }
    None
}

impl Searcher {
    /// The index of term `w`, if it is one.
    fn term_index(&self, w: &str) -> (r: Option<usize>)
        requires
            self.wf(),
        ensures
            match r {
                Some(i) => seq_index(self.terms(), w@) == Some(i as int) && i < self.postings@.len(),
                None => seq_index(self.terms(), w@) is None,
            },
    {
        proof {
            lemma_seq_index(self.terms(), w@);
        }
        match self.term_ids.get(w) {
            Some(i) => {
                proof {
                    assert(self.terms().contains(w@));
                }
                Some(*i)
            },
            None => {
                proof {
                    if self.terms().contains(w@) {
                        let j = choose|j: int| 0 <= j < self.terms().len() && self.terms()[j] == w@;
                    }
                }
                None
            },
        }
    }
}

/// The blocks that hold at least one of the words `ws`.
pub open spec fn candidate_set(terms: Seq<Seq<char>>, postings: Seq<Seq<(u32, Seq<u32>)>>, ws: Seq<Seq<char>>) -> Set<u32> {
    Set::new(
        |b: u32|
            exists|e: int, k: int|
                0 <= e < ws.len() && 0 <= k < term_postings(terms, postings, ws[e]).len() && (#[trigger] term_postings(
                    terms,
                    postings,
                    ws[e],
                )[k]).0 == b,
    )
}

/// The retrieval law: once a block has been indexed, each word of its lowercase
/// text looks up a posting list that records the block with the word's
/// offsets, so a query for the word finds the block among its candidates.
pub proof fn lemma_indexed_word_found(
    terms: Seq<Seq<char>>,
    postings: Seq<Seq<(u32, Seq<u32>)>>,
    text: Seq<char>,
    b: u32,
)
    requires
        terms.len() == postings.len(),
        forall|i: int, j: int| 0 <= i < j < terms.len() ==> terms[i] != terms[j],
    ensures
        ({
            let groups = block_terms(text);
            let (t2, p2) = add_groups(terms, postings, groups, b);
            forall|g: int| 0 <= g < groups.len() ==> {
                &&& term_postings(t2, p2, (#[trigger] groups[g]).0).contains((b, groups[g].1))
                &&& candidate_set(t2, p2, seq![groups[g].0]).contains(b)
            }
        }),
{
    let groups = block_terms(text);
    let (t2, p2) = add_groups(terms, postings, groups, b);
    lemma_add_groups_records(terms, postings, groups, b);
    assert forall|g: int| 0 <= g < groups.len() implies {
        &&& term_postings(t2, p2, (#[trigger] groups[g]).0).contains((b, groups[g].1))
        &&& candidate_set(t2, p2, seq![groups[g].0]).contains(b)
    } by {
        let w = groups[g].0;
        let i = choose|i: int| 0 <= i < t2.len() && t2[i] == w && p2[i].contains((b, groups[g].1));
        lemma_seq_index(t2, w);
        let j = seq_index(t2, w)->0;
        assert(j == i);
        assert(term_postings(t2, p2, w) == p2[i]);
        let k = choose|k: int| 0 <= k < p2[i].len() && p2[i][k] == (b, groups[g].1);
        let ws = seq![w];
        assert(ws[0] == w);
        assert(term_postings(t2, p2, ws[0])[k].0 == b);
    }
}

/// Looking up more words loses no candidate: a block that one word finds is
/// found by every list of words holding that word.
pub proof fn lemma_candidates_grow(
    terms: Seq<Seq<char>>,
    postings: Seq<Seq<(u32, Seq<u32>)>>,
    ws: Seq<Seq<char>>,
    w: Seq<char>,
    b: u32,
)
    requires
        ws.contains(w),
        candidate_set(terms, postings, seq![w]).contains(b),
    ensures
        candidate_set(terms, postings, ws).contains(b),
{
    let one = seq![w];
    let (e, k) = choose|e: int, k: int|
        0 <= e < one.len() && 0 <= k < term_postings(terms, postings, one[e]).len()
            && (#[trigger] term_postings(terms, postings, one[e])[k]).0 == b;
    let e2 = choose|e2: int| 0 <= e2 < ws.len() && ws[e2] == w;
    assert(term_postings(terms, postings, ws[e2])[k].0 == b);
}

/// `ids[e]` is the index of the term `ws[e]`, if it is one.
pub open spec fn ids_match(terms: Seq<Seq<char>>, ws: Seq<Seq<char>>, ids: Seq<Option<usize>>) -> bool {
    &&& ids.len() == ws.len()
    &&& forall|e: int| 0 <= e < ws.len() ==> match #[trigger] ids[e] {
        Some(i) => seq_index(terms, ws[e]) == Some(i as int),
        None => seq_index(terms, ws[e]) is None,
    }
}

/// The blocks named in the posting lists of the words `ws` (with term
/// indices `ids` into `terms`), in increasing order.
pub(crate) fn candidate_blocks_of(
    postings: &Vec<Vec<(u32, Vec<u32>)>>,
    nblocks: usize,
    ids: &Vec<Option<usize>>,
    Ghost(terms): Ghost<Seq<Seq<char>>>,
    Ghost(ws): Ghost<Seq<Seq<char>>>,
) -> (out: Vec<u32>)
    requires
        ids_match(terms, ws, ids@),
        terms.len() == postings@.len(),
        postings_valid(postings_view(postings@), nblocks as nat),
    ensures
        forall|x: int, y: int| 0 <= x < y < out@.len() ==> out@[x] < out@[y],
        forall|b: u32| out@.contains(b) <==> candidate_set(terms, postings_view(postings@), ws).contains(b),
        forall|x: int| 0 <= x < out@.len() ==> (#[trigger] out@[x]) < nblocks,
{
    let ghost t = terms;
    let ghost p = postings_view(postings@);
    let ghost wsv = ws;
    let n = nblocks;
    let mut marks: Vec<bool> = Vec::new();
    let mut b: usize = 0;
    while b < n
        invariant
            n == nblocks,
            b <= n,
            marks@.len() == b,
            forall|x: int| 0 <= x < b ==> !(#[trigger] marks@[x]),
        decreases n - b,
    {
        marks.push(false);
        b = b + 1;
    }
    let mut e: usize = 0;
    while e < ids.len()
        invariant
            t == terms,
            t.len() == postings@.len(),
            p == postings_view(postings@),
            postings_valid(p, n as nat),
            wsv == ws,
            ids_match(t, wsv, ids@),
            n == nblocks,
            marks@.len() == n,
            e <= ids@.len(),
            forall|x: int| 0 <= x < n ==> (#[trigger] marks@[x] <==> exists|f: int, k: int|
                0 <= f < e && 0 <= k < term_postings(t, p, wsv[f]).len() && (#[trigger] term_postings(t, p, wsv[f])[k]).0 == x),
        decreases ids@.len() - e,
    {
        proof {
            lemma_seq_index(t, wsv[e as int]);
        }
        match ids[e] {
            Some(i) => {
                let list = &postings[i];
                let ghost tp = term_postings(t, p, wsv[e as int]);
                proof {
                    assert(tp == p[i as int]);
                    assert(p[i as int] == entry_list(list@));
                }
                let mut k: usize = 0;
                while k < list.len()
                    invariant
                        t.len() == postings@.len(),
                        p == postings_view(postings@),
                        n == nblocks,
                        marks@.len() == n,
                        tp == term_postings(t, p, wsv[e as int]),
                        tp == entry_list(list@),
                        postings_valid(p, n as nat),
                        i < p.len(),
                        p[i as int] == tp,
                        k <= list@.len(),
                        forall|x: int| 0 <= x < n ==> (#[trigger] marks@[x] <==> (exists|f: int, kk: int|
                            0 <= f < e && 0 <= kk < term_postings(t, p, wsv[f]).len() && (#[trigger] term_postings(t, p, wsv[f])[kk]).0 == x)
                            || exists|kk: int| 0 <= kk < k && (#[trigger] tp[kk]).0 == x),
                    decreases list@.len() - k,
                {
                    let blk = list[k].0;
                    proof {
                        assert(tp[k as int].0 == blk);
                        assert(p[i as int][k as int].0 < n);
                    }
                    marks.set(blk as usize, true);
                    k = k + 1;
                }
                proof {
                    assert forall|x: int| 0 <= x < n implies (#[trigger] marks@[x] <==> exists|f: int, kk: int|
                        0 <= f < e + 1 && 0 <= kk < term_postings(t, p, wsv[f]).len() && (#[trigger] term_postings(t, p, wsv[f])[kk]).0 == x) by {
                        if exists|kk: int| 0 <= kk < tp.len() && (#[trigger] tp[kk]).0 == x {
                            let kk = choose|kk: int| 0 <= kk < tp.len() && (#[trigger] tp[kk]).0 == x;
                            assert(term_postings(t, p, wsv[e as int])[kk].0 == x);
                        }
                        if exists|f: int, kk: int|
                            0 <= f < e + 1 && 0 <= kk < term_postings(t, p, wsv[f]).len() && (#[trigger] term_postings(t, p, wsv[f])[kk]).0 == x {
                            let (f, kk) = choose|f: int, kk: int|
                                0 <= f < e + 1 && 0 <= kk < term_postings(t, p, wsv[f]).len() && (#[trigger] term_postings(t, p, wsv[f])[kk]).0 == x;
                            if f == e {
                                assert(tp[kk].0 == x);
                            }
                        }
                    }
                }
            },
            None => {
                proof {
                    assert(term_postings(t, p, wsv[e as int]) == Seq::<(u32, Seq<u32>)>::empty());
                    assert forall|x: int| 0 <= x < n implies (#[trigger] marks@[x] <==> exists|f: int, kk: int|
                        0 <= f < e + 1 && 0 <= kk < term_postings(t, p, wsv[f]).len() && (#[trigger] term_postings(t, p, wsv[f])[kk]).0 == x) by {
                        if exists|f: int, kk: int|
                            0 <= f < e + 1 && 0 <= kk < term_postings(t, p, wsv[f]).len() && (#[trigger] term_postings(t, p, wsv[f])[kk]).0 == x {
                            let (f, kk) = choose|f: int, kk: int|
                                0 <= f < e + 1 && 0 <= kk < term_postings(t, p, wsv[f]).len() && (#[trigger] term_postings(t, p, wsv[f])[kk]).0 == x;
                            assert(f != e);
                        }
                    }
                }
            },
        }
        e = e + 1;
    }
    let mut out: Vec<u32> = Vec::new();
    let mut b: usize = 0;
    while b < n
        invariant
            n == marks@.len(),
            b <= n,
            forall|x: int| 0 <= x < n ==> (#[trigger] marks@[x] <==> exists|f: int, kk: int|
                0 <= f < wsv.len() && 0 <= kk < term_postings(t, p, wsv[f]).len() && (#[trigger] term_postings(t, p, wsv[f])[kk]).0 == x),
            forall|x: int, y: int| 0 <= x < y < out@.len() ==> out@[x] < out@[y],
            forall|x: int| 0 <= x < out@.len() ==> (#[trigger] out@[x]) < b,
            forall|v: u32| out@.contains(v) <==> (v < b && marks@[v as int]),
        decreases n - b,
    {
        if marks[b] {
            proof {
                let (f, kk) = choose|f: int, kk: int|
                    0 <= f < wsv.len() && 0 <= kk < term_postings(t, p, wsv[f]).len() && (#[trigger] term_postings(t, p, wsv[f])[kk]).0 == b;
            }
            let ghost before = out@;
            out.push(b as u32);
            proof {
                assert forall|v: u32| out@.contains(v) <==> (v < b + 1 && marks@[v as int]) by {
                    if out@.contains(v) {
                        let y = choose|y: int| 0 <= y < out@.len() && out@[y] == v;
                        if y < before.len() {
                            assert(before[y] == v);
                        }
                    }
                    if v < b {
                        if marks@[v as int] {
                            let y = choose|y: int| 0 <= y < before.len() && before[y] == v;
                            assert(out@[y] == v);
                        }
                    } else if v == b {
                        assert(out@[before.len() as int] == v);
                    }
                }
            }
        } else {
            proof {
                assert forall|v: u32| out@.contains(v) <==> (v < b + 1 && marks@[v as int]) by {
                    if v == b {
                    }
                }
            }
        }
        b = b + 1;
    }
    proof {
        assert forall|v: u32| out@.contains(v) <==> candidate_set(t, p, wsv).contains(v) by {
            if candidate_set(t, p, wsv).contains(v) {
                let (f, kk) = choose|f: int, kk: int|
                    0 <= f < wsv.len() && 0 <= kk < term_postings(t, p, wsv[f]).len() && (#[trigger] term_postings(t, p, wsv[f])[kk]).0 == v;
                lemma_seq_index(t, wsv[f]);
                let i = seq_index(t, wsv[f])->0;
                assert(p[i][kk].0 < n);
                assert(marks@[v as int]);
            }
        }
    }
    out
}

impl Searcher {
    /// The term index of each word.
    fn term_ids_of(&self, ws: &Vec<(String, bool)>) -> (ids: Vec<Option<usize>>)
        requires
            self.wf(),
        ensures
            ids_match(self.terms(), texts(ws@), ids@),
            forall|e: int| 0 <= e < ids@.len() && (#[trigger] ids@[e]) is Some ==> ids@[e]->0 < self.postings@.len(),
    {
        let mut ids: Vec<Option<usize>> = Vec::new();
        let mut e: usize = 0;
        while e < ws.len()
            invariant
                self.wf(),
                e <= ws@.len(),
                ids@.len() == e,
                forall|x: int| 0 <= x < e ==> match #[trigger] ids@[x] {
                    Some(i) => seq_index(self.terms(), texts(ws@)[x]) == Some(i as int),
                    None => seq_index(self.terms(), texts(ws@)[x]) is None,
                },
                forall|x: int| 0 <= x < ids@.len() && (#[trigger] ids@[x]) is Some ==> ids@[x]->0 < self.postings@.len(),
            decreases ws@.len() - e,
        {
            let id = self.term_index(ws[e].0.as_str());
            ids.push(id);
            proof {
                assert(texts(ws@)[e as int] == ws@[e as int].0@);
            }
            e = e + 1;
        }
        ids
    }

    /// The blocks holding at least one of the words `ws`, in increasing order.
    fn candidate_blocks(&self, ws: &Vec<(String, bool)>, ids: &Vec<Option<usize>>) -> (out: Vec<u32>)
        requires
            self.wf(),
            ids_match(self.terms(), texts(ws@), ids@),
        ensures
            forall|x: int, y: int| 0 <= x < y < out@.len() ==> out@[x] < out@[y],
            forall|b: u32| out@.contains(b) <==> candidate_set(self.terms(), self.postings(), texts(ws@)).contains(b),
            forall|x: int| 0 <= x < out@.len() ==> (#[trigger] out@[x]) < self.blocks@.len(),
    {
        candidate_blocks_of(&self.postings, self.blocks.len(), ids, Ghost(self.terms()), Ghost(texts(ws@)))
    }
}

// ---------------------------------------------------------------------------
// What a block holds of a query
// ---------------------------------------------------------------------------

/// For block `b`, each word of `ws` that the block holds (by its index among
/// `ws`) with its positions there, in word order.
pub open spec fn block_hits(
    terms: Seq<Seq<char>>,
    postings: Seq<Seq<(u32, Seq<u32>)>>,
    ws: Seq<Seq<char>>,
    b: u32,
) -> Seq<(int, Seq<u32>)>
    decreases ws.len(),
{
    if ws.len() == 0 {
        seq![]
    } else {
        let h = block_hits(terms, postings, ws.drop_last(), b);
        match block_positions(term_postings(terms, postings, ws.last()), b) {
            Some(ps) => h.push((ws.len() - 1, ps)),
            None => h,
        }
    }
}

/// `d` is the smallest distance between a position of `a` and one of `c`, or
/// `u32::MAX` when either has none.
pub open spec fn is_min_distance(a: Seq<u32>, c: Seq<u32>, d: u32) -> bool {
    &&& (a.len() == 0 || c.len() == 0) ==> d == u32::MAX
    &&& (a.len() > 0 && c.len() > 0) ==> {
        &&& forall|i: int, j: int| 0 <= i < a.len() && 0 <= j < c.len() ==> d <= #[trigger] dist_u32(a[i], #[trigger] c[j])
        &&& exists|i: int, j: int| 0 <= i < a.len() && 0 <= j < c.len() && d == #[trigger] dist_u32(a[i], #[trigger] c[j])
    }
}

/// The hits of a block as (word, positions) entries.
pub open spec fn hit_entries(ws: Seq<Seq<char>>, h: Seq<(int, Seq<u32>)>) -> Seq<(Seq<char>, Seq<u32>)> {
    h.map_values(|x: (int, Seq<u32>)| (ws[x.0], x.1))
}

/// One of the phrases occurs (see `phrase_occurs`).
pub open spec fn some_phrase(phrases: Seq<Seq<Seq<char>>>, entries: Seq<(Seq<char>, Seq<u32>)>) -> bool {
    exists|x: int| 0 <= x < phrases.len() && (#[trigger] phrases[x]).len() > 0 && phrase_occurs(phrases[x], entries)
}

/// The positions, copied.
pub(crate) fn copy_positions(v: &Vec<u32>) -> (r: Vec<u32>)
    ensures
        r@ == v@,
{
    let mut r: Vec<u32> = Vec::new();
    let mut i: usize = 0;
    while i < v.len()
        invariant
            i <= v@.len(),
            r@ == v@.take(i as int),
        decreases v@.len() - i,
    {
        r.push(v[i]);
        proof {
            assert(v@.take(i + 1) =~= v@.take(i as int).push(v@[i as int]));
        }
        i = i + 1;
    }
    proof {
        assert(v@.take(v@.len() as int) =~= v@);
    }
    r
}

/// Whether the phrase has a word and occurs in the block.
fn phrase_check(p: &Vec<String>, entries: &Vec<(String, Vec<u32>)>) -> (r: bool)
    ensures
        r == (strings_view(p@).len() > 0 && phrase_occurs(strings_view(p@), entries_view(entries@))),
{
    if p.len() == 0 {
        return false;
    }
    phrase_in_block(p.as_slice(), entries.as_slice())
}

/// What a query finds in one block.
pub struct Candidate {
    /// The block.
    pub block_id: u32,
    /// The number of words in the block.
    pub word_count: u16,
    /// Each looked-up term the block holds, in term order: its index among the
    /// plan's terms and how often it occurs in the block.
    pub hits: Vec<(usize, usize)>,
    /// `distances[i][j - i - 1]`: the smallest byte distance between an
    /// occurrence of hit `i` and one of hit `j`, for `i < j`.
    pub distances: Vec<Vec<u32>>,
    /// Some phrase of the query occurs in the block.
    pub phrase: bool,
}

/// `c` is what the words `ws` and the phrases find in its block.
pub open spec fn candidate_ok(
    terms: Seq<Seq<char>>,
    postings: Seq<Seq<(u32, Seq<u32>)>>,
    blocks: Seq<Block>,
    ws: Seq<Seq<char>>,
    phrases: Seq<Seq<Seq<char>>>,
    c: Candidate,
) -> bool {
    let h = block_hits(terms, postings, ws, c.block_id);
    &&& c.block_id < blocks.len()
    &&& c.word_count == blocks[c.block_id as int].3
    &&& c.hits@.len() == h.len()
    &&& forall|x: int| 0 <= x < h.len() ==> (#[trigger] c.hits@[x]).0 == h[x].0 && c.hits@[x].1 == h[x].1.len()
    &&& c.distances@.len() == h.len()
    &&& forall|x: int| 0 <= x < h.len() ==> (#[trigger] c.distances@[x])@.len() == h.len() - x - 1
    &&& forall|x: int, y: int| 0 <= x < y < h.len() ==> is_min_distance(h[x].1, h[y].1, #[trigger] c.distances@[x]@[y - x - 1])
    &&& c.phrase == some_phrase(phrases, hit_entries(ws, h))
}

impl Searcher {
    /// What the words `ws` (with their term indices `ids`) and the phrases find
    /// in block `b`.
    fn candidate(&self, ws: &Vec<(String, bool)>, ids: &Vec<Option<usize>>, phrases: &Vec<Vec<String>>, b: u32) -> (c: Candidate)
        requires
            self.wf(),
            ids_match(self.terms(), texts(ws@), ids@),
            forall|e: int| 0 <= e < ids@.len() && (#[trigger] ids@[e]) is Some ==> ids@[e]->0 < self.postings@.len(),
            b < self.blocks@.len(),
        ensures
            c.block_id == b,
            candidate_ok(self.terms(), self.postings(), self.blocks(), texts(ws@), phrases_view(phrases@), c),
    {
        let ghost wsv = texts(ws@);
        let ghost t = self.terms();
        let ghost p = self.postings();
        let mut found: Vec<(usize, usize, usize)> = Vec::new();
        let mut e: usize = 0;
        proof {
            assert(wsv.take(0) =~= Seq::<Seq<char>>::empty());
        }
        while e < ids.len()
            invariant
                self.wf(),
                wsv == texts(ws@),
                t == self.terms(),
                p == self.postings(),
                ids_match(t, wsv, ids@),
                forall|f: int| 0 <= f < ids@.len() && (#[trigger] ids@[f]) is Some ==> ids@[f]->0 < self.postings@.len(),
                e <= ids@.len(),
                found@.len() == block_hits(t, p, wsv.take(e as int), b).len(),
                forall|x: int| 0 <= x < found@.len() ==> {
                    let fx = #[trigger] found@[x];
                    &&& fx.0 == block_hits(t, p, wsv.take(e as int), b)[x].0
                    &&& fx.1 < self.postings@.len()
                    &&& fx.2 < self.postings@[fx.1 as int]@.len()
                    &&& self.postings@[fx.1 as int]@[fx.2 as int].1@ == block_hits(t, p, wsv.take(e as int), b)[x].1
                    &&& fx.0 < e
                },
            decreases ids@.len() - e,
        {
            let ghost h = block_hits(t, p, wsv.take(e as int), b);
            proof {
                assert(wsv.take(e + 1).drop_last() =~= wsv.take(e as int));
                assert(wsv.take(e + 1).last() == wsv[e as int]);
                lemma_seq_index(t, wsv[e as int]);
            }
            match ids[e] {
                Some(i) => {
                    proof {
                        assert(term_postings(t, p, wsv[e as int]) == p[i as int]);
                        assert(p[i as int] == entry_list(self.postings@[i as int]@));
                        assert(posting_list_ok(p[i as int]));
                    }
                    match find_block(&self.postings[i], b) {
                        Some(k) => {
                            found.push((e, i, k));
                            proof {
                                let h2 = block_hits(t, p, wsv.take(e + 1), b);
                                assert(h2 == h.push((e as int, self.postings@[i as int]@[k as int].1@)));
                                assert forall|x: int| 0 <= x < found@.len() implies {
                                    let fx = #[trigger] found@[x];
                                    &&& fx.0 == h2[x].0
                                    &&& fx.1 < self.postings@.len()
                                    &&& fx.2 < self.postings@[fx.1 as int]@.len()
                                    &&& self.postings@[fx.1 as int]@[fx.2 as int].1@ == h2[x].1
                                    &&& fx.0 < e + 1
                                } by {
                                    if x < found@.len() - 1 {
                                        assert(h2[x] == h[x]);
                                    }
                                }
                            }
                        },
                        None => {
                            proof {
                                assert(block_hits(t, p, wsv.take(e + 1), b) == h);
                            }
                        },
                    }
                },
                None => {
                    proof {
                        assert(term_postings(t, p, wsv[e as int]) == Seq::<(u32, Seq<u32>)>::empty());
                        assert(block_positions(term_postings(t, p, wsv[e as int]), b) is None);
                        assert(block_hits(t, p, wsv.take(e + 1), b) == h);
                    }
                },
            }
            e = e + 1;
        }
        let ghost h = block_hits(t, p, wsv, b);
        proof {
            assert(wsv.take(wsv.len() as int) =~= wsv);
        }
        // The hits.
        let mut hits: Vec<(usize, usize)> = Vec::new();
        let mut x: usize = 0;
        while x < found.len()
            invariant
                x <= found@.len(),
                found@.len() == h.len(),
                hits@.len() == x,
                forall|y: int| 0 <= y < found@.len() ==> {
                    let fy = #[trigger] found@[y];
                    &&& fy.0 == h[y].0
                    &&& fy.1 < self.postings@.len()
                    &&& fy.2 < self.postings@[fy.1 as int]@.len()
                    &&& self.postings@[fy.1 as int]@[fy.2 as int].1@ == h[y].1
                },
                forall|y: int| 0 <= y < x ==> (#[trigger] hits@[y]).0 == h[y].0 && hits@[y].1 == h[y].1.len(),
            decreases found@.len() - x,
        {
            let (fe, fi, fk) = found[x];
            let n = self.postings[fi][fk].1.len();
            hits.push((fe, n));
            x = x + 1;
        }
        // The distances.
        let mut distances: Vec<Vec<u32>> = Vec::new();
        let mut x: usize = 0;
        while x < found.len()
            invariant
                self.wf(),
                p == self.postings(),
                x <= found@.len(),
                found@.len() == h.len(),
                distances@.len() == x,
                forall|y: int| 0 <= y < found@.len() ==> {
                    let fy = #[trigger] found@[y];
                    &&& fy.1 < self.postings@.len()
                    &&& fy.2 < self.postings@[fy.1 as int]@.len()
                    &&& self.postings@[fy.1 as int]@[fy.2 as int].1@ == h[y].1
                },
                forall|y: int| 0 <= y < x ==> (#[trigger] distances@[y])@.len() == h.len() - y - 1,
                forall|y: int, z: int| 0 <= y < x && y < z < h.len() ==> is_min_distance(h[y].1, h[z].1, #[trigger] distances@[y]@[z - y - 1]),
            decreases found@.len() - x,
        {
            let (_, xi, xk) = found[x];
            let a = &self.postings[xi][xk].1;
            proof {
                assert(p[xi as int] == entry_list(self.postings@[xi as int]@));
                assert(posting_list_ok(p[xi as int]));
                assert(p[xi as int][xk as int].1 == a@);
            }
            let mut row: Vec<u32> = Vec::new();
            let mut y: usize = x + 1;
            while y < found.len()
                invariant
                    self.wf(),
                    p == self.postings(),
                    x < y <= found@.len(),
                    found@.len() == h.len(),
                    sorted_ids(a@),
                    a@ == h[x as int].1,
                    forall|z: int| 0 <= z < found@.len() ==> {
                        let fz = #[trigger] found@[z];
                        &&& fz.1 < self.postings@.len()
                        &&& fz.2 < self.postings@[fz.1 as int]@.len()
                        &&& self.postings@[fz.1 as int]@[fz.2 as int].1@ == h[z].1
                    },
                    row@.len() == y - x - 1,
                    forall|z: int| x < z < y ==> is_min_distance(h[x as int].1, h[z].1, #[trigger] row@[z - x - 1]),
                decreases found@.len() - y,
            {
                let (_, yi, yk) = found[y];
                let c = &self.postings[yi][yk].1;
                proof {
                    assert(p[yi as int] == entry_list(self.postings@[yi as int]@));
                    assert(posting_list_ok(p[yi as int]));
                    assert(p[yi as int][yk as int].1 == c@);
                }
                let d = min_position_distance(a.as_slice(), c.as_slice());
                row.push(d);
                proof {
                    assert(row@[y - x - 1] == d);
                }
                y = y + 1;
            }
            distances.push(row);
            proof {
                assert forall|y2: int, z: int| 0 <= y2 < x + 1 && y2 < z < h.len() implies is_min_distance(h[y2].1, h[z].1, #[trigger] distances@[y2]@[z - y2 - 1]) by {
                    if y2 == x {
                        assert(distances@[y2]@ == row@);
                    }
                }
            }
            x = x + 1;
        }
        // The phrases.
        let mut entries: Vec<(String, Vec<u32>)> = Vec::new();
        let mut x: usize = 0;
        while x < found.len()
            invariant
                wsv == texts(ws@),
                x <= found@.len(),
                found@.len() == h.len(),
                forall|y: int| 0 <= y < found@.len() ==> {
                    let fy = #[trigger] found@[y];
                    &&& fy.0 == h[y].0
                    &&& fy.0 < ws@.len()
                    &&& fy.1 < self.postings@.len()
                    &&& fy.2 < self.postings@[fy.1 as int]@.len()
                    &&& self.postings@[fy.1 as int]@[fy.2 as int].1@ == h[y].1
                },
                entries_view(entries@) == hit_entries(wsv, h.take(x as int)),
            decreases found@.len() - x,
        {
            let (fe, fi, fk) = found[x];
            let w = ws[fe].0.clone();
            let ps = copy_positions(&self.postings[fi][fk].1);
            let ghost before = entries_view(entries@);
            entries.push((w, ps));
            proof {
                assert(wsv[fe as int] == ws@[fe as int].0@);
                assert(entries_view(entries@) =~= before.push((wsv[h[x as int].0], h[x as int].1)));
                assert(hit_entries(wsv, h.take(x + 1)) =~= hit_entries(wsv, h.take(x as int)).push((wsv[h[x as int].0], h[x as int].1)));
            }
            x = x + 1;
        }
        proof {
            assert(h.take(h.len() as int) =~= h);
        }
        let ghost phv = phrases_view(phrases@);
        let ghost ev = entries_view(entries@);
        let mut phrase = false;
        let mut z: usize = 0;
        while z < phrases.len()
            invariant_except_break
                !phrase,
            invariant
                phv == phrases_view(phrases@),
                ev == entries_view(entries@),
                z <= phrases@.len(),
                forall|q: int| 0 <= q < z ==> !((#[trigger] phv[q]).len() > 0 && phrase_occurs(phv[q], ev)),
            ensures
                phrase ==> some_phrase(phv, ev),
                !phrase ==> z == phrases@.len(),
            decreases phrases@.len() - z,
        {
            if phrase_check(&phrases[z], &entries) {
                proof {
                    assert(phv[z as int] == strings_view(phrases@[z as int]@));
                    assert(phv[z as int].len() > 0 && phrase_occurs(phv[z as int], ev));
                }
                phrase = true;
                break;
            }
            proof {
                assert(phv[z as int] == strings_view(phrases@[z as int]@));
            }
            z = z + 1;
        }
        proof {
            if !phrase {
                assert(!some_phrase(phv, ev));
            }
        }
        let word_count = self.blocks[b as usize].3;
        Candidate { block_id: b, word_count, hits, distances, phrase }
    }
}

/// A term a query looks up.
pub struct QueryTerm {
    /// The word.
    pub text: String,
    /// The query wrote it (fuzzy search did not add it).
    pub exact: bool,
    /// How many blocks hold it.
    pub doc_freq: usize,
}

/// What a query looks for, and each block that holds some of it.
pub struct QueryPlan {
    /// The terms to look up: the query's words, then fuzzy neighbours.
    pub terms: Vec<QueryTerm>,
    /// The query's phrases.
    pub phrases: Vec<Vec<String>>,
    /// The blocks holding at least one term, in increasing block order.
    pub candidates: Vec<Candidate>,
}

/// The words of the plan's terms.
pub open spec fn query_term_texts(v: Seq<QueryTerm>) -> Seq<Seq<char>> {
    v.map_values(|t: QueryTerm| t.text@)
}

/// The words a query looks up before fuzzy expansion: its regular terms, then
/// its phrases' terms, each once.
pub open spec fn lookup_words(query: Seq<char>) -> Seq<Seq<char>> {
    distinct(query_terms(query).0 + query_terms(query).1.flatten_alt())
}

impl Searcher {
    /// Everything about a query that `search` needs before it scores: the
    /// terms to look up (see `expand_terms`) with the number of blocks holding
    /// each, the query's phrases, and for each block holding one of the terms,
    /// what it holds (see `candidate_ok`).
    pub fn plan(&self, query: &str, fuzzy: bool) -> (pl: QueryPlan)
        requires
            self.wf(),
        ensures
            ({
                let words = lookup_words(query@);
                let tt = query_term_texts(pl.terms@);
                &&& forall|i: int, j: int| 0 <= i < j < tt.len() ==> tt[i] != tt[j]
                &&& tt.take(words.len() as int) == words
                &&& forall|i: int| 0 <= i < tt.len() ==> (#[trigger] pl.terms@[i]).exact == (i < words.len())
                &&& tt.to_set() == expansion(words, fuzzy_terms(self.terms()), fuzzy)
                &&& forall|i: int| 0 <= i < tt.len() ==> (#[trigger] pl.terms@[i]).doc_freq == term_postings(self.terms(), self.postings(), tt[i]).len()
                &&& phrases_view(pl.phrases@) == query_terms(query@).1
                &&& forall|x: int, y: int| 0 <= x < y < pl.candidates@.len() ==> pl.candidates@[x].block_id < pl.candidates@[y].block_id
                &&& forall|b: u32| (exists|x: int| 0 <= x < pl.candidates@.len() && (#[trigger] pl.candidates@[x]).block_id == b)
                    <==> candidate_set(self.terms(), self.postings(), tt).contains(b)
                &&& forall|x: int| 0 <= x < pl.candidates@.len() ==> candidate_ok(
                    self.terms(), self.postings(), self.blocks(), tt, query_terms(query@).1, #[trigger] pl.candidates@[x])
            }),
    {
        let (regular, phrases) = parse_query(query);
        let words = query_words(&regular, &phrases);
        proof {
            let all = strings_view(regular@) + phrases@.map_values(|p: Vec<String>| strings_view(p@)).flatten_alt();
            assert(phrases@.map_values(|p: Vec<String>| strings_view(p@)) == phrases_view(phrases@));
            lemma_distinct(all);
            assert forall|i: int, j: int| 0 <= i < j < words@.len() implies words@[i]@ != words@[j]@ by {
                assert(strings_view(words@)[i] == words@[i]@ && strings_view(words@)[j] == words@[j]@);
            }
        }
        let expanded = self.expand_terms(&words, fuzzy);
        let ids = self.term_ids_of(&expanded);
        let ghost tt = texts(expanded@);
        let mut terms: Vec<QueryTerm> = Vec::new();
        let mut e: usize = 0;
        while e < expanded.len()
            invariant
                self.wf(),
                tt == texts(expanded@),
                ids_match(self.terms(), tt, ids@),
                forall|f: int| 0 <= f < ids@.len() && (#[trigger] ids@[f]) is Some ==> ids@[f]->0 < self.postings@.len(),
                e <= expanded@.len(),
                terms@.len() == e,
                forall|f: int| 0 <= f < e ==> (#[trigger] terms@[f]).text@ == tt[f] && terms@[f].exact == expanded@[f].1
                    && terms@[f].doc_freq == term_postings(self.terms(), self.postings(), tt[f]).len(),
            decreases expanded@.len() - e,
        {
            proof {
                lemma_seq_index(self.terms(), tt[e as int]);
            }
            let df = match ids[e] {
                Some(i) => {
                    proof {
                        assert(self.postings()[i as int] == entry_list(self.postings@[i as int]@));
                    }
                    self.postings[i].len()
                },
                None => 0,
            };
            terms.push(QueryTerm { text: expanded[e].0.clone(), exact: expanded[e].1, doc_freq: df });
            proof {
                assert(tt[e as int] == expanded@[e as int].0@);
            }
            e = e + 1;
        }
        let blocks = self.candidate_blocks(&expanded, &ids);
        let mut candidates: Vec<Candidate> = Vec::new();
        let mut x: usize = 0;
        while x < blocks.len()
            invariant
                self.wf(),
                tt == texts(expanded@),
                ids_match(self.terms(), tt, ids@),
                forall|f: int| 0 <= f < ids@.len() && (#[trigger] ids@[f]) is Some ==> ids@[f]->0 < self.postings@.len(),
                forall|y: int| 0 <= y < blocks@.len() ==> (#[trigger] blocks@[y]) < self.blocks@.len(),
                x <= blocks@.len(),
                candidates@.len() == x,
                forall|y: int| 0 <= y < x ==> (#[trigger] candidates@[y]).block_id == blocks@[y]
                    && candidate_ok(self.terms(), self.postings(), self.blocks(), tt, phrases_view(phrases@), candidates@[y]),
            decreases blocks@.len() - x,
        {
            let c = self.candidate(&expanded, &ids, &phrases, blocks[x]);
            candidates.push(c);
            x = x + 1;
        }
        proof {
            assert(query_term_texts(terms@) =~= tt);
            let words_v = lookup_words(query@);
            assert(strings_view(words@) == words_v);
            assert(tt.take(words_v.len() as int) == words_v);
            assert(forall|i: int| 0 <= i < tt.len() ==> (#[trigger] terms@[i]).exact == (i < words_v.len()));
            assert(tt.to_set() == expansion(words_v, fuzzy_terms(self.terms()), fuzzy));
            assert(phrases_view(phrases@) == query_terms(query@).1);
            assert forall|x: int, y: int| 0 <= x < y < candidates@.len() implies candidates@[x].block_id < candidates@[y].block_id by {
                assert(candidates@[x].block_id == blocks@[x]);
                assert(candidates@[y].block_id == blocks@[y]);
            }
            assert forall|i: int| 0 <= i < tt.len() implies (#[trigger] terms@[i]).doc_freq == term_postings(self.terms(), self.postings(), tt[i]).len() by {
            }
            assert forall|y: int| 0 <= y < candidates@.len() implies candidate_ok(
                self.terms(), self.postings(), self.blocks(), tt, query_terms(query@).1, #[trigger] candidates@[y]) by {
            }
            assert forall|b: u32| (exists|y: int| 0 <= y < candidates@.len() && (#[trigger] candidates@[y]).block_id == b)
                <==> blocks@.contains(b) by {
                if blocks@.contains(b) {
                    let y = choose|y: int| 0 <= y < blocks@.len() && blocks@[y] == b;
                    assert(candidates@[y].block_id == b);
                }
            }
        }
        let pl = QueryPlan { terms, phrases, candidates };
        proof {
            let words_v = lookup_words(query@);
            let t2 = query_term_texts(pl.terms@);
            assert(t2 == tt);
            assert(forall|i: int, j: int| 0 <= i < j < t2.len() ==> t2[i] != t2[j]);
            assert(t2.take(words_v.len() as int) == words_v);
            assert(t2.to_set() == expansion(words_v, fuzzy_terms(self.terms()), fuzzy));
            assert(forall|x: int| 0 <= x < pl.candidates@.len() ==> candidate_ok(
                self.terms(), self.postings(), self.blocks(), t2, query_terms(query@).1, #[trigger] pl.candidates@[x]));
            assert forall|b: u32| (exists|x: int| 0 <= x < pl.candidates@.len() && (#[trigger] pl.candidates@[x]).block_id == b)
                    <==> candidate_set(self.terms(), self.postings(), t2).contains(b) by {
                if exists|x: int| 0 <= x < pl.candidates@.len() && (#[trigger] pl.candidates@[x]).block_id == b {
                    let x = choose|x: int| 0 <= x < pl.candidates@.len() && (#[trigger] pl.candidates@[x]).block_id == b;
                    assert(pl.candidates@[x].block_id == blocks@[x]);
                    assert(blocks@.contains(b));
                }
                if candidate_set(self.terms(), self.postings(), t2).contains(b) {
                    assert(blocks@.contains(b));
                    let y = choose|y: int| 0 <= y < blocks@.len() && blocks@[y] == b;
                    assert(pl.candidates@[y].block_id == b);
                }
            }
        }
        pl
    }
}

// ---------------------------------------------------------------------------
// Results and what the caller reads of the index
// ---------------------------------------------------------------------------

/// One search result: the file and the text around the hit.
pub struct SearchResult {
    pub file_path: String,
    pub snippet: String,
}

/// The sum of the blocks' word counts.
pub open spec fn word_total(blocks: Seq<Block>) -> int
    decreases blocks.len(),
{
    if blocks.len() == 0 {
        0
    } else {
        word_total(blocks.drop_last()) + blocks.last().3
    }
}

impl Searcher {
    /// The number of indexed files.
    pub fn file_count(&self) -> (n: usize)
        ensures
            n == self.files().len(),
    {
        self.files.len()
    }

    /// The number of blocks.
    pub fn block_count(&self) -> (n: usize)
        ensures
            n == self.blocks().len(),
    {
        self.blocks.len()
    }

    /// The number of distinct terms.
    pub fn term_count(&self) -> (n: usize)
        ensures
            n == self.terms().len(),
    {
        self.terms.len()
    }

    /// The number of words fuzzy search reaches.
    pub fn vocabulary_len(&self) -> (n: usize)
        requires
            self.wf(),
        ensures
            n == fuzzy_terms(self.terms()).len(),
    {
        self.bk_tree.len()
    }

    /// The path of file `f`.
    pub fn file_path(&self, f: usize) -> (p: &str)
        requires
            f < self.files().len(),
        ensures
            p@ == self.files()[f as int],
    {
        self.files[f].as_str()
    }

    /// Block `b`: file id, byte offset, byte length, word count.
    pub fn block(&self, b: u32) -> (blk: Block)
        requires
            b < self.blocks().len(),
        ensures
            blk == self.blocks()[b as int],
    {
        self.blocks[b as usize]
    }

    /// The total number of words over all blocks.
    pub fn total_word_count(&self) -> (n: u128)
        ensures
            n == word_total(self.blocks()),
    {
        let mut total: u128 = 0;
        let mut i: usize = 0;
        proof {
            assert(self.blocks@.take(0) =~= Seq::<Block>::empty());
        }
        while i < self.blocks.len()
            invariant
                i <= self.blocks@.len(),
                total == word_total(self.blocks@.take(i as int)),
                total <= 0xFFFF * i,
            decreases self.blocks@.len() - i,
        {
            proof {
                assert(self.blocks@.take(i + 1).drop_last() =~= self.blocks@.take(i as int));
                assert(self.blocks@.take(i + 1).last() == self.blocks@[i as int]);
            }
            total = total + self.blocks[i].3 as u128;
            i = i + 1;
        }
        proof {
            assert(self.blocks@.take(self.blocks@.len() as int) =~= self.blocks@);
        }
        total
    }

    /// Of the blocks ranked best first, those shown: each block not in the
    /// passage of a block kept before it, at most `TOP_K` (see `dedup_kept`).
    pub fn select_results(&self, ranked: &[u32]) -> (kept: Vec<u32>)
        requires
            self.wf(),
            forall|i: int| 0 <= i < ranked@.len() ==> (#[trigger] ranked@[i]) < self.blocks().len(),
        ensures
            kept@ == dedup_kept(ranked@, self.blocks()),
    {
        deduplicate(ranked, self.blocks.as_slice())
    }
}

} // verus!
