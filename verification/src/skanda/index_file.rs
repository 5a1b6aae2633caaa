//! Reading the index file that `Indexer::to_bytes` writes: little-endian
//! numbers, length-prefixed strings, and the whole layout as a partial function
//! from bytes to an index.
use vstd::prelude::*;

use crate::pfr::compression::{sorted_ids, decode_varint, delta_run, delta_run_ok, varint_next, varint_readable, varint_run_len};
use crate::skanda::compression::{entry_bytes, lemma_entries_roundtrip, entries_from, entries_ok, entries_sorted, lemma_delta_run_moves, lemma_varint_next_moves};
use crate::skanda::indexer::{
    block_bytes, blocks_bytes, count_bytes, files_bytes, index_bytes, index_magic, le16, le32, le64,
    lemma_seq_index, seq_index, string_bytes, term_bytes, terms_bytes, Block, INDEX_VERSION,
};
use vstd::utf8::encode_utf8;
use crate::text::lossy_text;

verus! {

/// The little-endian 16-bit number at `b[c..c + 2]`.
pub open spec fn get16(b: Seq<u8>, c: int) -> u16 {
    (b[c] + 256 * b[c + 1]) as u16
}

/// The little-endian 32-bit number at `b[c..c + 4]`.
pub open spec fn get32(b: Seq<u8>, c: int) -> u32 {
    (b[c] + 0x100 * b[c + 1] + 0x1_0000 * b[c + 2] + 0x100_0000 * b[c + 3]) as u32
}

/// The little-endian 64-bit number at `b[c..c + 8]`.
pub open spec fn get64(b: Seq<u8>, c: int) -> u64 {
    (get32(b, c) + 0x1_0000_0000 * get32(b, c + 4)) as u64
}

/// The 16-bit number at `cursor`, if two bytes are left there.
pub fn read_u16(buf: &[u8], cursor: usize) -> (r: Option<u16>)
    ensures
        r == if cursor + 2 <= buf@.len() {
            Some(get16(buf@, cursor as int))
        } else {
            None::<u16>
        },
{
    if cursor > buf.len() || buf.len() - cursor < 2 {
        return None;
    }
    let v: u16 = buf[cursor] as u16 + 256 * (buf[cursor + 1] as u16);
    Some(v)
}

/// The 32-bit number at `cursor`, if four bytes are left there.
pub fn read_u32(buf: &[u8], cursor: usize) -> (r: Option<u32>)
    ensures
        r == if cursor + 4 <= buf@.len() {
            Some(get32(buf@, cursor as int))
        } else {
            None::<u32>
        },
{
    if cursor > buf.len() || buf.len() - cursor < 4 {
        return None;
    }
    let v: u32 = buf[cursor] as u32 + 0x100 * (buf[cursor + 1] as u32) + 0x1_0000 * (buf[cursor
        + 2] as u32) + 0x100_0000 * (buf[cursor + 3] as u32);
    Some(v)
}

/// The 64-bit number at `cursor`, if eight bytes are left there.
pub fn read_u64(buf: &[u8], cursor: usize) -> (r: Option<u64>)
    ensures
        r == if cursor + 8 <= buf@.len() {
            Some(get64(buf@, cursor as int))
        } else {
            None::<u64>
        },
{
    if cursor > buf.len() || buf.len() - cursor < 8 {
        return None;
    }
    let lo = read_u32(buf, cursor).unwrap();
    let hi = read_u32(buf, cursor + 4).unwrap();
    let v: u64 = lo as u64 + 0x1_0000_0000 * (hi as u64);
    Some(v)
}

/// What `le16` writes, `get16` reads back, whatever stands around it.
pub proof fn lemma_get16(p: Seq<u8>, v: u16, r: Seq<u8>)
    ensures
        get16(p + le16(v) + r, p.len() as int) == v,
{
    let b = p + le16(v) + r;
    assert(b[p.len() as int] == (v % 256) as u8);
    assert(b[p.len() as int + 1] == (v / 256) as u8);
}

/// What `le32` writes, `get32` reads back, whatever stands around it.
pub proof fn lemma_get32(p: Seq<u8>, v: u32, r: Seq<u8>)
    ensures
        get32(p + le32(v) + r, p.len() as int) == v,
{
    let b = p + le32(v) + r;
    let c = p.len() as int;
    assert(b[c] == (v % 256) as u8);
    assert(b[c + 1] == ((v / 256) % 256) as u8);
    assert(b[c + 2] == ((v / 0x1_0000) % 256) as u8);
    assert(b[c + 3] == (v / 0x100_0000) as u8);
    assert((v % 256) + 0x100 * ((v / 256) % 256) + 0x1_0000 * ((v / 0x1_0000) % 256) + 0x100_0000 * (v
        / 0x100_0000) == v) by (nonlinear_arith);
}

/// What `le64` writes, `get64` reads back, whatever stands around it.
pub proof fn lemma_get64(p: Seq<u8>, v: u64, r: Seq<u8>)
    ensures
        get64(p + le64(v) + r, p.len() as int) == v,
{
    let lo = (v % 0x1_0000_0000) as u32;
    let hi = (v / 0x1_0000_0000) as u32;
    let b = p + le64(v) + r;
    assert(b =~= p + le32(lo) + (le32(hi) + r));
    lemma_get32(p, lo, le32(hi) + r);
    assert(b =~= (p + le32(lo)) + le32(hi) + r);
    lemma_get32(p + le32(lo), hi, r);
}

/// A run of varint bytes is at most `m` long exactly when the data is that
/// short or one of its first `m` bytes ends the run.
proof fn lemma_run_len_bound(s: Seq<u8>, m: nat)
    ensures
        varint_run_len(s) <= m <==> (s.len() <= m || exists|j: int| 0 <= j < m && j < s.len() && s[j]
            < 128),
    decreases m,
{
    if m > 0 && s.len() > 0 && s[0] >= 128 {
        let d = s.drop_first();
        lemma_run_len_bound(d, (m - 1) as nat);
        if exists|j: int| 0 <= j < m - 1 && j < d.len() && d[j] < 128 {
            let j = choose|j: int| 0 <= j < m - 1 && j < d.len() && d[j] < 128;
            assert(s[j + 1] < 128);
        }
        if exists|j: int| 0 <= j < m && j < s.len() && s[j] < 128 {
            let j = choose|j: int| 0 <= j < m && j < s.len() && s[j] < 128;
            assert(j >= 1);
            assert(d[j - 1] < 128);
        }
    } else if m > 0 && s.len() > 0 {
        assert(s[0] < 128);
    }
}

/// Whether a varint can be read at `cursor` (see `varint_readable`).
#[verifier::loop_isolation(false)]
fn varint_ok(bytes: &[u8], cursor: usize) -> (r: bool)
    ensures
        r == varint_readable(bytes@, cursor as int),
{
    if cursor >= bytes.len() {
        return true;
    }
    let ghost s = bytes@.subrange(cursor as int, bytes@.len() as int);
    proof {
        lemma_run_len_bound(s, 5);
    }
    if bytes.len() - cursor <= 5 {
        return true;
    }
    let mut j: usize = 0;
    while j < 5
        invariant
            j <= 5,
            cursor + 5 < bytes@.len(),
            s == bytes@.subrange(cursor as int, bytes@.len() as int),
            forall|i: int| 0 <= i < j ==> s[i] >= 128,
        decreases 5 - j,
    {
        if bytes[cursor + j] < 128 {
            assert(s[j as int] < 128);
            return true;
        }
        j = j + 1;
    }
    false
}

/// Past the end of the data a delta run reads zeros: it is always readable and
/// leaves the cursor where it is.
proof fn lemma_delta_run_past_end(bytes: Seq<u8>, c: int, last: u32, k: nat)
    requires
        c >= bytes.len(),
    ensures
        delta_run_ok(bytes, c, last, k),
        delta_run(bytes, c, last, k).1 == c,
    decreases k,
{
    if k > 0 {
        lemma_delta_run_past_end(bytes, c, last, (k - 1) as nat);
    }
}

/// Whether `decode_inverted_entry` can read `bytes` whole: no over-long number,
/// and no block id or position past `u32::MAX` (see `entries_ok`).
pub fn inverted_entry_ok(bytes: &[u8]) -> (ok: bool)
    ensures
        ok == entries_ok(bytes@, 0, 0),
{
    let mut cursor: usize = 0;
    let mut last: u32 = 0;
    while cursor < bytes.len()
        invariant
            cursor <= bytes@.len(),
            entries_ok(bytes@, 0, 0) == entries_ok(bytes@, cursor as int, last),
        decreases bytes@.len() - cursor,
    {
        let ghost c0 = cursor as int;
        let start = cursor;
        if !varint_ok(bytes, cursor) {
            return false;
        }
        let d = decode_varint(bytes, &mut cursor);
        if last as u64 + d as u64 > 0xFFFF_FFFF {
            return false;
        }
        let b = last + d;
        if !varint_ok(bytes, cursor) {
            return false;
        }
        let ghost c1 = cursor as int;
        proof {
            lemma_varint_next_moves(bytes@, c0);
            lemma_varint_next_moves(bytes@, c1);
        }
        let n = decode_varint(bytes, &mut cursor);
        let ghost c2 = cursor as int;
        let mut k: u32 = 0;
        let mut lp: u32 = 0;
        #[verifier::loop_isolation(false)]
        while k < n
            invariant
                k <= n,
                c2 <= cursor <= bytes@.len(),
                delta_run_ok(bytes@, c2, 0, n as nat) == delta_run_ok(bytes@, cursor as int, lp, (n - k) as nat),
                delta_run(bytes@, c2, 0, n as nat).1 == delta_run(bytes@, cursor as int, lp, (n - k) as nat).1,
            decreases n - k,
        {
            if cursor >= bytes.len() {
                proof {
                    lemma_delta_run_past_end(bytes@, cursor as int, lp, (n - k) as nat);
                }
                break;
            }
            if !varint_ok(bytes, cursor) {
                return false;
            }
            proof {
                lemma_varint_next_moves(bytes@, cursor as int);
            }
            let d2 = decode_varint(bytes, &mut cursor);
            if lp as u64 + d2 as u64 > 0xFFFF_FFFF {
                return false;
            }
            lp = lp + d2;
            k = k + 1;
        }
        proof {
            if k == n {
                assert(delta_run_ok(bytes@, cursor as int, lp, 0));
            }
            lemma_delta_run_moves(bytes@, c2, 0, n as nat);
        }
        if cursor <= start || cursor > bytes.len() {
            return true;
        }
        last = b;
    }
    true
}

// ---------------------------------------------------------------------------
// The layout, read
// ---------------------------------------------------------------------------

/// Files, blocks, terms and posting lists, as plain values.
pub type IndexView = (Seq<Seq<char>>, Seq<Block>, Seq<Seq<char>>, Seq<Seq<(u32, Seq<u32>)>>);

/// The string at `c` (16-bit byte length, then the bytes, taken as text the way
/// `String::from_utf8_lossy` takes them) and the cursor after it.
pub open spec fn read_string(b: Seq<u8>, c: int) -> Option<(Seq<char>, int)> {
    if 0 <= c && c + 2 <= b.len() && c + 2 + get16(b, c) <= b.len() {
        let end = c + 2 + get16(b, c);
        Some((lossy_text(b.subrange(c + 2, end)), end))
    } else {
        None
    }
}

/// `k` strings read from `c` on, after those in `acc`.
pub open spec fn read_files(b: Seq<u8>, c: int, k: nat, acc: Seq<Seq<char>>) -> Option<(Seq<Seq<char>>, int)>
    decreases k,
{
    if k == 0 {
        Some((acc, c))
    } else {
        match read_string(b, c) {
            Some((s, c1)) => read_files(b, c1, (k - 1) as nat, acc.push(s)),
            None => None,
        }
    }
}

/// The block at `c` (file id, offset, length, word count: 18 bytes).
pub open spec fn read_block(b: Seq<u8>, c: int) -> Option<(Block, int)> {
    if 0 <= c && c + 18 <= b.len() {
        Some(((get32(b, c), get64(b, c + 4), get32(b, c + 12), get16(b, c + 16)), c + 18))
    } else {
        None
    }
}

/// `k` blocks read from `c` on, after those in `acc`.
pub open spec fn read_blocks(b: Seq<u8>, c: int, k: nat, acc: Seq<Block>) -> Option<(Seq<Block>, int)>
    decreases k,
{
    if k == 0 {
        Some((acc, c))
    } else {
        match read_block(b, c) {
            Some((blk, c1)) => read_blocks(b, c1, (k - 1) as nat, acc.push(blk)),
            None => None,
        }
    }
}

/// A posting list as a map from block id to positions: of entries with the same
/// block id (they stand next to each other) the last one counts.
pub open spec fn collapse(es: Seq<(u32, Seq<u32>)>) -> Seq<(u32, Seq<u32>)>
    decreases es.len(),
{
    if es.len() == 0 {
        seq![]
    } else {
        let prev = collapse(es.drop_last());
        if prev.len() > 0 && prev.last().0 == es.last().0 {
            prev.drop_last().push(es.last())
        } else {
            prev.push(es.last())
        }
    }
}

/// The term at `c`: its string, its posting list (32-bit byte length, then the
/// encoded list, which must decode whole), and the cursor after it.
pub open spec fn read_term(b: Seq<u8>, c: int) -> Option<(Seq<char>, Seq<(u32, Seq<u32>)>, int)> {
    match read_string(b, c) {
        Some((t, c1)) => if c1 + 4 <= b.len() && c1 + 4 + get32(b, c1) <= b.len() {
            let end = c1 + 4 + get32(b, c1);
            let enc = b.subrange(c1 + 4, end);
            if entries_ok(enc, 0, 0) {
                Some((t, collapse(entries_from(enc, 0, 0)), end))
            } else {
                None
            }
        } else {
            None
        },
        None => None,
    }
}

/// Adds a term to the map: a term read again replaces its posting list.
pub open spec fn put_term(
    terms: Seq<Seq<char>>,
    postings: Seq<Seq<(u32, Seq<u32>)>>,
    t: Seq<char>,
    p: Seq<(u32, Seq<u32>)>,
) -> (Seq<Seq<char>>, Seq<Seq<(u32, Seq<u32>)>>) {
    match seq_index(terms, t) {
        Some(i) => (terms, postings.update(i, p)),
        None => (terms.push(t), postings.push(p)),
    }
}

/// `k` terms read from `c` on into the map `(terms, postings)`.
pub open spec fn read_terms(
    b: Seq<u8>,
    c: int,
    k: nat,
    terms: Seq<Seq<char>>,
    postings: Seq<Seq<(u32, Seq<u32>)>>,
) -> Option<(Seq<Seq<char>>, Seq<Seq<(u32, Seq<u32>)>>, int)>
    decreases k,
{
    if k == 0 {
        Some((terms, postings, c))
    } else {
        match read_term(b, c) {
            Some((t, p, c1)) => {
                let (t2, p2) = put_term(terms, postings, t, p);
                read_terms(b, c1, (k - 1) as nat, t2, p2)
            },
            None => None,
        }
    }
}

/// Every block names a listed file and ends within 64-bit offsets.
pub open spec fn blocks_valid(blocks: Seq<Block>, nfiles: nat) -> bool {
    forall|i: int| 0 <= i < blocks.len() ==> (#[trigger] blocks[i]).0 < nfiles && blocks[i].1 + blocks[i].2 <= u64::MAX
}

/// Every posting names a listed block.
pub open spec fn postings_valid(postings: Seq<Seq<(u32, Seq<u32>)>>, nblocks: nat) -> bool {
    forall|i: int, k: int| 0 <= i < postings.len() && 0 <= k < postings[i].len() ==> (#[trigger] postings[i][k]).0 < nblocks
}

/// The index an index file holds: after the magic and the version, the files,
/// the blocks and the terms, each list after its 32-bit count; `None` when the
/// file is cut short, has another magic or version, holds a posting list that
/// does not decode, or names a file or block it does not list.
pub open spec fn parse_index(b: Seq<u8>) -> Option<IndexView> {
    if b.len() < 9 || b.subrange(0, 4) != index_magic() || b[4] != INDEX_VERSION {
        None
    } else {
        match read_files(b, 9, get32(b, 5) as nat, seq![]) {
            Some((files, c1)) => if c1 + 4 > b.len() {
                None
            } else {
                match read_blocks(b, c1 + 4, get32(b, c1) as nat, seq![]) {
                    Some((blocks, c2)) => if c2 + 4 > b.len() {
                        None
                    } else {
                        match read_terms(b, c2 + 4, get32(b, c2) as nat, seq![], seq![]) {
                            Some((terms, postings, _c3)) => if blocks_valid(blocks, files.len())
                                && postings_valid(postings, blocks.len()) {
                                Some((files, blocks, terms, postings))
                            } else {
                                None
                            },
                            None => None,
                        }
                    },
                    None => None,
                }
            },
            None => None,
        }
    }
}

// ---------------------------------------------------------------------------
// What a decoded posting list looks like
// ---------------------------------------------------------------------------

/// A readable delta run is sorted and starts no lower than `last`.
pub proof fn lemma_delta_run_sorted(bytes: Seq<u8>, c: int, last: u32, n: nat)
    requires
        delta_run_ok(bytes, c, last, n),
    ensures
        sorted_ids(delta_run(bytes, c, last, n).0),
        forall|i: int| 0 <= i < delta_run(bytes, c, last, n).0.len() ==> last <= #[trigger] delta_run(bytes, c, last, n).0[i],
    decreases n,
{
    if n > 0 {
        let (d, next) = varint_next(bytes, c);
        let id = (last + d) as u32;
        lemma_delta_run_sorted(bytes, next, id, (n - 1) as nat);
        let rest = delta_run(bytes, next, id, (n - 1) as nat).0;
        let ids = delta_run(bytes, c, last, n).0;
        assert(ids == seq![id] + rest);
        assert forall|i: int, j: int| 0 <= i <= j < ids.len() implies ids[i] <= ids[j] by {
            if i == 0 {
                if j > 0 {
                    assert(ids[j] == rest[j - 1]);
                }
            } else {
                assert(ids[i] == rest[i - 1]);
                assert(ids[j] == rest[j - 1]);
            }
        }
        assert forall|i: int| 0 <= i < ids.len() implies last <= #[trigger] ids[i] by {
            if i > 0 {
                assert(ids[i] == rest[i - 1]);
            }
        }
    }
}

/// A readable posting list comes out sorted by block id, from `last` on, with
/// sorted positions.
pub proof fn lemma_entries_from_sorted(bytes: Seq<u8>, c: int, last: u32)
    requires
        entries_ok(bytes, c, last),
    ensures
        entries_sorted(entries_from(bytes, c, last), last),
    decreases bytes.len() - c,
{
    if c >= 0 && c < bytes.len() {
        let (d, c1) = varint_next(bytes, c);
        let b = (last + d) as u32;
        let (n, c2) = varint_next(bytes, c1);
        let (ps, c3) = delta_run(bytes, c2, 0, n as nat);
        lemma_delta_run_sorted(bytes, c2, 0, n as nat);
        if !(c3 <= c || c3 > bytes.len()) {
            lemma_entries_from_sorted(bytes, c3, b);
            let rest = entries_from(bytes, c3, b);
            let es = entries_from(bytes, c, last);
            assert(es == seq![(b, ps)] + rest);
            assert forall|i: int, j: int| 0 <= i <= j < es.len() implies es[i].0 <= es[j].0 by {
                if i == 0 {
                    if j > 0 {
                        assert(es[j] == rest[j - 1]);
                    }
                } else {
                    assert(es[i] == rest[i - 1]);
                    assert(es[j] == rest[j - 1]);
                }
            }
            assert forall|i: int| 0 <= i < es.len() implies sorted_ids(#[trigger] es[i].1) by {
                if i > 0 {
                    assert(es[i] == rest[i - 1]);
                }
            }
        }
    }
}

/// What `lemma_collapse` states of a sorted list.
pub open spec fn collapse_ok(es: Seq<(u32, Seq<u32>)>) -> bool {
    &&& forall|i: int, j: int| 0 <= i < j < collapse(es).len() ==> collapse(es)[i].0 < collapse(es)[j].0
    &&& forall|i: int| 0 <= i < collapse(es).len() ==> exists|j: int| 0 <= j < es.len() && #[trigger] collapse(es)[i] == es[j]
    &&& es.len() > 0 ==> collapse(es).len() > 0 && collapse(es).last() == es.last()
    &&& (forall|i: int, j: int| 0 <= i < j < es.len() ==> es[i].0 < es[j].0) ==> collapse(es) == es
}

/// Collapsing a list sorted by block id leaves the block ids strictly
/// increasing and keeps only entries of the list, the last one among them; a
/// list already strictly increasing is left as it is.
pub proof fn lemma_collapse(es: Seq<(u32, Seq<u32>)>)
    requires
        forall|i: int, j: int| 0 <= i <= j < es.len() ==> es[i].0 <= es[j].0,
    ensures
        forall|i: int, j: int| 0 <= i < j < collapse(es).len() ==> collapse(es)[i].0 < collapse(es)[j].0,
        forall|i: int| 0 <= i < collapse(es).len() ==> exists|j: int| 0 <= j < es.len() && #[trigger] collapse(es)[i] == es[j],
        es.len() > 0 ==> collapse(es).len() > 0 && collapse(es).last() == es.last(),
        (forall|i: int, j: int| 0 <= i < j < es.len() ==> es[i].0 < es[j].0) ==> collapse(es) == es,
    decreases es.len(),
{
    if es.len() > 0 {
        let d = es.drop_last();
        assert forall|i: int, j: int| 0 <= i <= j < d.len() implies d[i].0 <= d[j].0 by {
            assert(d[i] == es[i] && d[j] == es[j]);
        }
        lemma_collapse(d);
        lemma_collapse_step(es);
    } else {
        assert(collapse(es) == es);
    }
}

/// One step of `lemma_collapse`: from the list without its last entry to the list.
#[verifier::rlimit(40)]
proof fn lemma_collapse_step(es: Seq<(u32, Seq<u32>)>)
    requires
        es.len() > 0,
        forall|i: int, j: int| 0 <= i <= j < es.len() ==> es[i].0 <= es[j].0,
        collapse_ok(es.drop_last()),
    ensures
        collapse_ok(es),
{
    let d = es.drop_last();
    let x = es.last();
        let prev = collapse(d);
        let c = collapse(es);
        if prev.len() > 0 && prev.last().0 == x.0 {
            assert(c == prev.drop_last().push(x));
            assert forall|i: int, j: int| 0 <= i < j < c.len() implies c[i].0 < c[j].0 by {
                if j == c.len() - 1 {
                    assert(c[i] == prev[i]);
                    assert(prev[i].0 < prev[prev.len() - 1].0);
                } else {
                    assert(c[i] == prev[i] && c[j] == prev[j]);
                }
            }
            assert forall|i: int| 0 <= i < c.len() implies exists|j: int| 0 <= j < es.len() && #[trigger] c[i] == es[j] by {
                if i == c.len() - 1 {
                    assert(c[i] == es[es.len() - 1]);
                } else {
                    assert(c[i] == prev[i]);
                    let j = choose|j: int| 0 <= j < d.len() && prev[i] == d[j];
                    assert(d[j] == es[j]);
                }
            }
            if forall|i: int, j: int| 0 <= i < j < es.len() ==> es[i].0 < es[j].0 {
                assert forall|i: int, j: int| 0 <= i < j < d.len() implies d[i].0 < d[j].0 by {
                    assert(d[i] == es[i] && d[j] == es[j]);
                }
                assert(prev == d);
                assert(d.last() == es[es.len() - 2]);
                assert(false);
            }
        } else {
            assert(c == prev.push(x));
            assert forall|i: int, j: int| 0 <= i < j < c.len() implies c[i].0 < c[j].0 by {
                if j == c.len() - 1 {
                    assert(c[i] == prev[i]);
                    if i < prev.len() - 1 {
                        assert(prev[i].0 < prev[prev.len() - 1].0);
                    }
                    assert(prev.last() == d.last());
                    assert(d.last() == es[es.len() - 2]);
                    assert(es[es.len() - 2].0 <= es[es.len() - 1].0);
                } else {
                    assert(c[i] == prev[i] && c[j] == prev[j]);
                }
            }
            assert forall|i: int| 0 <= i < c.len() implies exists|j: int| 0 <= j < es.len() && #[trigger] c[i] == es[j] by {
                if i == c.len() - 1 {
                    assert(c[i] == es[es.len() - 1]);
                } else {
                    assert(c[i] == prev[i]);
                    let j = choose|j: int| 0 <= j < d.len() && prev[i] == d[j];
                    assert(d[j] == es[j]);
                }
            }
            if forall|i: int, j: int| 0 <= i < j < es.len() ==> es[i].0 < es[j].0 {
                assert forall|i: int, j: int| 0 <= i < j < d.len() implies d[i].0 < d[j].0 by {
                    assert(d[i] == es[i] && d[j] == es[j]);
                }
                assert(prev == d);
                assert(c =~= es);
            }
        }
}

// ---------------------------------------------------------------------------
// Reading back what was written
// ---------------------------------------------------------------------------

/// Where `x` stands in `b` at `c`, each piece of `x` stands in `b` too.
pub(crate) proof fn lemma_subrange_in(b: Seq<u8>, c: int, x: Seq<u8>, i: int, j: int)
    requires
        0 <= c,
        c + x.len() <= b.len(),
        b.subrange(c, c + x.len()) == x,
        0 <= i <= j <= x.len(),
    ensures
        b.subrange(c + i, c + j) == x.subrange(i, j),
{
    assert forall|k: int| 0 <= k < j - i implies #[trigger] b.subrange(c + i, c + j)[k] == x.subrange(i, j)[k] by {
        assert(b.subrange(c, c + x.len())[i + k] == b[c + i + k]);
    }
    assert(b.subrange(c + i, c + j) =~= x.subrange(i, j));
}

/// `le16` read back in place.
proof fn lemma_get16_at(b: Seq<u8>, c: int, v: u16)
    requires
        0 <= c,
        c + 2 <= b.len(),
        b.subrange(c, c + 2) == le16(v),
    ensures
        get16(b, c) == v,
{
    assert(b =~= b.subrange(0, c) + le16(v) + b.subrange(c + 2, b.len() as int));
    lemma_get16(b.subrange(0, c), v, b.subrange(c + 2, b.len() as int));
}

/// `le32` read back in place.
pub(crate) proof fn lemma_get32_at(b: Seq<u8>, c: int, v: u32)
    requires
        0 <= c,
        c + 4 <= b.len(),
        b.subrange(c, c + 4) == le32(v),
    ensures
        get32(b, c) == v,
{
    assert(b =~= b.subrange(0, c) + le32(v) + b.subrange(c + 4, b.len() as int));
    lemma_get32(b.subrange(0, c), v, b.subrange(c + 4, b.len() as int));
}

/// `le64` read back in place.
pub(crate) proof fn lemma_get64_at(b: Seq<u8>, c: int, v: u64)
    requires
        0 <= c,
        c + 8 <= b.len(),
        b.subrange(c, c + 8) == le64(v),
    ensures
        get64(b, c) == v,
{
    assert(b =~= b.subrange(0, c) + le64(v) + b.subrange(c + 8, b.len() as int));
    lemma_get64(b.subrange(0, c), v, b.subrange(c + 8, b.len() as int));
}

/// A stored string reads back as itself.
proof fn lemma_read_string_back(b: Seq<u8>, c: int, s: Seq<char>)
    requires
        0 <= c,
        c + string_bytes(s).len() <= b.len(),
        b.subrange(c, c + string_bytes(s).len()) == string_bytes(s),
        encode_utf8(s).len() < 0x1_0000,
    ensures
        read_string(b, c) == Some((s, c + string_bytes(s).len())),
{
    let e = encode_utf8(s);
    let n = e.len() as int;
    let sb = string_bytes(s);
    lemma_subrange_in(b, c, sb, 0, 2);
    assert(sb.subrange(0, 2) =~= le16((n % 0x1_0000) as u16));
    lemma_get16_at(b, c, (n % 0x1_0000) as u16);
    lemma_subrange_in(b, c, sb, 2, 2 + n);
    assert(sb.subrange(2, 2 + n) =~= e);
    vstd::utf8::encode_utf8_valid_utf8(s);
    vstd::utf8::encode_utf8_decode_utf8(s);
}

/// A stored block reads back as itself.
proof fn lemma_read_block_back(b: Seq<u8>, c: int, blk: Block)
    requires
        0 <= c,
        c + 18 <= b.len(),
        b.subrange(c, c + 18) == block_bytes(blk),
    ensures
        read_block(b, c) == Some((blk, c + 18)),
{
    let bb = block_bytes(blk);
    lemma_subrange_in(b, c, bb, 0, 4);
    lemma_subrange_in(b, c, bb, 4, 12);
    lemma_subrange_in(b, c, bb, 12, 16);
    lemma_subrange_in(b, c, bb, 16, 18);
    assert(bb.subrange(0, 4) =~= le32(blk.0));
    assert(bb.subrange(4, 12) =~= le64(blk.1));
    assert(bb.subrange(12, 16) =~= le32(blk.2));
    assert(bb.subrange(16, 18) =~= le16(blk.3));
    lemma_get32_at(b, c, blk.0);
    lemma_get64_at(b, c + 4, blk.1);
    lemma_get32_at(b, c + 12, blk.2);
    lemma_get16_at(b, c + 16, blk.3);
}

/// A posting list with strictly increasing block ids is its own map.
pub open spec fn strictly_increasing(p: Seq<(u32, Seq<u32>)>) -> bool {
    forall|j: int, k: int| 0 <= j < k < p.len() ==> (#[trigger] p[j]).0 < (#[trigger] p[k]).0
}

/// A stored term reads back as itself with its posting list.
#[verifier::spinoff_prover]
#[verifier::rlimit(80)]
proof fn lemma_read_term_back(b: Seq<u8>, c: int, t: Seq<char>, p: Seq<(u32, Seq<u32>)>)
    requires
        0 <= c,
        c + term_bytes(t, p).len() <= b.len(),
        b.subrange(c, c + term_bytes(t, p).len()) == term_bytes(t, p),
        encode_utf8(t).len() < 0x1_0000,
        entries_sorted(p, 0),
        strictly_increasing(p),
        forall|k: int| 0 <= k < p.len() ==> (#[trigger] p[k].1).len() <= u32::MAX,
        entry_bytes(p, 0).len() < 0x1_0000_0000,
    ensures
        read_term(b, c) == Some((t, p, c + term_bytes(t, p).len())),
{
    let sb = string_bytes(t);
    let eb = entry_bytes(p, 0);
    let tb = term_bytes(t, p);
    let c1 = c + sb.len();
    let ls = sb.len() as int;
    lemma_subrange_in(b, c, tb, 0, ls);
    assert(tb.subrange(0, ls) =~= sb);
    lemma_read_string_back(b, c, t);
    lemma_subrange_in(b, c, tb, ls, ls + 4);
    assert(tb.subrange(ls, ls + 4) =~= le32((eb.len() % 0x1_0000_0000) as u32));
    lemma_get32_at(b, c1, (eb.len() % 0x1_0000_0000) as u32);
    lemma_subrange_in(b, c, tb, ls + 4, ls + 4 + eb.len());
    assert(tb.subrange(ls + 4, ls + 4 + eb.len()) =~= eb);
    lemma_entries_roundtrip(p);
    lemma_collapse(p);
    assert(get32(b, c1) == eb.len());
    let enc = b.subrange(c1 + 4, c1 + 4 + get32(b, c1));
    assert(enc == eb);
    assert(entries_ok(enc, 0, 0));
    assert(collapse(entries_from(enc, 0, 0)) == p);
    assert(read_string(b, c) == Some((t, c1)));
}

/// Files: reading the first `k` strings leaves the reader at the rest.
proof fn lemma_files_prefix(fs: Seq<Seq<char>>, k: int, j: int)
    requires
        0 <= k <= j <= fs.len(),
    ensures
        files_bytes(fs.take(k)).len() <= files_bytes(fs.take(j)).len(),
        files_bytes(fs.take(j)).subrange(0, files_bytes(fs.take(k)).len() as int) == files_bytes(fs.take(k)),
    decreases j - k,
{
    if k < j {
        lemma_files_prefix(fs, k, j - 1);
        assert(fs.take(j).drop_last() =~= fs.take(j - 1));
        let a = files_bytes(fs.take(k));
        let m = files_bytes(fs.take(j - 1));
        assert(files_bytes(fs.take(j)) == m + string_bytes(fs.take(j).last()));
        assert((m + string_bytes(fs.take(j).last())).subrange(0, a.len() as int) =~= m.subrange(0, a.len() as int));
    }
}

/// The stored strings read back as themselves.
pub(crate) proof fn lemma_read_files_back(b: Seq<u8>, c: int, fs: Seq<Seq<char>>, k: nat)
    requires
        0 <= c,
        k <= fs.len(),
        c + files_bytes(fs).len() <= b.len(),
        b.subrange(c, c + files_bytes(fs).len()) == files_bytes(fs),
        forall|i: int| 0 <= i < fs.len() ==> encode_utf8(#[trigger] fs[i]).len() < 0x1_0000,
    ensures
        read_files(b, c, fs.len(), seq![]) == read_files(b, c + files_bytes(fs.take(k as int)).len(), (fs.len() - k) as nat, fs.take(k as int)),
    decreases k,
{
    if k > 0 {
        let k1 = (k - 1) as int;
        lemma_read_files_back(b, c, fs, (k - 1) as nat);
        let pre = files_bytes(fs.take(k1));
        let sb = string_bytes(fs[k1]);
        assert(fs.take(k as int).drop_last() =~= fs.take(k1));
        assert(files_bytes(fs.take(k as int)) == pre + sb);
        lemma_files_prefix(fs, k as int, fs.len() as int);
        assert(fs.take(fs.len() as int) =~= fs);
        let whole = files_bytes(fs);
        let lp = pre.len() as int;
        let ls = sb.len() as int;
        lemma_subrange_in(whole, 0, pre + sb, lp, lp + ls);
        assert((pre + sb).subrange(lp, lp + ls) =~= sb);
        lemma_subrange_in(b, c, whole, lp, lp + ls);
        lemma_read_string_back(b, c + pre.len(), fs[k1]);
        assert(fs.take(k1).push(fs[k1]) =~= fs.take(k as int));
    } else {
        assert(fs.take(0) =~= Seq::<Seq<char>>::empty());
    }
}

/// Blocks: reading the first `k` blocks leaves the reader at the rest.
proof fn lemma_blocks_prefix(bs: Seq<Block>, k: int, j: int)
    requires
        0 <= k <= j <= bs.len(),
    ensures
        blocks_bytes(bs.take(k)).len() <= blocks_bytes(bs.take(j)).len(),
        blocks_bytes(bs.take(j)).subrange(0, blocks_bytes(bs.take(k)).len() as int) == blocks_bytes(bs.take(k)),
    decreases j - k,
{
    if k < j {
        lemma_blocks_prefix(bs, k, j - 1);
        assert(bs.take(j).drop_last() =~= bs.take(j - 1));
        let a = blocks_bytes(bs.take(k));
        let m = blocks_bytes(bs.take(j - 1));
        assert(blocks_bytes(bs.take(j)) == m + block_bytes(bs.take(j).last()));
        assert((m + block_bytes(bs.take(j).last())).subrange(0, a.len() as int) =~= m.subrange(0, a.len() as int));
    }
}

/// The stored blocks read back as themselves.
proof fn lemma_read_blocks_back(b: Seq<u8>, c: int, bs: Seq<Block>, k: nat)
    requires
        0 <= c,
        k <= bs.len(),
        c + blocks_bytes(bs).len() <= b.len(),
        b.subrange(c, c + blocks_bytes(bs).len()) == blocks_bytes(bs),
    ensures
        read_blocks(b, c, bs.len(), seq![]) == read_blocks(b, c + blocks_bytes(bs.take(k as int)).len(), (bs.len() - k) as nat, bs.take(k as int)),
    decreases k,
{
    if k > 0 {
        let k1 = (k - 1) as int;
        lemma_read_blocks_back(b, c, bs, (k - 1) as nat);
        let pre = blocks_bytes(bs.take(k1));
        let bb = block_bytes(bs[k1]);
        assert(bs.take(k as int).drop_last() =~= bs.take(k1));
        assert(blocks_bytes(bs.take(k as int)) == pre + bb);
        lemma_blocks_prefix(bs, k as int, bs.len() as int);
        assert(bs.take(bs.len() as int) =~= bs);
        let whole = blocks_bytes(bs);
        let lp = pre.len() as int;
        let lb = bb.len() as int;
        lemma_subrange_in(whole, 0, pre + bb, lp, lp + lb);
        assert((pre + bb).subrange(lp, lp + lb) =~= bb);
        lemma_subrange_in(b, c, whole, lp, lp + lb);
        lemma_read_block_back(b, c + pre.len(), bs[k1]);
        assert(bs.take(k1).push(bs[k1]) =~= bs.take(k as int));
    } else {
        assert(bs.take(0) =~= Seq::<Block>::empty());
    }
}

/// Terms: reading the first `k` terms leaves the reader at the rest.
proof fn lemma_terms_prefix(ts: Seq<Seq<char>>, ps: Seq<Seq<(u32, Seq<u32>)>>, k: int, j: int)
    requires
        0 <= k <= j <= ts.len(),
    ensures
        terms_bytes(ts.take(k), ps).len() <= terms_bytes(ts.take(j), ps).len(),
        terms_bytes(ts.take(j), ps).subrange(0, terms_bytes(ts.take(k), ps).len() as int) == terms_bytes(ts.take(k), ps),
    decreases j - k,
{
    if k < j {
        lemma_terms_prefix(ts, ps, k, j - 1);
        assert(ts.take(j).drop_last() =~= ts.take(j - 1));
        let a = terms_bytes(ts.take(k), ps);
        let m = terms_bytes(ts.take(j - 1), ps);
        let x = term_bytes(ts.take(j).last(), ps[j - 1]);
        assert(terms_bytes(ts.take(j), ps) == m + x);
        assert((m + x).subrange(0, a.len() as int) =~= m.subrange(0, a.len() as int));
    }
}

/// What one posting list must be for the file layout to carry it back.
pub open spec fn posting_list_fits(p: Seq<(u32, Seq<u32>)>) -> bool {
    &&& entries_sorted(p, 0)
    &&& strictly_increasing(p)
    &&& forall|k: int| 0 <= k < p.len() ==> (#[trigger] p[k].1).len() <= u32::MAX
    &&& entry_bytes(p, 0).len() < 0x1_0000_0000
}

/// The stored terms read back as themselves.
pub(crate) proof fn lemma_read_terms_back(b: Seq<u8>, c: int, ts: Seq<Seq<char>>, ps: Seq<Seq<(u32, Seq<u32>)>>, k: nat)
    requires
        0 <= c,
        k <= ts.len(),
        ts.len() == ps.len(),
        c + terms_bytes(ts, ps).len() <= b.len(),
        b.subrange(c, c + terms_bytes(ts, ps).len()) == terms_bytes(ts, ps),
        forall|i: int, j: int| 0 <= i < j < ts.len() ==> ts[i] != ts[j],
        forall|i: int| 0 <= i < ts.len() ==> encode_utf8(#[trigger] ts[i]).len() < 0x1_0000,
        forall|i: int| 0 <= i < ps.len() ==> posting_list_fits(#[trigger] ps[i]),
    ensures
        read_terms(b, c, ts.len(), seq![], seq![]) == read_terms(
            b,
            c + terms_bytes(ts.take(k as int), ps).len(),
            (ts.len() - k) as nat,
            ts.take(k as int),
            ps.take(k as int),
        ),
    decreases k,
{
    if k > 0 {
        let k1 = (k - 1) as int;
        lemma_read_terms_back(b, c, ts, ps, (k - 1) as nat);
        let pre = terms_bytes(ts.take(k1), ps);
        let x = term_bytes(ts[k1], ps[k1]);
        assert(ts.take(k as int).drop_last() =~= ts.take(k1));
        assert(terms_bytes(ts.take(k as int), ps) == pre + x);
        lemma_terms_prefix(ts, ps, k as int, ts.len() as int);
        assert(ts.take(ts.len() as int) =~= ts);
        let whole = terms_bytes(ts, ps);
        let lp = pre.len() as int;
        let lx = x.len() as int;
        lemma_subrange_in(whole, 0, pre + x, lp, lp + lx);
        assert((pre + x).subrange(lp, lp + lx) =~= x);
        lemma_subrange_in(b, c, whole, lp, lp + lx);
        assert(posting_list_fits(ps[k1]));
        lemma_read_term_back(b, c + lp, ts[k1], ps[k1]);
        let tk = ts.take(k1);
        lemma_seq_index(tk, ts[k1]);
        assert forall|j: int| 0 <= j < tk.len() implies tk[j] != ts[k1] by {
            assert(tk[j] == ts[j]);
        }
        assert(put_term(tk, ps.take(k1), ts[k1], ps[k1]) == (tk.push(ts[k1]), ps.take(k1).push(ps[k1])));
        assert(tk.push(ts[k1]) =~= ts.take(k as int));
        assert(ps.take(k1).push(ps[k1]) =~= ps.take(k as int));
    } else {
        assert(ts.take(0) =~= Seq::<Seq<char>>::empty());
        assert(ps.take(0) =~= Seq::<Seq<(u32, Seq<u32>)>>::empty());
    }
}

/// The limits of the file layout: each count fits 32 bits, each string 16 bits,
/// each posting list what `posting_list_fits` asks.
pub open spec fn index_fits(
    files: Seq<Seq<char>>,
    blocks: Seq<Block>,
    terms: Seq<Seq<char>>,
    postings: Seq<Seq<(u32, Seq<u32>)>>,
) -> bool {
    &&& files.len() < 0x1_0000_0000
    &&& blocks.len() < 0x1_0000_0000
    &&& terms.len() < 0x1_0000_0000
    &&& forall|i: int| 0 <= i < files.len() ==> encode_utf8(#[trigger] files[i]).len() < 0x1_0000
    &&& forall|i: int| 0 <= i < terms.len() ==> encode_utf8(#[trigger] terms[i]).len() < 0x1_0000
    &&& forall|i: int| 0 <= i < postings.len() ==> posting_list_fits(#[trigger] postings[i])
}

/// An index as the indexer keeps one: distinct terms with one posting list
/// each, every block naming a file, every posting a block.
pub open spec fn index_consistent(
    files: Seq<Seq<char>>,
    blocks: Seq<Block>,
    terms: Seq<Seq<char>>,
    postings: Seq<Seq<(u32, Seq<u32>)>>,
) -> bool {
    &&& terms.len() == postings.len()
    &&& forall|i: int, j: int| 0 <= i < j < terms.len() ==> terms[i] != terms[j]
    &&& blocks_valid(blocks, files.len())
    &&& postings_valid(postings, blocks.len())
}

/// The two parts of `a + y` are where they were put.
pub(crate) proof fn lemma_concat_parts(a: Seq<u8>, y: Seq<u8>)
    ensures
        (a + y).subrange(0, a.len() as int) == a,
        (a + y).subrange(a.len() as int, (a + y).len() as int) == y,
{
    assert((a + y).subrange(0, a.len() as int) =~= a);
    assert((a + y).subrange(a.len() as int, (a + y).len() as int) =~= y);
}

/// A piece of a prefix is a piece of the whole.
pub(crate) proof fn lemma_sub_sub(b: Seq<u8>, n: int, i: int, j: int)
    requires
        0 <= i <= j <= n <= b.len(),
    ensures
        b.subrange(0, n).subrange(i, j) == b.subrange(i, j),
{
    assert(b.subrange(0, n).subrange(i, j) =~= b.subrange(i, j));
}

/// Where each part of an index file stands: `b` is the file, `c1` and `c2` the
/// offsets of the block count and of the term count.
proof fn lemma_index_layout(
    files: Seq<Seq<char>>,
    blocks: Seq<Block>,
    terms: Seq<Seq<char>>,
    postings: Seq<Seq<(u32, Seq<u32>)>>,
)
    ensures
        ({
            let b = index_bytes(files, blocks, terms, postings);
            let fb = files_bytes(files);
            let bb = blocks_bytes(blocks);
            let tb = terms_bytes(terms, postings);
            let c1: int = 9 + fb.len() as int;
            let c2: int = c1 + 4 + bb.len() as int;
            &&& b.len() == c2 + 4 + tb.len()
            &&& b.subrange(0, 4) == index_magic()
            &&& b[4] == INDEX_VERSION
            &&& b.subrange(5, 9) == count_bytes(files.len())
            &&& b.subrange(9, c1) == fb
            &&& b.subrange(c1, c1 + 4) == count_bytes(blocks.len())
            &&& b.subrange(c1 + 4, c2) == bb
            &&& b.subrange(c2, c2 + 4) == count_bytes(terms.len())
            &&& b.subrange(c2 + 4, b.len() as int) == tb
        }),
{
    let h = index_magic() + seq![INDEX_VERSION];
    let p1 = h + count_bytes(files.len());
    let p2 = p1 + files_bytes(files);
    let p3 = p2 + count_bytes(blocks.len());
    let p4 = p3 + blocks_bytes(blocks);
    let p5 = p4 + count_bytes(terms.len());
    let b = p5 + terms_bytes(terms, postings);
    assert(b == index_bytes(files, blocks, terms, postings));
    lemma_concat_parts(p5, terms_bytes(terms, postings));
    lemma_concat_parts(p4, count_bytes(terms.len()));
    lemma_concat_parts(p3, blocks_bytes(blocks));
    lemma_concat_parts(p2, count_bytes(blocks.len()));
    lemma_concat_parts(p1, files_bytes(files));
    lemma_concat_parts(h, count_bytes(files.len()));
    lemma_sub_sub(b, p5.len() as int, p4.len() as int, p5.len() as int);
    lemma_sub_sub(b, p5.len() as int, 0, p4.len() as int);
    lemma_sub_sub(b, p4.len() as int, p3.len() as int, p4.len() as int);
    lemma_sub_sub(b, p4.len() as int, 0, p3.len() as int);
    lemma_sub_sub(b, p3.len() as int, p2.len() as int, p3.len() as int);
    lemma_sub_sub(b, p3.len() as int, 0, p2.len() as int);
    lemma_sub_sub(b, p2.len() as int, p1.len() as int, p2.len() as int);
    lemma_sub_sub(b, p2.len() as int, 0, p1.len() as int);
    lemma_sub_sub(b, p1.len() as int, h.len() as int, p1.len() as int);
    lemma_sub_sub(b, p1.len() as int, 0, h.len() as int);
    lemma_sub_sub(b, h.len() as int, 0, 4);
    assert(h.subrange(0, 4) =~= index_magic());
    assert(b[4] == h[4]);
}

/// The file list of a laid-out index file reads back.
proof fn lemma_files_part(b: Seq<u8>, files: Seq<Seq<char>>, c1: int)
    requires
        c1 == 9 + files_bytes(files).len(),
        c1 <= b.len(),
        files.len() < 0x1_0000_0000,
        forall|i: int| 0 <= i < files.len() ==> encode_utf8(#[trigger] files[i]).len() < 0x1_0000,
        b.subrange(5, 9) == count_bytes(files.len()),
        b.subrange(9, c1) == files_bytes(files),
    ensures
        read_files(b, 9, get32(b, 5) as nat, seq![]) == Some((files, c1)),
{
    lemma_get32_at(b, 5, (files.len() % 0x1_0000_0000) as u32);
    lemma_read_files_back(b, 9, files, files.len());
    assert(files.take(files.len() as int) =~= files);
}

/// The block list of a laid-out index file reads back.
proof fn lemma_blocks_part(b: Seq<u8>, blocks: Seq<Block>, c1: int, c2: int)
    requires
        0 <= c1,
        c2 == c1 + 4 + blocks_bytes(blocks).len(),
        c2 <= b.len(),
        blocks.len() < 0x1_0000_0000,
        b.subrange(c1, c1 + 4) == count_bytes(blocks.len()),
        b.subrange(c1 + 4, c2) == blocks_bytes(blocks),
    ensures
        read_blocks(b, c1 + 4, get32(b, c1) as nat, seq![]) == Some((blocks, c2)),
{
    lemma_get32_at(b, c1, (blocks.len() % 0x1_0000_0000) as u32);
    lemma_read_blocks_back(b, c1 + 4, blocks, blocks.len());
    assert(blocks.take(blocks.len() as int) =~= blocks);
}

/// The term list of a laid-out index file reads back.
pub(crate) proof fn lemma_terms_part(b: Seq<u8>, terms: Seq<Seq<char>>, postings: Seq<Seq<(u32, Seq<u32>)>>, c2: int)
    requires
        0 <= c2,
        b.len() == c2 + 4 + terms_bytes(terms, postings).len(),
        terms.len() < 0x1_0000_0000,
        terms.len() == postings.len(),
        forall|i: int, j: int| 0 <= i < j < terms.len() ==> terms[i] != terms[j],
        forall|i: int| 0 <= i < terms.len() ==> encode_utf8(#[trigger] terms[i]).len() < 0x1_0000,
        forall|i: int| 0 <= i < postings.len() ==> posting_list_fits(#[trigger] postings[i]),
        b.subrange(c2, c2 + 4) == count_bytes(terms.len()),
        b.subrange(c2 + 4, b.len() as int) == terms_bytes(terms, postings),
    ensures
        read_terms(b, c2 + 4, get32(b, c2) as nat, seq![], seq![]) == Some((terms, postings, b.len() as int)),
{
    lemma_get32_at(b, c2, (terms.len() % 0x1_0000_0000) as u32);
    lemma_read_terms_back(b, c2 + 4, terms, postings, terms.len());
    assert(terms.take(terms.len() as int) =~= terms);
    assert(postings.take(postings.len() as int) =~= postings);
}

/// The index file law: reading the bytes written for an index gives that index
/// back, whenever it is consistent and fits the layout.
pub proof fn lemma_index_roundtrip(
    files: Seq<Seq<char>>,
    blocks: Seq<Block>,
    terms: Seq<Seq<char>>,
    postings: Seq<Seq<(u32, Seq<u32>)>>,
)
    requires
        index_consistent(files, blocks, terms, postings),
        index_fits(files, blocks, terms, postings),
    ensures
        parse_index(index_bytes(files, blocks, terms, postings)) == Some((files, blocks, terms, postings)),
{
    let b = index_bytes(files, blocks, terms, postings);
    lemma_index_layout(files, blocks, terms, postings);
    let c1: int = 9 + files_bytes(files).len() as int;
    let c2: int = c1 + 4 + blocks_bytes(blocks).len();
    lemma_files_part(b, files, c1);
    lemma_blocks_part(b, blocks, c1, c2);
    lemma_terms_part(b, terms, postings, c2);
}

} // verus!
