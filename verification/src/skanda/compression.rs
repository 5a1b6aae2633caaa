//! Delta-encoded id runs and the positional posting lists of the index: for
//! each block that holds a term, the block's id and the term's byte offsets in it.
use vstd::prelude::*;

pub use crate::pfr::compression::{decode_varint, encode_delta, encode_varint};
use crate::pfr::compression::{
    append_prefix, delta_bytes, delta_run, delta_run_ok, lemma_delta_read_back,
    lemma_varint_next_of_encoding, sorted_ids, varint_bytes, varint_next, varint_readable,
    varint_run_len,
};

verus! {

/// Up to `count` ids read from `cursor` on, each added to the one before
/// (starting from `last`); reading stops early where the data ends.
pub open spec fn delta_run_to_end(bytes: Seq<u8>, cursor: int, last: u32, count: nat) -> Seq<u32>
    decreases count,
{
    if count == 0 || cursor >= bytes.len() {
        seq![]
    } else {
        let (d, next) = varint_next(bytes, cursor);
        let id = (last + d) as u32;
        seq![id] + delta_run_to_end(bytes, next, id, (count - 1) as nat)
    }
}

/// Reading `delta_run_to_end` neither reads an over-long number nor lets a
/// running id pass `u32::MAX`.
pub open spec fn delta_run_to_end_ok(bytes: Seq<u8>, cursor: int, last: u32, count: nat) -> bool
    decreases count,
{
    count == 0 || cursor >= bytes.len() || {
        let (d, next) = varint_next(bytes, cursor);
        &&& varint_readable(bytes, cursor)
        &&& last + d <= u32::MAX
        &&& delta_run_to_end_ok(bytes, next, (last + d) as u32, (count - 1) as nat)
    }
}

/// The encoding of a posting list: for each entry the gap from the previous block
/// id, the number of positions (as a 32-bit value) and the positions' delta run.
pub open spec fn entry_bytes(entries: Seq<(u32, Seq<u32>)>, last: u32) -> Seq<u8>
    decreases entries.len(),
{
    if entries.len() == 0 {
        seq![]
    } else {
        let (b, ps) = entries[0];
        varint_bytes((b - last) as nat) + varint_bytes((ps.len() as u32) as nat) + delta_bytes(ps, 0)
            + entry_bytes(entries.drop_first(), b)
    }
}

/// A posting list the encoder takes: block ids nondecreasing from `last` on,
/// each entry's positions nondecreasing.
pub open spec fn entries_sorted(entries: Seq<(u32, Seq<u32>)>, last: u32) -> bool {
    &&& forall|i: int, j: int| 0 <= i <= j < entries.len() ==> entries[i].0 <= entries[j].0
    &&& entries.len() > 0 ==> last <= entries[0].0
    &&& forall|i: int| 0 <= i < entries.len() ==> sorted_ids(#[trigger] entries[i].1)
}

/// The posting list read from `cursor` to the end of `bytes`, block ids counted
/// on from `last`.
pub open spec fn entries_from(bytes: Seq<u8>, cursor: int, last: u32) -> Seq<(u32, Seq<u32>)>
    decreases bytes.len() - cursor,
{
    if cursor < 0 || cursor >= bytes.len() {
        seq![]
    } else {
        let (d, c1) = varint_next(bytes, cursor);
        let b = (last + d) as u32;
        let (n, c2) = varint_next(bytes, c1);
        let (ps, c3) = delta_run(bytes, c2, 0, n as nat);
        if c3 <= cursor || c3 > bytes.len() {
            seq![]
        } else {
            seq![(b, ps)] + entries_from(bytes, c3, b)
        }
    }
}

/// Reading `entries_from` neither reads an over-long number nor lets a block id
/// or a position pass `u32::MAX`.
pub open spec fn entries_ok(bytes: Seq<u8>, cursor: int, last: u32) -> bool
    decreases bytes.len() - cursor,
{
    cursor < 0 || cursor >= bytes.len() || {
        let (d, c1) = varint_next(bytes, cursor);
        let b = (last + d) as u32;
        let (n, c2) = varint_next(bytes, c1);
        let (ps, c3) = delta_run(bytes, c2, 0, n as nat);
        &&& varint_readable(bytes, cursor)
        &&& last + d <= u32::MAX
        &&& varint_readable(bytes, c1)
        &&& delta_run_ok(bytes, c2, 0, n as nat)
        &&& (c3 <= cursor || c3 > bytes.len() || entries_ok(bytes, c3, b))
    }
}

/// A read never moves the cursor back, nor past the end of data it started in;
/// inside the data it moves forward.
pub proof fn lemma_varint_next_moves(bytes: Seq<u8>, cursor: int)
    requires
        0 <= cursor,
    ensures
        cursor <= varint_next(bytes, cursor).1,
        cursor <= bytes.len() ==> varint_next(bytes, cursor).1 <= bytes.len(),
        cursor < bytes.len() ==> cursor < varint_next(bytes, cursor).1,
{
    if cursor < bytes.len() {
        lemma_run_len_bounds(bytes.subrange(cursor, bytes.len() as int));
    }
}

proof fn lemma_run_len_bounds(s: Seq<u8>)
    ensures
        varint_run_len(s) <= s.len(),
        s.len() > 0 ==> varint_run_len(s) >= 1,
    decreases s.len(),
{
    if s.len() > 0 {
        lemma_run_len_bounds(s.drop_first());
    }
}

/// A delta run never moves the cursor back, nor past the end of data it
/// started in.
pub proof fn lemma_delta_run_moves(bytes: Seq<u8>, cursor: int, last: u32, count: nat)
    requires
        0 <= cursor,
    ensures
        cursor <= delta_run(bytes, cursor, last, count).1,
        cursor <= bytes.len() ==> delta_run(bytes, cursor, last, count).1 <= bytes.len(),
    decreases count,
{
    if count > 0 {
        let (d, next) = varint_next(bytes, cursor);
        lemma_varint_next_moves(bytes, cursor);
        lemma_delta_run_moves(bytes, next, (last + d) as u32, (count - 1) as nat);
    }
}

/// The posting-list law: decoding the encoding of a sorted posting list (each
/// entry with fewer than 2^32 positions) gives it back.
pub proof fn lemma_entries_read_back(pre: Seq<u8>, entries: Seq<(u32, Seq<u32>)>, last: u32)
    requires
        entries_sorted(entries, last),
        forall|i: int| 0 <= i < entries.len() ==> (#[trigger] entries[i].1).len() <= u32::MAX,
    ensures
        entries_ok(pre + entry_bytes(entries, last), pre.len() as int, last),
        entries_from(pre + entry_bytes(entries, last), pre.len() as int, last) == entries,
    decreases entries.len(),
{
    let bytes = pre + entry_bytes(entries, last);
    if entries.len() == 0 {
        assert(bytes =~= pre);
    } else {
        let (b, ps) = entries[0];
        let d = (b - last) as u32;
        let n = ps.len() as u32;
        let tail = entry_bytes(entries.drop_first(), b);
        let pre1 = pre + varint_bytes(d as nat);
        let pre2 = pre1 + varint_bytes(n as nat);
        let pre3 = pre2 + delta_bytes(ps, 0);
        assert(bytes =~= pre + varint_bytes(d as nat) + (varint_bytes(n as nat) + delta_bytes(ps, 0)
            + tail));
        lemma_varint_next_of_encoding(pre, d, varint_bytes(n as nat) + delta_bytes(ps, 0) + tail);
        assert(bytes =~= pre1 + varint_bytes(n as nat) + (delta_bytes(ps, 0) + tail));
        lemma_varint_next_of_encoding(pre1, n, delta_bytes(ps, 0) + tail);
        assert(bytes =~= pre2 + delta_bytes(ps, 0) + tail);
        assert(sorted_ids(entries[0].1));
        lemma_delta_read_back(pre2, ps, 0, tail);
        assert(n as nat == ps.len());
        assert(bytes =~= pre3 + entry_bytes(entries.drop_first(), b));
        assert forall|i: int, j: int|
            0 <= i <= j < entries.drop_first().len() implies entries.drop_first()[i].0
            <= entries.drop_first()[j].0 by {
            assert(entries.drop_first()[i] == entries[i + 1]);
            assert(entries.drop_first()[j] == entries[j + 1]);
        }
        assert forall|i: int| 0 <= i < entries.drop_first().len() implies sorted_ids(
            #[trigger] entries.drop_first()[i].1,
        ) by {
            assert(entries.drop_first()[i] == entries[i + 1]);
        }
        assert forall|i: int| 0 <= i < entries.drop_first().len() implies (
        #[trigger] entries.drop_first()[i].1).len() <= u32::MAX by {
            assert(entries.drop_first()[i] == entries[i + 1]);
        }
        if entries.len() > 1 {
            assert(entries.drop_first()[0] == entries[1]);
        }
        lemma_entries_read_back(pre3, entries.drop_first(), b);
        lemma_varint_bytes_nonempty(d as nat);
        assert(seq![(b, ps)] + entries_from(bytes, pre3.len() as int, b) =~= entries);
    }
}

proof fn lemma_varint_bytes_nonempty(v: nat)
    ensures
        varint_bytes(v).len() >= 1,
    decreases v,
{
    if v >= 128 {
        lemma_varint_bytes_nonempty(v / 128);
    }
}

/// The posting-list law from the start of the data.
pub proof fn lemma_entries_roundtrip(entries: Seq<(u32, Seq<u32>)>)
    requires
        entries_sorted(entries, 0),
        forall|i: int| 0 <= i < entries.len() ==> (#[trigger] entries[i].1).len() <= u32::MAX,
    ensures
        entries_ok(entry_bytes(entries, 0), 0, 0),
        entries_from(entry_bytes(entries, 0), 0, 0) == entries,
{
    let e = Seq::<u8>::empty();
    lemma_entries_read_back(e, entries, 0);
    assert(e + entry_bytes(entries, 0) =~= entry_bytes(entries, 0));
}

/// Reading a run of `delta_bytes` that the data ends with gives back the ids
/// (the early stop at the end of the data never cuts it short).
pub proof fn lemma_delta_to_end_read_back(pre: Seq<u8>, ids: Seq<u32>, last: u32)
    requires
        sorted_ids(ids),
        ids.len() > 0 ==> last <= ids[0],
    ensures
        delta_run_to_end_ok(pre + delta_bytes(ids, last), pre.len() as int, last, ids.len()),
        delta_run_to_end(pre + delta_bytes(ids, last), pre.len() as int, last, ids.len()) == ids,
    decreases ids.len(),
{
    let bytes = pre + delta_bytes(ids, last);
    if ids.len() > 0 {
        let d = (ids[0] - last) as u32;
        let vb = varint_bytes(d as nat);
        let tail = delta_bytes(ids.drop_first(), ids[0]);
        assert(bytes =~= pre + vb + tail);
        lemma_varint_next_of_encoding(pre, d, tail);
        lemma_varint_bytes_nonempty(d as nat);
        let pre2 = pre + vb;
        assert(bytes =~= pre2 + tail);
        assert(sorted_ids(ids.drop_first()));
        lemma_delta_to_end_read_back(pre2, ids.drop_first(), ids[0]);
        assert(seq![ids[0]] + delta_run_to_end(bytes, pre2.len() as int, ids[0], (ids.len() - 1) as nat)
            =~= ids);
    }
}

/// The delta law for the decoder that stops where the data ends: decoding the
/// encoding of a nondecreasing run, with its length as the count, gives it back.
pub proof fn lemma_delta_to_end_roundtrip(ids: Seq<u32>)
    requires
        sorted_ids(ids),
    ensures
        delta_run_to_end_ok(delta_bytes(ids, 0), 0, 0, ids.len()),
        delta_run_to_end(delta_bytes(ids, 0), 0, 0, ids.len()) == ids,
{
    let e = Seq::<u8>::empty();
    lemma_delta_to_end_read_back(e, ids, 0);
    assert(e + delta_bytes(ids, 0) =~= delta_bytes(ids, 0));
}

/// Decodes up to `count` ids from a delta-encoded run, stopping early where the
/// data ends.
pub fn decode_delta(bytes: &[u8], count: usize) -> (ids: Vec<u32>)
    requires
        delta_run_to_end_ok(bytes@, 0, 0, count as nat),
    ensures
        ids@ == delta_run_to_end(bytes@, 0, 0, count as nat),
{
    let mut ids: Vec<u32> = Vec::new();
    let mut last: u32 = 0;
    let mut cursor: usize = 0;
    let mut k: usize = 0;
    while k < count
        invariant
            k <= count,
            delta_run_to_end_ok(bytes@, cursor as int, last, (count - k) as nat),
            delta_run_to_end(bytes@, 0, 0, count as nat) == ids@ + delta_run_to_end(
                bytes@,
                cursor as int,
                last,
                (count - k) as nat,
            ),
        ensures
            delta_run_to_end(bytes@, 0, 0, count as nat) == ids@,
        decreases count - k,
    {
        if cursor >= bytes.len() {
            assert(ids@ + Seq::<u32>::empty() =~= ids@);
            break;
        }
        let ghost g_rest = delta_run_to_end(bytes@, cursor as int, last, (count - k) as nat);
        let delta = decode_varint(bytes, &mut cursor);
        let id = last + delta;
        let ghost before = ids@;
        ids.push(id);
        assert(before + g_rest =~= ids@ + delta_run_to_end(
            bytes@,
            cursor as int,
            id,
            (count - k - 1) as nat,
        ));
        last = id;
        k = k + 1;
        if k == count {
            assert(ids@ + Seq::<u32>::empty() =~= ids@);
        }
    }
    ids
}

/// Encodes a posting list: for each entry the gap from the previous block id,
/// the number of positions, then the positions as a delta run.
pub fn encode_inverted_entry(block_positions: &[(u32, Vec<u32>)]) -> (encoded: Vec<u8>)
    requires
        entries_sorted(block_positions@.map_values(|e: (u32, Vec<u32>)| (e.0, e.1@)), 0),
    ensures
        encoded@ == entry_bytes(block_positions@.map_values(|e: (u32, Vec<u32>)| (e.0, e.1@)), 0),
{
    let ghost all = block_positions@.map_values(|e: (u32, Vec<u32>)| (e.0, e.1@));
    let mut encoded: Vec<u8> = Vec::new();
    let mut last_block_id: u32 = 0;
    let mut i: usize = 0;
    assert(all.subrange(0, all.len() as int) =~= all);
    assert(encoded@ + entry_bytes(all, 0) =~= entry_bytes(all, 0));
    while i < block_positions.len()
        invariant
            i <= block_positions@.len(),
            all == block_positions@.map_values(|e: (u32, Vec<u32>)| (e.0, e.1@)),
            entries_sorted(all, 0),
            i == 0 ==> last_block_id == 0,
            i > 0 ==> last_block_id == all[i - 1].0,
            entry_bytes(all, 0) == encoded@ + entry_bytes(
                all.subrange(i as int, all.len() as int),
                last_block_id,
            ),
        decreases block_positions@.len() - i,
    {
        let block_id = block_positions[i].0;
        let positions = &block_positions[i].1;
        assert(all[i as int] == (block_id, positions@));
        assert(sorted_ids(all[i as int].1));
        let ghost before = encoded@;
        let block_delta = block_id - last_block_id;
        let (buf, len) = encode_varint(block_delta);
        append_prefix(&mut encoded, &buf, len);
        let count = positions.len() as u32;
        let (buf, len) = encode_varint(count);
        append_prefix(&mut encoded, &buf, len);
        let pos_bytes = encode_delta(positions.as_slice());
        let mut j: usize = 0;
        let ghost mid = encoded@;
        while j < pos_bytes.len()
            invariant
                j <= pos_bytes@.len(),
                encoded@ == mid + pos_bytes@.subrange(0, j as int),
            decreases pos_bytes@.len() - j,
        {
            encoded.push(pos_bytes[j]);
            assert(pos_bytes@.subrange(0, j + 1) =~= pos_bytes@.subrange(0, j as int).push(
                pos_bytes@[j as int],
            ));
            j = j + 1;
        }
        assert(pos_bytes@.subrange(0, j as int) =~= pos_bytes@);
        let ghost rest = all.subrange(i as int, all.len() as int);
        assert(rest.drop_first() =~= all.subrange(i + 1, all.len() as int));
        assert(rest[0] == (block_id, positions@));
        assert(encoded@ + entry_bytes(all.subrange(i + 1, all.len() as int), block_id) =~= before + (
        varint_bytes(block_delta as nat) + varint_bytes(count as nat) + delta_bytes(positions@, 0)
            + entry_bytes(rest.drop_first(), block_id)));
        last_block_id = block_id;
        i = i + 1;
    }
    assert(all.subrange(i as int, all.len() as int) =~= Seq::<(u32, Seq<u32>)>::empty());
    assert(encoded@ + Seq::<u8>::empty() =~= encoded@);
    encoded
}

/// Decodes a posting list, reading entries until the data ends.
pub fn decode_inverted_entry(bytes: &[u8]) -> (entries: Vec<(u32, Vec<u32>)>)
    requires
        entries_ok(bytes@, 0, 0),
    ensures
        entries@.map_values(|e: (u32, Vec<u32>)| (e.0, e.1@)) == entries_from(bytes@, 0, 0),
{
    let mut results: Vec<(u32, Vec<u32>)> = Vec::new();
    let mut cursor: usize = 0;
    let mut last_block_id: u32 = 0;
    while cursor < bytes.len()
        invariant
            cursor <= bytes@.len(),
            entries_ok(bytes@, cursor as int, last_block_id),
            entries_from(bytes@, 0, 0) == results@.map_values(|e: (u32, Vec<u32>)| (e.0, e.1@))
                + entries_from(bytes@, cursor as int, last_block_id),
        decreases bytes@.len() - cursor,
    {
        let ghost c0 = cursor as int;
        let ghost (g_d, g_c1) = varint_next(bytes@, c0);
        proof {
            lemma_varint_next_moves(bytes@, c0);
            lemma_varint_next_moves(bytes@, g_c1);
        }
        let block_delta = decode_varint(bytes, &mut cursor);
        let block_id = last_block_id + block_delta;
        last_block_id = block_id;
        let ghost (g_n, g_c2) = varint_next(bytes@, cursor as int);
        let pos_count = decode_varint(bytes, &mut cursor) as usize;
        proof {
            lemma_delta_run_moves(bytes@, g_c2, 0, pos_count as nat);
        }
        let ghost (g_ps, g_c3) = delta_run(bytes@, g_c2, 0, pos_count as nat);
        let mut positions: Vec<u32> = Vec::new();
        let mut last_pos: u32 = 0;
        let mut k: usize = 0;
        while k < pos_count
            invariant
                k <= pos_count,
                cursor as int <= bytes@.len(),
                delta_run_ok(bytes@, cursor as int, last_pos, (pos_count - k) as nat),
                delta_run(bytes@, g_c2, 0, pos_count as nat) == (
                    positions@ + delta_run(bytes@, cursor as int, last_pos, (pos_count - k) as nat).0,
                    delta_run(bytes@, cursor as int, last_pos, (pos_count - k) as nat).1,
                ),
            decreases pos_count - k,
        {
            let ghost (g_rest, g_end) = delta_run(
                bytes@,
                cursor as int,
                last_pos,
                (pos_count - k) as nat,
            );
            proof {
                lemma_varint_next_moves(bytes@, cursor as int);
            }
            let pos_delta = decode_varint(bytes, &mut cursor);
            let pos = last_pos + pos_delta;
            let ghost before = positions@;
            positions.push(pos);
            assert(before + g_rest =~= positions@ + delta_run(
                bytes@,
                cursor as int,
                pos,
                (pos_count - k - 1) as nat,
            ).0);
            last_pos = pos;
            k = k + 1;
        }
        assert(positions@ + Seq::<u32>::empty() =~= positions@);
        assert(cursor as int == g_c3);
        let ghost before = results@.map_values(|e: (u32, Vec<u32>)| (e.0, e.1@));
        results.push((block_id, positions));
        assert(results@.map_values(|e: (u32, Vec<u32>)| (e.0, e.1@)) =~= before.push(
            (block_id, g_ps),
        ));
        assert(before + entries_from(bytes@, c0, (block_id - block_delta) as u32) =~= results@.map_values(
            |e: (u32, Vec<u32>)| (e.0, e.1@),
        ) + entries_from(bytes@, cursor as int, block_id));
    }
    assert(results@.map_values(|e: (u32, Vec<u32>)| (e.0, e.1@)) + Seq::<(u32, Seq<u32>)>::empty()
        =~= results@.map_values(|e: (u32, Vec<u32>)| (e.0, e.1@)));
    results
}

} // verus!
