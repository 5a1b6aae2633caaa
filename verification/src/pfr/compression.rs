//! Variable-length integers (seven bits per byte, low group first) and
//! delta-encoded runs of sorted ids.
use vstd::prelude::*;

verus! {

/// The encoding of `v`: groups of seven bits, least significant group first,
/// every byte but the last with its high bit set.
pub open spec fn varint_bytes(v: nat) -> Seq<u8>
    decreases v,
{
    if v < 128 {
        seq![v as u8]
    } else {
        seq![((v % 128) + 128) as u8] + varint_bytes(v / 128)
    }
}

/// How many bytes a decoder takes from the front of `s`: up to and including the
/// first byte whose high bit is clear, or all of `s` when there is none.
pub open spec fn varint_run_len(s: Seq<u8>) -> nat
    decreases s.len(),
{
    if s.len() == 0 {
        0
    } else if s[0] < 128 {
        1
    } else {
        1 + varint_run_len(s.drop_first())
    }
}

/// The number that the groups at the front of `s` spell, before any reduction
/// to 32 bits.
pub open spec fn varint_value(s: Seq<u8>) -> nat
    decreases s.len(),
{
    if s.len() == 0 {
        0
    } else if s[0] < 128 {
        s[0] as nat
    } else {
        (s[0] - 128) as nat + 128 * varint_value(s.drop_first())
    }
}

/// A decoder reads at most five bytes for one number: the run starting at
/// `cursor` ends within five bytes, or the cursor is already past the data.
pub open spec fn varint_readable(bytes: Seq<u8>, cursor: int) -> bool {
    cursor >= bytes.len() || varint_run_len(bytes.subrange(cursor, bytes.len() as int)) <= 5
}

/// The number read at `cursor`, reduced to 32 bits, and the cursor after it.
/// Past the end of the data the number is 0 and the cursor stays put.
pub open spec fn varint_next(bytes: Seq<u8>, cursor: int) -> (u32, int) {
    if cursor >= bytes.len() {
        (0, cursor)
    } else {
        let rest = bytes.subrange(cursor, bytes.len() as int);
        ((varint_value(rest) % 0x1_0000_0000) as u32, cursor + varint_run_len(rest))
    }
}

/// `count` numbers read from `cursor` on, each added to the one before (starting
/// from `last`): the ids and the cursor after the last of them.
pub open spec fn delta_run(bytes: Seq<u8>, cursor: int, last: u32, count: nat) -> (Seq<u32>, int)
    decreases count,
{
    if count == 0 {
        (seq![], cursor)
    } else {
        let (d, next) = varint_next(bytes, cursor);
        let id = (last + d) as u32;
        let (rest, end) = delta_run(bytes, next, id, (count - 1) as nat);
        (seq![id] + rest, end)
    }
}

/// Reading `delta_run(bytes, cursor, last, count)` neither reads an over-long
/// number nor lets a running id pass `u32::MAX`.
pub open spec fn delta_run_ok(bytes: Seq<u8>, cursor: int, last: u32, count: nat) -> bool
    decreases count,
{
    count == 0 || {
        let (d, next) = varint_next(bytes, cursor);
        &&& varint_readable(bytes, cursor)
        &&& last + d <= u32::MAX
        &&& delta_run_ok(bytes, next, (last + d) as u32, (count - 1) as nat)
    }
}

/// The ids in `ids` are in nondecreasing order.
pub open spec fn sorted_ids(ids: Seq<u32>) -> bool {
    forall|i: int, j: int| 0 <= i <= j < ids.len() ==> ids[i] <= ids[j]
}

/// The encoding of a nondecreasing run: the gap from `last` to the first id,
/// then the gap to each next id.
pub open spec fn delta_bytes(ids: Seq<u32>, last: u32) -> Seq<u8>
    decreases ids.len(),
{
    if ids.len() == 0 {
        seq![]
    } else {
        varint_bytes((ids[0] - last) as nat) + delta_bytes(ids.drop_first(), ids[0])
    }
}

// ---------------------------------------------------------------------------
// Lemmas
// ---------------------------------------------------------------------------

/// An encoding is one to five bytes long, by the size of the number.
pub proof fn lemma_varint_bytes_len(v: nat)
    ensures
        varint_bytes(v).len() >= 1,
        v < 128 ==> varint_bytes(v).len() == 1,
        v < 0x4000 ==> varint_bytes(v).len() <= 2,
        v < 0x20_0000 ==> varint_bytes(v).len() <= 3,
        v < 0x1000_0000 ==> varint_bytes(v).len() <= 4,
        v < 0x8_0000_0000 ==> varint_bytes(v).len() <= 5,
    decreases v,
{
    if v >= 128 {
        lemma_varint_bytes_len(v / 128);
    }
}

/// Whatever follows an encoding, a decoder reads exactly the encoding and gets
/// back the number.
pub proof fn lemma_varint_read_back(v: nat, rest: Seq<u8>)
    ensures
        varint_run_len(varint_bytes(v) + rest) == varint_bytes(v).len(),
        varint_value(varint_bytes(v) + rest) == v,
    decreases v,
{
    let s = varint_bytes(v) + rest;
    if v < 128 {
        assert(s[0] == v as u8);
    } else {
        lemma_varint_read_back(v / 128, rest);
        assert(s.drop_first() =~= varint_bytes(v / 128) + rest);
        assert(s[0] == ((v % 128) + 128) as u8);
    }
}

/// The number read back from an encoding of a 32-bit value, and the cursor
/// after it.
pub proof fn lemma_varint_next_of_encoding(pre: Seq<u8>, v: u32, rest: Seq<u8>)
    ensures
        varint_readable(pre + varint_bytes(v as nat) + rest, pre.len() as int),
        varint_next(pre + varint_bytes(v as nat) + rest, pre.len() as int) == (
            v,
            (pre.len() + varint_bytes(v as nat).len()) as int,
        ),
{
    let bytes = pre + varint_bytes(v as nat) + rest;
    let tail = bytes.subrange(pre.len() as int, bytes.len() as int);
    assert(tail =~= varint_bytes(v as nat) + rest);
    lemma_varint_read_back(v as nat, rest);
    lemma_varint_bytes_len(v as nat);
}

/// Reading a run of `delta_bytes`, wherever it stands, gives back the ids.
pub proof fn lemma_delta_read_back(pre: Seq<u8>, ids: Seq<u32>, last: u32, rest: Seq<u8>)
    requires
        sorted_ids(ids),
        ids.len() > 0 ==> last <= ids[0],
    ensures
        delta_run_ok(pre + delta_bytes(ids, last) + rest, pre.len() as int, last, ids.len()),
        delta_run(pre + delta_bytes(ids, last) + rest, pre.len() as int, last, ids.len()) == (
            ids,
            (pre.len() + delta_bytes(ids, last).len()) as int,
        ),
    decreases ids.len(),
{
    let bytes = pre + delta_bytes(ids, last) + rest;
    if ids.len() > 0 {
        let d = (ids[0] - last) as u32;
        let vb = varint_bytes(d as nat);
        let tail = delta_bytes(ids.drop_first(), ids[0]);
        assert(bytes =~= pre + vb + (tail + rest));
        lemma_varint_next_of_encoding(pre, d, tail + rest);
        let pre2 = pre + vb;
        assert(bytes =~= pre2 + tail + rest);
        assert(sorted_ids(ids.drop_first()));
        lemma_delta_read_back(pre2, ids.drop_first(), ids[0], rest);
        let (r, e) = delta_run(bytes, pre2.len() as int, ids[0], (ids.len() - 1) as nat);
        assert(seq![ids[0]] + r =~= ids);
    } else {
        assert(delta_bytes(ids, last) =~= seq![]);
    }
}

/// The varint law: decoding the encoding of any 32-bit value gives it back and
/// consumes exactly the encoding.
pub proof fn lemma_varint_roundtrip(v: u32)
    ensures
        varint_readable(varint_bytes(v as nat), 0),
        varint_next(varint_bytes(v as nat), 0) == (v, varint_bytes(v as nat).len() as int),
{
    let e = Seq::<u8>::empty();
    lemma_varint_next_of_encoding(e, v, e);
    assert(e + varint_bytes(v as nat) + e =~= varint_bytes(v as nat));
}

/// The delta law: decoding the encoding of a nondecreasing run, with its length
/// as the count, gives the run back.
pub proof fn lemma_delta_roundtrip(ids: Seq<u32>)
    requires
        sorted_ids(ids),
    ensures
        delta_run_ok(delta_bytes(ids, 0), 0, 0, ids.len()),
        delta_run(delta_bytes(ids, 0), 0, 0, ids.len()).0 == ids,
{
    let e = Seq::<u8>::empty();
    lemma_delta_read_back(e, ids, 0, e);
    assert(e + delta_bytes(ids, 0) + e =~= delta_bytes(ids, 0));
}

proof fn lemma_low_bits(b: u8)
    ensures
        b & 0x7F == b % 128,
        b & 0x80 == 0 <==> b < 128,
        (b & 0x7F) | 0x80 == b % 128 + 128,
{
    assert(b & 0x7F == b % 128) by (bit_vector);
    assert(b & 0x80 == 0 <==> b < 128) by (bit_vector);
    assert((b & 0x7F) | 0x80 == b % 128 + 128) by (bit_vector);
}

// ---------------------------------------------------------------------------
// Executable code
// ---------------------------------------------------------------------------

/// Encodes `value` into the front of a five-byte buffer; returns the buffer and
/// how many of its bytes the encoding takes. The other bytes are zero.
pub fn encode_varint(value: u32) -> (res: ([u8; 5], usize))
    ensures
        1 <= res.1 <= 5,
        res.1 == varint_bytes(value as nat).len(),
        res.0@.subrange(0, res.1 as int) == varint_bytes(value as nat),
        forall|i: int| res.1 <= i < 5 ==> res.0@[i] == 0,
{
    let ghost orig = value;
    let mut value = value;
    let mut buffer = [0u8; 5];
    let mut i: usize = 0;
    proof {
        lemma_varint_bytes_len(orig as nat);
    }
    while value >= 0x80
        invariant
            i <= 4,
            i == 0 ==> value == orig,
            i >= 1 ==> value < 0x200_0000,
            i >= 2 ==> value < 0x4_0000,
            i >= 3 ==> value < 0x800,
            i >= 4 ==> value < 0x10,
            varint_bytes(orig as nat) == buffer@.subrange(0, i as int) + varint_bytes(value as nat),
            forall|j: int| i <= j < 5 ==> buffer@[j] == 0,
        decreases value,
    {
        let low = value as u8;
        proof {
            assert(value as u8 == value % 256) by (bit_vector);
            lemma_low_bits(low);
        }
        let byte = (low & 0x7F) | 0x80;
        assert(byte == (value % 128) + 128);
        let ghost before = buffer@;
        buffer[i] = byte;
        assert(buffer@.subrange(0, i + 1) =~= before.subrange(0, i as int) + seq![byte]);
        assert(value >> 7 == value / 128) by (bit_vector);
        value = value >> 7;
        assert(buffer@.subrange(0, i + 1) + varint_bytes(value as nat) =~= before.subrange(0, i as int)
            + (seq![byte] + varint_bytes(value as nat)));
        i = i + 1;
    }
    let low = value as u8;
    proof {
        assert(value as u8 == value % 256) by (bit_vector);
        lemma_low_bits(low);
    }
    let ghost before = buffer@;
    buffer[i] = low & 0x7F;
    assert(buffer@.subrange(0, i + 1) =~= before.subrange(0, i as int) + varint_bytes(value as nat));
    (buffer, i + 1)
}

/// Reads one number at `*cursor` and moves the cursor past it. The number ends
/// at the first byte whose high bit is clear, or at the end of `bytes`; groups
/// beyond 32 bits are dropped. Past the end of `bytes` it reads 0 and leaves the
/// cursor where it is.
pub fn decode_varint(bytes: &[u8], cursor: &mut usize) -> (value: u32)
    requires
        varint_readable(bytes@, *old(cursor) as int),
    ensures
        (value, *final(cursor) as int) == varint_next(bytes@, *old(cursor) as int),
{
    if *cursor >= bytes.len() {
        return 0;
    }
    let ghost c0 = *cursor as int;
    let ghost all = bytes@.subrange(c0, bytes@.len() as int);
    let mut value: u64 = 0;
    let mut scale: u64 = 1;
    let mut consumed: usize = 0;
    while *cursor < bytes.len()
        invariant_except_break
            c0 < bytes@.len(),
            varint_run_len(all) <= 5,
            c0 <= *cursor <= bytes@.len(),
            consumed == *cursor - c0,
            consumed <= 5,
            consumed == 5 ==> *cursor == bytes@.len(),
            consumed == 0 ==> scale == 1,
            consumed == 1 ==> scale == 0x80,
            consumed == 2 ==> scale == 0x4000,
            consumed == 3 ==> scale == 0x20_0000,
            consumed == 4 ==> scale == 0x1000_0000,
            consumed == 5 ==> scale == 0x8_0000_0000,
            value < scale,
            varint_value(all) == value + scale * varint_value(
                bytes@.subrange(*cursor as int, bytes@.len() as int),
            ),
            varint_run_len(all) == consumed + varint_run_len(
                bytes@.subrange(*cursor as int, bytes@.len() as int),
            ),
        ensures
            *cursor == c0 + varint_run_len(all),
            value == varint_value(all),
        decreases bytes@.len() - *cursor,
    {
        let byte = bytes[*cursor];
        let ghost here = bytes@.subrange(*cursor as int, bytes@.len() as int);
        let ghost after = bytes@.subrange(*cursor + 1, bytes@.len() as int);
        assert(here.drop_first() =~= after);
        assert(here[0] == byte);
        *cursor = *cursor + 1;
        proof {
            lemma_low_bits(byte);
        }
        let group = (byte & 0x7F) as u64;
        assert(group < 128);
        let ghost v_here = varint_value(here);
        let ghost v_after = varint_value(after);
        if byte & 0x80 == 0 {
            assert(v_here == group);
            assert(varint_run_len(here) == 1);
            assert(value + scale * v_here == value + group * scale) by (nonlinear_arith)
                requires v_here == group;
            value = value + group * scale;
            assert(after.len() >= 0);
            assert(varint_value(bytes@.subrange(*cursor as int, bytes@.len() as int)) >= 0);
            break;
        }
        assert(v_here == group + 128 * v_after);
        assert(varint_run_len(here) == 1 + varint_run_len(after));
        assert(value + scale * v_here == (value + group * scale) + (scale * 128) * v_after)
            by (nonlinear_arith)
            requires v_here == group + 128 * v_after;
        assert(value + group * scale < scale * 128) by (nonlinear_arith)
            requires value < scale, group < 128;
        value = value + group * scale;
        scale = scale * 128;
        consumed = consumed + 1;
        if consumed == 5 {
            assert(varint_run_len(after) == 0);
            assert(after.len() == 0);
        }
    }
    proof {
        assert((value as u32) == value % 0x1_0000_0000) by (bit_vector);
    }
    #[verifier::truncate]
    (value as u32)
}

/// Encodes a nondecreasing run of ids as the gaps between neighbours, each gap
/// a varint (the first gap is from 0).
pub fn encode_delta(ids: &[u32]) -> (encoded: Vec<u8>)
    requires
        sorted_ids(ids@),
    ensures
        encoded@ == delta_bytes(ids@, 0),
{
    let mut encoded: Vec<u8> = Vec::new();
    let mut last: u32 = 0;
    let mut i: usize = 0;
    assert(ids@.subrange(0, ids@.len() as int) =~= ids@);
    assert(encoded@ + delta_bytes(ids@, 0) =~= delta_bytes(ids@, 0));
    while i < ids.len()
        invariant
            i <= ids@.len(),
            sorted_ids(ids@),
            i == 0 ==> last == 0,
            i > 0 ==> last == ids@[i - 1],
            delta_bytes(ids@, 0) == encoded@ + delta_bytes(ids@.subrange(i as int, ids@.len() as int), last),
        decreases ids@.len() - i,
    {
        let id = ids[i];
        let delta = id - last;
        let (buf, len) = encode_varint(delta);
        let ghost before = encoded@;
        append_prefix(&mut encoded, &buf, len);
        let ghost rest = ids@.subrange(i as int, ids@.len() as int);
        assert(rest.drop_first() =~= ids@.subrange(i + 1, ids@.len() as int));
        assert(rest[0] == id);
        assert(encoded@ + delta_bytes(ids@.subrange(i + 1, ids@.len() as int), id) =~= before + (
        varint_bytes(delta as nat) + delta_bytes(rest.drop_first(), id)));
        last = id;
        i = i + 1;
    }
    assert(ids@.subrange(i as int, ids@.len() as int) =~= Seq::<u32>::empty());
    assert(encoded@ + Seq::<u8>::empty() =~= encoded@);
    encoded
}

/// Appends the first `len` bytes of `buf` to `out`.
pub(crate) fn append_prefix(out: &mut Vec<u8>, buf: &[u8; 5], len: usize)
    requires
        len <= 5,
    ensures
        final(out)@ == old(out)@ + buf@.subrange(0, len as int),
{
    let mut j: usize = 0;
    while j < len
        invariant
            j <= len <= 5,
            out@ == old(out)@ + buf@.subrange(0, j as int),
        decreases len - j,
    {
        out.push(buf[j]);
        assert(buf@.subrange(0, j + 1) =~= buf@.subrange(0, j as int).push(buf@[j as int]));
        j = j + 1;
    }
}

/// Decodes `count` ids from a delta-encoded run. Once the data runs out each
/// further gap reads as 0, so the last id repeats until `count` ids are out.
pub fn decode_delta(bytes: &[u8], count: usize) -> (ids: Vec<u32>)
    requires
        delta_run_ok(bytes@, 0, 0, count as nat),
    ensures
        ids@ == delta_run(bytes@, 0, 0, count as nat).0,
{
    let mut ids: Vec<u32> = Vec::new();
    let mut last: u32 = 0;
    let mut cursor: usize = 0;
    let mut k: usize = 0;
    while k < count
        invariant
            k <= count,
            delta_run_ok(bytes@, cursor as int, last, (count - k) as nat),
            delta_run(bytes@, 0, 0, count as nat).0 == ids@ + delta_run(
                bytes@,
                cursor as int,
                last,
                (count - k) as nat,
            ).0,
        decreases count - k,
    {
        let ghost (g_rest, g_end) = delta_run(bytes@, cursor as int, last, (count - k) as nat);
        let delta = decode_varint(bytes, &mut cursor);
        let id = last + delta;
        let ghost before = ids@;
        ids.push(id);
        assert(before + g_rest =~= ids@ + delta_run(bytes@, cursor as int, id, (count - k - 1) as nat).0);
        last = id;
        k = k + 1;
    }
    assert(ids@ + Seq::<u32>::empty() =~= ids@);
    ids
}

} // verus!
