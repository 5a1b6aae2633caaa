//! The first engine's index file: the files, the 16-byte blocks and the terms
//! with their posting lists, and the law that what the indexer writes loads.
use vstd::prelude::*;
use vstd::utf8::encode_utf8;

use crate::pfr::indexer::{block_ref_bytes, block_refs_bytes, BlockRef};
use crate::pfr::searcher::{parse_ref_index, read_ref, read_refs, refs_valid};
use crate::skanda::index_file::{
    get32, lemma_concat_parts, lemma_get32_at, lemma_get64_at, lemma_read_files_back, lemma_sub_sub,
    lemma_subrange_in, lemma_terms_part, posting_list_fits, postings_valid, read_files,
};
use crate::skanda::indexer::{count_bytes, files_bytes, le32, le64, ref_index_bytes, terms_bytes};

verus! {


/// A stored block of the first engine reads back as itself.
proof fn lemma_read_ref_back(b: Seq<u8>, c: int, blk: BlockRef)
    requires
        0 <= c,
        c + 16 <= b.len(),
        b.subrange(c, c + 16) == block_ref_bytes(blk),
    ensures
        read_ref(b, c) == Some((blk, c + 16)),
{
    let bb = block_ref_bytes(blk);
    lemma_subrange_in(b, c, bb, 0, 4);
    lemma_subrange_in(b, c, bb, 4, 12);
    lemma_subrange_in(b, c, bb, 12, 16);
    assert(bb.subrange(0, 4) =~= le32(blk.0));
    assert(bb.subrange(4, 12) =~= le64(blk.1));
    assert(bb.subrange(12, 16) =~= le32(blk.2));
    lemma_get32_at(b, c, blk.0);
    lemma_get64_at(b, c + 4, blk.1);
    lemma_get32_at(b, c + 12, blk.2);
}

/// Blocks of the first engine: reading the first `k` leaves the reader at the rest.
proof fn lemma_refs_prefix(bs: Seq<BlockRef>, k: int, j: int)
    requires
        0 <= k <= j <= bs.len(),
    ensures
        block_refs_bytes(bs.take(k)).len() <= block_refs_bytes(bs.take(j)).len(),
        block_refs_bytes(bs.take(j)).subrange(0, block_refs_bytes(bs.take(k)).len() as int) == block_refs_bytes(bs.take(k)),
    decreases j - k,
{
    if k < j {
        lemma_refs_prefix(bs, k, j - 1);
        assert(bs.take(j).drop_last() =~= bs.take(j - 1));
        let a = block_refs_bytes(bs.take(k));
        let m = block_refs_bytes(bs.take(j - 1));
        assert(block_refs_bytes(bs.take(j)) == m + block_ref_bytes(bs.take(j).last()));
        assert((m + block_ref_bytes(bs.take(j).last())).subrange(0, a.len() as int) =~= m.subrange(0, a.len() as int));
    }
}

/// The stored blocks of the first engine read back as themselves.
proof fn lemma_read_refs_back(b: Seq<u8>, c: int, bs: Seq<BlockRef>, k: nat)
    requires
        0 <= c,
        k <= bs.len(),
        c + block_refs_bytes(bs).len() <= b.len(),
        b.subrange(c, c + block_refs_bytes(bs).len()) == block_refs_bytes(bs),
    ensures
        read_refs(b, c, bs.len(), seq![]) == read_refs(b, c + block_refs_bytes(bs.take(k as int)).len(), (bs.len() - k) as nat, bs.take(k as int)),
    decreases k,
{
    if k > 0 {
        let k1 = (k - 1) as int;
        lemma_read_refs_back(b, c, bs, (k - 1) as nat);
        let pre = block_refs_bytes(bs.take(k1));
        let bb = block_ref_bytes(bs[k1]);
        assert(bs.take(k as int).drop_last() =~= bs.take(k1));
        assert(block_refs_bytes(bs.take(k as int)) == pre + bb);
        lemma_refs_prefix(bs, k as int, bs.len() as int);
        assert(bs.take(bs.len() as int) =~= bs);
        let whole = block_refs_bytes(bs);
        let lp = pre.len() as int;
        let lb = bb.len() as int;
        lemma_subrange_in(whole, 0, pre + bb, lp, lp + lb);
        assert((pre + bb).subrange(lp, lp + lb) =~= bb);
        lemma_subrange_in(b, c, whole, lp, lp + lb);
        lemma_read_ref_back(b, c + pre.len(), bs[k1]);
        assert(bs.take(k1).push(bs[k1]) =~= bs.take(k as int));
    } else {
        assert(bs.take(0) =~= Seq::<BlockRef>::empty());
    }
}

/// Where each part of a first-engine index file stands.
proof fn lemma_ref_index_layout(
    files: Seq<Seq<char>>,
    blocks: Seq<BlockRef>,
    terms: Seq<Seq<char>>,
    postings: Seq<Seq<(u32, Seq<u32>)>>,
)
    ensures
        ({
            let b = ref_index_bytes(files, blocks, terms, postings);
            let c1: int = 4 + files_bytes(files).len() as int;
            let c2: int = c1 + 4 + block_refs_bytes(blocks).len();
            &&& b.len() == c2 + 4 + terms_bytes(terms, postings).len()
            &&& b.subrange(0, 4) == count_bytes(files.len())
            &&& b.subrange(4, c1) == files_bytes(files)
            &&& b.subrange(c1, c1 + 4) == count_bytes(blocks.len())
            &&& b.subrange(c1 + 4, c2) == block_refs_bytes(blocks)
            &&& b.subrange(c2, c2 + 4) == count_bytes(terms.len())
            &&& b.subrange(c2 + 4, b.len() as int) == terms_bytes(terms, postings)
        }),
{
    let p1 = count_bytes(files.len());
    let p2 = p1 + files_bytes(files);
    let p3 = p2 + count_bytes(blocks.len());
    let p4 = p3 + block_refs_bytes(blocks);
    let p5 = p4 + count_bytes(terms.len());
    let b = p5 + terms_bytes(terms, postings);
    assert(b == ref_index_bytes(files, blocks, terms, postings));
    lemma_concat_parts(p5, terms_bytes(terms, postings));
    lemma_concat_parts(p4, count_bytes(terms.len()));
    lemma_concat_parts(p3, block_refs_bytes(blocks));
    lemma_concat_parts(p2, count_bytes(blocks.len()));
    lemma_concat_parts(p1, files_bytes(files));
    lemma_sub_sub(b, p5.len() as int, p4.len() as int, p5.len() as int);
    lemma_sub_sub(b, p5.len() as int, 0, p4.len() as int);
    lemma_sub_sub(b, p4.len() as int, p3.len() as int, p4.len() as int);
    lemma_sub_sub(b, p4.len() as int, 0, p3.len() as int);
    lemma_sub_sub(b, p3.len() as int, p2.len() as int, p3.len() as int);
    lemma_sub_sub(b, p3.len() as int, 0, p2.len() as int);
    lemma_sub_sub(b, p2.len() as int, p1.len() as int, p2.len() as int);
    lemma_sub_sub(b, p2.len() as int, 0, p1.len() as int);
}

/// The first engine's index file law: reading the bytes written for an index
/// (files, blocks, terms, posting lists) gives that index back, whenever its
/// terms are distinct, its blocks name listed files and have countable bit
/// sets, its postings name listed blocks, and it fits the layout.
pub proof fn lemma_ref_index_roundtrip(
    files: Seq<Seq<char>>,
    blocks: Seq<BlockRef>,
    terms: Seq<Seq<char>>,
    postings: Seq<Seq<(u32, Seq<u32>)>>,
)
    requires
        terms.len() == postings.len(),
        forall|i: int, j: int| 0 <= i < j < terms.len() ==> terms[i] != terms[j],
        refs_valid(blocks, files.len()),
        postings_valid(postings, blocks.len()),
        files.len() < 0x1_0000_0000,
        blocks.len() < 0x1_0000_0000,
        terms.len() < 0x1_0000_0000,
        forall|i: int| 0 <= i < files.len() ==> encode_utf8(#[trigger] files[i]).len() < 0x1_0000,
        forall|i: int| 0 <= i < terms.len() ==> encode_utf8(#[trigger] terms[i]).len() < 0x1_0000,
        forall|i: int| 0 <= i < postings.len() ==> posting_list_fits(#[trigger] postings[i]),
    ensures
        parse_ref_index(ref_index_bytes(files, blocks, terms, postings)) == Some((files, blocks, terms, postings)),
{
    let b = ref_index_bytes(files, blocks, terms, postings);
    lemma_ref_index_layout(files, blocks, terms, postings);
    let c1: int = 4 + files_bytes(files).len() as int;
    let c2: int = c1 + 4 + block_refs_bytes(blocks).len();
    lemma_ref_files_part(b, files, c1);
    lemma_ref_blocks_part(b, blocks, c1, c2);
    lemma_terms_part(b, terms, postings, c2);
}

/// The file list of a first-engine index file reads back.
proof fn lemma_ref_files_part(b: Seq<u8>, files: Seq<Seq<char>>, c1: int)
    requires
        c1 == 4 + files_bytes(files).len(),
        c1 <= b.len(),
        files.len() < 0x1_0000_0000,
        forall|i: int| 0 <= i < files.len() ==> encode_utf8(#[trigger] files[i]).len() < 0x1_0000,
        b.subrange(0, 4) == count_bytes(files.len()),
        b.subrange(4, c1) == files_bytes(files),
    ensures
        read_files(b, 4, get32(b, 0) as nat, seq![]) == Some((files, c1)),
{
    lemma_get32_at(b, 0, (files.len() % 0x1_0000_0000) as u32);
    lemma_read_files_back(b, 4, files, files.len());
    assert(files.take(files.len() as int) =~= files);
}

/// The block list of a first-engine index file reads back.
proof fn lemma_ref_blocks_part(b: Seq<u8>, blocks: Seq<BlockRef>, c1: int, c2: int)
    requires
        0 <= c1,
        c2 == c1 + 4 + block_refs_bytes(blocks).len(),
        c2 <= b.len(),
        blocks.len() < 0x1_0000_0000,
        b.subrange(c1, c1 + 4) == count_bytes(blocks.len()),
        b.subrange(c1 + 4, c2) == block_refs_bytes(blocks),
    ensures
        read_refs(b, c1 + 4, get32(b, c1) as nat, seq![]) == Some((blocks, c2)),
{
    lemma_get32_at(b, c1, (blocks.len() % 0x1_0000_0000) as u32);
    lemma_read_refs_back(b, c1 + 4, blocks, blocks.len());
    assert(blocks.take(blocks.len() as int) =~= blocks);
}

} // verus!
