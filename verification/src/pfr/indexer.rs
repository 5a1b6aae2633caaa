//! The first engine's index: for each word, the blocks whose text holds it with
//! the word's byte offsets in each, and the file layout its searcher reads.
use vstd::prelude::*;
use vstd::utf8::encode_utf8;

use crate::pfr::searcher::{parse_ref_index, refs_valid};
use crate::pfr::index_file::lemma_ref_index_roundtrip;
use crate::skanda::index_file::{posting_list_fits, postings_valid};
use crate::skanda::indexer::{
    add_groups, block_refs, block_terms, le32, le64, ref_index_bytes, saturated_count, tokens,
    Indexer as PositionalIndexer,
};
use crate::text::{lossy_text, lowercase};

verus! {

/// A block of a file: (file id, byte offset, byte length).
pub type BlockRef = (u32, u64, u32);

/// One stored block: file id, offset, length.
pub open spec fn block_ref_bytes(b: BlockRef) -> Seq<u8> {
    le32(b.0) + le64(b.1) + le32(b.2)
}

/// The stored blocks.
pub open spec fn block_refs_bytes(blocks: Seq<BlockRef>) -> Seq<u8>
    decreases blocks.len(),
{
    if blocks.len() == 0 {
        seq![]
    } else {
        block_refs_bytes(blocks.drop_last()) + block_ref_bytes(blocks.last())
    }
}

/// An index under construction: the positional index, whose blocks are stored
/// without their word counts.
pub struct Indexer {
    inner: PositionalIndexer,
}

impl Indexer {
    /// The indexed words, in order of first appearance.
    pub closed spec fn terms(&self) -> Seq<Seq<char>> {
        self.inner.terms()
    }

    /// For each word, its posting list: block id and the word's byte offsets in
    /// the block's lowercase text.
    pub closed spec fn postings(&self) -> Seq<Seq<(u32, Seq<u32>)>> {
        self.inner.postings()
    }

    /// The blocks read so far.
    pub closed spec fn blocks(&self) -> Seq<BlockRef> {
        block_refs(self.inner.blocks())
    }

    /// The files registered so far.
    pub closed spec fn files(&self) -> Seq<Seq<char>> {
        self.inner.files()
    }

    /// Terms distinct, one posting list each, naming existing blocks in
    /// increasing order; every block names a registered file.
    pub closed spec fn wf(&self) -> bool {
        self.inner.wf()
    }

    /// The index fits the file layout: counts in 32 bits, strings in 16 bits,
    /// posting lists encodable, and each block's bit set countable.
    pub open spec fn fits(&self) -> bool {
        &&& self.files().len() < 0x1_0000_0000
        &&& self.blocks().len() < 0x1_0000_0000
        &&& self.terms().len() < 0x1_0000_0000
        &&& forall|i: int| 0 <= i < self.files().len() ==> encode_utf8(#[trigger] self.files()[i]).len() < 0x1_0000
        &&& forall|i: int| 0 <= i < self.terms().len() ==> encode_utf8(#[trigger] self.terms()[i]).len() < 0x1_0000
        &&& forall|i: int| 0 <= i < self.postings().len() ==> posting_list_fits(#[trigger] self.postings()[i])
        &&& forall|i: int| 0 <= i < self.blocks().len() ==> (#[trigger] self.blocks()[i]).2 + 63 <= usize::MAX
    }

    pub fn new() -> (ix: Self)
        ensures
            ix.wf(),
            ix.terms() == Seq::<Seq<char>>::empty(),
            ix.postings() == Seq::<Seq<(u32, Seq<u32>)>>::empty(),
            ix.blocks() == Seq::<BlockRef>::empty(),
            ix.files() == Seq::<Seq<char>>::empty(),
    {
        let ix = Indexer { inner: PositionalIndexer::new() };
        assert(ix.blocks() =~= Seq::<BlockRef>::empty());
        ix
    }

    /// The number of files registered.
    pub fn file_count(&self) -> (n: usize)
        ensures
            n == self.files().len(),
    {
        self.inner.file_count()
    }

    /// The number of blocks indexed.
    pub fn block_count(&self) -> (n: usize)
        ensures
            n == self.blocks().len(),
    {
        self.inner.block_count()
    }

    /// Registers the path of a file being indexed; its id is its place in the
    /// file list.
    pub fn add_file(&mut self, path: String) -> (id: usize)
        requires
            old(self).wf(),
        ensures
            id == old(self).files().len(),
            final(self).wf(),
            final(self).files() == old(self).files().push(path@),
            final(self).terms() == old(self).terms(),
            final(self).postings() == old(self).postings(),
            final(self).blocks() == old(self).blocks(),
    {
        self.inner.add_file(path)
    }

    /// Indexes one block of a file: records it under the next block id and
    /// appends to the posting list of each distinct word of its lowercase text
    /// the block with the word's byte offsets. A block whose lowercase text
    /// does not fit 32-bit offsets is not indexed (the result is false).
    pub fn index_block(&mut self, file_id: u32, offset: u64, len: u32, text: &str) -> (indexed: bool)
        requires
            old(self).wf(),
            old(self).blocks().len() < u32::MAX,
            file_id < old(self).files().len(),
            offset + len <= u64::MAX,
        ensures
            final(self).wf(),
            final(self).files() == old(self).files(),
            indexed == (encode_utf8(lowercase(text@)).len() <= u32::MAX),
            indexed ==> final(self).blocks() == old(self).blocks().push((file_id, offset, len)),
            indexed ==> (final(self).terms(), final(self).postings()) == add_groups(
                old(self).terms(),
                old(self).postings(),
                block_terms(text@),
                old(self).blocks().len() as u32,
            ),
            !indexed ==> final(self).blocks() == old(self).blocks() && final(self).terms()
                == old(self).terms() && final(self).postings() == old(self).postings(),
    {
        let ghost before = self.inner.blocks();
        let indexed = self.inner.index_block(file_id, offset, len, text);
        proof {
            if indexed {
                let c = saturated_count(tokens(lowercase(text@)).len());
                assert(block_refs(before.push((file_id, offset, len, c))) =~= block_refs(before).push((file_id, offset, len)));
            }
        }
        indexed
    }

    /// Indexes the bytes read for one block of a file, taken as text the way
    /// `String::from_utf8_lossy` takes them (see `index_block`).
    pub fn index_chunk(&mut self, file_id: u32, offset: u64, bytes: &[u8]) -> (indexed: bool)
        requires
            old(self).wf(),
            old(self).blocks().len() < u32::MAX,
            file_id < old(self).files().len(),
            bytes@.len() <= u32::MAX,
            offset + bytes@.len() <= u64::MAX,
        ensures
            final(self).wf(),
            final(self).files() == old(self).files(),
            indexed == (encode_utf8(lowercase(lossy_text(bytes@))).len() <= u32::MAX),
            indexed ==> final(self).blocks() == old(self).blocks().push((file_id, offset, bytes@.len() as u32)),
            indexed ==> (final(self).terms(), final(self).postings()) == add_groups(
                old(self).terms(),
                old(self).postings(),
                block_terms(lossy_text(bytes@)),
                old(self).blocks().len() as u32,
            ),
            !indexed ==> final(self).blocks() == old(self).blocks() && final(self).terms()
                == old(self).terms() && final(self).postings() == old(self).postings(),
    {
        let ghost before = self.inner.blocks();
        let indexed = self.inner.index_chunk(file_id, offset, bytes);
        proof {
            if indexed {
                let c = saturated_count(tokens(lowercase(lossy_text(bytes@))).len());
                assert(block_refs(before.push((file_id, offset, bytes@.len() as u32, c))) =~= block_refs(before).push(
                    (file_id, offset, bytes@.len() as u32),
                ));
            }
        }
        indexed
    }

    /// The index file: the files, the blocks and the terms with their posting
    /// lists, each list after its 32-bit count (see `ref_index_bytes`).
    pub fn to_bytes(&self) -> (bytes: Vec<u8>)
        requires
            self.wf(),
        ensures
            bytes@ == ref_index_bytes(self.files(), self.blocks(), self.terms(), self.postings()),
    {
        self.inner.to_ref_bytes()
    }

}

/// The posting-list law of a whole index: the terms are distinct and each has
/// one posting list, whose block ids are existing blocks in strictly
/// increasing order (so each block appears once per term).
pub proof fn lemma_index_postings(ix: &Indexer)
    requires
        ix.wf(),
    ensures
        ix.terms().len() == ix.postings().len(),
        forall|i: int, j: int| 0 <= i < j < ix.terms().len() ==> ix.terms()[i] != ix.terms()[j],
        forall|i: int, k: int| 0 <= i < ix.postings().len() && 0 <= k < ix.postings()[i].len()
            ==> (#[trigger] ix.postings()[i][k]).0 < ix.blocks().len(),
        forall|i: int, j: int, k: int| 0 <= i < ix.postings().len() && 0 <= j < k < ix.postings()[i].len()
            ==> (#[trigger] ix.postings()[i][j]).0 < (#[trigger] ix.postings()[i][k]).0,
{
    crate::skanda::indexer::lemma_index_postings(&ix.inner);
}

/// The saved index loads back: for an index that fits the file layout, the
/// bytes `to_bytes` writes parse (as `Searcher::from_bytes` reads them) to the
/// same files, blocks, terms and posting lists.
pub proof fn lemma_saved_index_loads(ix: &Indexer)
    requires
        ix.wf(),
        ix.fits(),
    ensures
        parse_ref_index(ref_index_bytes(ix.files(), ix.blocks(), ix.terms(), ix.postings())) == Some(
            (ix.files(), ix.blocks(), ix.terms(), ix.postings()),
        ),
{
    ix.inner.lemma_consistent();
    let blocks = ix.blocks();
    assert(refs_valid(blocks, ix.files().len())) by {
        assert forall|i: int| 0 <= i < blocks.len() implies (#[trigger] blocks[i]).0 < ix.files().len()
            && blocks[i].2 + 63 <= usize::MAX by {
            assert(blocks[i].0 == ix.inner.blocks()[i].0);
        }
    }
    assert(postings_valid(ix.postings(), blocks.len()));
    lemma_ref_index_roundtrip(ix.files(), blocks, ix.terms(), ix.postings());
}

} // verus!
