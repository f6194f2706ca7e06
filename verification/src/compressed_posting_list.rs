//! The immutable posting list: ids cut into blocks of 128, each block
//! delta-coded against its first id and bit-packed.

use vstd::prelude::*;
use vstd::layout::size_of;
use bitpacking::BitPacker4x;
use crate::block_codec::{
    bit_width, compress_sorted, decompress_sorted, gap_bits, max_gap, new_bitpacker,
    num_bits_sorted, packable, packed_block, packed_len, unpacked_block, BLOCK_LEN,
};
use crate::posting_list::PostingList;
use crate::sorted::strictly_increasing;

verus! {

/// One packed block: its first id, and the packed deltas. The number of bytes
/// tells the bit width: 16 bytes per bit.
#[derive(Clone, Debug)]
pub struct CompressedPostingChunk {
    offset: u32,
    data: Vec<u8>,
}

/// A posting list held as packed blocks. The last block is filled up with
/// copies of the last id; `len` says how many ids count.
#[derive(Clone, Debug)]
pub struct CompressedPostingList {
    len: u32,
    data: Vec<CompressedPostingChunk>,
}

/// Number of blocks that `n` ids take.
pub open spec fn block_count(n: nat) -> nat {
    (n + 127) / 128
}

/// Block `b` of a list of ids: 128 ids from position `128 * b` on, with the
/// last id repeated beyond the end of the list.
pub open spec fn block_of(ids: Seq<u32>, b: int) -> Seq<u32> {
    Seq::new(
        128,
        |i: int|
            if 128 * b + i < ids.len() {
                ids[128 * b + i]
            } else {
                ids.last()
            },
    )
}

/// Bits per delta of a block that is coded against its own first id.
pub open spec fn block_bits(block: Seq<u32>) -> u8 {
    gap_bits(block[0], block) as u8
}

/// Packing the block and unpacking the bytes gives the block back.
pub open spec fn block_survives(block: Seq<u32>) -> bool {
    unpacked_block(block[0], packed_block(block[0], block, block_bits(block)), block_bits(block))
        == block
}

/// Every block of the list comes back from the packer as it went in.
pub open spec fn survives_packing(ids: Seq<u32>) -> bool {
    forall|b: int| 0 <= b < block_count(ids.len()) ==> block_survives(#[trigger] block_of(ids, b))
}

/// The elements of `all` for which `filter` answered `true`, in order.
pub open spec fn is_selection<F: Fn(u32) -> bool>(all: Seq<u32>, kept: Seq<u32>, filter: F) -> bool
    decreases all.len(),
{
    if all.len() == 0 {
        kept.len() == 0
    } else {
        ||| {
            &&& call_ensures(filter, (all.last(),), true)
            &&& kept.len() > 0
            &&& kept.last() == all.last()
            &&& is_selection(all.drop_last(), kept.drop_last(), filter)
        }
        ||| {
            &&& call_ensures(filter, (all.last(),), false)
            &&& is_selection(all.drop_last(), kept, filter)
        }
    }
}

/// A block cut from an ascending list is what the packer asks for.
pub proof fn lemma_block_is_packable(ids: Seq<u32>, b: int)
    requires
        strictly_increasing(ids),
        0 <= b < block_count(ids.len()),
    ensures
        packable(block_of(ids, b)[0], block_of(ids, b)),
{
    let block = block_of(ids, b);
    assert forall|i: int, j: int| 0 <= i <= j < block.len() implies block[i] <= block[j] by {
        if 128 * b + j < ids.len() {
            if i < j {
                assert(ids[128 * b + i] < ids[128 * b + j]);
            }
        } else if 128 * b + i < ids.len() {
            if 128 * b + i < ids.len() - 1 {
                assert(ids[128 * b + i] < ids[ids.len() - 1]);
            }
        }
    }
}

impl CompressedPostingChunk {
    /// The first id of the block, against which the deltas are coded.
    pub closed spec fn offset(&self) -> u32 {
        self.offset
    }

    /// The packed deltas.
    pub closed spec fn bytes(&self) -> Seq<u8> {
        self.data@
    }

    /// Bits per delta, told by the number of bytes.
    pub open spec fn bits(&self) -> u8 {
        (self.bytes().len() / 16) as u8
    }

    /// The 128 ids that the chunk decodes to.
    pub open spec fn ids(&self) -> Seq<u32> {
        unpacked_block(self.offset(), self.bytes(), self.bits())
    }

    /// The byte count is 16 per bit of a width up to 32, and the chunk
    /// decodes to a full block.
    pub open spec fn wf(&self) -> bool {
        &&& self.bytes().len() % 16 == 0
        &&& self.bytes().len() <= 512
        &&& self.ids().len() == BLOCK_LEN
    }

    /// The chunk is block `block` packed at its own bit width, and decodes
    /// to it.
    pub open spec fn holds(&self, block: Seq<u32>) -> bool {
        &&& self.offset() == block[0]
        &&& self.bytes() == packed_block(block[0], block, block_bits(block))
        &&& self.bytes().len() == packed_len(gap_bits(block[0], block))
        &&& self.ids() == block
    }
}

/// Copies block `b` out of an ascending list, filling up with the last id.
fn block_at(list: &Vec<u32>, b: usize) -> (block: Vec<u32>)
    requires
        list@.len() > 0,
        b < block_count(list@.len()),
        list@.len() + BLOCK_LEN <= usize::MAX,
    ensures
        block@ == block_of(list@, b as int),
{
    let last: u32 = list[list.len() - 1];
    let start: usize = b * BLOCK_LEN;
    let mut block: Vec<u32> = Vec::with_capacity(BLOCK_LEN);
    let mut i: usize = 0;
    while i < BLOCK_LEN
        invariant
            i <= BLOCK_LEN,
            start == b * BLOCK_LEN,
            start + BLOCK_LEN <= list@.len() + BLOCK_LEN <= usize::MAX,
            list@.len() > 0,
            last == list@.last(),
            block@.len() == i,
            forall|k: int| 0 <= k < i ==> block@[k] == block_of(list@, b as int)[k],
        decreases BLOCK_LEN - i,
    {
        let at: usize = start + i;
        let id: u32 = if at < list.len() {
            list[at]
        } else {
            last
        };
        block.push(id);
        i += 1;
    }
    assert(block@ =~= block_of(list@, b as int));
    block
}

/// Packs one block against its first id.
fn encode_block(bitpacker: &BitPacker4x, block: &Vec<u32>) -> (chunk: CompressedPostingChunk)
    requires
        packable(block@[0], block@),
    ensures
        chunk.offset() == block@[0],
        chunk.bytes() == packed_block(block@[0], block@, block_bits(block@)),
        chunk.bytes().len() == packed_len(gap_bits(block@[0], block@)),
        chunk.bytes().len() % 16 == 0,
        chunk.bytes().len() <= 512,
        chunk.bits() == block_bits(block@),
{
    let offset: u32 = block[0];
    let chunk_bits: u8 = num_bits_sorted(bitpacker, offset, block.as_slice());
    let chunk_size: usize = (chunk_bits as usize) * BLOCK_LEN / 8;
    let mut data: Vec<u8> = vec![0u8; chunk_size];
    compress_sorted(bitpacker, offset, block.as_slice(), &mut data, chunk_bits);
    CompressedPostingChunk { offset, data }
}

/// Unpacks one chunk into its 128 ids.
fn decode_chunk(bitpacker: &BitPacker4x, chunk: &CompressedPostingChunk) -> (ids: Vec<u32>)
    requires
        chunk.bytes().len() % 16 == 0,
        chunk.bytes().len() <= 512,
    ensures
        ids@ == chunk.ids(),
        ids@.len() == BLOCK_LEN,
{
    let chunk_bits: usize = (chunk.data.len() * 8) / BLOCK_LEN;
    let mut decompressed: Vec<u32> = vec![0u32; BLOCK_LEN];
    decompress_sorted(bitpacker, chunk.offset, &chunk.data, &mut decompressed, chunk_bits as u8);
    decompressed
}

/// Whether two blocks hold the same ids.
fn same_ids(a: &Vec<u32>, b: &Vec<u32>) -> (same: bool)
    ensures
        same == (a@ == b@),
{
    if a.len() != b.len() {
        return false;
    }
    let mut i: usize = 0;
    while i < a.len()
        invariant
            i <= a@.len(),
            a@.len() == b@.len(),
            forall|k: int| 0 <= k < i ==> a@[k] == b@[k],
        decreases a@.len() - i,
    {
        if a[i] != b[i] {
            return false;
        }
        i += 1;
    }
    assert(a@ =~= b@);
    true
}

/// Bytes that the chunks take: for each its packed deltas, the vector that
/// holds them and its first id.
pub open spec fn chunks_size(chunks: Seq<CompressedPostingChunk>) -> nat
    decreases chunks.len(),
{
    if chunks.len() == 0 {
        0
    } else {
        chunks_size(chunks.drop_last()) + chunks.last().bytes().len() + size_of::<Vec<u8>>()
            + size_of::<u32>()
    }
}

impl View for CompressedPostingList {
    type V = Seq<u32>;

    /// The ids that the list decodes to: the first `len` of what its chunks
    /// hold.
    closed spec fn view(&self) -> Seq<u32> {
        Seq::new(self.len as nat, |i: int| self.data@[i / 128].ids()[i % 128])
    }
}

impl Default for CompressedPostingList {
    /// The list without ids.
    fn default() -> (r: Self)
        ensures
            r.wf(),
            r@ == Seq::<u32>::empty(),
    {
        let r = Self { len: 0, data: Vec::new() };
        assert(r@ =~= Seq::<u32>::empty());
        r
    }
}

impl CompressedPostingList {
    /// The chunks of the list.
    pub closed spec fn chunks(&self) -> Seq<CompressedPostingChunk> {
        self.data@
    }

    /// There are as many chunks as the ids need, and each is well formed.
    pub open spec fn wf(&self) -> bool {
        &&& self.chunks().len() == block_count(self@.len())
        &&& forall|b: int| 0 <= b < self.chunks().len() ==> (#[trigger] self.chunks()[b]).wf()
    }

    /// Chunk `b` of the list is block `b` of `ids`, packed.
    pub open spec fn encodes(&self, ids: Seq<u32>) -> bool {
        &&& self.chunks().len() == block_count(ids.len())
        &&& forall|b: int|
            0 <= b < self.chunks().len() ==> (#[trigger] self.chunks()[b]).holds(block_of(ids, b))
    }

    /// Whether every block of the list comes back from the packer unchanged:
    /// each block is packed, unpacked again and compared.
    pub fn check_blocks(posting_list: &PostingList) -> (ok: bool)
        requires
            posting_list.wf(),
            posting_list@.len() + BLOCK_LEN <= usize::MAX,
        ensures
            ok == survives_packing(posting_list@),
    {
        let list = posting_list.as_vec();
        if list.len() == 0 {
            return true;
        }
        let bitpacker = new_bitpacker();
        let chunks_count: usize = (list.len() + (BLOCK_LEN - 1)) / BLOCK_LEN;
        let mut b: usize = 0;
        while b < chunks_count
            invariant
                b <= chunks_count,
                chunks_count == block_count(list@.len()),
                list@ == posting_list@,
                list@.len() > 0,
                list@.len() + BLOCK_LEN <= usize::MAX,
                strictly_increasing(list@),
                forall|k: int| 0 <= k < b ==> block_survives(#[trigger] block_of(list@, k)),
            decreases chunks_count - b,
        {
            let block = block_at(list, b);
            proof {
                lemma_block_is_packable(list@, b as int);
            }
            let chunk = encode_block(&bitpacker, &block);
            let decompressed = decode_chunk(&bitpacker, &chunk);
            if !same_ids(&decompressed, &block) {
                assert(!block_survives(block_of(list@, b as int)));
                return false;
            }
            b += 1;
        }
        true
    }

    /// Packs a posting list whose blocks survive packing. The ids are
    /// ascending already, so they are cut into blocks as they stand.
    pub fn new(posting_list: PostingList) -> (r: Self)
        requires
            posting_list.wf(),
            posting_list@.len() <= u32::MAX,
            posting_list@.len() + BLOCK_LEN <= usize::MAX,
            survives_packing(posting_list@),
        ensures
            r.wf(),
            r@ == posting_list@,
            r.encodes(posting_list@),
    {
        let list = posting_list.as_vec();
        if list.len() == 0 {
            return Self::default();
        }
        let bitpacker = new_bitpacker();
        let len: u32 = list.len() as u32;
        let chunks_count: usize = (list.len() + (BLOCK_LEN - 1)) / BLOCK_LEN;
        let mut data: Vec<CompressedPostingChunk> = Vec::with_capacity(chunks_count);
        let mut b: usize = 0;
        while b < chunks_count
            invariant
                b <= chunks_count,
                chunks_count == block_count(list@.len()),
                list@.len() > 0,
                list@.len() + BLOCK_LEN <= usize::MAX,
                strictly_increasing(list@),
                survives_packing(list@),
                data@.len() == b,
                forall|k: int| 0 <= k < b ==> (#[trigger] data@[k]).holds(block_of(list@, k)),
                forall|k: int| 0 <= k < b ==> (#[trigger] data@[k]).wf(),
            decreases chunks_count - b,
        {
            let block = block_at(list, b);
            proof {
                lemma_block_is_packable(list@, b as int);
                assert(block_survives(block_of(list@, b as int)));
            }
            let chunk = encode_block(&bitpacker, &block);
            data.push(chunk);
            b += 1;
        }
        let r = Self { len, data };
        proof {
            lemma_decodes(list@, r);
        }
        r
    }

    /// Packs a posting list after checking that each of its blocks survives
    /// packing; `None` where one does not.
    pub fn try_new(posting_list: PostingList) -> (r: Option<Self>)
        requires
            posting_list.wf(),
            posting_list@.len() <= u32::MAX,
            posting_list@.len() + BLOCK_LEN <= usize::MAX,
        ensures
            r is Some <==> survives_packing(posting_list@),
            r matches Some(c) ==> c.wf() && c@ == posting_list@ && c.encodes(posting_list@),
    {
        if Self::check_blocks(&posting_list) {
            Some(Self::new(posting_list))
        } else {
            None
        }
    }

    /// Bytes that the list takes: its length field, the vector of chunks and
    /// the chunks.
    pub open spec fn spec_size(&self) -> nat {
        size_of::<u32>() + size_of::<Vec<CompressedPostingChunk>>() + chunks_size(self.chunks())
    }

    /// The memory that the list takes in bytes, held at `usize::MAX` where
    /// the sum goes beyond it.
    pub fn size(&self) -> (n: usize)
        ensures
            n == if self.spec_size() <= usize::MAX {
                self.spec_size()
            } else {
                usize::MAX as nat
            },
    {
        let head: usize = core::mem::size_of::<u32>().saturating_add(
            core::mem::size_of::<Vec<CompressedPostingChunk>>(),
        );
        let per_chunk: usize = core::mem::size_of::<Vec<u8>>().saturating_add(
            core::mem::size_of::<u32>(),
        );
        let mut total: usize = 0;
        let mut b: usize = 0;
        while b < self.data.len()
            invariant
                b <= self.data@.len(),
                per_chunk == if size_of::<Vec<u8>>() + size_of::<u32>() <= usize::MAX {
                    size_of::<Vec<u8>>() + size_of::<u32>()
                } else {
                    usize::MAX as nat
                },
                total == if chunks_size(self.data@.take(b as int)) <= usize::MAX {
                    chunks_size(self.data@.take(b as int))
                } else {
                    usize::MAX as nat
                },
            decreases self.data@.len() - b,
        {
            proof {
                let upto = self.data@.take(b + 1);
                assert(upto.drop_last() =~= self.data@.take(b as int));
                assert(upto.last() == self.data@[b as int]);
            }
            total = total.saturating_add(self.data[b].data.len()).saturating_add(per_chunk);
            b += 1;
        }
        assert(self.data@.take(b as int) =~= self.data@);
        head.saturating_add(total)
    }

    /// The number of ids in the list.
    pub fn len(&self) -> (n: usize)
        ensures
            n == self@.len(),
    {
        self.len as usize
    }

    /// Whether the list holds `val`: the chunks are unpacked one by one and
    /// searched from the front.
    pub fn contains(&self, val: &u32) -> (found: bool)
        requires
            self.wf(),
        ensures
            found == self@.contains(*val),
    {
        let bitpacker = new_bitpacker();
        let len: usize = self.len as usize;
        let mut decompressed: Vec<u32> = Vec::new();
        let mut i: usize = 0;
        while i < len
            invariant
                i <= len,
                len == self@.len(),
                len == self.len,
                self.wf(),
                i % 128 != 0 ==> decompressed@ == self.data@[i as int / 128].ids(),
                forall|k: int| 0 <= k < i ==> self@[k] != *val,
            decreases len - i,
        {
            if i % BLOCK_LEN == 0 {
                assert(self.chunks()[i as int / 128].wf());
                decompressed = decode_chunk(&bitpacker, &self.data[i / BLOCK_LEN]);
            }
            let doc_id: u32 = decompressed[i % BLOCK_LEN];
            assert(doc_id == self@[i as int]);
            if doc_id == *val {
                return true;
            }
            i += 1;
        }
        false
    }

    /// The ids of the list for which `filter` answers `true`, in ascending
    /// order.
    pub fn iter<F: Fn(u32) -> bool>(&self, filter: F) -> (ids: Vec<u32>)
        requires
            self.wf(),
            forall|id: u32| call_requires(filter, (id,)),
        ensures
            is_selection(self@, ids@, filter),
    {
        let bitpacker = new_bitpacker();
        let len: usize = self.len as usize;
        let mut ids: Vec<u32> = Vec::new();
        let mut decompressed: Vec<u32> = Vec::new();
        let mut i: usize = 0;
        while i < len
            invariant
                i <= len,
                len == self@.len(),
                len == self.len,
                self.wf(),
                forall|id: u32| call_requires(filter, (id,)),
                i % 128 != 0 ==> decompressed@ == self.data@[i as int / 128].ids(),
                is_selection(self@.take(i as int), ids@, filter),
            decreases len - i,
        {
            if i % BLOCK_LEN == 0 {
                assert(self.chunks()[i as int / 128].wf());
                decompressed = decode_chunk(&bitpacker, &self.data[i / BLOCK_LEN]);
            }
            let doc_id: u32 = decompressed[i % BLOCK_LEN];
            assert(doc_id == self@[i as int]);
            let ghost before = ids@;
            let keep = filter(doc_id);
            if keep {
                ids.push(doc_id);
            }
            proof {
                let upto = self@.take(i + 1);
                assert(upto.drop_last() =~= self@.take(i as int));
                assert(upto.last() == doc_id);
                if keep {
                    assert(ids@.drop_last() =~= before);
                }
            }
            i += 1;
        }
        assert(self@.take(i as int) =~= self@);
        ids
    }
}

/// A filter that answers `true` throughout selects every id.
pub proof fn lemma_selection_of_all<F: Fn(u32) -> bool>(all: Seq<u32>, kept: Seq<u32>, filter: F)
    requires
        is_selection(all, kept, filter),
        forall|id: u32, keep: bool| call_ensures(filter, (id,), keep) ==> keep,
    ensures
        kept == all,
    decreases all.len(),
{
    if all.len() == 0 {
        assert(kept =~= all);
    } else {
        lemma_selection_of_all(all.drop_last(), kept.drop_last(), filter);
        assert(kept =~= kept.drop_last().push(kept.last()));
        assert(all =~= all.drop_last().push(all.last()));
    }
}

/// Round trip: a list whose chunks hold the blocks of `ids`, and which counts
/// as many ids, decodes to `ids`.
pub proof fn lemma_decodes(ids: Seq<u32>, packed: CompressedPostingList)
    requires
        packed.encodes(ids),
        packed@.len() == ids.len(),
    ensures
        packed@ == ids,
{
    assert forall|i: int| 0 <= i < ids.len() implies packed@[i] == ids[i] by {
        let b = i / 128;
        assert(packed.chunks()[b].holds(block_of(ids, b)));
        assert(block_of(ids, b)[i % 128] == ids[i]);
    }
    assert(packed@ =~= ids);
}

/// Round trip through the filter: what an all-accepting filter selects from
/// a list packed from `ids` is `ids`.
pub proof fn lemma_round_trip<F: Fn(u32) -> bool>(
    ids: Seq<u32>,
    packed: CompressedPostingList,
    selected: Seq<u32>,
    filter: F,
)
    requires
        packed.encodes(ids),
        packed@.len() == ids.len(),
        is_selection(packed@, selected, filter),
        forall|id: u32, keep: bool| call_ensures(filter, (id,), keep) ==> keep,
    ensures
        selected == ids,
{
    lemma_decodes(ids, packed);
    lemma_selection_of_all(packed@, selected, filter);
}

/// The packed list holds an id where the list it was packed from does, at
/// whatever position.
pub proof fn lemma_contains_agrees(ids: Seq<u32>, packed: CompressedPostingList, x: u32)
    requires
        packed.encodes(ids),
        packed@.len() == ids.len(),
    ensures
        packed@.contains(x) <==> exists|i: int| 0 <= i < ids.len() && ids[i] == x,
{
    lemma_decodes(ids, packed);
}

/// A wider value never takes fewer bits.
pub proof fn lemma_bit_width_monotone(a: int, b: int)
    requires
        a <= b,
    ensures
        bit_width(a) <= bit_width(b),
    decreases b,
{
    if a > 0 {
        lemma_bit_width_monotone(a / 2, b / 2);
    }
}

/// The packed size of a block does not shrink when its largest gap grows.
pub proof fn lemma_packed_size_monotone(a: Seq<u32>, b: Seq<u32>)
    requires
        max_gap(a[0], a) <= max_gap(b[0], b),
    ensures
        packed_len(gap_bits(a[0], a)) <= packed_len(gap_bits(b[0], b)),
{
    lemma_bit_width_monotone(max_gap(a[0], a), max_gap(b[0], b));
}

} // verus!
