//! Cutting an object into chunks, and the id that the chunks give it.
use vstd::arithmetic::power2::is_pow2;
use vstd::prelude::*;

use bytes::Bytes;
use xet_core_structures::merklehash::{file_hash, DataHash};
use xet_data::deduplication::Chunker;

use crate::xet::hash::MerkleHash;

verus! {

/// Bytes that a chunk has on average.
pub const TARGET_CHUNK_SIZE: usize = 64 * 1024;

/// Bytes that a chunk has at most.
pub const MAX_CHUNK_SIZE: usize = 128 * 1024;

/// A chunk of an object: its hash, and where its bytes stand.
#[derive(Clone, Copy, PartialEq, Eq, Structural, Debug)]
pub struct ChunkRef {
    pub hash: MerkleHash,
    pub start: usize,
    pub len: usize,
}

impl ChunkRef {
    /// The bytes of the chunk in its object.
    pub open spec fn bytes(self, data: Seq<u8>) -> Seq<u8> {
        data.subrange(self.start as int, self.start + self.len)
    }
}

/// The hash of a chunk's bytes, which `compute_data_hash` gives.
pub uninterp spec fn data_hash(bytes: Seq<u8>) -> MerkleHash;

/// The hash of a file by the hashes and sizes of its chunks, which `file_hash`
/// gives.
pub uninterp spec fn file_hash_of(chunks: Seq<(MerkleHash, u64)>) -> MerkleHash;

/// The parts that content-defined cutting makes of an object, with their hashes, when
/// chunks are to have `target` bytes on average, at least that divided by `divisor` and
/// at most that times `multiplier`.
pub uninterp spec fn content_cuts(
    data: Seq<u8>,
    target: nat,
    divisor: nat,
    multiplier: nat,
) -> Seq<(MerkleHash, usize)>;

/// Bytes of the first `n` pieces.
pub open spec fn piece_end(pieces: Seq<(MerkleHash, usize)>, n: nat) -> nat
    decreases n,
{
    if n == 0 {
        0
    } else {
        piece_end(pieces, (n - 1) as nat) + pieces[n - 1].1 as nat
    }
}

/// The pieces are as long as parts of `data`, none empty, from the first byte to
/// the last.
pub open spec fn pieces_of(data: Seq<u8>, pieces: Seq<(MerkleHash, usize)>) -> bool {
    &&& piece_end(pieces, pieces.len()) == data.len()
    &&& forall|i: int|
        #![trigger pieces[i]]
        0 <= i < pieces.len() ==> {
            &&& pieces[i].1 > 0
            &&& piece_end(pieces, i as nat) + pieces[i].1 <= data.len()
        }
}

/// The bytes of piece `i`.
pub open spec fn piece_bytes(data: Seq<u8>, pieces: Seq<(MerkleHash, usize)>, i: int) -> Seq<u8> {
    let from = piece_end(pieces, i as nat) as int;
    data.subrange(from, from + pieces[i].1)
}

/// `chunks` are the chunks of `data`: none empty, one right behind the other, from
/// the first byte to the last.
pub open spec fn chunks_of(data: Seq<u8>, chunks: Seq<ChunkRef>) -> bool {
    &&& chunks.len() == 0 <==> data.len() == 0
    &&& chunks.len() > 0 ==> chunks[0].start == 0 && chunks.last().start + chunks.last().len
        == data.len()
    &&& forall|i: int|
        #![trigger chunks[i]]
        0 <= i < chunks.len() ==> {
            &&& chunks[i].len > 0
            &&& chunks[i].start + chunks[i].len <= data.len()
            &&& chunks[i].hash == data_hash(chunks[i].bytes(data))
        }
    &&& forall|i: int, j: int|
        #![trigger chunks[i], chunks[j]]
        0 <= i && j == i + 1 && j < chunks.len() ==> chunks[j].start == chunks[i].start
            + chunks[i].len
}

/// The chunks have these hashes and sizes.
pub open spec fn pieces_in(chunks: Seq<ChunkRef>) -> Seq<(MerkleHash, usize)> {
    Seq::new(chunks.len(), |i: int| (chunks[i].hash, chunks[i].len))
}

/// `chunks` are the chunks of `data`, cut for `target` bytes on average. The bounds
/// between which a chunk's size falls are those of the process.
pub open spec fn cut_for(data: Seq<u8>, chunks: Seq<ChunkRef>, target: usize) -> bool {
    &&& chunks_of(data, chunks)
    &&& exists|divisor: nat, multiplier: nat|
        pieces_in(chunks) == #[trigger] content_cuts(data, target as nat, divisor, multiplier)
}

/// A size that chunks can have on average: a power of two above the window of the
/// rolling hash, whose double a machine can hold and allocate.
pub open spec fn targetable(target: usize) -> bool {
    &&& 64 < target < u32::MAX
    &&& target <= usize::MAX / 4
    &&& is_pow2(target as int)
}

/// Runs `Chunker::new`, `Chunker::next_block_bytes` on all of `data` and
/// `Chunker::finish`. Says that the chunks that come out are the data cut into
/// parts that are not empty, each with the hash that `compute_data_hash` gives of
/// its bytes, and that the data, the target and two bounds decide where the cuts fall.
/// A debug build reads the bounds from the environment, so they are not said.
///
/// The chunker asks for a target that is a power of two, above its hash window and
/// below four gigabytes, and doubles it.
#[verifier::external_body]
fn cut_at_content(data: &[u8], target: usize) -> (r: Vec<(MerkleHash, usize)>)
    requires
        targetable(target),
    ensures
        pieces_of(data@, r@),
        exists|divisor: nat, multiplier: nat|
            r@ == #[trigger] content_cuts(data@, target as nat, divisor, multiplier),
        forall|i: int|
            #![trigger r@[i]]
            0 <= i < r@.len() ==> r@[i].0 == data_hash(piece_bytes(data@, r@, i)),
{
    let mut chunker = Chunker::new(target);
    let mut out = chunker.next_block_bytes(&Bytes::copy_from_slice(data), true);
    out.extend(chunker.finish());
    out.iter().map(|c| (MerkleHash::from_words(c.hash.map(u64::from_le)), c.data.len())).collect()
}

/// Calls `file_hash`: the Merkle root over chunk hashes and sizes. It adds the
/// sizes up in 64 bits.
#[verifier::external_body]
fn hash_of_file(chunks: &[(MerkleHash, u64)]) -> (r: MerkleHash)
    requires
        sizes_sum(chunks@) <= u64::MAX,
    ensures
        r == file_hash_of(chunks@),
{
    let raw: Vec<(DataHash, u64)> = chunks.iter().map(
        |c| (DataHash::from(c.0.words().map(u64::to_le)), c.1),
    ).collect();
    MerkleHash::from_words(file_hash(&raw).map(u64::from_le))
}

pub open spec fn sizes_sum(chunks: Seq<(MerkleHash, u64)>) -> nat
    decreases chunks.len(),
{
    if chunks.len() == 0 {
        0
    } else {
        sizes_sum(chunks.drop_last()) + chunks.last().1 as nat
    }
}

/// Cuts an object into content-defined chunks of `target` bytes on average.
pub fn chunk_at(data: &[u8], target: usize) -> (r: Vec<ChunkRef>)
    requires
        targetable(target),
    ensures
        cut_for(data@, r@, target),
{
    let pieces = cut_at_content(data, target);
    let mut r: Vec<ChunkRef> = Vec::new();
    assert(data@.len() == data.len());
    let mut at: usize = 0;
    let mut i: usize = 0;
    while i < pieces.len()
        invariant
            i <= pieces@.len(),
            r@.len() == i,
            pieces_of(data@, pieces@),
            forall|j: int|
                #![trigger pieces@[j]]
                0 <= j < pieces@.len() ==> pieces@[j].0 == data_hash(
                    piece_bytes(data@, pieces@, j),
                ),
            at == piece_end(pieces@, i as nat),
            forall|j: int|
                #![trigger r@[j]]
                0 <= j < i ==> r@[j].hash == pieces@[j].0 && r@[j].len == pieces@[j].1,
            at <= data@.len() <= usize::MAX,
            i == 0 ==> at == 0,
            i > 0 ==> at > 0 && r@[0].start == 0 && r@.last().start + r@.last().len == at,
            forall|j: int|
                #![trigger r@[j]]
                0 <= j < i ==> {
                    &&& r@[j].len > 0
                    &&& r@[j].start + r@[j].len <= data@.len()
                    &&& r@[j].hash == data_hash(r@[j].bytes(data@))
                },
            forall|j: int, k: int|
                #![trigger r@[j], r@[k]]
                0 <= j && k == j + 1 && k < i ==> r@[k].start == r@[j].start + r@[j].len,
        decreases pieces@.len() - i,
    {
        let (hash, len) = pieces[i];
        assert(pieces@[i as int] == (hash, len));
        r.push(ChunkRef { hash, start: at, len });
        at = at + len;
        i = i + 1;
    }
    assert(pieces_in(r@) =~= pieces@);
    r
}

/// Cuts an object into content-defined chunks.
pub fn chunk_all(data: &[u8]) -> (r: Vec<ChunkRef>)
    ensures
        cut_for(data@, r@, TARGET_CHUNK_SIZE),
{
    proof {
        lemma_target();
    }
    chunk_at(data, TARGET_CHUNK_SIZE)
}

proof fn lemma_target()
    ensures
        is_pow2(TARGET_CHUNK_SIZE as int),
{
    reveal_with_fuel(is_pow2, 18);
}

/// The hashes and sizes of chunks.
pub open spec fn sizes_of(chunks: Seq<ChunkRef>) -> Seq<(MerkleHash, u64)> {
    Seq::new(chunks.len(), |i: int| (chunks[i].hash, chunks[i].len as u64))
}

/// The hashes of chunks.
pub open spec fn hashes_of(chunks: Seq<ChunkRef>) -> Seq<MerkleHash> {
    Seq::new(chunks.len(), |i: int| chunks[i].hash)
}

/// The id of the file that these chunks make up.
pub fn file_id(data: &[u8], chunks: &Vec<ChunkRef>) -> (r: MerkleHash)
    requires
        chunks_of(data@, chunks@),
    ensures
        r == file_hash_of(sizes_of(chunks@)),
{
    let mut sizes: Vec<(MerkleHash, u64)> = Vec::new();
    let mut i: usize = 0;
    let limit: usize = data.len();
    while i < chunks.len()
        invariant
            i <= chunks@.len(),
            chunks_of(data@, chunks@),
            limit == data@.len(),
            sizes@ =~= sizes_of(chunks@).subrange(0, i as int),
            i > 0 ==> sizes_sum(sizes@) == chunks@[i - 1].start + chunks@[i - 1].len,
            i == 0 ==> sizes_sum(sizes@) == 0,
        decreases chunks@.len() - i,
    {
        let c = chunks[i];
        let ghost before = sizes@;
        sizes.push((c.hash, c.len as u64));
        proof {
            assert(sizes@.drop_last() =~= before);
            if i > 0 {
                assert(chunks@[i as int].start == chunks@[i - 1].start + chunks@[i - 1].len);
            }
        }
        i = i + 1;
    }
    assert(sizes@ =~= sizes_of(chunks@));
    hash_of_file(sizes.as_slice())
}

/// The hashes of chunks, in order.
pub fn hashes(chunks: &Vec<ChunkRef>) -> (r: Vec<MerkleHash>)
    ensures
        r@ == hashes_of(chunks@),
{
    let mut r: Vec<MerkleHash> = Vec::new();
    let mut i: usize = 0;
    while i < chunks.len()
        invariant
            i <= chunks@.len(),
            r@ =~= hashes_of(chunks@).subrange(0, i as int),
        decreases chunks@.len() - i,
    {
        r.push(chunks[i].hash);
        i = i + 1;
    }
    assert(r@ =~= hashes_of(chunks@));
    r
}

/// The id of an object and the number of its chunks depend on the object alone, not on
/// what a repository holds: wherever it is cut between the same bounds, the chunks have
/// the same hashes and sizes.
pub proof fn law_id_depends_on_the_object(
    data: Seq<u8>,
    a: Seq<ChunkRef>,
    b: Seq<ChunkRef>,
    target: nat,
    divisor: nat,
    multiplier: nat,
)
    requires
        pieces_in(a) == content_cuts(data, target, divisor, multiplier),
        pieces_in(b) == content_cuts(data, target, divisor, multiplier),
    ensures
        a.len() == b.len(),
        sizes_of(a) == sizes_of(b),
        file_hash_of(sizes_of(a)) == file_hash_of(sizes_of(b)),
{
    assert(pieces_in(a).len() == a.len() && pieces_in(b).len() == b.len());
    assert forall|i: int| 0 <= i < a.len() implies #[trigger] sizes_of(a)[i] == sizes_of(b)[i] by {
        assert(pieces_in(a)[i] == pieces_in(b)[i]);
    }
    assert(sizes_of(a) =~= sizes_of(b));
}

/// The chunks of an object, one behind the other, are the object: each begins where the one
/// before it ends, none is empty, and each has the hash of its bytes.
pub proof fn law_chunks_are_the_object(data: &[u8], chunks: Vec<ChunkRef>, i: int)
    requires
        call_ensures(chunk_all, (data,), chunks),
    ensures
        chunks@.len() == 0 <==> data@.len() == 0,
        chunks@.len() > 0 ==> chunks@[0].start == 0,
        chunks@.len() > 0 ==> chunks@.last().start + chunks@.last().len == data@.len(),
        0 <= i < chunks@.len() ==> {
            &&& chunks@[i].len > 0
            &&& chunks@[i].start + chunks@[i].len <= data@.len()
            &&& chunks@[i].hash == data_hash(
                data@.subrange(chunks@[i].start as int, chunks@[i].start + chunks@[i].len),
            )
        },
        0 <= i < chunks@.len() - 1 ==> chunks@[i + 1].start == chunks@[i].start + chunks@[i].len,
        exists|divisor: nat, multiplier: nat|
            pieces_in(chunks@) == #[trigger] content_cuts(data@, 0x1_0000, divisor, multiplier),
{
}

/// The id of an object is told by the hashes and sizes of its chunks, in their order.
pub proof fn law_id_is_told_by_the_chunks(
    data: &[u8],
    chunks: &Vec<ChunkRef>,
    id: MerkleHash,
    list: Vec<MerkleHash>,
    sizes: Seq<(MerkleHash, u64)>,
)
    requires
        call_ensures(file_id, (data, chunks), id),
        call_ensures(hashes, (chunks,), list),
        sizes.len() == chunks@.len(),
        forall|i: int|
            0 <= i < sizes.len() ==> #[trigger] sizes[i] == (chunks@[i].hash, chunks@[i].len as u64),
    ensures
        id == file_hash_of(sizes),
        list@.len() == chunks@.len(),
        forall|i: int| 0 <= i < list@.len() ==> #[trigger] list@[i] == chunks@[i].hash,
{
    assert(sizes_of(chunks@) =~= sizes);
}

/// What counts as the chunks of an object: the object cut from its first byte to its last, in
/// parts that are not empty, each under the hash of its bytes.
pub proof fn law_chunks_cover_the_object(data: Seq<u8>, chunks: Seq<ChunkRef>)
    ensures
        chunks_of(data, chunks) <==> {
            &&& data.len() > 0 ==> chunks.len() > 0 && chunks[0].start == 0
            &&& chunks.len() > 0 ==> chunks.last().start + chunks.last().len == data.len()
            &&& forall|i: int|
                0 <= i < chunks.len() ==> (#[trigger] chunks[i]).len > 0 && chunks[i].start
                    + chunks[i].len <= data.len() && chunks[i].hash == data_hash(
                    data.subrange(chunks[i].start as int, chunks[i].start + chunks[i].len),
                )
            &&& forall|i: int, j: int|
                #![trigger chunks[i], chunks[j]]
                0 <= i && j == i + 1 && j < chunks.len() ==> chunks[j].start == chunks[i].start
                    + chunks[i].len
            &&& chunks.len() > 0 ==> data.len() > 0 && chunks[0].start == 0
        },
{
}

/// A size that chunks can be cut for is a power of two above 64 bytes that four times a
/// machine can address and 32 bits can count, and every such size is.
pub proof fn law_target_is_a_power_of_two(target: usize)
    ensures
        targetable(target) <==> {
            &&& is_pow2(target as int)
            &&& 64 < target < 0xffff_ffff
            &&& target <= usize::MAX / 4
        },
        targetable(0x1_0000),
{
    reveal_with_fuel(is_pow2, 18);
}

/// The sizes of chunks add up one by one.
pub proof fn law_sizes_of_chunks_add_up(chunks: Seq<(MerkleHash, u64)>, c: (MerkleHash, u64))
    ensures
        sizes_sum(chunks.push(c)) == sizes_sum(chunks) + c.1,
        sizes_sum(Seq::empty()) == 0,
{
    assert(chunks.push(c).drop_last() =~= chunks);
}

/// Chunks of any size that can be asked for are cut for that size, and they are the object.
pub proof fn law_chunks_are_cut_for_the_size_that_is_asked(
    data: &[u8],
    target: usize,
    chunks: Vec<ChunkRef>,
)
    requires
        call_ensures(chunk_at, (data, target), chunks),
    ensures
        chunks_of(data@, chunks@),
        exists|divisor: nat, multiplier: nat|
            {
                let cuts = #[trigger] content_cuts(data@, target as nat, divisor, multiplier);
                &&& cuts.len() == chunks@.len()
                &&& forall|i: int|
                    0 <= i < cuts.len() ==> #[trigger] cuts[i] == (chunks@[i].hash, chunks@[i].len)
            },
        is_pow2(target as int) && 64 < target <= 0x2000_0000 ==> call_requires(
            chunk_at,
            (data, target),
        ),
{
    let (divisor, multiplier) = choose|divisor: nat, multiplier: nat|
        pieces_in(chunks@) == #[trigger] content_cuts(data@, target as nat, divisor, multiplier);
    let cuts = content_cuts(data@, target as nat, divisor, multiplier);
    assert(cuts == pieces_in(chunks@));
}

} // verus!
