//! Xorbs: packing chunks into one object, and reading runs of them back.
use std::io::Cursor;

use vstd::prelude::*;

use bytes::Bytes;
use xet_core_structures::merklehash::DataHash;
use xet_core_structures::xorb_object::{
    constants, deserialize_chunk, Chunk, RawXorbData, SerializedXorbObject, XorbObject,
};
use xet_core_structures::CoreError;

use crate::encrypted::container::put_bytes;
use crate::number::{get_le32, le32};
use crate::store::{ByteRange, StoreError};
use crate::xet::chunk::{sizes_of, ChunkRef, MAX_CHUNK_SIZE};
use crate::xet::hash::MerkleHash;
use crate::xet::shard::{core_error_text, xet_err, xet_message};
use crate::xet::terms::Term;

verus! {

/// Bytes of chunks that a xorb holds at most.
pub const MAX_XORB_BYTES: usize = 64 * 1024 * 1024;

/// Chunks that a xorb holds at most.
pub const MAX_XORB_CHUNKS: usize = 8 * 1024;

/// Bytes at the end of a xorb that are read first. A footer takes some forty bytes
/// per chunk, so one such read covers most xorbs.
pub const FOOTER_TAIL_BYTES: u64 = 64 * 1024;

/// The footer of a xorb.
#[verifier::external_type_specification]
#[verifier::external_body]
pub struct ExXorbObject(XorbObject);

/// The hash of a xorb by the hashes and sizes of its chunks, which `xorb_hash`
/// gives.
pub uninterp spec fn xorb_hash_of(chunks: Seq<(MerkleHash, u64)>) -> MerkleHash;

/// Where each chunk of a xorb ends, in its stored bytes.
pub uninterp spec fn footer_ends(footer: XorbObject) -> Seq<u32>;

/// A footer that names its xorb and has a hash and an end for each of its chunks,
/// of which there is at least one.
pub uninterp spec fn footer_usable(footer: XorbObject) -> bool;

/// The footer that stored bytes end with: whether it is usable, and where each
/// chunk ends. `None` where the bytes end with no footer.
pub uninterp spec fn stored_footer(bytes: Seq<u8>) -> Option<(bool, Seq<u32>)>;

/// The chunk that stored bytes begin with, uncompressed, and how many of the bytes it
/// takes up. `None` where they begin with none, or with one that has more than `limit`
/// bytes or takes up more than twice as many.
pub uninterp spec fn read_chunk(bytes: Seq<u8>, limit: nat) -> Option<(Seq<u8>, nat)>;

/// A limit that refuses no chunk: sizes are kept in three bytes.
pub open spec fn no_limit() -> nat {
    0x100_0000
}

/// The chunks that stored bytes consist of, uncompressed and joined, where no chunk
/// exceeds `limit`.
pub open spec fn unpacked(bytes: Seq<u8>, limit: nat) -> Option<Seq<u8>>
    decreases bytes.len(),
{
    if bytes.len() == 0 {
        Some(Seq::empty())
    } else {
        match read_chunk(bytes, limit) {
            None => None,
            Some((data, used)) => if used == 0 || used > bytes.len() {
                None
            } else {
                match unpacked(bytes.subrange(used as int, bytes.len() as int), limit) {
                    None => None,
                    Some(rest) => Some(data + rest),
                }
            },
        }
    }
}

/// The bytes of chunks `from` to `to`, joined.
pub open spec fn run_data(data: Seq<u8>, chunks: Seq<ChunkRef>, from: int, to: int) -> Seq<u8>
    decreases to - from,
{
    if to <= from {
        Seq::empty()
    } else {
        run_data(data, chunks, from, to - 1) + chunks[to - 1].bytes(data)
    }
}

/// Bytes of the first `n` chunks.
pub open spec fn run_size(chunks: Seq<ChunkRef>, n: nat) -> nat
    decreases n,
{
    if n == 0 {
        0
    } else {
        run_size(chunks, (n - 1) as nat) + chunks[n - 1].len as nat
    }
}

/// The chunks fit into one xorb.
pub open spec fn one_xorb(data: Seq<u8>, chunks: Seq<ChunkRef>) -> bool {
    &&& chunks.len() <= MAX_XORB_CHUNKS
    &&& run_size(chunks, chunks.len()) <= MAX_XORB_BYTES
    &&& forall|i: int|
        #![trigger chunks[i]]
        0 <= i < chunks.len() ==> chunks[i].len <= MAX_CHUNK_SIZE && chunks[i].start + chunks[i].len
            <= data.len()
}

/// Where chunk `i` begins, given where each chunk ends.
pub open spec fn start_of(ends: Seq<u32>, i: int) -> int {
    if i == 0 {
        0
    } else {
        ends[i - 1] as int
    }
}

/// The bytes of a footer with its length field: the last four bytes count the ones
/// before them.
pub open spec fn footer_len(bytes: Seq<u8>) -> nat {
    le32(bytes, bytes.len() - 4) + 4
}

/// `bytes` is a stored xorb of these chunks: a footer at its end says where each of
/// them stands, and every run of them is read back as it was written, by every reader
/// that takes chunks of the largest size.
pub open spec fn holds_chunks(
    bytes: Seq<u8>,
    data: Seq<u8>,
    chunks: Seq<ChunkRef>,
    ends: Seq<u32>,
) -> bool {
    &&& ends.len() == chunks.len()
    &&& 4 <= footer_len(bytes) <= bytes.len()
    &&& forall|i: int|
        #![trigger ends[i]]
        0 <= i < ends.len() ==> start_of(ends, i) <= ends[i] <= bytes.len() - footer_len(bytes)
    &&& forall|a: int, b: int, limit: nat|
        #![trigger unpacked(bytes.subrange(start_of(ends, a), ends[b - 1] as int), limit)]
        0 <= a < b <= chunks.len() && limit >= MAX_CHUNK_SIZE ==> unpacked(
            bytes.subrange(start_of(ends, a), ends[b - 1] as int),
            limit,
        ) == Some(run_data(data, chunks, a, b))
}

/// Calls `RawXorbData::from_chunks` and `SerializedXorbObject::from_xorb`, with a
/// footer and the named compression. It writes into memory, so it never fails for
/// chunks that fit and a name that it knows. The hash is what `xorb_hash` gives of the
/// chunks; the bytes end with a footer, which is usable unless there is no chunk or the
/// hash is all zeros, and each run of chunks that the footer delimits is read back as it
/// was written. The sizes are the ones that the format keeps in three and four bytes,
/// and a debug build checks them.
#[verifier::external_body]
fn pack(data: &[u8], chunks: &[ChunkRef], compression: &str) -> (r: Result<
    (MerkleHash, Vec<u8>),
    CoreError,
>)
    requires
        one_xorb(data@, chunks@),
        compression@ == "lz4"@,
    ensures
        match r {
            Ok((hash, bytes)) => {
                &&& hash == xorb_hash_of(sizes_of(chunks@))
                &&& stored_footer(bytes@) matches Some((usable, ends)) && usable == (chunks@.len()
                    > 0 && hash != (MerkleHash { w0: 0, w1: 0, w2: 0, w3: 0 })) && holds_chunks(
                    bytes@,
                    data@,
                    chunks@,
                    ends,
                )
            },
            Err(_) => false,
        },
{
    let chunks: Vec<Chunk> = chunks.iter().map(
        |c| Chunk {
            hash: DataHash::from(c.hash.words().map(u64::to_le)),
            data: Bytes::copy_from_slice(&data[c.start..c.start + c.len]),
        },
    ).collect();
    let raw = RawXorbData::from_chunks(&chunks, vec![chunks.len()]);
    let hash = MerkleHash::from_words(raw.hash().map(u64::from_le));
    let packed = SerializedXorbObject::from_xorb(raw, true, compression, 0)?;
    Ok((hash, packed.serialized_data))
}

/// Calls `XorbObject::deserialize`, which reads the footer that the bytes end with.
/// It looks at no byte before the footer, so more or fewer of them change nothing.
#[verifier::external_body]
fn parse_footer(bytes: &[u8]) -> (r: Result<XorbObject, CoreError>)
    ensures
        match r {
            Ok(f) => {
                &&& stored_footer(bytes@) == Some((footer_usable(f), footer_ends(f)))
                &&& 4 <= footer_len(bytes@) <= bytes@.len()
            },
            Err(_) => stored_footer(bytes@) is None,
        },
        forall|all: Seq<u8>|
            #![trigger stored_footer(all)]
            ends_with(all, bytes@) && 4 <= footer_len(bytes@) <= bytes@.len() ==> match r {
                Ok(f) => stored_footer(all) == Some((footer_usable(f), footer_ends(f))),
                Err(_) => stored_footer(all) is None,
            },
{
    XorbObject::deserialize(&mut Cursor::new(bytes))
}

/// `part` is what `all` ends with, at least four bytes of it.
pub open spec fn ends_with(all: Seq<u8>, part: Seq<u8>) -> bool {
    &&& 4 <= part.len() <= all.len()
    &&& all.subrange(all.len() - part.len(), all.len() as int) == part
}

/// Calls `XorbObject::get_byte_offset`: where chunks `start` to `end` stand in the
/// stored bytes. It fails for a footer that is not usable, for a run without
/// chunks, and for one that reaches beyond the last chunk.
#[verifier::external_body]
fn byte_offset(footer: &XorbObject, start: u32, end: u32) -> (r: Result<(u32, u32), CoreError>)
    ensures
        match r {
            Ok((from, to)) => {
                &&& footer_usable(*footer)
                &&& start < end <= footer_ends(*footer).len()
                &&& from == start_of(footer_ends(*footer), start as int)
                &&& to == footer_ends(*footer)[end - 1]
            },
            Err(_) => !(footer_usable(*footer) && start < end <= footer_ends(*footer).len()),
        },
{
    footer.get_byte_offset(start, end)
}

/// Bytes of the header in front of a stored chunk.
pub const CHUNK_HEADER: usize = 8;

/// Calls `deserialize_chunk` on a reader of these bytes, and asks the reader how far it
/// got. Says what the chunk is and how many bytes it takes up, at least those of its
/// header. `MAX_CHUNK_SIZE` of the outside crate, which is handed out beside it, limits
/// the sizes of a chunk; a debug build reads it from the environment. Another limit
/// refuses more chunks or fewer, and changes none.
#[verifier::external_body]
fn read_first_chunk(bytes: &[u8]) -> (r: (Result<(Vec<u8>, usize), CoreError>, usize))
    ensures
        match r.0 {
            Ok((data, used)) => {
                &&& CHUNK_HEADER <= used <= bytes@.len()
                &&& forall|limit: nat|
                    #![trigger read_chunk(bytes@, limit)]
                    limit >= r.1 || limit >= no_limit() ==> read_chunk(bytes@, limit) == Some(
                        (data@, used as nat),
                    )
                &&& forall|limit: nat|
                    #![trigger read_chunk(bytes@, limit)]
                    read_chunk(bytes@, limit) is None || read_chunk(bytes@, limit) == Some(
                        (data@, used as nat),
                    )
            },
            Err(_) => read_chunk(bytes@, r.1 as nat) is None,
        },
{
    let mut reader = Cursor::new(bytes);
    let read = deserialize_chunk(&mut reader);
    let used = reader.position() as usize;
    (read.map(|(data, _, _)| (data, used)), *constants::MAX_CHUNK_SIZE)
}

/// Reads chunk after chunk, each where the one before it ended. Besides, it gives the
/// limit on the sizes of a chunk that they were read with. The outside crate's own loop,
/// `deserialize_chunks`, adds the sizes up in 32 bits, and does not return in a build that
/// checks sums where they are more; how many there are is known only from reading them.
fn unpack(bytes: &[u8]) -> (r: (Result<Vec<u8>, CoreError>, usize))
    ensures
        match r.0 {
            Ok(data) => forall|limit: nat|
                #![trigger unpacked(bytes@, limit)]
                limit >= r.1 || limit >= no_limit() ==> unpacked(bytes@, limit) == Some(data@),
            Err(_) => unpacked(bytes@, r.1 as nat) is None,
        },
{
    let size: usize = bytes.len();
    let mut out: Vec<u8> = Vec::new();
    let mut at: usize = 0;
    let mut most: usize = 0;
    assert(bytes@.subrange(0, size as int) =~= bytes@);
    assert forall|limit: nat| #![trigger unpacked(bytes@, limit)] unpacked(bytes@, limit)
        == joined_after(out@, unpacked(bytes@, limit)) by {
        if let Some(all) = unpacked(bytes@, limit) {
            assert(out@ + all =~= all);
        }
    }
    while at < size
        invariant
            at <= size,
            size == bytes@.len(),
            size == bytes.len(),
            forall|limit: nat|
                #![trigger unpacked(bytes@, limit)]
                limit >= most || limit >= no_limit() ==> unpacked(bytes@, limit) == joined_after(
                    out@,
                    unpacked(bytes@.subrange(at as int, size as int), limit),
                ),
            forall|limit: nat|
                #![trigger unpacked(bytes@, limit)]
                unpacked(bytes@.subrange(at as int, size as int), limit) is None ==> unpacked(
                    bytes@,
                    limit,
                ) is None,
        decreases size - at,
    {
        let rest = vstd::slice::slice_subrange(bytes, at, size);
        let ghost left = rest@;
        assert(left =~= bytes@.subrange(at as int, size as int));
        let (read, limited) = read_first_chunk(rest);
        match read {
            Ok((data, used)) => {
                let ghost before = out@;
                let ghost next = left.subrange(used as int, left.len() as int);
                put_bytes(&mut out, data.as_slice());
                let ghost low = most;
                if limited > most {
                    most = limited;
                }
                proof {
                    assert(next =~= bytes@.subrange(at + used, size as int));
                    assert forall|limit: nat| #![trigger unpacked(bytes@, limit)] limit >= most
                        || limit >= no_limit() implies unpacked(bytes@, limit) == joined_after(
                        out@,
                        unpacked(next, limit),
                    ) by {
                        assert(limit >= low || limit >= no_limit());
                        assert(read_chunk(left, limit) == Some((data@, used as nat)));
                        if let Some(tail) = unpacked(next, limit) {
                            assert(before + (data@ + tail) =~= (before + data@) + tail);
                        }
                    }
                    assert forall|limit: nat|
                        #![trigger unpacked(bytes@, limit)]
                        unpacked(next, limit) is None implies unpacked(bytes@, limit) is None by {
                        assert(unpacked(left, limit) is None);
                    }
                }
                at = at + used;
            },
            Err(e) => {
                proof {
                    assert(unpacked(left, limited as nat) is None);
                    assert(unpacked(bytes@, limited as nat) is None);
                }
                return (Err(e), limited);
            },
        }
    }
    assert forall|limit: nat| #![trigger unpacked(bytes@, limit)] limit >= most || limit
        >= no_limit() implies unpacked(bytes@, limit) == Some(out@) by {
        assert(unpacked(bytes@.subrange(at as int, size as int), limit) == Some(
            Seq::<u8>::empty(),
        ));
        assert(out@ + Seq::<u8>::empty() =~= out@);
    }
    (Ok(out), most)
}

/// What is read so far, with what the rest brings.
spec fn joined_after(front: Seq<u8>, rest: Option<Seq<u8>>) -> Option<Seq<u8>> {
    match rest {
        Some(rest) => Some(front + rest),
        None => None,
    }
}

/// A xorb that is ready to be stored.
pub struct PackedXorb {
    pub hash: MerkleHash,
    pub bytes: Vec<u8>,
    pub footer: XorbObject,
}

/// Packs chunks into one xorb.
pub fn pack_xorb(data: &[u8], chunks: &Vec<ChunkRef>) -> (r: Result<PackedXorb, StoreError>)
    requires
        one_xorb(data@, chunks@),
    ensures
        r matches Ok(x) && {
            &&& x.hash == xorb_hash_of(sizes_of(chunks@))
            &&& stored_footer(x.bytes@) == Some((footer_usable(x.footer), footer_ends(x.footer)))
            &&& footer_usable(x.footer) == (chunks@.len() > 0 && x.hash != (MerkleHash {
                w0: 0,
                w1: 0,
                w2: 0,
                w3: 0,
            }))
            &&& holds_chunks(x.bytes@, data@, chunks@, footer_ends(x.footer))
        },
{
    let (hash, bytes) = match pack(data, chunks.as_slice(), "lz4") {
        Ok(packed) => packed,
        Err(e) => {
            return Err(xet_err("xorb write", core_error_text(&e).as_str()));
        },
    };
    match parse_footer(bytes.as_slice()) {
        Ok(footer) => Ok(PackedXorb { hash, bytes, footer }),
        Err(e) => Err(xet_err("xorb footer", core_error_text(&e).as_str())),
    }
}

/// Where the first read of a footer begins, in an object of `size` bytes.
pub fn tail_start(size: u64) -> (r: u64)
    ensures
        r == if size < FOOTER_TAIL_BYTES {
            0int
        } else {
            size - FOOTER_TAIL_BYTES
        },
{
    if size < FOOTER_TAIL_BYTES {
        0
    } else {
        size - FOOTER_TAIL_BYTES
    }
}

/// What follows from the first read of a footer.
pub enum FooterStep {
    /// The footer is in what was read.
    Parse,
    /// The footer begins earlier; this range goes in front of what was read.
    ReadMore(ByteRange),
}

/// What follows from `tail`, the last bytes of an object of `size` bytes.
pub fn footer_step(size: u64, tail: &[u8]) -> (r: Result<FooterStep, StoreError>)
    ensures
        if tail@.len() < 4 {
            r matches Err(e) && e.says(
                xet_message("xorb footer"@, "object shorter than its length field"@),
            )
        } else if footer_len(tail@) <= tail@.len() {
            r matches Ok(FooterStep::Parse)
        } else {
            r matches Ok(FooterStep::ReadMore(range)) && range.start == (if size < footer_len(
                tail@,
            ) {
                0int
            } else {
                size - footer_len(tail@)
            }) && range.end == (if size < FOOTER_TAIL_BYTES {
                0int
            } else {
                size - FOOTER_TAIL_BYTES
            })
        },
{
    let n: usize = tail.len();
    if n < 4 {
        return Err(xet_err("xorb footer", "object shorter than its length field"));
    }
    let info_len: u64 = get_le32(tail, n - 4) as u64 + 4;
    if info_len <= n as u64 {
        return Ok(FooterStep::Parse);
    }
    let start: u64 = if size < info_len {
        0
    } else {
        size - info_len
    };
    Ok(FooterStep::ReadMore(ByteRange { start, end: tail_start(size) }))
}

/// What a second read brought, in front of the first.
pub fn join_reads(head: &[u8], tail: &[u8]) -> (r: Vec<u8>)
    ensures
        r@ == head@ + tail@,
{
    let mut r: Vec<u8> = Vec::new();
    put_bytes(&mut r, head);
    put_bytes(&mut r, tail);
    assert(r@ =~= head@ + tail@);
    r
}

/// Reads the footer that `bytes` end with.
pub fn read_footer(bytes: &[u8]) -> (r: Result<XorbObject, StoreError>)
    ensures
        match r {
            Ok(f) => stored_footer(bytes@) == Some((footer_usable(f), footer_ends(f))),
            Err(e) => stored_footer(bytes@) is None && exists|why: Seq<char>|
                e.says(#[trigger] xet_message("xorb footer"@, why)),
        },
        forall|all: Seq<u8>|
            #![trigger stored_footer(all)]
            ends_with(all, bytes@) && 4 <= footer_len(bytes@) <= bytes@.len() ==> match r {
                Ok(f) => stored_footer(all) == Some((footer_usable(f), footer_ends(f))),
                Err(_) => stored_footer(all) is None,
            },
{
    match parse_footer(bytes) {
        Ok(f) => Ok(f),
        Err(e) => Err(xet_err("xorb footer", core_error_text(&e).as_str())),
    }
}

/// Where a run stands in the stored bytes of its xorb.
pub fn term_range(footer: &XorbObject, term: &Term) -> (r: Result<ByteRange, StoreError>)
    ensures
        ({
            let ends = footer_ends(*footer);
            let start = term.chunk_index_start;
            let end = term.chunk_index_end;
            if footer_usable(*footer) && start < end <= ends.len() {
                r matches Ok(range) && range.start == start_of(ends, start as int) && range.end
                    == ends[end - 1]
            } else {
                r matches Err(e) && exists|why: Seq<char>|
                    e.says(#[trigger] xet_message("term range"@, why))
            }
        }),
{
    match byte_offset(footer, term.chunk_index_start, term.chunk_index_end) {
        Ok((from, to)) => Ok(ByteRange { start: from as u64, end: to as u64 }),
        Err(e) => Err(xet_err("term range", core_error_text(&e).as_str())),
    }
}

/// What a reader that takes chunks of up to `limit` bytes makes of a run: its bytes, where
/// all of its chunks can be read and have as many bytes as its term says.
pub open spec fn answers(
    bytes: Seq<u8>,
    term: Term,
    limit: nat,
    r: Result<Vec<u8>, StoreError>,
) -> bool {
    match unpacked(bytes, limit) {
        Some(data) => if data.len() == term.unpacked_segment_bytes {
            r matches Ok(read) && read@ == data
        } else {
            r matches Err(e) && e.says(
                xet_message("term"@, "unpacked length differs from the shard"@),
            )
        },
        None => r matches Err(e) && exists|why: Seq<char>|
            e.says(#[trigger] xet_message("xorb read"@, why)),
    }
}

/// The bytes of a run, out of what the store gave for its range, and the limit on a chunk
/// that they were read with.
pub fn read_term(bytes: &[u8], term: &Term) -> (r: (Result<Vec<u8>, StoreError>, usize))
    ensures
        answers(bytes@, *term, r.1 as nat, r.0),
        r.0 matches Ok(data) ==> unpacked(bytes@, no_limit()) == Some(data@),
{
    let (read, limit) = unpack(bytes);
    match read {
        Ok(data) => {
            assert(unpacked(bytes@, limit as nat) == Some(data@));
            assert(unpacked(bytes@, no_limit()) == Some(data@));
            (check_term(data, term), limit)
        },
        Err(e) => (Err(xet_err("xorb read", core_error_text(&e).as_str())), limit),
    }
}

/// The bytes of a run, out of what the store gave for its range.
pub fn term_data(bytes: &[u8], term: &Term) -> (r: Result<Vec<u8>, StoreError>)
    ensures
        exists|limit: nat| #[trigger] answers(bytes@, *term, limit, r),
        r matches Ok(data) ==> unpacked(bytes@, no_limit()) == Some(data@),
{
    let (data, limit) = read_term(bytes, term);
    assert(answers(bytes@, *term, limit as nat, data));
    data
}

/// The bytes of a run, as long as they are as many as the shard says.
pub fn check_term(data: Vec<u8>, term: &Term) -> (r: Result<Vec<u8>, StoreError>)
    ensures
        if data@.len() == term.unpacked_segment_bytes {
            r == Ok::<Vec<u8>, StoreError>(data)
        } else {
            r matches Err(e) && e.says(
                xet_message("term"@, "unpacked length differs from the shard"@),
            )
        },
{
    if data.len() as u64 != term.unpacked_segment_bytes as u64 {
        return Err(xet_err("term", "unpacked length differs from the shard"));
    }
    Ok(data)
}

/// All parts, one behind the other.
pub open spec fn parts_joined(parts: Seq<Vec<u8>>) -> Seq<u8>
    decreases parts.len(),
{
    if parts.len() == 0 {
        Seq::empty()
    } else {
        parts_joined(parts.drop_last()) + parts.last()@
    }
}

/// Joins the runs of a file.
pub fn join_parts(parts: &Vec<Vec<u8>>) -> (r: Vec<u8>)
    ensures
        r@ == parts_joined(parts@),
{
    let mut r: Vec<u8> = Vec::new();
    let mut i: usize = 0;
    assert(parts_joined(parts@.subrange(0, 0)) =~= Seq::<u8>::empty());
    while i < parts.len()
        invariant
            i <= parts@.len(),
            r@ == parts_joined(parts@.subrange(0, i as int)),
        decreases parts@.len() - i,
    {
        put_bytes(&mut r, parts[i].as_slice());
        proof {
            let now = parts@.subrange(0, i + 1);
            assert(now.drop_last() =~= parts@.subrange(0, i as int));
        }
        i = i + 1;
    }
    assert(parts@.subrange(0, i as int) =~= parts@);
    r
}

/// The reads of a footer bring it whole: the first one does, or the first two
/// together, for every object whose length field counts no more bytes than the
/// object has.
pub proof fn law_reads_cover_the_footer(bytes: Seq<u8>)
    requires
        4 <= bytes.len() <= u64::MAX,
        footer_len(bytes) <= bytes.len(),
    ensures
        ({
            let size = bytes.len() as int;
            let from = if size < FOOTER_TAIL_BYTES {
                0int
            } else {
                size - FOOTER_TAIL_BYTES
            };
            let tail = bytes.subrange(from, size);
            &&& tail.len() >= 4
            &&& footer_len(tail) == footer_len(bytes)
            &&& if footer_len(tail) <= tail.len() {
                ends_with(bytes, tail)
            } else {
                let joined = bytes.subrange(size - footer_len(tail), from) + tail;
                ends_with(bytes, joined) && footer_len(joined) == joined.len()
            }
        }),
{
    let size = bytes.len() as int;
    let from = if size < FOOTER_TAIL_BYTES {
        0int
    } else {
        size - FOOTER_TAIL_BYTES
    };
    let tail = bytes.subrange(from, size);
    assert(ends_with(bytes, tail));
    if footer_len(tail) > tail.len() {
        let joined = bytes.subrange(size - footer_len(tail), from) + tail;
        assert(joined =~= bytes.subrange(size - footer_len(tail), size));
    }
}

/// Two reads bring a footer whole, whatever the object's size: the first takes the last 64 KiB
/// or the whole object, and where the footer is longer than what it brought, the second takes
/// exactly what is missing of it in front of that. Joined, they are the end of the object.
pub proof fn law_two_reads_bring_the_footer(
    bytes: Seq<u8>,
    from: u64,
    tail: &[u8],
    step: Result<FooterStep, StoreError>,
    head: &[u8],
    both: Vec<u8>,
)
    requires
        4 <= bytes.len() <= u64::MAX,
        le32(bytes, bytes.len() - 4) + 4 <= bytes.len(),
        call_ensures(tail_start, (bytes.len() as u64,), from),
        from <= bytes.len() ==> tail@ == bytes.subrange(from as int, bytes.len() as int),
        call_ensures(footer_step, (bytes.len() as u64, tail), step),
        step matches Ok(FooterStep::ReadMore(range)) ==> (range.start <= range.end <= bytes.len()
            ==> head@ == bytes.subrange(range.start as int, range.end as int)),
        call_ensures(join_reads, (head, tail), both),
    ensures
        from <= bytes.len(),
        from == 0 <==> bytes.len() <= 0x1_0000,
        from > 0 ==> bytes.len() - from == 0x1_0000,
        step is Ok,
        step matches Ok(FooterStep::Parse) ==> le32(bytes, bytes.len() - 4) + 4 <= tail@.len(),
        step matches Ok(FooterStep::ReadMore(range)) ==> {
            let whole = le32(bytes, bytes.len() - 4) + 4;
            &&& range.end == from
            &&& bytes.len() - range.start == whole
            &&& both@ == bytes.subrange(bytes.len() - whole, bytes.len() as int)
        },
{
    let size = bytes.len() as int;
    let tail_bytes = bytes.subrange(from as int, size);
    assert(tail@ == tail_bytes);
    assert(le32(tail@, tail@.len() - 4) == le32(bytes, size - 4));
    if let Ok(FooterStep::ReadMore(range)) = step {
        assert(both@ =~= bytes.subrange(range.start as int, size));
    }
}

/// A run stands between where its first chunk begins and where its last one ends. It is found
/// exactly where the footer can be used and has all of its chunks, of which there is one at
/// least.
pub proof fn law_run_stands_between_its_ends(
    footer: &XorbObject,
    term: &Term,
    r: Result<ByteRange, StoreError>,
)
    requires
        call_ensures(term_range, (footer, term), r),
    ensures
        r is Ok <==> footer_usable(*footer) && term.chunk_index_start < term.chunk_index_end
            && term.chunk_index_end <= footer_ends(*footer).len(),
        r matches Ok(range) ==> {
            let ends = footer_ends(*footer);
            &&& range.end == ends[term.chunk_index_end - 1]
            &&& term.chunk_index_start == 0 ==> range.start == 0
            &&& term.chunk_index_start > 0 ==> range.start == ends[term.chunk_index_start - 1]
        },
        r matches Err(e) ==> e is Other,
{
}

/// What is read of a run is handed on exactly where it has as many bytes as the shard says,
/// and then as it is.
pub proof fn law_run_is_checked_by_its_size(
    data: Vec<u8>,
    term: &Term,
    checked: Result<Vec<u8>, StoreError>,
    bytes: &[u8],
    read: Result<Vec<u8>, StoreError>,
)
    requires
        call_ensures(check_term, (data, term), checked),
        call_ensures(term_data, (bytes, term), read),
    ensures
        checked is Ok <==> data@.len() == term.unpacked_segment_bytes,
        checked matches Ok(same) ==> same == data,
        read matches Ok(out) ==> {
            &&& unpacked(bytes@, 0x100_0000) == Some(out@)
            &&& out@.len() == term.unpacked_segment_bytes
        },
        read is Err ==> exists|limit: nat|
            {
                let u = #[trigger] unpacked(bytes@, limit);
                u is None || u->Some_0.len() != term.unpacked_segment_bytes
            },
{
    if read is Err {
        let limit = choose|limit: nat| #[trigger] answers(bytes@, *term, limit, read);
        let u = unpacked(bytes@, limit);
        assert(u is None || u->Some_0.len() != term.unpacked_segment_bytes);
    } else {
        let limit = choose|limit: nat| #[trigger] answers(bytes@, *term, limit, read);
        assert(answers(bytes@, *term, limit, read));
    }
}

/// Stored bytes are read chunk by chunk: no bytes are no chunks, and what a chunk leaves is
/// read as if it stood alone.
pub proof fn law_chunks_are_read_in_turn(bytes: Seq<u8>, limit: nat)
    ensures
        bytes.len() == 0 ==> unpacked(bytes, limit) == Some(Seq::<u8>::empty()),
        bytes.len() > 0 && read_chunk(bytes, limit) is None ==> unpacked(bytes, limit) is None,
        bytes.len() > 0 ==> (read_chunk(bytes, limit) matches Some((data, used)) ==> (0 < used
            <= bytes.len() ==> match unpacked(
            bytes.subrange(used as int, bytes.len() as int),
            limit,
        ) {
            Some(rest) => unpacked(bytes, limit) == Some(data + rest),
            None => unpacked(bytes, limit) is None,
        })),
{
}

/// The runs of a file are joined in their order, each as it is.
pub proof fn law_runs_are_joined_in_order(parts: &Vec<Vec<u8>>, whole: Vec<u8>, i: int)
    requires
        call_ensures(join_parts, (parts,), whole),
        0 <= i < parts@.len(),
    ensures
        ({
            let from = parts_joined(parts@.subrange(0, i)).len() as int;
            &&& from + parts@[i]@.len() <= whole@.len()
            &&& whole@.subrange(from, from + parts@[i]@.len()) == parts@[i]@
        }),
        parts@.len() == 1 ==> whole@ == parts@[0]@,
{
    lemma_part_stands(parts@, i);
    if parts@.len() == 1 {
        assert(parts@.drop_last() =~= Seq::<Vec<u8>>::empty());
        assert(parts_joined(parts@.drop_last()) =~= Seq::<u8>::empty());
        assert(whole@ =~= parts@[0]@);
    }
}

proof fn lemma_part_stands(parts: Seq<Vec<u8>>, i: int)
    requires
        0 <= i < parts.len(),
    ensures
        ({
            let from = parts_joined(parts.subrange(0, i)).len() as int;
            let whole = parts_joined(parts);
            &&& from + parts[i]@.len() <= whole.len()
            &&& whole.subrange(from, from + parts[i]@.len()) == parts[i]@
        }),
    decreases parts.len(),
{
    let front = parts.drop_last();
    let from = parts_joined(parts.subrange(0, i)).len() as int;
    if i == parts.len() - 1 {
        assert(parts.subrange(0, i) =~= front);
        assert(parts_joined(parts).subrange(from, from + parts[i]@.len()) =~= parts[i]@);
    } else {
        lemma_part_stands(front, i);
        assert(front.subrange(0, i) =~= parts.subrange(0, i));
        assert(parts_joined(parts).subrange(from, from + parts[i]@.len()) =~= parts_joined(
            front,
        ).subrange(from, from + parts[i]@.len()));
    }
}

/// A xorb that is packed has the hash of its chunks, and each run of them can be read back out
/// of its bytes by where the footer says that it stands.
pub proof fn law_packed_xorb_gives_its_runs_back(
    data: &[u8],
    chunks: &Vec<ChunkRef>,
    x: PackedXorb,
    a: int,
    b: int,
)
    requires
        call_ensures(pack_xorb, (data, chunks), Ok::<PackedXorb, StoreError>(x)),
        0 <= a < b <= chunks@.len(),
    ensures
        x.hash == xorb_hash_of(sizes_of(chunks@)),
        footer_ends(x.footer).len() == chunks@.len(),
        ({
            let ends = footer_ends(x.footer);
            let from = if a == 0 {
                0
            } else {
                ends[a - 1] as int
            };
            unpacked(x.bytes@.subrange(from, ends[b - 1] as int), 0x2_0000) == Some(
                run_data(data@, chunks@, a, b),
            )
        }),
        run_data(data@, chunks@, a, b) == run_data(data@, chunks@, a, b - 1) + data@.subrange(
            chunks@[b - 1].start as int,
            chunks@[b - 1].start + chunks@[b - 1].len,
        ),
        run_data(data@, chunks@, a, a).len() == 0,
{
    let ends = footer_ends(x.footer);
    assert(start_of(ends, a) == if a == 0 {
        0
    } else {
        ends[a - 1] as int
    });
}

} // verus!
