//! The index of a repository's chunks and files.
use std::io::Cursor;

use vstd::prelude::*;

use xet_core_structures::merklehash::DataHash;
use xet_core_structures::metadata_shard::file_structs::{
    FileDataSequenceEntry, FileDataSequenceHeader, MDBFileInfo,
};
use xet_core_structures::metadata_shard::shard_format::MDBShardInfo;
use xet_core_structures::metadata_shard::shard_in_memory::MDBInMemoryShard;
use xet_core_structures::metadata_shard::xorb_structs::{
    MDBXorbInfo, XorbChunkSequenceEntry, XorbChunkSequenceHeader,
};
use xet_core_structures::CoreError;

use crate::number::{get_le32, le32};
use crate::store::StoreError;
use crate::xet::hash::MerkleHash;
use crate::xet::terms::Term;

verus! {

/// Bytes of every record of a stored shard: a header, or an entry behind one.
pub const RECORD: usize = 48;

/// A chunk within a xorb.
#[derive(Clone, Copy, PartialEq, Eq, Structural, Debug)]
pub struct ChunkEntry {
    pub hash: MerkleHash,
    /// Where the chunk begins, in the uncompressed bytes of the xorb.
    pub start: u32,
    pub len: u32,
}

/// Where the index points for a chunk: a position in a xorb.
#[verifier::ext_equal]
pub struct Place {
    pub xorb_hash: MerkleHash,
    pub chunks: Seq<ChunkEntry>,
    pub index: nat,
}

/// Bytes of chunks `from` to `to`.
pub open spec fn run_bytes(chunks: Seq<ChunkEntry>, from: int, to: int) -> nat
    decreases to - from,
{
    if to <= from {
        0
    } else {
        run_bytes(chunks, from, to - 1) + chunks[to - 1].len as nat
    }
}

/// The sizes of a xorb's chunks fit the 32 bits that they are kept in.
pub open spec fn record_fits(chunks: Seq<ChunkEntry>) -> bool {
    &&& chunks.len() <= u32::MAX
    &&& run_bytes(chunks, 0, chunks.len() as int) <= u32::MAX
    &&& chunks.len() > 0 ==> chunks.last().start + chunks.last().len <= u32::MAX
}

/// A place that a query can be answered from.
pub open spec fn place_fits(hash: MerkleHash, p: Place) -> bool {
    &&& record_fits(p.chunks)
    &&& p.index < p.chunks.len()
    &&& p.chunks[p.index as int].hash == hash
    &&& !p.xorb_hash.marks()
}

/// How many of the chunks from `at` on are the first ones of `query`.
pub open spec fn run_length(
    chunks: Seq<ChunkEntry>,
    at: nat,
    query: Seq<MerkleHash>,
) -> nat
    decreases query.len(),
{
    if query.len() == 0 || at >= chunks.len() || chunks[at as int].hash != query[0] {
        0
    } else {
        1 + run_length(chunks, at + 1, query.drop_first())
    }
}

/// The longest run of chunks of one xorb that `query` begins with, found by its
/// first hash.
pub open spec fn longest_run(
    places: Map<MerkleHash, Place>,
    query: Seq<MerkleHash>,
) -> Option<(nat, Term)> {
    if query.len() == 0 || !places.contains_key(query[0]) {
        None
    } else {
        let p = places[query[0]];
        let n = run_length(p.chunks, p.index, query);
        Some(
            (
                n,
                Term {
                    xorb_hash: p.xorb_hash,
                    xorb_flags: 0,
                    unpacked_segment_bytes: run_bytes(
                        p.chunks,
                        p.index as int,
                        p.index as int + n,
                    ) as u32,
                    chunk_index_start: p.index as u32,
                    chunk_index_end: (p.index + n) as u32,
                },
            ),
        )
    }
}

/// The last chunk of a xorb with this hash.
pub open spec fn last_at(chunks: Seq<ChunkEntry>, hash: MerkleHash) -> Option<nat>
    decreases chunks.len(),
{
    if chunks.len() == 0 {
        None
    } else if chunks.last().hash == hash {
        Some((chunks.len() - 1) as nat)
    } else {
        last_at(chunks.drop_last(), hash)
    }
}

/// The index after a xorb was added: each of its chunks is found there.
pub open spec fn places_with(
    places: Map<MerkleHash, Place>,
    xorb_hash: MerkleHash,
    chunks: Seq<ChunkEntry>,
) -> Map<MerkleHash, Place> {
    Map::new(
        |h: MerkleHash| places.contains_key(h) || last_at(chunks, h) is Some,
        |h: MerkleHash|
            match last_at(chunks, h) {
                Some(index) => Place { xorb_hash, chunks, index },
                None => places[h],
            },
    )
}

/// A failure of the Xet structures.
#[verifier::external_type_specification]
#[verifier::external_body]
pub struct ExCoreError(CoreError);

/// A shard as it is searched.
#[verifier::external_type_specification]
#[verifier::external_body]
pub struct ExMDBInMemoryShard(MDBInMemoryShard);

/// Where a shard's chunk lookup points.
pub uninterp spec fn shard_places(shard: MDBInMemoryShard) -> Map<MerkleHash, Place>;

/// The chunks of each xorb that a shard has a record of.
pub uninterp spec fn shard_xorbs(shard: MDBInMemoryShard) -> Map<MerkleHash, Seq<ChunkEntry>>;

/// The runs of each file that a shard has a record of.
pub uninterp spec fn shard_files(shard: MDBInMemoryShard) -> Map<MerkleHash, Seq<Term>>;

/// What a stored shard holds.
pub struct StoredShard {
    pub places: Map<MerkleHash, Place>,
    pub xorbs: Map<MerkleHash, Seq<ChunkEntry>>,
    pub files: Map<MerkleHash, Seq<Term>>,
}

/// What is read out of the bytes of a shard, or `None` where they are refused.
pub uninterp spec fn stored_shard(bytes: Seq<u8>) -> Option<StoredShard>;

/// Bytes that a shard takes up when it is stored, or more.
pub uninterp spec fn shard_size(shard: MDBInMemoryShard) -> nat;

/// The lookup finds every chunk of every xorb that it points at or has a record of.
pub open spec fn complete(
    places: Map<MerkleHash, Place>,
    xorbs: Map<MerkleHash, Seq<ChunkEntry>>,
) -> bool {
    &&& forall|x: MerkleHash, i: int|
        #![trigger xorbs[x][i]]
        xorbs.contains_key(x) && 0 <= i < xorbs[x].len() ==> places.contains_key(xorbs[x][i].hash)
    &&& forall|h: MerkleHash, i: int|
        #![trigger places[h].chunks[i]]
        places.contains_key(h) && 0 <= i < places[h].chunks.len() ==> places.contains_key(
            places[h].chunks[i].hash,
        )
}

/// Every query can be answered, and every record can be stored.
pub open spec fn sound(
    places: Map<MerkleHash, Place>,
    xorbs: Map<MerkleHash, Seq<ChunkEntry>>,
    files: Map<MerkleHash, Seq<Term>>,
) -> bool {
    &&& forall|h: MerkleHash|
        #![trigger places[h]]
        places.contains_key(h) ==> place_fits(h, places[h])
    &&& forall|x: MerkleHash|
        #![trigger xorbs[x]]
        xorbs.contains_key(x) ==> record_fits(xorbs[x]) && !x.marks()
    &&& forall|f: MerkleHash| #[trigger] files.contains_key(f) ==> !f.marks()
    &&& complete(places, xorbs)
}

/// The lookup points at the xorbs that the shard has a record of.
pub open spec fn agree(
    places: Map<MerkleHash, Place>,
    xorbs: Map<MerkleHash, Seq<ChunkEntry>>,
) -> bool {
    forall|h: MerkleHash|
        #![trigger places[h]]
        places.contains_key(h) ==> xorbs.contains_key(places[h].xorb_hash)
            && xorbs[places[h].xorb_hash] == places[h].chunks
}

/// A record whose hash is all ones ends a section.
pub open spec fn ends_section(b: Seq<u8>, at: int) -> bool {
    forall|i: int| #![trigger b[i]] at <= i < at + 32 ==> b[i] == 0xff
}

/// How many records follow the file header at `at`: the runs, as many checks of
/// them where bit 31 of the flags says so, and one extension where bit 30 does.
pub open spec fn following(b: Seq<u8>, at: int) -> nat {
    let flags = le32(b, at + 32);
    let runs = le32(b, at + 36);
    let checks = if flags >= 0x8000_0000 {
        runs
    } else {
        0
    };
    let extension: nat = (flags / 0x4000_0000) % 2;
    runs + checks + extension
}

/// Where the file section that goes on at `at` ends, or `None` where the bytes end
/// before it does or a header counts more records than the format allows.
pub open spec fn files_end(b: Seq<u8>, at: int) -> Option<int>
    decreases b.len() - at,
{
    if at < 0 || at + RECORD > b.len() {
        None
    } else if ends_section(b, at) {
        Some(at + RECORD)
    } else {
        let next = at + RECORD + following(b, at) * RECORD;
        if following(b, at) > u32::MAX || next > b.len() {
            None
        } else {
            files_end(b, next)
        }
    }
}

/// Bytes of the first `n` chunks whose records begin at `at`.
pub open spec fn sizes_at(b: Seq<u8>, at: int, n: nat) -> nat
    decreases n,
{
    if n == 0 {
        0
    } else {
        sizes_at(b, at, (n - 1) as nat) + le32(b, at + (n - 1) * RECORD + 36)
    }
}

/// The sizes in the `n` chunk records at `at` fit the 32 bits that they are added
/// up in.
pub open spec fn chunks_fit(b: Seq<u8>, at: int, n: nat) -> bool {
    &&& sizes_at(b, at, n) <= u32::MAX
    &&& n > 0 ==> {
        let last = at + (n - 1) * RECORD;
        le32(b, last + 32) + le32(b, last + 36) <= u32::MAX
    }
}

/// The same for every complete record of the xorb section that goes on at `at`.
pub open spec fn xorbs_fit(b: Seq<u8>, at: int) -> bool
    decreases b.len() - at,
{
    if at < 0 || at + RECORD > b.len() || ends_section(b, at) {
        true
    } else {
        let n = le32(b, at + 36);
        let next = at + RECORD + n * RECORD;
        if next > b.len() {
            true
        } else {
            chunks_fit(b, at + RECORD, n) && xorbs_fit(b, next)
        }
    }
}

/// The bytes of a shard that can be read: no sum of chunk sizes in it overflows.
pub open spec fn stored_fits(b: Seq<u8>) -> bool {
    match files_end(b, RECORD as int) {
        None => true,
        Some(at) => xorbs_fit(b, at),
    }
}

/// Calls `MDBInMemoryShard::default`: a shard without records.
#[verifier::external_body]
fn empty_shard() -> (r: MDBInMemoryShard)
    ensures
        forall|h: MerkleHash|
            #![trigger shard_places(r).contains_key(h)]
            !shard_places(r).contains_key(h),
        forall|h: MerkleHash|
            #![trigger shard_xorbs(r).contains_key(h)]
            !shard_xorbs(r).contains_key(h),
        forall|h: MerkleHash|
            #![trigger shard_files(r).contains_key(h)]
            !shard_files(r).contains_key(h),
{
    MDBInMemoryShard::default()
}

/// Calls `MDBInMemoryShard::from_reader`. What it reads is a function of the bytes, and
/// the footer is not among what is read. Records are ended by a hash of all ones, so no
/// xorb and no file has that hash. The reader adds chunk sizes up in 32 bits, which the
/// condition keeps from overflowing; the sums then fit for every chunk that the lookup
/// finds, and each is found where its own hash stands. It enters every chunk of every
/// record into the lookup. What is not said is how the records are laid out.
#[verifier::external_body]
fn parse_shard(bytes: &[u8]) -> (r: Result<MDBInMemoryShard, CoreError>)
    requires
        stored_fits(bytes@),
    ensures
        match r {
            Ok(s) => stored_shard(bytes@) == Some(
                StoredShard {
                    places: shard_places(s),
                    xorbs: shard_xorbs(s),
                    files: shard_files(s),
                },
            ),
            Err(_) => stored_shard(bytes@) is None,
        },
        r matches Ok(s) ==> sound(shard_places(s), shard_xorbs(s), shard_files(s)),
{
    MDBInMemoryShard::from_reader(&mut Cursor::new(bytes))
}

/// Calls `MDBInMemoryShard::chunk_hash_dedup_query`: finds the first hash, and
/// counts how many of the chunks from there on match. It looks only where the
/// lookup points. Its runs carry the flags of the xorb's record, which are zero: the
/// reader drops what a stored record has there.
#[verifier::external_body]
fn query_shard(shard: &MDBInMemoryShard, query: &[MerkleHash]) -> (r: Option<(usize, Term)>)
    requires
        sound(shard_places(*shard), shard_xorbs(*shard), shard_files(*shard)),
    ensures
        match longest_run(shard_places(*shard), query@) {
            Some((n, term)) => r == Some((n as usize, term)) && n <= query@.len(),
            None => r is None,
        },
{
    let raw: Vec<DataHash> = query.iter().map(|h| DataHash::from(h.words().map(u64::to_le))).collect();
    shard.chunk_hash_dedup_query(&raw).map(
        |(n, e)|
            (
                n,
                Term {
                    xorb_hash: MerkleHash::from_words(e.xorb_hash.map(u64::from_le)),
                    xorb_flags: e.xorb_flags,
                    unpacked_segment_bytes: e.unpacked_segment_bytes,
                    chunk_index_start: e.chunk_index_start,
                    chunk_index_end: e.chunk_index_end,
                },
            ),
    )
}

/// How many bytes the chunks of a xorb have.
fn bytes_of(chunks: &Vec<ChunkEntry>) -> (r: u32)
    requires
        run_bytes(chunks@, 0, chunks@.len() as int) <= u32::MAX,
    ensures
        r == run_bytes(chunks@, 0, chunks@.len() as int),
{
    let mut sum: u32 = 0;
    let mut i: usize = 0;
    while i < chunks.len()
        invariant
            i <= chunks@.len(),
            sum == run_bytes(chunks@, 0, i as int),
            run_bytes(chunks@, 0, chunks@.len() as int) <= u32::MAX,
        decreases chunks@.len() - i,
    {
        proof {
            lemma_run_bytes_part(chunks@, 0, i + 1);
        }
        sum = sum + chunks[i].len;
        i = i + 1;
    }
    sum
}

/// Calls `MDBInMemoryShard::add_xorb_block`, which records the xorb and points the
/// lookup of each of its chunks at it. It never fails. The record also says how many bytes
/// the chunks have, which the condition fixes.
#[verifier::external_body]
fn insert_xorb(
    shard: &mut MDBInMemoryShard,
    hash: MerkleHash,
    chunks: &[ChunkEntry],
    bytes: u32,
) -> (r: Result<(), CoreError>)
    requires
        chunks@.len() <= u32::MAX,
        bytes == run_bytes(chunks@, 0, chunks@.len() as int),
    ensures
        r is Ok,
        shard_places(*final(shard)) == places_with(shard_places(*old(shard)), hash, chunks@),
        shard_xorbs(*final(shard)) == shard_xorbs(*old(shard)).insert(hash, chunks@),
        shard_files(*final(shard)) == shard_files(*old(shard)),
{
    let metadata = XorbChunkSequenceHeader::new(
        DataHash::from(hash.words().map(u64::to_le)),
        chunks.len(),
        bytes,
    );
    let chunks = chunks.iter().map(
        |c|
            XorbChunkSequenceEntry::new(
                DataHash::from(c.hash.words().map(u64::to_le)),
                c.len,
                c.start,
            ),
    ).collect();
    shard.add_xorb_block(MDBXorbInfo { metadata, chunks })
}

/// Calls `MDBInMemoryShard::add_file_reconstruction_info`, which records the file
/// in place of an earlier one with its hash. It never fails for a file without
/// checks and extensions.
#[verifier::external_body]
fn insert_file(shard: &mut MDBInMemoryShard, file: MerkleHash, terms: &[Term]) -> (r: Result<
    (),
    CoreError,
>)
    requires
        terms@.len() <= u32::MAX,
    ensures
        r is Ok,
        shard_places(*final(shard)) == shard_places(*old(shard)),
        shard_xorbs(*final(shard)) == shard_xorbs(*old(shard)),
        shard_files(*final(shard)) == shard_files(*old(shard)).insert(file, terms@),
{
    let hash = DataHash::from(file.words().map(u64::to_le));
    let metadata = FileDataSequenceHeader::new(hash, terms.len(), false, false);
    let segments = terms.iter().map(
        |t| FileDataSequenceEntry {
            xorb_hash: DataHash::from(t.xorb_hash.words().map(u64::to_le)),
            xorb_flags: t.xorb_flags,
            unpacked_segment_bytes: t.unpacked_segment_bytes,
            chunk_index_start: t.chunk_index_start,
            chunk_index_end: t.chunk_index_end,
        },
    ).collect();
    let file = MDBFileInfo { metadata, segments, verification: Vec::new(), metadata_ext: None };
    shard.add_file_reconstruction_info(file)
}

/// Calls `MDBInMemoryShard::get_file_reconstruction_info`: the runs of a file.
#[verifier::external_body]
fn find_file(shard: &MDBInMemoryShard, file: MerkleHash) -> (r: Option<Vec<Term>>)
    ensures
        match r {
            Some(terms) => shard_files(*shard).contains_key(file) && terms@
                == shard_files(*shard)[file],
            None => !shard_files(*shard).contains_key(file),
        },
{
    let info = shard.get_file_reconstruction_info(&DataHash::from(file.words().map(u64::to_le)))?;
    Some(info.segments.iter().map(
        |e| Term {
            xorb_hash: MerkleHash::from_words(e.xorb_hash.map(u64::from_le)),
            xorb_flags: e.xorb_flags,
            unpacked_segment_bytes: e.unpacked_segment_bytes,
            chunk_index_start: e.chunk_index_start,
            chunk_index_end: e.chunk_index_end,
        },
    ).collect())
}

/// Calls `MDBInMemoryShard::shard_file_size`.
#[verifier::external_body]
fn size_of_shard(shard: &MDBInMemoryShard) -> (r: u64)
    ensures
        r == shard_size(*shard),
{
    shard.shard_file_size()
}

/// Calls `MDBShardInfo::serialize_from`, which writes the shard out. It writes into
/// memory, so it never fails. What it writes is read back with the same xorbs and files,
/// and its lookup points at those xorbs. The writer counts records in 32 bits; the
/// condition keeps that from overflowing, a record being 48 bytes.
#[verifier::external_body]
fn format_shard(shard: &MDBInMemoryShard) -> (r: Result<Vec<u8>, CoreError>)
    requires
        shard_size(*shard) <= 48 * u32::MAX,
        sound(shard_places(*shard), shard_xorbs(*shard), shard_files(*shard)),
    ensures
        match r {
            Ok(out) => {
                &&& stored_fits(out@)
                &&& stored_shard(out@) matches Some(s) && s.xorbs == shard_xorbs(*shard) && s.files
                    == shard_files(*shard) && agree(s.places, s.xorbs)
            },
            Err(_) => false,
        },
{
    let mut out = Vec::new();
    MDBShardInfo::serialize_from(&mut out, shard, None)?;
    Ok(out)
}

/// Writes a failure of the Xet structures down, by its `Display`.
#[verifier::external_body]
pub(crate) fn core_error_text(e: &CoreError) -> (r: String) {
    format!("{e}")
}

/// A failure of this module: what was being done, and why it failed.
pub open spec fn xet_message(what: Seq<char>, why: Seq<char>) -> Seq<char> {
    "xet: "@ + what + ": "@ + why
}

pub fn xet_err(what: &str, why: &str) -> (r: StoreError)
    ensures
        r.says(xet_message(what@, why@)),
{
    let mut m = String::from_str("xet: ");
    m.append(what);
    m.append(": ");
    m.append(why);
    StoreError::Other(m)
}

fn ends_here(b: &[u8], at: usize) -> (r: bool)
    requires
        at + 32 <= b.len(),
    ensures
        r == ends_section(b@, at as int),
{
    let mut i: usize = at;
    while i < at + 32
        invariant
            at <= i <= at + 32,
            at + 32 <= b.len(),
            forall|j: int| #![trigger b@[j]] at <= j < i ==> b@[j] == 0xff,
        decreases at + 32 - i,
    {
        if b[i] != 0xff {
            return false;
        }
        i = i + 1;
    }
    true
}

fn skip_files(b: &[u8]) -> (r: Option<usize>)
    ensures
        match files_end(b@, RECORD as int) {
            Some(at) => r matches Some(n) && n == at && 0 <= at <= b@.len(),
            None => r is None,
        },
{
    let size: usize = b.len();
    let mut at: usize = RECORD;
    loop
        invariant
            size == b@.len(),
            size == b.len(),
            at >= RECORD,
            files_end(b@, RECORD as int) == files_end(b@, at as int),
        decreases size + RECORD - at,
    {
        if size < RECORD || at > size - RECORD {
            return None;
        }
        if ends_here(b, at) {
            return Some(at + RECORD);
        }
        let flags: u32 = get_le32(b, at + 32);
        let runs: u32 = get_le32(b, at + 36);
        let checks: u64 = if flags >= 0x8000_0000 {
            runs as u64
        } else {
            0
        };
        let extension: u64 = ((flags / 0x4000_0000) % 2) as u64;
        let n: u64 = runs as u64 + checks + extension;
        assert(n == following(b@, at as int));
        if n > 0xffff_ffff || n * 48 > (size - at - RECORD) as u64 {
            return None;
        }
        at = at + RECORD + n as usize * RECORD;
    }
}

fn sizes_fit(b: &[u8], at: usize, n: usize) -> (r: bool)
    requires
        at + n * RECORD <= b.len(),
    ensures
        r == chunks_fit(b@, at as int, n as nat),
{
    let mut sum: u64 = 0;
    let mut i: usize = 0;
    while i < n
        invariant
            i <= n,
            at + n * RECORD <= b.len(),
            sum == sizes_at(b@, at as int, i as nat),
            sum <= u32::MAX,
        decreases n - i,
    {
        sum = sum + get_le32(b, at + i * RECORD + 36) as u64;
        i = i + 1;
        if sum > 0xffff_ffff {
            proof {
                lemma_sizes_grow(b@, at as int, i as nat, n as nat);
            }
            return false;
        }
    }
    if n > 0 {
        let last: usize = at + (n - 1) * RECORD;
        let end: u64 = get_le32(b, last + 32) as u64 + get_le32(b, last + 36) as u64;
        return end <= 0xffff_ffff;
    }
    true
}

proof fn lemma_sizes_grow(b: Seq<u8>, at: int, n: nat, m: nat)
    requires
        n <= m,
    ensures
        sizes_at(b, at, n) <= sizes_at(b, at, m),
    decreases m - n,
{
    if n < m {
        lemma_sizes_grow(b, at, n, (m - 1) as nat);
    }
}

/// Whether the bytes of a shard can be read without a sum of chunk sizes
/// overflowing.
pub fn shard_fits(b: &[u8]) -> (r: bool)
    ensures
        r == stored_fits(b@),
{
    let mut at: usize = match skip_files(b) {
        Some(at) => at,
        None => {
            return true;
        },
    };
    let size: usize = b.len();
    loop
        invariant
            size == b@.len(),
            size == b.len(),
            at <= size,
            stored_fits(b@) == xorbs_fit(b@, at as int),
        decreases size - at,
    {
        if size < RECORD || at > size - RECORD || ends_here(b, at) {
            return true;
        }
        let n: usize = get_le32(b, at + 36) as usize;
        let room: usize = size - at - RECORD;
        if n as u64 * 48 > room as u64 {
            return true;
        }
        if !sizes_fit(b, at + RECORD, n) {
            return false;
        }
        at = at + RECORD + n * RECORD;
    }
}

/// The index of one repository.
pub struct Shard {
    pub inner: MDBInMemoryShard,
}

impl Shard {
    pub open spec fn places(self) -> Map<MerkleHash, Place> {
        shard_places(self.inner)
    }

    pub open spec fn xorbs(self) -> Map<MerkleHash, Seq<ChunkEntry>> {
        shard_xorbs(self.inner)
    }

    pub open spec fn files(self) -> Map<MerkleHash, Seq<Term>> {
        shard_files(self.inner)
    }

    pub open spec fn wf(self) -> bool {
        sound(self.places(), self.xorbs(), self.files())
    }

    pub fn new() -> (r: Shard)
        ensures
            r.wf(),
            r.places() == Map::<MerkleHash, Place>::empty(),
            r.xorbs() == Map::<MerkleHash, Seq<ChunkEntry>>::empty(),
            r.files() == Map::<MerkleHash, Seq<Term>>::empty(),
    {
        let r = Shard { inner: empty_shard() };
        assert(r.places() =~= Map::<MerkleHash, Place>::empty());
        assert(r.xorbs() =~= Map::<MerkleHash, Seq<ChunkEntry>>::empty());
        assert(r.files() =~= Map::<MerkleHash, Seq<Term>>::empty());
        r
    }

    /// Reads a stored shard.
    pub fn read(bytes: &[u8]) -> (r: Result<Shard, StoreError>)
        ensures
            match r {
                Ok(s) => {
                    &&& s.wf()
                    &&& stored_fits(bytes@)
                    &&& stored_shard(bytes@) == Some(
                        StoredShard { places: s.places(), xorbs: s.xorbs(), files: s.files() },
                    )
                },
                Err(e) => if stored_fits(bytes@) {
                    &&& stored_shard(bytes@) is None
                    &&& exists|why: Seq<char>| e.says(#[trigger] xet_message("shard read"@, why))
                } else {
                    e.says(xet_message("shard read"@, "chunk sizes exceed 32 bits"@))
                },
            },
    {
        if !shard_fits(bytes) {
            return Err(xet_err("shard read", "chunk sizes exceed 32 bits"));
        }
        match parse_shard(bytes) {
            Ok(inner) => Ok(Shard { inner }),
            Err(e) => Err(xet_err("shard read", core_error_text(&e).as_str())),
        }
    }
}

/// A query that stops short finds the same run, cut to its length.
proof fn lemma_run_prefix(chunks: Seq<ChunkEntry>, at: nat, query: Seq<MerkleHash>, n: nat)
    requires
        n <= query.len(),
    ensures
        run_length(chunks, at, query) <= query.len(),
        run_length(chunks, at, query.subrange(0, n as int)) == if run_length(chunks, at, query) < n {
            run_length(chunks, at, query)
        } else {
            n
        },
    decreases query.len(),
{
    let front = query.subrange(0, n as int);
    if query.len() > 0 {
        if n > 0 {
            lemma_run_prefix(chunks, at + 1, query.drop_first(), (n - 1) as nat);
            assert(front.drop_first() =~= query.drop_first().subrange(0, n - 1));
        } else {
            lemma_run_prefix(chunks, at + 1, query.drop_first(), 0);
        }
    }
}

/// The chunks of a run are the ones that were asked for.
pub proof fn lemma_run_matches(chunks: Seq<ChunkEntry>, at: nat, query: Seq<MerkleHash>)
    ensures
        ({
            let n = run_length(chunks, at, query);
            &&& n <= query.len()
            &&& n > 0 ==> at + n <= chunks.len()
            &&& forall|i: int| 0 <= i < n ==> (#[trigger] chunks[at + i]).hash == query[i]
        }),
    decreases query.len(),
{
    if query.len() > 0 && at < chunks.len() && chunks[at as int].hash == query[0] {
        let rest = query.drop_first();
        lemma_run_matches(chunks, at + 1, rest);
        let n = run_length(chunks, at, query);
        assert forall|i: int| 0 <= i < n implies (#[trigger] chunks[at + i]).hash == query[i] by {
            if i > 0 {
                assert(chunks[(at + 1) + (i - 1)].hash == rest[i - 1]);
            }
        }
    }
}

pub proof fn lemma_run_bytes_part(chunks: Seq<ChunkEntry>, from: int, to: int)
    requires
        0 <= from <= to <= chunks.len(),
    ensures
        run_bytes(chunks, from, to) <= run_bytes(chunks, 0, chunks.len() as int),
    decreases chunks.len() - to + from,
{
    if to < chunks.len() {
        lemma_run_bytes_part(chunks, from, to + 1);
    } else if from > 0 {
        lemma_run_bytes_part(chunks, from - 1, to);
        lemma_run_bytes_first(chunks, from - 1, to);
    }
}

proof fn lemma_run_bytes_first(chunks: Seq<ChunkEntry>, from: int, to: int)
    requires
        0 <= from < to <= chunks.len(),
    ensures
        run_bytes(chunks, from, to) == chunks[from].len as nat + run_bytes(chunks, from + 1, to),
    decreases to - from,
{
    if to - 1 > from {
        lemma_run_bytes_first(chunks, from, to - 1);
    } else {
        assert(run_bytes(chunks, from, to - 1) == 0);
        assert(run_bytes(chunks, from + 1, to) == 0);
    }
}

/// Sizes and positions of a run that a query found fit the fields of a term.
pub proof fn lemma_run_fits(places: Map<MerkleHash, Place>, query: Seq<MerkleHash>)
    requires
        query.len() > 0,
        places.contains_key(query[0]),
        place_fits(query[0], places[query[0]]),
    ensures
        ({
            let p = places[query[0]];
            let n = run_length(p.chunks, p.index, query);
            &&& 1 <= n <= query.len()
            &&& p.index + n <= p.chunks.len() <= u32::MAX
            &&& run_bytes(p.chunks, p.index as int, p.index as int + n) <= u32::MAX
        }),
{
    let p = places[query[0]];
    let n = run_length(p.chunks, p.index, query);
    lemma_run_matches(p.chunks, p.index, query);
    lemma_run_bytes_part(p.chunks, p.index as int, p.index as int + n);
}

impl Shard {
    /// The longest run of stored chunks that the chunks from `at` on begin with.
    ///
    /// The shard is asked about a few chunks first, and about twice as many while
    /// all of them match: a file of many short runs is not handed over whole for
    /// each of them.
    pub fn find(&self, hashes: &Vec<MerkleHash>, at: usize) -> (r: Option<(usize, Term)>)
        requires
            self.wf(),
            at < hashes@.len(),
        ensures
            match longest_run(
                self.places(),
                hashes@.subrange(at as int, hashes@.len() as int),
            ) {
                Some((n, term)) => r == Some((n as usize, term)) && 1 <= n <= hashes@.len() - at,
                None => r is None,
            },
    {
        let ghost all = hashes@.subrange(at as int, hashes@.len() as int);
        let left: usize = hashes.len() - at;
        let mut window: usize = if left < 16 {
            left
        } else {
            16
        };
        loop
            invariant
                self.wf(),
                at < hashes@.len(),
                left == hashes.len() - at,
                all == hashes@.subrange(at as int, hashes@.len() as int),
                1 <= window <= left,
            decreases left - window,
        {
            let query = vstd::slice::slice_subrange(hashes.as_slice(), at, at + window);
            let ghost q = query@;
            let r = query_shard(&self.inner, query);
            proof {
                assert(q =~= all.subrange(0, window as int));
                if self.places().contains_key(all[0]) {
                    let p = self.places()[all[0]];
                    lemma_run_prefix(p.chunks, p.index, all, window as nat);
                    lemma_run_fits(self.places(), all);
                    lemma_run_fits(self.places(), q);
                }
            }
            match r {
                None => {
                    return None;
                },
                Some((n, term)) => {
                    if n < window || window == left {
                        return Some((n, term));
                    }
                },
            }
            window = if window > left - window {
                left
            } else {
                window + window
            };
        }
    }

    /// Records a xorb that was written, and points the lookup of its chunks at it.
    pub fn add_xorb(&mut self, hash: MerkleHash, chunks: &Vec<ChunkEntry>)
        requires
            old(self).wf(),
            record_fits(chunks@),
            !hash.marks(),
        ensures
            final(self).wf(),
            final(self).places() == places_with(old(self).places(), hash, chunks@),
            final(self).xorbs() == old(self).xorbs().insert(hash, chunks@),
            final(self).files() == old(self).files(),
    {
        let bytes = bytes_of(chunks);
        let done = insert_xorb(&mut self.inner, hash, chunks.as_slice(), bytes);
        assert(done is Ok);
        proof {
            let before = old(self).places();
            let after = self.places();
            lemma_stays_complete(before, old(self).xorbs(), hash, chunks@);
            assert forall|h: MerkleHash| #![trigger after[h]] after.contains_key(h) implies place_fits(
                h,
                after[h],
            ) by {
                lemma_last_at(chunks@, h);
                if last_at(chunks@, h) is None {
                    assert(place_fits(h, before[h]));
                }
            }
            assert forall|x: MerkleHash|
                #![trigger self.xorbs()[x]]
                self.xorbs().contains_key(x) implies record_fits(self.xorbs()[x]) && !x.marks() by {
                if x != hash {
                    assert(record_fits(old(self).xorbs()[x]));
                }
            }
        }
    }

    /// Records how a file is put together.
    pub fn add_file(&mut self, file: MerkleHash, terms: &Vec<Term>)
        requires
            old(self).wf(),
            terms@.len() <= u32::MAX,
            !file.marks(),
        ensures
            final(self).wf(),
            final(self).places() == old(self).places(),
            final(self).xorbs() == old(self).xorbs(),
            final(self).files() == old(self).files().insert(file, terms@),
    {
        let done = insert_file(&mut self.inner, file, terms.as_slice());
        assert(done is Ok);
    }

    /// How a file is put together, or `None` where the shard has no record of it.
    pub fn file(&self, file: MerkleHash) -> (r: Option<Vec<Term>>)
        ensures
            match r {
                Some(terms) => self.files().contains_key(file) && terms@ == self.files()[file],
                None => !self.files().contains_key(file),
            },
    {
        find_file(&self.inner, file)
    }

    /// Writes the shard down. It is read back with the same xorbs and files.
    pub fn write(&self) -> (r: Result<Vec<u8>, StoreError>)
        requires
            self.wf(),
        ensures
            if shard_size(self.inner) <= 48 * u32::MAX {
                r matches Ok(bytes) && {
                    &&& stored_fits(bytes@)
                    &&& stored_shard(bytes@) matches Some(s) && s.xorbs == self.xorbs() && s.files
                        == self.files() && agree(s.places, s.xorbs)
                }
            } else {
                r matches Err(e) && e.says(xet_message("shard write"@, "too many records"@))
            },
    {
        if size_of_shard(&self.inner) > 48 * 0xffff_ffff {
            return Err(xet_err("shard write", "too many records"));
        }
        match format_shard(&self.inner) {
            Ok(bytes) => Ok(bytes),
            Err(e) => Err(xet_err("shard write", core_error_text(&e).as_str())),
        }
    }
}

pub proof fn lemma_last_at(chunks: Seq<ChunkEntry>, hash: MerkleHash)
    ensures
        last_at(chunks, hash) matches Some(i) ==> i < chunks.len() && chunks[i as int].hash == hash,
        last_at(chunks, hash) is None ==> forall|i: int|
            #![trigger chunks[i]]
            0 <= i < chunks.len() ==> chunks[i].hash != hash,
    decreases chunks.len(),
{
    if chunks.len() > 0 {
        let front = chunks.drop_last();
        lemma_last_at(front, hash);
        if last_at(chunks, hash) is None {
            assert forall|i: int| #![trigger chunks[i]] 0 <= i < chunks.len() implies chunks[i].hash
                != hash by {
                if i < front.len() {
                    assert(front[i] == chunks[i]);
                }
            }
        }
    }
}

/// A lookup stays complete when a xorb is added to it.
pub proof fn lemma_stays_complete(
    places: Map<MerkleHash, Place>,
    xorbs: Map<MerkleHash, Seq<ChunkEntry>>,
    hash: MerkleHash,
    chunks: Seq<ChunkEntry>,
)
    requires
        complete(places, xorbs),
    ensures
        complete(places_with(places, hash, chunks), xorbs.insert(hash, chunks)),
{
    let after = places_with(places, hash, chunks);
    let records = xorbs.insert(hash, chunks);
    assert forall|i: int| #![trigger chunks[i]] 0 <= i < chunks.len() implies after.contains_key(
        chunks[i].hash,
    ) by {
        lemma_last_at(chunks, chunks[i].hash);
    }
    assert forall|x: MerkleHash, i: int|
        #![trigger records[x][i]]
        records.contains_key(x) && 0 <= i < records[x].len() implies after.contains_key(
        records[x][i].hash,
    ) by {
        if x != hash {
            assert(places.contains_key(xorbs[x][i].hash));
        }
    }
    assert forall|h: MerkleHash, i: int|
        #![trigger after[h].chunks[i]]
        after.contains_key(h) && 0 <= i < after[h].chunks.len() implies after.contains_key(
        after[h].chunks[i].hash,
    ) by {
        if last_at(chunks, h) is None {
            assert(places.contains_key(places[h].chunks[i].hash));
        } else {
            assert(after[h].chunks[i] == chunks[i]);
        }
    }
}

/// A query is answered where its first chunk is known, with the longest run that it begins
/// with there: every chunk of the run is one that was asked for, the next one is not or is not
/// there, and the run has as many bytes as its chunks.
pub proof fn law_longest_run_is_found(
    shard: &Shard,
    hashes: &Vec<MerkleHash>,
    at: usize,
    r: Option<(usize, Term)>,
)
    requires
        shard.wf(),
        at < hashes@.len(),
        call_ensures(Shard::find, (shard, hashes, at), r),
    ensures
        r is Some <==> shard.places().contains_key(hashes@[at as int]),
        r matches Some((n, term)) ==> {
            let p = shard.places()[hashes@[at as int]];
            &&& 1 <= n <= hashes@.len() - at
            &&& term.xorb_hash == p.xorb_hash
            &&& term.xorb_flags == 0
            &&& term.chunk_index_start == p.index
            &&& term.chunk_index_end == p.index + n <= p.chunks.len()
            &&& forall|i: int|
                0 <= i < n ==> (#[trigger] p.chunks[p.index + i]).hash == hashes@[at + i]
            &&& at + n < hashes@.len() && p.index + n < p.chunks.len() ==> p.chunks[p.index
                + n].hash != hashes@[at + n]
            &&& term.unpacked_segment_bytes == run_bytes(
                p.chunks,
                p.index as int,
                p.index as int + n,
            )
        },
{
    let query = hashes@.subrange(at as int, hashes@.len() as int);
    assert(query[0] == hashes@[at as int]);
    if shard.places().contains_key(query[0]) {
        let p = shard.places()[query[0]];
        lemma_run_fits(shard.places(), query);
        lemma_run_matches(p.chunks, p.index, query);
        lemma_run_stops(p.chunks, p.index, query);
        let n = run_length(p.chunks, p.index, query);
        assert forall|i: int| 0 <= i < n implies (#[trigger] p.chunks[p.index + i]).hash
            == hashes@[at + i] by {
            assert(p.chunks[p.index + i].hash == query[i]);
        }
        if at + n < hashes@.len() {
            assert(query[n as int] == hashes@[at + n as int]);
        }
    }
}

proof fn lemma_run_stops(chunks: Seq<ChunkEntry>, at: nat, query: Seq<MerkleHash>)
    ensures
        ({
            let n = run_length(chunks, at, query);
            n < query.len() && at + n < chunks.len() ==> chunks[(at + n) as int].hash
                != query[n as int]
        }),
    decreases query.len(),
{
    if query.len() > 0 && at < chunks.len() && chunks[at as int].hash == query[0] {
        lemma_run_stops(chunks, at + 1, query.drop_first());
    }
}

/// The bytes of a run are those of its first chunk and of the rest.
pub proof fn law_run_has_the_bytes_of_its_chunks(chunks: Seq<ChunkEntry>, from: int, to: int)
    requires
        0 <= from <= to <= chunks.len(),
    ensures
        from == to ==> run_bytes(chunks, from, to) == 0,
        from < to ==> run_bytes(chunks, from, to) == chunks[from].len + run_bytes(
            chunks,
            from + 1,
            to,
        ),
{
    if from < to {
        lemma_run_bytes_first(chunks, from, to);
    }
}

/// Once a xorb is recorded, each of its chunks is found in it, at the last place where it
/// stands there. Every other chunk is found where it was before.
pub proof fn law_recorded_xorb_is_found(
    places: Map<MerkleHash, Place>,
    xorb: MerkleHash,
    chunks: Seq<ChunkEntry>,
    h: MerkleHash,
)
    ensures
        ({
            let after = places_with(places, xorb, chunks);
            if exists|i: int| 0 <= i < chunks.len() && #[trigger] chunks[i].hash == h {
                &&& after.contains_key(h)
                &&& after[h].xorb_hash == xorb
                &&& after[h].chunks == chunks
                &&& after[h].index < chunks.len()
                &&& chunks[after[h].index as int].hash == h
                &&& forall|i: int|
                    after[h].index < i < chunks.len() ==> #[trigger] chunks[i].hash != h
            } else {
                &&& after.contains_key(h) == places.contains_key(h)
                &&& places.contains_key(h) ==> after[h] == places[h]
            }
        }),
{
    lemma_last_at(chunks, h);
    lemma_last_is_last(chunks, h);
}

proof fn lemma_last_is_last(chunks: Seq<ChunkEntry>, h: MerkleHash)
    ensures
        last_at(chunks, h) matches Some(k) ==> forall|i: int|
            k < i < chunks.len() ==> #[trigger] chunks[i].hash != h,
    decreases chunks.len(),
{
    if chunks.len() > 0 && chunks.last().hash != h {
        let front = chunks.drop_last();
        lemma_last_is_last(front, h);
        if let Some(k) = last_at(chunks, h) {
            assert forall|i: int| k < i < chunks.len() implies #[trigger] chunks[i].hash != h by {
                if i < front.len() {
                    assert(front[i].hash != h);
                }
            }
        }
    }
}

/// A shard that was written is read again with the same files and xorbs. A shard is written
/// wherever its records can be counted, and bytes whose sums fit are read unless they are no
/// shard.
pub proof fn law_shard_survives_writing(
    shard: &Shard,
    written: Result<Vec<u8>, StoreError>,
    bytes: &[u8],
    read: Result<Shard, StoreError>,
)
    requires
        shard.wf(),
        call_ensures(Shard::write, (shard,), written),
        call_ensures(Shard::read, (bytes,), read),
    ensures
        written is Ok <==> shard_size(shard.inner) <= 48 * 0xffff_ffff,
        written matches Ok(out) && out@ == bytes@ ==> (read matches Ok(again) && {
            &&& again.files() == shard.files()
            &&& again.xorbs() == shard.xorbs()
            &&& forall|h: MerkleHash|
                #![trigger again.places()[h]]
                again.places().contains_key(h) ==> again.xorbs().contains_key(
                    again.places()[h].xorb_hash,
                ) && again.xorbs()[again.places()[h].xorb_hash] == again.places()[h].chunks
        }),
        read is Ok <==> stored_fits(bytes@) && stored_shard(bytes@) is Some,
{
}

/// Bytes of chunk records add up one by one.
pub proof fn law_sizes_add_up(b: Seq<u8>, at: int, n: nat)
    ensures
        sizes_at(b, at, 0) == 0,
        sizes_at(b, at, n + 1) == sizes_at(b, at, n) + le32(b, at + n * 48 + 36),
{
}

proof fn lemma_small_sizes(b: Seq<u8>, at: int, n: nat, m: nat)
    requires
        0 <= at,
        at + n * RECORD <= b.len(),
        forall|k: int| 0 <= k <= b.len() - 4 ==> #[trigger] le32(b, k) <= m,
    ensures
        sizes_at(b, at, n) <= n * m,
    decreases n,
{
    if n > 0 {
        lemma_small_sizes(b, at, (n - 1) as nat, m);
        assert(le32(b, at + (n - 1) * RECORD + 36) <= m);
        assert((n - 1) * m + m == n * m) by (nonlinear_arith);
    }
}

proof fn lemma_small_fits(b: Seq<u8>, at: int, m: nat)
    requires
        0 <= at,
        forall|k: int| 0 <= k <= b.len() - 4 ==> #[trigger] le32(b, k) <= m,
        (b.len() / 48) * m <= u32::MAX,
        2 * m <= u32::MAX,
    ensures
        xorbs_fit(b, at),
    decreases b.len() - at,
{
    if at + RECORD <= b.len() && !ends_section(b, at) {
        let n = le32(b, at + 36);
        let next = at + RECORD + n * RECORD;
        if next <= b.len() {
            lemma_small_sizes(b, at + RECORD, n, m);
            let all = b.len() / 48;
            assert(n <= all);
            assert(n * m <= all * m) by (nonlinear_arith)
                requires
                    n <= all,
            ;
            if n > 0 {
                let last = at + RECORD + (n - 1) * RECORD;
                assert(le32(b, last + 32) <= m && le32(b, last + 36) <= m);
            }
            lemma_small_fits(b, next, m);
        }
    }
}

/// The bytes of a shard are handed to the reader wherever the sums in them cannot overflow: at
/// least where no number in them is so large that as many as there is room for add up to more
/// than 32 bits count.
pub proof fn law_small_numbers_are_read(b: &[u8], m: nat, r: bool)
    requires
        call_ensures(shard_fits, (b,), r),
        forall|k: int| 0 <= k <= b@.len() - 4 ==> #[trigger] le32(b@, k) <= m,
        (b@.len() / 48) * m <= 0xffff_ffff,
        2 * m <= 0xffff_ffff,
    ensures
        r,
{
    if let Some(at) = files_end(b@, RECORD as int) {
        lemma_files_end(b@, RECORD as int);
        lemma_small_fits(b@, at, m);
    }
}

proof fn lemma_files_end(b: Seq<u8>, at: int)
    requires
        at >= 0,
    ensures
        files_end(b, at) matches Some(end) ==> at <= end <= b.len(),
    decreases b.len() - at,
{
    if at + RECORD <= b.len() && !ends_section(b, at) {
        let next = at + RECORD + following(b, at) * RECORD;
        if following(b, at) <= u32::MAX && next <= b.len() {
            lemma_files_end(b, next);
        }
    }
}

/// A shard without files whose first xorb has chunks of more than 32 bits' bytes is not handed
/// to the reader, nor is one whose last chunk there ends beyond that.
pub proof fn law_overflowing_sizes_are_refused(b: &[u8], n: nat, r: bool)
    requires
        call_ensures(shard_fits, (b,), r),
        b@.len() >= 144,
        forall|i: int| 48 <= i < 80 ==> #[trigger] b@[i] == 0xff,
        exists|i: int| 96 <= i < 128 && #[trigger] b@[i] != 0xff,
        n == le32(b@, 132),
        144 + n * 48 <= b@.len(),
    ensures
        sizes_at(b@, 144, n) > 0xffff_ffff ==> !r,
        n > 0 && le32(b@, 144 + (n - 1) * 48 + 32) + le32(b@, 144 + (n - 1) * 48 + 36)
            > 0xffff_ffff ==> !r,
{
    assert(ends_section(b@, 48));
    assert(files_end(b@, 48) == Some(96int));
    assert(!ends_section(b@, 96));
    assert(xorbs_fit(b@, 96) ==> chunks_fit(b@, 144, n));
}

/// A failure of these structures says what was being done and why it failed.
pub proof fn law_failure_says_what_and_why(what: &str, why: &str, e: StoreError)
    requires
        call_ensures(xet_err, (what, why), e),
    ensures
        e matches StoreError::Other(m) && m@ == "xet: "@ + what@ + ": "@ + why@,
{
}

/// A place that a query can be answered from holds the chunk that it is for, in a xorb that is
/// not the one being filled and whose sizes 32 bits count.
pub proof fn law_place_holds_its_chunk(h: MerkleHash, p: Place)
    ensures
        place_fits(h, p) <==> {
            &&& p.index < p.chunks.len() <= 0xffff_ffff
            &&& p.chunks[p.index as int].hash == h
            &&& run_bytes(p.chunks, 0, p.chunks.len() as int) <= 0xffff_ffff
            &&& p.chunks.last().start + p.chunks.last().len <= 0xffff_ffff
            &&& !(p.xorb_hash.w0 == u64::MAX && p.xorb_hash.w1 == u64::MAX && p.xorb_hash.w2
                == u64::MAX && p.xorb_hash.w3 == u64::MAX)
        },
{
}

/// What is recorded is found, and nothing else changes: a file under its id, with its runs,
/// and a xorb under its hash, with its chunks.
pub proof fn law_shard_records_what_it_is_given(
    file: MerkleHash,
    terms: &Vec<Term>,
    xorb: MerkleHash,
    chunks: &Vec<ChunkEntry>,
    shard: &Shard,
    found: Option<Vec<Term>>,
)
    requires
        call_ensures(Shard::file, (shard, file), found),
    ensures
        found is Some <==> shard.files().contains_key(file),
        found matches Some(t) ==> t@ == shard.files()[file],
        forall|s: &mut Shard, r: ()| #[trigger]
            call_ensures(Shard::add_file, (s, file, terms), r) && (*s).wf() && terms@.len()
                <= u32::MAX && !file.marks() ==> {
                &&& (*final(s)).files().contains_key(file)
                &&& (*final(s)).files()[file] == terms@
                &&& forall|f: MerkleHash|
                    #![trigger (*final(s)).files().contains_key(f)]
                    f != file ==> (*final(s)).files().contains_key(f) == (*s).files().contains_key(
                        f,
                    ) && ((*s).files().contains_key(f) ==> (*final(s)).files()[f]
                        == (*s).files()[f])
                &&& (*final(s)).places() == (*s).places()
                &&& (*final(s)).xorbs() == (*s).xorbs()
            },
        forall|s: &mut Shard, r: ()| #[trigger]
            call_ensures(Shard::add_xorb, (s, xorb, chunks), r) && (*s).wf() && record_fits(chunks@)
                && !xorb.marks() ==> {
                &&& (*final(s)).xorbs().contains_key(xorb)
                &&& (*final(s)).xorbs()[xorb] == chunks@
                &&& (*final(s)).files() == (*s).files()
                &&& forall|i: int|
                    0 <= i < chunks@.len() ==> (*final(s)).places().contains_key(
                        (#[trigger] chunks@[i]).hash,
                    ) && (*final(s)).places()[chunks@[i].hash].xorb_hash == xorb
            },
{
    assert forall|s: &mut Shard, r: ()| #[trigger]
        call_ensures(Shard::add_xorb, (s, xorb, chunks), r) && (*s).wf() && record_fits(chunks@)
            && !xorb.marks() implies {
        &&& (*final(s)).xorbs().contains_key(xorb)
        &&& (*final(s)).xorbs()[xorb] == chunks@
        &&& (*final(s)).files() == (*s).files()
        &&& forall|i: int|
            0 <= i < chunks@.len() ==> (*final(s)).places().contains_key(
                (#[trigger] chunks@[i]).hash,
            ) && (*final(s)).places()[chunks@[i].hash].xorb_hash == xorb
    } by {
        assert forall|i: int| 0 <= i < chunks@.len() implies (*final(s)).places().contains_key(
            (#[trigger] chunks@[i]).hash,
        ) && (*final(s)).places()[chunks@[i].hash].xorb_hash == xorb by {
            law_recorded_xorb_is_found((*s).places(), xorb, chunks@, chunks@[i].hash);
        }
    }
}

/// In a sound shard every chunk that is found is found where it stands, every xorb on record
/// can be stored, no xorb and no file has the reserved hash, and the chunks of all xorbs that it
/// knows are found. An empty one is sound.
pub proof fn law_shard_is_sound_where_it_finds_its_chunks(
    places: Map<MerkleHash, Place>,
    xorbs: Map<MerkleHash, Seq<ChunkEntry>>,
    files: Map<MerkleHash, Seq<Term>>,
    h: MerkleHash,
    i: int,
)
    requires
        sound(places, xorbs, files),
    ensures
        places.contains_key(h) ==> place_fits(h, places[h]),
        xorbs.contains_key(h) ==> record_fits(xorbs[h]),
        xorbs.contains_key(h) || files.contains_key(h) ==> !h.marks(),
        xorbs.contains_key(h) && 0 <= i < xorbs[h].len() ==> places.contains_key(xorbs[h][i].hash),
        places.contains_key(h) && 0 <= i < places[h].chunks.len() ==> places.contains_key(
            places[h].chunks[i].hash,
        ),
        sound(Map::empty(), Map::empty(), Map::empty()),
{
    if xorbs.contains_key(h) {
        assert(record_fits(xorbs[h]));
    }
}

} // verus!
