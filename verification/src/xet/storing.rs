//! When storing an object succeeds, how full the xorbs are that it fills, and what becomes of
//! each of its chunks.
use vstd::prelude::*;

use crate::store::StoreError;
use crate::xet::chunk::{
    chunks_of, cut_for, file_hash_of, hashes_of, sizes_of, ChunkRef, MAX_CHUNK_SIZE,
    TARGET_CHUNK_SIZE,
};
use crate::xet::hash::MerkleHash;
use crate::xet::laws::{
    cut_bytes, cut_chunks, law_novel_is_what_the_xorbs_hold, lemma_next_advances,
};
use crate::xet::pack::{
    entries_of, lemma_run_size_grows, packed, store_chunks, store_object, Packing, Stored,
};
use crate::xet::shard::{
    lemma_run_fits, lemma_run_matches, place_fits, run_length, ChunkEntry, Place, Shard,
};
use crate::xet::xorb::{one_xorb, run_size, xorb_hash_of};

verus! {

/// An object that is being stored, after so many steps.
pub open spec fn after_steps(s: Packing, chunks: Seq<ChunkRef>, n: nat) -> Packing
    decreases n,
{
    if n == 0 {
        s
    } else {
        after_steps(s, chunks, (n - 1) as nat).next(chunks)
    }
}

/// The stored run that comes next continues the last one, and both have more bytes together
/// than 32 bits count.
pub open spec fn run_too_long(t: Packing, chunks: Seq<ChunkRef>) -> bool {
    &&& t.at < chunks.len()
    &&& t.terms.len() > 0
    &&& t.found(chunks) matches Some((_, term)) && {
        &&& term.xorb_hash == t.terms.last().xorb_hash
        &&& term.chunk_index_start == t.terms.last().chunk_index_end
        &&& t.terms.last().unpacked_segment_bytes + term.unpacked_segment_bytes > 0xffff_ffff
    }
}

/// The hash that stands for the xorb being filled.
pub open spec fn reserved(h: MerkleHash) -> bool {
    h.w0 == u64::MAX && h.w1 == u64::MAX && h.w2 == u64::MAX && h.w3 == u64::MAX
}

/// The chunks of the xorb that is being filled have the reserved hash.
pub open spec fn xorb_reserved(t: Packing, chunks: Seq<ChunkRef>) -> bool {
    t.at <= chunks.len() && t.novel.len() > 0 && reserved(xorb_hash_of(sizes_of(t.novel)))
}

/// No chunk is larger than one may be.
pub open spec fn chunks_small(chunks: Seq<ChunkRef>) -> bool {
    forall|i: int| #![trigger chunks[i]] 0 <= i < chunks.len() ==> chunks[i].len <= 0x2_0000
}

/// Steps can be counted from the first one on.
pub proof fn lemma_first_step(s: Packing, chunks: Seq<ChunkRef>, n: nat)
    ensures
        after_steps(s.next(chunks), chunks, n) == after_steps(s, chunks, n + 1),
    decreases n,
{
    if n > 0 {
        lemma_first_step(s, chunks, (n - 1) as nat);
    } else {
        assert(after_steps(s, chunks, 0) == s);
        assert(after_steps(s, chunks, 1) == after_steps(s, chunks, 0).next(chunks));
    }
}

proof fn lemma_run_succeeds(s: Packing, chunks: Seq<ChunkRef>)
    requires
        chunks_small(chunks),
        forall|n: nat| !run_too_long(#[trigger] after_steps(s, chunks, n), chunks),
        forall|n: nat| !xorb_reserved(#[trigger] after_steps(s, chunks, n), chunks),
        s.terms.len() <= s.at <= chunks.len(),
    ensures
        s.run(chunks) matches Ok(p) && p.terms.len() <= chunks.len(),
    decreases chunks.len() - s.at,
{
    assert(after_steps(s, chunks, 0) == s);
    assert(!run_too_long(s, chunks) && !xorb_reserved(s, chunks));
    if s.at < chunks.len() {
        let c = chunks[s.at as int];
        lemma_next_advances(s, chunks);
        if s.reused(chunks) is None {
            assert(c.len <= MAX_CHUNK_SIZE);
            if s.novel.len() == 0 {
                assert(run_size(s.novel, 0) == 0);
                assert(s.has_room(c.len as nat));
            }
        }
        assert(s.fault(chunks) is None);
        let t = s.next(chunks);
        assert forall|n: nat| !run_too_long(#[trigger] after_steps(t, chunks, n), chunks)
            && !xorb_reserved(after_steps(t, chunks, n), chunks) by {
            lemma_first_step(s, chunks, n);
        }
        lemma_run_succeeds(t, chunks);
    }
}

/// Storing an object succeeds, whatever the shard knows and however many chunks and xorbs it
/// takes, unless a stored run grows too long to be counted, the hash of a xorb or of the file
/// is the reserved one, or there are more chunks than 32 bits count.
pub proof fn law_storing_succeeds(
    data: &[u8],
    chunks: &Vec<ChunkRef>,
    shard: Shard,
    r: Result<Stored, StoreError>,
)
    requires
        call_ensures(store_chunks, (data, chunks, shard), r),
        chunks_small(chunks@),
        chunks@.len() <= 0xffff_ffff,
        forall|n: nat|
            !run_too_long(
                #[trigger] after_steps(
                    Packing::start(shard.places(), shard.xorbs()),
                    chunks@,
                    n,
                ),
                chunks@,
            ),
        forall|n: nat|
            !xorb_reserved(
                #[trigger] after_steps(
                    Packing::start(shard.places(), shard.xorbs()),
                    chunks@,
                    n,
                ),
                chunks@,
            ),
        !reserved(file_hash_of(sizes_of(chunks@))),
    ensures
        r is Ok,
        packed(shard.places(), shard.xorbs(), chunks@) is Ok,
{
    lemma_run_succeeds(Packing::start(shard.places(), shard.xorbs()), chunks@);
}

/// One more chunk of `len` bytes does not go into a xorb of these chunks.
pub open spec fn full(chunks: Seq<ChunkRef>, len: nat) -> bool {
    run_size(chunks, chunks.len()) + len > 0x400_0000 || chunks.len() == 0x2000
}

/// The xorbs but the one that is being filled are full, and none holds too much.
spec fn filled_so_far(s: Packing) -> bool {
    &&& forall|i: int, j: int|
        #![trigger s.cuts[i], s.cuts[j]]
        0 <= i && j == i + 1 && j < s.cuts.len() ==> full(s.cuts[i].1, s.cuts[j].1[0].len as nat)
    &&& s.cuts.len() > 0 ==> s.novel.len() > 0 && full(s.cuts.last().1, s.novel[0].len as nat)
    &&& forall|i: int| #![trigger s.cuts[i]] 0 <= i < s.cuts.len() ==> one_full(s.cuts[i].1)
    &&& s.novel.len() <= 0x2000
    &&& run_size(s.novel, s.novel.len()) <= 0x400_0000
}

/// A xorb that holds chunks, and no more than it may.
pub open spec fn one_full(chunks: Seq<ChunkRef>) -> bool {
    0 < chunks.len() <= 0x2000 && run_size(chunks, chunks.len()) <= 0x400_0000
}

proof fn lemma_run_size_push(chunks: Seq<ChunkRef>, c: ChunkRef, n: nat)
    requires
        n <= chunks.len(),
    ensures
        run_size(chunks.push(c), n) == run_size(chunks, n),
    decreases n,
{
    if n > 0 {
        lemma_run_size_push(chunks, c, (n - 1) as nat);
    }
}

proof fn lemma_cut_is_full(s: Packing)
    requires
        filled_so_far(s),
        s.novel.len() > 0,
    ensures
        ({
            let t = s.cut();
            &&& forall|i: int, j: int|
                #![trigger t.cuts[i], t.cuts[j]]
                0 <= i && j == i + 1 && j < t.cuts.len() ==> full(
                    t.cuts[i].1,
                    t.cuts[j].1[0].len as nat,
                )
            &&& forall|i: int|
                #![trigger t.cuts[i]]
                0 <= i < t.cuts.len() ==> one_full(t.cuts[i].1)
        }),
{
    let t = s.cut();
    let last = s.cuts.len() as int;
    assert(t.cuts[last].1 == s.novel);
    assert forall|i: int| #![trigger t.cuts[i]] 0 <= i < t.cuts.len() implies one_full(
        t.cuts[i].1,
    ) by {
        if i < last {
            assert(t.cuts[i] == s.cuts[i]);
        }
    }
    assert forall|i: int, j: int|
        #![trigger t.cuts[i], t.cuts[j]]
        0 <= i && j == i + 1 && j < t.cuts.len() implies full(
        t.cuts[i].1,
        t.cuts[j].1[0].len as nat,
    ) by {
        assert(t.cuts[i] == s.cuts[i]);
        if j < last {
            assert(t.cuts[j] == s.cuts[j]);
        }
    }
}

proof fn lemma_run_fills(s: Packing, chunks: Seq<ChunkRef>)
    requires
        filled_so_far(s),
        s.run(chunks) is Ok,
    ensures
        ({
            let cuts = s.run(chunks)->Ok_0.cuts;
            &&& forall|i: int, j: int|
                #![trigger cuts[i], cuts[j]]
                0 <= i && j == i + 1 && j < cuts.len() ==> full(cuts[i].1, cuts[j].1[0].len as nat)
            &&& forall|i: int| #![trigger cuts[i]] 0 <= i < cuts.len() ==> one_full(cuts[i].1)
        }),
    decreases chunks.len() - s.at,
{
    if s.at >= chunks.len() {
        if s.novel.len() > 0 {
            lemma_cut_is_full(s);
        }
    } else {
        let t = s.next(chunks);
        lemma_next_advances(s, chunks);
        if s.reused(chunks) is None {
            let c = chunks[s.at as int];
            let asked = Packing { spread: s.asked(chunks), ..s };
            assert(c.len <= 0x2_0000);
            if asked.has_room(c.len as nat) {
                lemma_run_size_push(asked.novel, c, asked.novel.len());
                if s.novel.len() > 0 {
                    assert(t.novel[0] == s.novel[0]);
                }
            } else {
                if asked.novel.len() == 0 {
                    assert(run_size(asked.novel, 0) == 0);
                }
                lemma_cut_is_full(asked);
                let none = asked.cut().novel;
                lemma_run_size_push(none, c, 0);
                assert(run_size(none, 0) == 0);
                assert(t.novel =~= seq![c]);
                assert(run_size(t.novel, 1) == run_size(t.novel, 0) + c.len);
                assert(t.cuts.last().1 == asked.novel);
                assert(full(asked.novel, c.len as nat));
            }
        }
        assert(filled_so_far(t));
        lemma_run_fills(t, chunks);
    }
}

/// A xorb is closed because it is full and for no other reason but the end of the object: the
/// first chunk of the next one would have made it larger than 64 MiB or longer than 8192
/// chunks. None is empty, and none larger or longer than that.
pub proof fn law_xorbs_are_filled(
    places: Map<MerkleHash, Place>,
    known: Map<MerkleHash, Seq<ChunkEntry>>,
    chunks: Seq<ChunkRef>,
)
    requires
        packed(places, known, chunks) is Ok,
    ensures
        ({
            let cuts = packed(places, known, chunks)->Ok_0.cuts;
            &&& forall|i: int, j: int|
                #![trigger cuts[i], cuts[j]]
                0 <= i && j == i + 1 && j < cuts.len() ==> full(cuts[i].1, cuts[j].1[0].len as nat)
            &&& forall|i: int| #![trigger cuts[i]] 0 <= i < cuts.len() ==> one_full(cuts[i].1)
        }),
{
    let s = Packing::start(places, known);
    assert(run_size(s.novel, 0) == 0);
    lemma_run_fills(s, chunks);
}

/// A chunk that the shard does not know is stored, and it alone: it goes behind the others
/// into the xorb that is being filled, and counts for its bytes.
pub proof fn law_unknown_chunk_is_stored(s: Packing, chunks: Seq<ChunkRef>)
    requires
        s.at < chunks.len(),
        !s.places.contains_key(chunks[s.at as int].hash),
    ensures
        ({
            let c = chunks[s.at as int];
            let t = s.next(chunks);
            &&& t.at == s.at + 1
            &&& t.novel.len() > 0 && t.novel.last() == c
            &&& t.novel_chunks == s.novel_chunks + 1
            &&& t.novel_bytes == s.novel_bytes + c.len
            &&& t.novel.len() == 1 || t.novel == s.novel.push(c)
            &&& t.spread.strict == s.spread.strict
        }),
{
    let query = hashes_of(chunks).subrange(s.at as int, chunks.len() as int);
    assert(query[0] == chunks[s.at as int].hash);
    assert(s.found(chunks) is None);
}

/// A chunk that the shard knows is referenced where it stands, with as many of the chunks
/// behind it as stand behind it there: up to the end of the object, the end of the xorb or
/// the first that differs. Nothing is stored for them. That holds as long as the file has
/// fewer terms than the rule against scattering looks at.
pub proof fn law_known_chunks_are_referenced(s: Packing, chunks: Seq<ChunkRef>)
    requires
        s.at < chunks.len(),
        s.spread.window.len() < 128,
        s.places.contains_key(chunks[s.at as int].hash),
        place_fits(chunks[s.at as int].hash, s.places[chunks[s.at as int].hash]),
    ensures
        ({
            let p = s.places[chunks[s.at as int].hash];
            let t = s.next(chunks);
            let n = t.at - s.at;
            &&& n >= 1
            &&& p.index + n <= p.chunks.len()
            &&& forall|i: int|
                0 <= i < n ==> (#[trigger] p.chunks[p.index + i]).hash == chunks[s.at + i].hash
            &&& t.at < chunks.len() && p.index + n < p.chunks.len() ==> p.chunks[p.index + n].hash
                != chunks[t.at as int].hash
            &&& t.novel == s.novel
            &&& t.novel_bytes == s.novel_bytes
            &&& t.novel_chunks == s.novel_chunks
            &&& t.cuts == s.cuts
            &&& t.places == s.places
            &&& t.terms.last().xorb_hash == p.xorb_hash
            &&& t.terms.last().chunk_index_end == p.index + n
        }),
{
    let query = hashes_of(chunks).subrange(s.at as int, chunks.len() as int);
    assert(query[0] == chunks[s.at as int].hash);
    let p = s.places[query[0]];
    lemma_run_fits(s.places, query);
    lemma_run_matches(p.chunks, p.index, query);
    lemma_run_ends(p.chunks, p.index, query);
    let n = run_length(p.chunks, p.index, query);
    assert(s.next(chunks).at == s.at + n);
    assert forall|i: int| 0 <= i < n implies (#[trigger] p.chunks[p.index + i]).hash
        == chunks[s.at + i].hash by {
        assert(p.chunks[p.index + i].hash == query[i]);
    }
    if s.at + n < chunks.len() {
        assert(query[n as int] == chunks[s.at + n as int].hash);
    }
}

/// A run ends with the query, with the xorb or before the first chunk that differs.
proof fn lemma_run_ends(chunks: Seq<ChunkEntry>, at: nat, query: Seq<MerkleHash>)
    ensures
        ({
            let n = run_length(chunks, at, query);
            n < query.len() && at + n < chunks.len() ==> chunks[(at + n) as int].hash
                != query[n as int]
        }),
    decreases query.len(),
{
    if query.len() > 0 && at < chunks.len() && chunks[at as int].hash == query[0] {
        lemma_run_ends(chunks, at + 1, query.drop_first());
    }
}

/// What is said of a store call is what it did: all of the object's bytes and chunks, those
/// that its new xorbs hold, and the runs that the shard has on record for it from now on. No
/// other file's record changes.
pub proof fn law_stats_say_what_was_done(
    data: &[u8],
    chunks: &Vec<ChunkRef>,
    shard: Shard,
    out: Stored,
)
    requires
        call_ensures(store_chunks, (data, chunks, shard), Ok::<Stored, StoreError>(out)),
        chunks_of(data@, chunks@),
    ensures
        out.stats.logical_bytes == data@.len(),
        out.stats.chunks == chunks@.len(),
        out.stats.terms == out.terms@.len(),
        out.stats.file_hash == file_hash_of(sizes_of(chunks@)),
        out.stats.novel_chunks == stored_chunks(out, out.xorbs@.len()),
        out.stats.novel_bytes == stored_bytes(out, out.xorbs@.len()),
        out.shard.files().contains_key(out.stats.file_hash),
        out.shard.files()[out.stats.file_hash] == out.terms@,
        forall|f: MerkleHash|
            #![trigger out.shard.files().contains_key(f)]
            f != out.stats.file_hash ==> {
                &&& out.shard.files().contains_key(f) == shard.files().contains_key(f)
                &&& shard.files().contains_key(f) ==> out.shard.files()[f] == shard.files()[f]
            },
{
    let p = packed(shard.places(), shard.xorbs(), chunks@)->Ok_0;
    assert(data@.len() == data.len());
    assert(chunks@.len() == chunks.len());
    law_novel_is_what_the_xorbs_hold(shard.places(), shard.xorbs(), chunks@);
    lemma_stored(out, p.cuts, out.xorbs@.len());
    assert(p.cuts.subrange(0, p.cuts.len() as int) =~= p.cuts);
}

/// Chunks in the first `n` of the xorbs that are to be written.
pub open spec fn stored_chunks(out: Stored, n: nat) -> nat
    decreases n,
{
    if n == 0 {
        0
    } else {
        stored_chunks(out, (n - 1) as nat) + out.xorbs@[n - 1].chunks@.len()
    }
}

/// Bytes of those chunks.
pub open spec fn stored_bytes(out: Stored, n: nat) -> nat
    decreases n,
{
    if n == 0 {
        0
    } else {
        let chunks = out.xorbs@[n - 1].chunks@;
        stored_bytes(out, (n - 1) as nat) + run_size(chunks, chunks.len())
    }
}

proof fn lemma_stored(out: Stored, cuts: Seq<(MerkleHash, Seq<ChunkRef>)>, n: nat)
    requires
        n <= cuts.len() == out.xorbs@.len(),
        forall|i: int|
            #![trigger out.xorbs@[i]]
            0 <= i < out.xorbs@.len() ==> out.xorbs@[i].chunks@ == cuts[i].1,
    ensures
        stored_chunks(out, n) == cut_chunks(cuts.subrange(0, n as int)),
        stored_bytes(out, n) == cut_bytes(cuts.subrange(0, n as int)),
    decreases n,
{
    if n > 0 {
        lemma_stored(out, cuts, (n - 1) as nat);
        let now = cuts.subrange(0, n as int);
        assert(now.drop_last() =~= cuts.subrange(0, n - 1));
        assert(now.last() == cuts[n - 1]);
        assert(out.xorbs@[n - 1].chunks@ == cuts[n - 1].1);
    }
}

/// An object can be stored in a repository with this shard when it is cut into these chunks.
pub open spec fn storable(shard: Shard, chunks: Seq<ChunkRef>) -> bool {
    let s = Packing::start(shard.places(), shard.xorbs());
    &&& chunks_small(chunks)
    &&& chunks.len() <= 0xffff_ffff
    &&& forall|n: nat| !run_too_long(#[trigger] after_steps(s, chunks, n), chunks)
    &&& forall|n: nat| !xorb_reserved(#[trigger] after_steps(s, chunks, n), chunks)
    &&& !reserved(file_hash_of(sizes_of(chunks)))
}

/// An object is stored whole and as it is, however the chunker cuts it, wherever its chunks
/// can be stored.
pub proof fn law_object_is_stored(data: &[u8], shard: Shard, r: Result<Stored, StoreError>)
    requires
        call_ensures(store_object, (data, shard), r),
        forall|chunks: Seq<ChunkRef>| #[trigger]
            cut_for(data@, chunks, TARGET_CHUNK_SIZE) ==> storable(shard, chunks),
    ensures
        r matches Ok(out) && out.stats.logical_bytes == data@.len(),
{
    let chunks = choose|chunks: Seq<ChunkRef>| #[trigger]
        cut_for(data@, chunks, TARGET_CHUNK_SIZE) && match packed(
            shard.places(),
            shard.xorbs(),
            chunks,
        ) {
            Ok(p) => r matches Ok(out) && out.matches_packing(p, data@, chunks, shard.files()),
            Err(message) => r matches Err(e) && e.says(message),
        };
    assert(storable(shard, chunks));
    lemma_run_succeeds(Packing::start(shard.places(), shard.xorbs()), chunks);
    assert(data@.len() == data.len());
}

/// The record of a xorb tells of each chunk its hash, its size, and where it begins: the first
/// at the beginning, and each other one where the one before it ends.
pub proof fn law_record_tells_where_chunks_begin(chunks: Seq<ChunkRef>, i: int)
    requires
        one_full(chunks),
        0 <= i < chunks.len(),
    ensures
        entries_of(chunks).len() == chunks.len(),
        entries_of(chunks)[i].hash == chunks[i].hash,
        entries_of(chunks)[i].len == chunks[i].len,
        i == 0 ==> entries_of(chunks)[i].start == 0,
        i > 0 ==> entries_of(chunks)[i].start == entries_of(chunks)[i - 1].start + entries_of(
            chunks,
        )[i - 1].len,
{
    lemma_run_size_grows(chunks, i as nat, chunks.len());
    lemma_run_size_grows(chunks, (i + 1) as nat, chunks.len());
    assert(run_size(chunks, (i + 1) as nat) == run_size(chunks, i as nat) + chunks[i].len);
    assert(run_size(chunks, 0) == 0);
    if i > 0 {
        lemma_run_size_grows(chunks, (i - 1) as nat, chunks.len());
        assert(run_size(chunks, i as nat) == run_size(chunks, (i - 1) as nat) + chunks[i - 1].len);
    }
}

/// Which chunks fit one xorb: 8192 of them, 64 MiB in all and 128 KiB each, all parts of the
/// object.
pub proof fn law_xorb_limits(data: Seq<u8>, chunks: Seq<ChunkRef>)
    ensures
        one_xorb(data, chunks) <==> {
            &&& chunks.len() <= 8192
            &&& run_size(chunks, chunks.len()) <= 0x400_0000
            &&& forall|i: int|
                0 <= i < chunks.len() ==> (#[trigger] chunks[i]).len <= 0x2_0000 && chunks[i].start
                    + chunks[i].len <= data.len()
        },
{
}

/// A run that is found is referenced where it continues the last one or the rule against
/// scattering lets it pass. Where the rule turns it down, its first chunk is stored again as
/// if it were unknown, and the rule is strict from then on.
pub proof fn law_run_is_referenced_unless_turned_down(s: Packing, chunks: Seq<ChunkRef>)
    requires
        s.at < chunks.len(),
        s.found(chunks) is Some,
        s.found(chunks)->Some_0.0 > 0,
    ensures
        ({
            let (n, term) = s.found(chunks)->Some_0;
            let c = chunks[s.at as int];
            let t = s.next(chunks);
            let goes_on = s.terms.len() > 0 && s.terms.last().xorb_hash == term.xorb_hash
                && s.terms.last().chunk_index_end == term.chunk_index_start;
            if goes_on || s.spread.admits(n) {
                &&& t.at == s.at + n
                &&& t.novel == s.novel && t.novel_bytes == s.novel_bytes && t.cuts == s.cuts
                &&& t.terms.last().chunk_index_end == term.chunk_index_end
                &&& t.terms.len() == s.terms.len() + if goes_on {
                    0int
                } else {
                    1
                }
            } else {
                &&& t.at == s.at + 1
                &&& t.novel.last() == c
                &&& t.novel_chunks == s.novel_chunks + 1
                &&& t.novel_bytes == s.novel_bytes + c.len
                &&& s.spread.window.len() == 128 ==> t.spread.strict
            }
        }),
        ({
            let (n, term) = s.found(chunks)->Some_0;
            let goes_on = s.terms.len() > 0 && s.terms.last().xorb_hash == term.xorb_hash
                && s.terms.last().chunk_index_end == term.chunk_index_start;
            s.next(chunks).spread.strict == if goes_on {
                s.spread.strict
            } else {
                s.spread.asked(n).strict
            }
        }),
{
}

/// Every object can be stored in every repository whose shard is sound, and cut as the chunker
/// likes.
pub proof fn law_every_object_can_be_given(data: &[u8], chunks: &Vec<ChunkRef>, shard: Shard)
    requires
        shard.wf(),
    ensures
        call_requires(store_object, (data, shard)),
        chunks_of(data@, chunks@) ==> call_requires(store_chunks, (data, chunks, shard)),
{
}

} // verus!
