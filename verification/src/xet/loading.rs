//! Loading an object: from its runs and the stored xorbs back to its bytes.
use vstd::prelude::*;

use crate::store::StoreError;
use crate::xet::chunk::{
    chunks_of, data_hash, file_hash_of, hashes_of, sizes_of, ChunkRef, MAX_CHUNK_SIZE,
};
use crate::xet::hash::MerkleHash;
use crate::xet::laws::{
    all_known, cut_contents, entry_hashes, joined_chunks, knows_cuts,
    law_read_returns_what_was_stored, law_run_reads_its_chunks, law_terms_name_the_chunks,
    lemma_cuts_stay, lemma_entries_fit, lemma_joined_append, lemma_next_advances, marker,
    names_of, no_collision, read_back, run_chunks, serves, Contents,
};
use crate::xet::pack::{
    entries_of, lemma_run_size_grows, lemma_run_size_same, novel_term, packed, store_chunks,
    CutXorb, Packing, Stored,
};
use crate::xet::shard::{
    agree, last_at, lemma_last_at, lemma_run_bytes_part, lemma_run_fits, lemma_run_matches,
    place_fits, run_bytes, sound, stored_shard, ChunkEntry, Place, Shard,
};
use crate::xet::storing::{after_steps, chunks_small, lemma_first_step, reserved, run_too_long};
use crate::xet::terms::{continues_last, merged_bytes, pushed, Term};
use crate::xet::xorb::{
    answers, footer_ends, footer_usable, no_limit, run_size, start_of, stored_footer, unpacked,
    xorb_hash_of, MAX_XORB_BYTES, MAX_XORB_CHUNKS,
};

verus! {

/// The bytes that a store holds of each xorb.
pub type Blobs = Map<MerkleHash, Seq<u8>>;

/// `bytes` is a stored xorb of these chunks: its footer can be used, and every run
/// that it delimits is read back as it was written.
pub open spec fn stores_chunks(bytes: Seq<u8>, chunks: Seq<Seq<u8>>) -> bool {
    stored_footer(bytes) matches Some((usable, ends)) && {
        &&& usable
        &&& ends.len() == chunks.len()
        &&& forall|i: int|
            #![trigger ends[i]]
            0 <= i < ends.len() ==> start_of(ends, i) <= ends[i] <= bytes.len()
        &&& forall|a: int, b: int, limit: nat|
            #![trigger unpacked(bytes.subrange(start_of(ends, a), ends[b - 1] as int), limit)]
            0 <= a < b <= chunks.len() && limit >= MAX_CHUNK_SIZE ==> unpacked(
                bytes.subrange(start_of(ends, a), ends[b - 1] as int),
                limit,
            ) == Some(joined_chunks(chunks.subrange(a, b)))
    }
}

/// The store holds every xorb that `contents` tells of.
pub open spec fn holds(blobs: Blobs, contents: Contents) -> bool {
    forall|h: MerkleHash|
        #![trigger contents[h]]
        contents.contains_key(h) ==> blobs.contains_key(h) && stores_chunks(blobs[h], contents[h])
}

/// What is fetched for a run: the bytes between the ends that the footer gives.
pub open spec fn fetched(term: Term, blobs: Blobs) -> Seq<u8> {
    let bytes = blobs[term.xorb_hash];
    let ends = stored_footer(bytes)->Some_0.1;
    bytes.subrange(
        start_of(ends, term.chunk_index_start as int),
        ends[term.chunk_index_end - 1] as int,
    )
}

/// A run whose range is found, and which is read, by every reader that takes chunks of
/// the largest size, as `bytes`: as many as its term says.
pub open spec fn readable(term: Term, blobs: Blobs) -> bool {
    &&& blobs.contains_key(term.xorb_hash)
    &&& stored_footer(blobs[term.xorb_hash]) matches Some((usable, ends)) && usable
        && term.chunk_index_start < term.chunk_index_end <= ends.len()
        && ends[term.chunk_index_end - 1] <= blobs[term.xorb_hash].len()
    &&& unpacked(fetched(term, blobs), no_limit()) matches Some(data) && {
        &&& data.len() == term.unpacked_segment_bytes
        &&& forall|limit: nat|
            #![trigger unpacked(fetched(term, blobs), limit)]
            limit >= MAX_CHUNK_SIZE ==> unpacked(fetched(term, blobs), limit) == Some(data)
    }
}

/// What loading a list of runs brings.
pub open spec fn loaded(terms: Seq<Term>, blobs: Blobs) -> Seq<u8>
    decreases terms.len(),
{
    if terms.len() == 0 {
        Seq::empty()
    } else {
        loaded(terms.drop_last(), blobs) + unpacked(fetched(terms.last(), blobs), no_limit())->Some_0
    }
}

/// The record of a xorb has the sizes of its chunks.
pub open spec fn sizes_agree(chunks: Seq<Seq<u8>>, entries: Seq<ChunkEntry>) -> bool {
    &&& chunks.len() == entries.len()
    &&& forall|i: int|
        #![trigger entries[i]]
        0 <= i < entries.len() ==> chunks[i].len() == entries[i].len
}

/// The same of every xorb that a lookup points at.
pub open spec fn sizes_right(contents: Contents, places: Map<MerkleHash, Place>) -> bool {
    forall|h: MerkleHash|
        #![trigger places[h]]
        places.contains_key(h) ==> sizes_agree(contents[places[h].xorb_hash], places[h].chunks)
}

/// The xorbs that were filled hold the chunks that were put into them.
pub open spec fn holds_cuts(
    contents: Contents,
    data: Seq<u8>,
    cuts: Seq<(MerkleHash, Seq<ChunkRef>)>,
) -> bool {
    forall|i: int|
        #![trigger cuts[i]]
        0 <= i < cuts.len() ==> contents.contains_key(cuts[i].0) && contents[cuts[i].0]
            == cut_contents(data, cuts[i].1)
}

/// A part of `data` under the hash of its bytes.
pub open spec fn part_of(c: ChunkRef, data: Seq<u8>) -> bool {
    &&& c.start + c.len <= data.len()
    &&& c.len <= MAX_CHUNK_SIZE
    &&& c.hash == data_hash(c.bytes(data))
}

pub open spec fn parts_of(chunks: Seq<ChunkRef>, data: Seq<u8>) -> bool {
    forall|i: int| #![trigger chunks[i]] 0 <= i < chunks.len() ==> part_of(chunks[i], data)
}

/// A run that is not empty, with as many bytes as its chunks have.
pub open spec fn run_sized(term: Term, contents: Contents) -> bool {
    &&& term.chunk_index_start < term.chunk_index_end <= contents[term.xorb_hash].len()
    &&& term.unpacked_segment_bytes == joined_chunks(run_chunks(term, contents)).len()
}

pub open spec fn all_sized(terms: Seq<Term>, contents: Contents) -> bool {
    forall|i: int| #![trigger terms[i]] 0 <= i < terms.len() ==> run_sized(terms[i], contents)
}

/// The runs so far have the sizes of their chunks.
spec fn sized_so_far(s: Packing, data: Seq<u8>, contents: Contents) -> bool {
    &&& s.novel.len() <= MAX_XORB_CHUNKS
    &&& run_size(s.novel, s.novel.len()) <= MAX_XORB_BYTES
    &&& parts_of(s.novel, data)
    &&& forall|i: int| #![trigger s.cuts[i]] 0 <= i < s.cuts.len() ==> parts_of(s.cuts[i].1, data)
    &&& all_sized(s.terms, contents.insert(marker(), cut_contents(data, s.novel)))
    &&& sizes_right(contents, s.places)
    &&& forall|h: MerkleHash|
        #![trigger s.places[h]]
        s.places.contains_key(h) ==> place_fits(h, s.places[h])
}

/// The bytes of a run, by the sizes in the record of its xorb.
proof fn lemma_run_bytes_joined(chunks: Seq<Seq<u8>>, entries: Seq<ChunkEntry>, a: int, b: int)
    requires
        sizes_agree(chunks, entries),
        0 <= a <= b <= entries.len(),
    ensures
        run_bytes(entries, a, b) == joined_chunks(chunks.subrange(a, b)).len(),
    decreases b - a,
{
    let part = chunks.subrange(a, b);
    if a < b {
        lemma_run_bytes_joined(chunks, entries, a, b - 1);
        assert(part.drop_last() =~= chunks.subrange(a, b - 1));
        assert(chunks[b - 1].len() == entries[b - 1].len);
    }
}

/// Bytes of the first `n` chunks of a xorb.
proof fn lemma_front_size(data: Seq<u8>, chunks: Seq<ChunkRef>, n: nat)
    requires
        parts_of(chunks, data),
        n <= chunks.len(),
    ensures
        joined_chunks(cut_contents(data, chunks).subrange(0, n as int)).len() == run_size(
            chunks,
            n,
        ),
    decreases n,
{
    let all = cut_contents(data, chunks);
    let part = all.subrange(0, n as int);
    if n > 0 {
        lemma_front_size(data, chunks, (n - 1) as nat);
        assert(part.drop_last() =~= all.subrange(0, n - 1));
        assert(part_of(chunks[n - 1], data));
    }
}

/// No run of a xorb has more bytes than the xorb.
proof fn lemma_run_within(data: Seq<u8>, chunks: Seq<ChunkRef>, a: int, b: int)
    requires
        parts_of(chunks, data),
        0 <= a <= b <= chunks.len(),
    ensures
        joined_chunks(cut_contents(data, chunks).subrange(a, b)).len() <= run_size(
            chunks,
            chunks.len(),
        ),
{
    let all = cut_contents(data, chunks);
    lemma_joined_append(all.subrange(0, a), all.subrange(a, b));
    assert(all.subrange(0, a) + all.subrange(a, b) =~= all.subrange(0, b));
    lemma_front_size(data, chunks, b as nat);
    lemma_run_size_grows(chunks, b as nat, chunks.len());
}

/// Merging runs keeps their sizes right.
proof fn lemma_pushed_sized(terms: Seq<Term>, next: Term, contents: Contents)
    requires
        all_sized(terms, contents),
        run_sized(next, contents),
        merged_bytes(terms, next) <= u32::MAX,
    ensures
        all_sized(pushed(terms, next), contents),
{
    let all = pushed(terms, next);
    if continues_last(terms, next) {
        let last = terms[terms.len() - 1];
        assert(run_sized(last, contents));
        let merged = last.joined(next);
        lemma_joined_append(run_chunks(last, contents), run_chunks(next, contents));
        assert(run_chunks(merged, contents) =~= run_chunks(last, contents) + run_chunks(
            next,
            contents,
        ));
        assert(run_sized(merged, contents));
    }
    assert forall|i: int| #![trigger all[i]] 0 <= i < all.len() implies run_sized(
        all[i],
        contents,
    ) by {
        if i < terms.len() {
            assert(run_sized(terms[i], contents));
        }
    }
}

/// Referencing a stored run keeps all sizes right.
proof fn lemma_referenced_sized(
    s: Packing,
    chunks: Seq<ChunkRef>,
    data: Seq<u8>,
    contents: Contents,
)
    requires
        sized_so_far(s, data, contents),
        s.at < chunks.len(),
        s.fault(chunks) is None,
        s.reused(chunks) is Some,
    ensures
        sized_so_far(s.next(chunks), data, contents),
{
    let (n, term) = s.reused(chunks)->Some_0;
    let query = hashes_of(chunks).subrange(s.at as int, chunks.len() as int);
    let p = s.places[query[0]];
    assert(place_fits(query[0], p));
    lemma_run_fits(s.places, query);
    lemma_run_matches(p.chunks, p.index, query);
    let with = contents.insert(marker(), cut_contents(data, s.novel));
    assert(sizes_agree(contents[p.xorb_hash], p.chunks));
    lemma_run_bytes_joined(
        contents[p.xorb_hash],
        p.chunks,
        p.index as int,
        p.index as int + n,
    );
    assert(run_sized(term, with));
    lemma_pushed_sized(s.terms, term, with);
}

/// Putting a chunk into the xorb being filled keeps all sizes right.
proof fn lemma_filled_sized(s: Packing, c: ChunkRef, data: Seq<u8>, contents: Contents)
    requires
        sized_so_far(s, data, contents),
        part_of(c, data),
        s.has_room(c.len as nat),
    ensures
        sized_so_far(s.filled(c), data, contents),
{
    let t = s.filled(c);
    let a = cut_contents(data, s.novel);
    let b = cut_contents(data, t.novel);
    let before = contents.insert(marker(), a);
    let after = contents.insert(marker(), b);
    assert forall|i: int| #![trigger s.terms[i]] 0 <= i < s.terms.len() implies run_sized(
        s.terms[i],
        after,
    ) by {
        assert(run_sized(s.terms[i], before));
        assert(run_chunks(s.terms[i], after) =~= run_chunks(s.terms[i], before));
    }
    let term = novel_term(marker(), c.len as nat, s.novel.len());
    let one = run_chunks(term, after);
    assert(one =~= seq![c.bytes(data)]);
    assert(one.drop_last() =~= Seq::<Seq<u8>>::empty());
    assert(joined_chunks(one) == joined_chunks(one.drop_last()) + c.bytes(data));
    assert(joined_chunks(one).len() == c.len);
    assert(run_sized(term, after));
    if continues_last(s.terms, term) {
        let last = s.terms[s.terms.len() - 1];
        assert(run_sized(last, before));
        lemma_run_within(
            data,
            s.novel,
            last.chunk_index_start as int,
            last.chunk_index_end as int,
        );
    }
    lemma_pushed_sized(s.terms, term, after);
    lemma_run_size_same(s.novel, t.novel, s.novel.len());
    assert forall|i: int| #![trigger t.novel[i]] 0 <= i < t.novel.len() implies part_of(
        t.novel[i],
        data,
    ) by {
        if i < s.novel.len() {
            assert(part_of(s.novel[i], data));
        }
    }
}

/// Closing the xorb being filled keeps all sizes right.
proof fn lemma_closed_sized(s: Packing, data: Seq<u8>, contents: Contents)
    requires
        sized_so_far(s, data, contents),
        !s.cut_hash().marks(),
        contents.contains_key(s.cut_hash()),
        contents[s.cut_hash()] == cut_contents(data, s.novel),
    ensures
        sized_so_far(s.cut(), data, contents),
{
    let hash = s.cut_hash();
    let t = s.cut();
    let before = contents.insert(marker(), cut_contents(data, s.novel));
    let after = contents.insert(marker(), cut_contents(data, t.novel));
    assert forall|i: int| #![trigger t.terms[i]] 0 <= i < t.terms.len() implies run_sized(
        t.terms[i],
        after,
    ) by {
        assert(run_sized(s.terms[i], before));
        assert(run_chunks(t.terms[i], after) =~= run_chunks(s.terms[i], before));
    }
    let entries = entries_of(s.novel);
    assert forall|i: int| #![trigger entries[i]] 0 <= i < entries.len() implies
        cut_contents(data, s.novel)[i].len() == entries[i].len by {
        assert(part_of(s.novel[i], data));
    }
    assert(sizes_agree(contents[hash], entries));
    lemma_entries_fit(s.novel);
    assert forall|h: MerkleHash| #![trigger t.places[h]] t.places.contains_key(h) implies {
        &&& sizes_agree(contents[t.places[h].xorb_hash], t.places[h].chunks)
        &&& place_fits(h, t.places[h])
    } by {
        lemma_last_at(entries, h);
        if last_at(entries, h) is None {
            assert(place_fits(h, s.places[h]));
            assert(sizes_agree(contents[s.places[h].xorb_hash], s.places[h].chunks));
        }
    }
    assert forall|i: int| #![trigger t.cuts[i]] 0 <= i < t.cuts.len() implies parts_of(
        t.cuts[i].1,
        data,
    ) by {
        if i < s.cuts.len() {
            assert(parts_of(s.cuts[i].1, data));
        }
    }
    assert(run_size(t.novel, 0) == 0);
}

/// Dealing with the next chunks keeps all sizes right, as long as `contents` tells of
/// a xorb that is closed on the way.
proof fn lemma_next_sized(s: Packing, chunks: Seq<ChunkRef>, data: Seq<u8>, contents: Contents)
    requires
        sized_so_far(s, data, contents),
        chunks_of(data, chunks),
        s.at < chunks.len(),
        s.fault(chunks) is None,
        holds_cuts(contents, data, s.next(chunks).cuts),
    ensures
        sized_so_far(s.next(chunks), data, contents),
{
    if s.reused(chunks) is Some {
        lemma_referenced_sized(s, chunks, data, contents);
    } else {
        let c = chunks[s.at as int];
        let asked = Packing { spread: s.asked(chunks), ..s };
        assert(part_of(c, data));
        assert(sized_so_far(asked, data, contents));
        if asked.has_room(c.len as nat) {
            lemma_filled_sized(asked, c, data, contents);
        } else {
            let cuts = s.next(chunks).cuts;
            assert(cuts[cuts.len() - 1] == (asked.cut_hash(), asked.novel));
            lemma_closed_sized(asked, data, contents);
            assert(run_size(asked.cut().novel, 0) == 0);
            lemma_filled_sized(asked.cut(), c, data, contents);
        }
    }
}

/// Runs that are sized while no xorb is being filled do not stand under the marker.
proof fn lemma_nothing_marked(terms: Seq<Term>, data: Seq<u8>, contents: Contents)
    requires
        all_sized(terms, contents.insert(marker(), cut_contents(data, Seq::empty()))),
    ensures
        all_sized(terms, contents),
{
    let with = contents.insert(marker(), cut_contents(data, Seq::empty()));
    assert forall|i: int| #![trigger terms[i]] 0 <= i < terms.len() implies run_sized(
        terms[i],
        contents,
    ) by {
        assert(run_sized(terms[i], with));
        assert(terms[i].xorb_hash != marker());
    }
}

proof fn lemma_run_sized(s: Packing, chunks: Seq<ChunkRef>, data: Seq<u8>, contents: Contents)
    requires
        sized_so_far(s, data, contents),
        chunks_of(data, chunks),
        s.run(chunks) is Ok,
        holds_cuts(contents, data, s.run(chunks)->Ok_0.cuts),
    ensures
        all_sized(s.run(chunks)->Ok_0.terms, contents),
        forall|i: int|
            #![trigger s.run(chunks)->Ok_0.cuts[i]]
            0 <= i < s.run(chunks)->Ok_0.cuts.len() ==> parts_of(
                s.run(chunks)->Ok_0.cuts[i].1,
                data,
            ),
    decreases chunks.len() - s.at,
{
    let end = s.run(chunks)->Ok_0;
    if s.at >= chunks.len() {
        if s.novel.len() == 0 {
            assert(s.novel =~= Seq::<ChunkRef>::empty());
            lemma_nothing_marked(s.terms, data, contents);
        } else {
            assert(end.cuts[end.cuts.len() - 1] == (s.cut_hash(), s.novel));
            lemma_closed_sized(s, data, contents);
            lemma_nothing_marked(end.terms, data, contents);
        }
    } else {
        let t = s.next(chunks);
        lemma_next_advances(s, chunks);
        lemma_cuts_stay(t, chunks);
        assert forall|i: int| #![trigger t.cuts[i]] 0 <= i < t.cuts.len() implies
            contents.contains_key(t.cuts[i].0) && contents[t.cuts[i].0] == cut_contents(
            data,
            t.cuts[i].1,
        ) by {
            assert(end.cuts.subrange(0, t.cuts.len() as int)[i] == end.cuts[i]);
        }
        lemma_next_sized(s, chunks, data, contents);
        lemma_run_sized(t, chunks, data, contents);
    }
}

/// Fetching a run brings what its xorb holds there.
proof fn lemma_fetched(term: Term, contents: Contents, blobs: Blobs)
    requires
        run_sized(term, contents),
        contents.contains_key(term.xorb_hash),
        holds(blobs, contents),
    ensures
        unpacked(fetched(term, blobs), no_limit()) == Some(
            joined_chunks(run_chunks(term, contents)),
        ),
        readable(term, blobs),
{
    let held = contents[term.xorb_hash];
    assert(stores_chunks(blobs[term.xorb_hash], held));
    let a = term.chunk_index_start as int;
    let b = term.chunk_index_end as int;
    assert(run_chunks(term, contents) == held.subrange(a, b));
    let ends = stored_footer(blobs[term.xorb_hash])->Some_0.1;
    assert(ends[b - 1] <= blobs[term.xorb_hash].len());
}

/// Loading runs brings what their xorbs hold.
proof fn lemma_loaded(terms: Seq<Term>, contents: Contents, blobs: Blobs)
    requires
        all_sized(terms, contents),
        forall|i: int|
            #![trigger terms[i]]
            0 <= i < terms.len() ==> contents.contains_key(terms[i].xorb_hash),
        holds(blobs, contents),
    ensures
        loaded(terms, blobs) == read_back(terms, contents),
    decreases terms.len(),
{
    if terms.len() > 0 {
        let front = terms.drop_last();
        assert forall|i: int| #![trigger front[i]] 0 <= i < front.len() implies run_sized(
            front[i],
            contents,
        ) && contents.contains_key(front[i].xorb_hash) by {
            assert(front[i] == terms[i]);
        }
        lemma_loaded(front, contents, blobs);
        let t = terms[terms.len() - 1];
        assert(run_sized(t, contents));
        lemma_fetched(t, contents, blobs);
    }
}

/// Loading a stored object brings back exactly the bytes that were stored: each of
/// its runs is found in the xorb that it names, has as many bytes as the shard says,
/// and all of them together are the object. `blobs` is what the store holds once the
/// object's xorbs are written, and `contents` tells which chunks those bytes are. It
/// is right about the xorbs that the lookup pointed at before and about those that
/// were filled, and no two chunks with the same hash differ.
pub proof fn law_load_returns_what_was_stored(
    places: Map<MerkleHash, Place>,
    known: Map<MerkleHash, Seq<ChunkEntry>>,
    data: Seq<u8>,
    chunks: Seq<ChunkRef>,
    contents: Contents,
    blobs: Blobs,
)
    requires
        chunks_of(data, chunks),
        packed(places, known, chunks) is Ok,
        serves(names_of(contents), places),
        sizes_right(contents, places),
        holds_cuts(contents, data, packed(places, known, chunks)->Ok_0.cuts),
        no_collision(contents, data, chunks),
        holds(blobs, contents),
    ensures
        loaded(packed(places, known, chunks)->Ok_0.terms, blobs) == data,
        forall|i: int|
            #![trigger packed(places, known, chunks)->Ok_0.terms[i]]
            0 <= i < packed(places, known, chunks)->Ok_0.terms.len() ==> readable(
                packed(places, known, chunks)->Ok_0.terms[i],
                blobs,
            ),
{
    let s = Packing::start(places, known);
    let p = packed(places, known, chunks)->Ok_0;
    lemma_run_sized(s, chunks, data, contents);
    let names = names_of(contents);
    assert forall|i: int| #![trigger p.cuts[i]] 0 <= i < p.cuts.len() implies names.contains_key(
        p.cuts[i].0,
    ) && names[p.cuts[i].0] == hashes_of(p.cuts[i].1) by {
        let cut = p.cuts[i].1;
        assert(parts_of(cut, data));
        assert forall|j: int| 0 <= j < cut.len() implies #[trigger] hashes_of(cut)[j]
            == names[p.cuts[i].0][j] by {
            assert(part_of(cut[j], data));
        }
        assert(names[p.cuts[i].0] =~= hashes_of(cut));
    }
    assert(knows_cuts(names, p.cuts));
    law_read_returns_what_was_stored(places, known, data, chunks, contents);
    law_terms_name_the_chunks(places, known, chunks, names);
    assert forall|i: int| #![trigger p.terms[i]] 0 <= i < p.terms.len() implies {
        &&& contents.contains_key(p.terms[i].xorb_hash)
        &&& readable(p.terms[i], blobs)
    } by {
        assert(p.terms[i].lies_in(names));
        assert(run_sized(p.terms[i], contents));
        lemma_fetched(p.terms[i], contents, blobs);
    }
    lemma_loaded(p.terms, contents, blobs);
}

/// A run of a stored object is read, and not refused, wherever chunks of the largest size
/// are taken.
pub proof fn law_stored_run_is_read(
    term: Term,
    blobs: Blobs,
    limit: nat,
    r: Result<Vec<u8>, StoreError>,
)
    requires
        readable(term, blobs),
        limit >= MAX_CHUNK_SIZE,
        answers(fetched(term, blobs), term, limit, r),
    ensures
        r matches Ok(data) && data@ == loaded(seq![term], blobs),
{
    let one = seq![term];
    let none = one.drop_last();
    let data = unpacked(fetched(term, blobs), no_limit())->Some_0;
    assert(none.len() == 0);
    assert(loaded(none, blobs) =~= Seq::empty());
    assert(Seq::<u8>::empty() + data =~= data);
    assert(unpacked(fetched(term, blobs), limit) == Some(data));
}

/// A xorb that was filled is one that the store can serve its chunks from, once its
/// bytes are written. A hash of all zeros, which a footer reserves, is left out.
pub proof fn law_filled_xorb_serves_its_chunks(xorb: CutXorb, data: Seq<u8>)
    requires
        xorb.wf(data),
        xorb.chunks@.len() > 0,
        xorb.packed.hash != (MerkleHash { w0: 0, w1: 0, w2: 0, w3: 0 }),
    ensures
        stores_chunks(xorb.packed.bytes@, cut_contents(data, xorb.chunks@)),
{
    let bytes = xorb.packed.bytes@;
    let ends = footer_ends(xorb.packed.footer);
    let chunks = cut_contents(data, xorb.chunks@);
    assert(footer_usable(xorb.packed.footer));
    assert forall|a: int, b: int, limit: nat|
        #![trigger unpacked(bytes.subrange(start_of(ends, a), ends[b - 1] as int), limit)]
        0 <= a < b <= chunks.len() && limit >= MAX_CHUNK_SIZE implies unpacked(
        bytes.subrange(start_of(ends, a), ends[b - 1] as int),
        limit,
    ) == Some(joined_chunks(chunks.subrange(a, b))) by {
        law_run_reads_its_chunks(xorb, data, a as nat, b as nat, limit);
    }
}

/// A record names the chunks of its xorb, and has their sizes.
pub open spec fn record_right(contents: Contents, x: MerkleHash, entries: Seq<ChunkEntry>) -> bool {
    &&& contents.contains_key(x)
    &&& names_of(contents)[x] == entry_hashes(entries)
    &&& sizes_agree(contents[x], entries)
}

/// `contents` is right about every xorb that a shard has a record of.
pub open spec fn records_right(
    contents: Contents,
    xorbs: Map<MerkleHash, Seq<ChunkEntry>>,
) -> bool {
    forall|x: MerkleHash|
        xorbs.contains_key(x) ==> record_right(contents, x, #[trigger] xorbs[x])
}

/// The lookup points only at xorbs that the shard has a record of.
pub open spec fn points_at_records(
    places: Map<MerkleHash, Place>,
    xorbs: Map<MerkleHash, Seq<ChunkEntry>>,
) -> bool {
    forall|h: MerkleHash|
        #![trigger places[h]]
        places.contains_key(h) ==> xorbs.contains_key(places[h].xorb_hash)
}

/// `contents` is right about everything that the shard knows.
spec fn right_so_far(s: Packing, contents: Contents) -> bool {
    &&& points_at_records(s.places, s.xorbs)
    &&& serves(names_of(contents), s.places)
    &&& sizes_right(contents, s.places)
    &&& records_right(contents, s.xorbs)
}

/// The record of a xorb names its chunks and has their sizes.
proof fn lemma_record_right(chunks: Seq<ChunkRef>, data: Seq<u8>)
    requires
        parts_of(chunks, data),
    ensures
        sizes_agree(cut_contents(data, chunks), entries_of(chunks)),
        forall|i: int|
            0 <= i < chunks.len() ==> data_hash(#[trigger] cut_contents(data, chunks)[i])
                == entries_of(chunks)[i].hash,
{
    let entries = entries_of(chunks);
    assert forall|i: int| #![trigger entries[i]] 0 <= i < entries.len() implies cut_contents(
        data,
        chunks,
    )[i].len() == entries[i].len by {
        assert(part_of(chunks[i], data));
    }
    assert forall|i: int| 0 <= i < chunks.len() implies data_hash(
        #[trigger] cut_contents(data, chunks)[i],
    ) == entries[i].hash by {
        assert(part_of(chunks[i], data));
    }
}

/// Closing the xorb being filled leaves the shard right.
proof fn lemma_closed_right(s: Packing, data: Seq<u8>, contents: Contents)
    requires
        sized_so_far(s, data, contents),
        right_so_far(s, contents),
        !s.cut_hash().marks(),
        contents.contains_key(s.cut_hash()),
        contents[s.cut_hash()] == cut_contents(data, s.novel),
    ensures
        right_so_far(s.cut(), contents),
{
    let hash = s.cut_hash();
    let t = s.cut();
    let names = names_of(contents);
    let entries = entries_of(s.novel);
    lemma_closed_sized(s, data, contents);
    lemma_record_right(s.novel, data);
    assert forall|i: int| 0 <= i < entries.len() implies #[trigger] names[hash][i]
        == entry_hashes(entries)[i] by {
        assert(data_hash(cut_contents(data, s.novel)[i]) == entries[i].hash);
    }
    assert(names[hash] =~= entry_hashes(entries));
    assert forall|h: MerkleHash| #![trigger t.places[h]] t.places.contains_key(h) implies {
        &&& place_fits(h, t.places[h])
        &&& names.contains_key(t.places[h].xorb_hash)
        &&& names[t.places[h].xorb_hash] == entry_hashes(t.places[h].chunks)
    } by {
        lemma_last_at(entries, h);
        if last_at(entries, h) is None {
            assert(place_fits(h, s.places[h]));
        }
    }
    assert(record_right(contents, hash, entries));
    let records = s.xorbs.insert(hash, entries);
    assert forall|x: MerkleHash| records.contains_key(x) implies record_right(
        contents,
        x,
        #[trigger] records[x],
    ) by {
        if x != hash {
            assert(record_right(contents, x, s.xorbs[x]));
        }
    }
    assert(serves(names, t.places));
}

proof fn lemma_run_right(s: Packing, chunks: Seq<ChunkRef>, data: Seq<u8>, contents: Contents)
    requires
        sized_so_far(s, data, contents),
        right_so_far(s, contents),
        chunks_of(data, chunks),
        s.run(chunks) is Ok,
        holds_cuts(contents, data, s.run(chunks)->Ok_0.cuts),
    ensures
        right_so_far(s.run(chunks)->Ok_0, contents),
    decreases chunks.len() - s.at,
{
    let end = s.run(chunks)->Ok_0;
    if s.at >= chunks.len() {
        if s.novel.len() > 0 {
            assert(end.cuts[end.cuts.len() - 1] == (s.cut_hash(), s.novel));
            lemma_closed_right(s, data, contents);
        }
    } else {
        let t = s.next(chunks);
        lemma_next_advances(s, chunks);
        lemma_cuts_stay(t, chunks);
        assert forall|i: int| #![trigger t.cuts[i]] 0 <= i < t.cuts.len() implies
            contents.contains_key(t.cuts[i].0) && contents[t.cuts[i].0] == cut_contents(
            data,
            t.cuts[i].1,
        ) by {
            assert(end.cuts.subrange(0, t.cuts.len() as int)[i] == end.cuts[i]);
        }
        lemma_next_sized(s, chunks, data, contents);
        if s.reused(chunks) is None {
            let c = chunks[s.at as int];
            let asked = Packing { spread: s.asked(chunks), ..s };
            assert(sized_so_far(asked, data, contents));
            if !asked.has_room(c.len as nat) {
                assert(t.cuts[t.cuts.len() - 1] == (asked.cut_hash(), asked.novel));
                lemma_closed_right(asked, data, contents);
            }
        }
        lemma_run_right(t, chunks, data, contents);
    }
}

/// Storing an object leaves the shard right about every xorb, so that the next object
/// can be stored on top of it: what held of the lookup and the records before holds of
/// them after.
pub proof fn law_storing_keeps_the_shard_right(
    places: Map<MerkleHash, Place>,
    known: Map<MerkleHash, Seq<ChunkEntry>>,
    data: Seq<u8>,
    chunks: Seq<ChunkRef>,
    contents: Contents,
)
    requires
        chunks_of(data, chunks),
        packed(places, known, chunks) is Ok,
        serves(names_of(contents), places),
        sizes_right(contents, places),
        records_right(contents, known),
        points_at_records(places, known),
        holds_cuts(contents, data, packed(places, known, chunks)->Ok_0.cuts),
    ensures
        serves(names_of(contents), packed(places, known, chunks)->Ok_0.places),
        sizes_right(contents, packed(places, known, chunks)->Ok_0.places),
        records_right(contents, packed(places, known, chunks)->Ok_0.xorbs),
        points_at_records(
            packed(places, known, chunks)->Ok_0.places,
            packed(places, known, chunks)->Ok_0.xorbs,
        ),
{
    lemma_run_right(Packing::start(places, known), chunks, data, contents);
}

/// A shard that is written is right when it is read again: the lookup that its reader
/// builds points at records that are right.
pub proof fn law_shard_is_right_when_read_again(
    places: Map<MerkleHash, Place>,
    xorbs: Map<MerkleHash, Seq<ChunkEntry>>,
    files: Map<MerkleHash, Seq<Term>>,
    contents: Contents,
)
    requires
        sound(places, xorbs, files),
        agree(places, xorbs),
        records_right(contents, xorbs),
    ensures
        serves(names_of(contents), places),
        sizes_right(contents, places),
        points_at_records(places, xorbs),
{
    assert forall|h: MerkleHash| #![trigger places[h]] places.contains_key(h) implies {
        &&& place_fits(h, places[h])
        &&& names_of(contents).contains_key(places[h].xorb_hash)
        &&& names_of(contents)[places[h].xorb_hash] == entry_hashes(places[h].chunks)
        &&& sizes_agree(contents[places[h].xorb_hash], places[h].chunks)
    } by {
        let x = places[h].xorb_hash;
        assert(xorbs[x] == places[h].chunks);
        assert(record_right(contents, x, xorbs[x]));
    }
}

/// What a shard knows it still knows when it is read again: identical content adds no
/// bytes to whoever opens the repository anew.
pub proof fn law_content_is_known_when_read_again(
    places: Map<MerkleHash, Place>,
    xorbs: Map<MerkleHash, Seq<ChunkEntry>>,
    files: Map<MerkleHash, Seq<Term>>,
    fresh: Map<MerkleHash, Place>,
    chunks: Seq<ChunkRef>,
    contents: Contents,
)
    requires
        all_known(places, chunks),
        serves(names_of(contents), places),
        records_right(contents, xorbs),
        points_at_records(places, xorbs),
        sound(fresh, xorbs, files),
    ensures
        all_known(fresh, chunks),
{
    assert forall|i: int| #![trigger chunks[i]] 0 <= i < chunks.len() implies fresh.contains_key(
        chunks[i].hash,
    ) && place_fits(chunks[i].hash, fresh[chunks[i].hash]) by {
        let h = chunks[i].hash;
        let p = places[h];
        assert(place_fits(h, p));
        assert(record_right(contents, p.xorb_hash, xorbs[p.xorb_hash]));
        let names = names_of(contents)[p.xorb_hash];
        assert(names == entry_hashes(p.chunks));
        assert(names[p.index as int] == h);
        let record = xorbs[p.xorb_hash];
        assert(names == entry_hashes(record));
        assert(entry_hashes(record).len() == record.len());
        assert(entry_hashes(p.chunks).len() == p.chunks.len());
        assert(entry_hashes(record)[p.index as int] == record[p.index as int].hash);
        assert(xorbs[p.xorb_hash][p.index as int].hash == h);
        assert(place_fits(h, fresh[h]));
    }
}

/// Whoever reads the shard that was written for an object finds the object's runs in
/// it, and every other file as it was.
pub proof fn law_stored_file_is_found_again(
    out: Stored,
    p: Packing,
    data: Seq<u8>,
    chunks: Seq<ChunkRef>,
    files: Map<MerkleHash, Seq<Term>>,
    bytes: Seq<u8>,
)
    requires
        out.matches_packing(p, data, chunks, files),
        stored_shard(bytes) matches Some(s) && s.files == out.shard.files(),
    ensures
        ({
            let found = stored_shard(bytes)->Some_0.files;
            &&& found.contains_key(out.stats.file_hash)
            &&& found[out.stats.file_hash] == p.terms
            &&& forall|f: MerkleHash|
                #![trigger found.contains_key(f)]
                f != out.stats.file_hash ==> found.contains_key(f) == files.contains_key(f)
                    && found[f] == files[f]
        }),
{
}

/// What a store holds after the first `n` of these xorbs were written. A xorb is only
/// ever created: one that is there already stays as it is.
pub open spec fn created(blobs: Blobs, xorbs: Seq<CutXorb>, n: nat) -> Blobs
    decreases n,
{
    if n == 0 {
        blobs
    } else {
        let before = created(blobs, xorbs, (n - 1) as nat);
        let hash = xorbs[n - 1].packed.hash;
        if before.contains_key(hash) {
            before
        } else {
            before.insert(hash, xorbs[n - 1].packed.bytes@)
        }
    }
}

/// Storing an object changes no object that was stored before, also where it fails on
/// the way. Whichever of its xorbs were written, every run that could be read is read as
/// the same bytes. The shard is written last, so that until then it names the files that
/// it named before, and no other.
pub proof fn law_storing_changes_no_other_object(
    terms: Seq<Term>,
    blobs: Blobs,
    xorbs: Seq<CutXorb>,
    n: nat,
)
    requires
        n <= xorbs.len(),
        forall|i: int| #![trigger terms[i]] 0 <= i < terms.len() ==> readable(terms[i], blobs),
    ensures
        forall|i: int|
            #![trigger terms[i]]
            0 <= i < terms.len() ==> readable(terms[i], created(blobs, xorbs, n)),
        loaded(terms, created(blobs, xorbs, n)) == loaded(terms, blobs),
    decreases terms.len(),
{
    let after = created(blobs, xorbs, n);
    assert forall|i: int| #![trigger terms[i]] 0 <= i < terms.len() implies readable(
        terms[i],
        after,
    ) by {
        assert(readable(terms[i], blobs));
        lemma_created_keeps(blobs, xorbs, n, terms[i].xorb_hash);
        assert(fetched(terms[i], after) == fetched(terms[i], blobs));
    }
    if terms.len() > 0 {
        let front = terms.drop_last();
        assert forall|i: int| #![trigger front[i]] 0 <= i < front.len() implies readable(
            front[i],
            blobs,
        ) by {
            assert(front[i] == terms[i]);
        }
        law_storing_changes_no_other_object(front, blobs, xorbs, n);
        let t = terms[terms.len() - 1];
        assert(readable(t, blobs));
        lemma_created_keeps(blobs, xorbs, n, t.xorb_hash);
        assert(fetched(t, after) == fetched(t, blobs));
    }
}

/// A xorb that was there is there as it was.
spec fn kept(before: Blobs, after: Blobs, h: MerkleHash) -> bool {
    after.contains_key(h) && after[h] == before[h]
}

proof fn lemma_created_keeps(blobs: Blobs, xorbs: Seq<CutXorb>, n: nat, h: MerkleHash)
    requires
        blobs.contains_key(h),
    ensures
        kept(blobs, created(blobs, xorbs, n), h),
    decreases n,
{
    if n > 0 {
        lemma_created_keeps(blobs, xorbs, (n - 1) as nat, h);
    }
}

/// A stored run that continues the last one stands behind it in the same xorb, so both have no
/// more bytes together than the xorb.
proof fn lemma_runs_stay_short(
    s: Packing,
    chunks: Seq<ChunkRef>,
    data: Seq<u8>,
    contents: Contents,
)
    requires
        sized_so_far(s, data, contents),
    ensures
        !run_too_long(s, chunks),
{
    if run_too_long(s, chunks) {
        let query = hashes_of(chunks).subrange(s.at as int, chunks.len() as int);
        let (n, term) = s.found(chunks)->Some_0;
        let p = s.places[query[0]];
        assert(place_fits(query[0], p));
        lemma_run_fits(s.places, query);
        let held = contents[p.xorb_hash];
        assert(sizes_agree(held, p.chunks));
        let with = contents.insert(marker(), cut_contents(data, s.novel));
        let last = s.terms[s.terms.len() - 1];
        assert(run_sized(last, with));
        assert(with[last.xorb_hash] == held);
        let a = last.chunk_index_start as int;
        let b = last.chunk_index_end as int;
        let c = p.index as int + n;
        lemma_run_bytes_joined(held, p.chunks, a, b);
        lemma_run_bytes_joined(held, p.chunks, b, c);
        lemma_run_bytes_joined(held, p.chunks, a, c);
        lemma_joined_append(held.subrange(a, b), held.subrange(b, c));
        assert(held.subrange(a, b) + held.subrange(b, c) =~= held.subrange(a, c));
        lemma_run_bytes_part(p.chunks, a, c);
    }
}

/// `contents` tells of the xorb that is being filled, and its hash is not the reserved one.
pub open spec fn tells_of_filling(
    t: Packing,
    chunks: Seq<ChunkRef>,
    data: Seq<u8>,
    contents: Contents,
) -> bool {
    t.at <= chunks.len() && t.novel.len() > 0 ==> {
        let hash = xorb_hash_of(sizes_of(t.novel));
        &&& !reserved(hash)
        &&& contents.contains_key(hash)
        &&& contents[hash] == cut_contents(data, t.novel)
    }
}

proof fn lemma_right_run_succeeds(
    s: Packing,
    chunks: Seq<ChunkRef>,
    data: Seq<u8>,
    contents: Contents,
)
    requires
        chunks_of(data, chunks),
        chunks_small(chunks),
        sized_so_far(s, data, contents),
        holds_cuts(contents, data, s.cuts),
        forall|n: nat|
            tells_of_filling(#[trigger] after_steps(s, chunks, n), chunks, data, contents),
        s.terms.len() <= s.at <= chunks.len(),
    ensures
        s.run(chunks) matches Ok(p) && p.terms.len() <= chunks.len(),
    decreases chunks.len() - s.at,
{
    assert(after_steps(s, chunks, 0) == s);
    assert(tells_of_filling(s, chunks, data, contents));
    if s.at < chunks.len() {
        let c = chunks[s.at as int];
        lemma_next_advances(s, chunks);
        lemma_runs_stay_short(s, chunks, data, contents);
        if s.reused(chunks) is None {
            assert(c.len <= MAX_CHUNK_SIZE);
            if s.novel.len() == 0 {
                assert(run_size(s.novel, 0) == 0);
                assert(s.has_room(c.len as nat));
            }
        }
        assert(s.fault(chunks) is None);
        let t = s.next(chunks);
        assert(holds_cuts(contents, data, t.cuts)) by {
            assert forall|i: int| #![trigger t.cuts[i]] 0 <= i < t.cuts.len() implies
                contents.contains_key(t.cuts[i].0) && contents[t.cuts[i].0] == cut_contents(
                data,
                t.cuts[i].1,
            ) by {
                if i < s.cuts.len() {
                    assert(t.cuts[i] == s.cuts[i]);
                }
            }
        }
        lemma_next_sized(s, chunks, data, contents);
        assert forall|n: nat|
            tells_of_filling(#[trigger] after_steps(t, chunks, n), chunks, data, contents) by {
            lemma_first_step(s, chunks, n);
        }
        lemma_right_run_succeeds(t, chunks, data, contents);
    }
}

/// Storing succeeds in every repository that is right about its xorbs: whatever it knows, and
/// however many chunks and xorbs the object takes, it is refused only for a hash that is the
/// reserved one. `contents` tells which chunks the xorbs hold that the lookup points at and
/// those that are filled on the way; no two of them share a hash.
pub proof fn law_storing_succeeds_in_a_right_repository(
    data: &[u8],
    chunks: &Vec<ChunkRef>,
    shard: Shard,
    contents: Contents,
    r: Result<Stored, StoreError>,
)
    requires
        call_ensures(store_chunks, (data, chunks, shard), r),
        shard.wf(),
        chunks_of(data@, chunks@),
        chunks_small(chunks@),
        chunks@.len() <= 0xffff_ffff,
        sizes_right(contents, shard.places()),
        forall|n: nat|
            tells_of_filling(
                #[trigger] after_steps(
                    Packing::start(shard.places(), shard.xorbs()),
                    chunks@,
                    n,
                ),
                chunks@,
                data@,
                contents,
            ),
        !reserved(file_hash_of(sizes_of(chunks@))),
    ensures
        r is Ok,
{
    let s = Packing::start(shard.places(), shard.xorbs());
    assert(run_size(s.novel, 0) == 0);
    lemma_right_run_succeeds(s, chunks@, data@, contents);
}

} // verus!
