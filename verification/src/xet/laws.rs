//! What holds of an object that was stored, whatever the shard knew before.
use vstd::prelude::*;

use crate::xet::chunk::{chunks_of, data_hash, hashes_of, ChunkRef, MAX_CHUNK_SIZE};
use crate::xet::defrag::{law_window_is_the_last_terms, sum, Spread, WINDOW};
use crate::xet::hash::MerkleHash;
use crate::xet::pack::{
    entries_of, lemma_run_size_grows, lemma_run_size_same, novel_term, packed, position, CutXorb,
    Packing,
};
use crate::xet::shard::{
    complete, last_at, lemma_last_at, lemma_run_fits, lemma_run_matches, lemma_stays_complete,
    place_fits, record_fits, run_bytes, sound, ChunkEntry, Place,
};
use crate::xet::terms::{
    all_lie_in, continues_last, expanded, law_binding_keeps_the_chunks,
    law_pushing_appends_the_run, pushed, Term, Xorbs,
};
use crate::xet::xorb::{
    footer_ends, run_data, run_size, start_of, unpacked, MAX_XORB_BYTES, MAX_XORB_CHUNKS,
};

verus! {

/// The hashes in the record of a xorb.
pub open spec fn entry_hashes(chunks: Seq<ChunkEntry>) -> Seq<MerkleHash> {
    Seq::new(chunks.len(), |i: int| chunks[i].hash)
}

/// `xorbs` says of every xorb that a lookup points at which chunks it holds.
pub open spec fn serves(xorbs: Xorbs, places: Map<MerkleHash, Place>) -> bool {
    forall|h: MerkleHash|
        #![trigger places[h]]
        places.contains_key(h) ==> {
            &&& place_fits(h, places[h])
            &&& xorbs.contains_key(places[h].xorb_hash)
            &&& xorbs[places[h].xorb_hash] == entry_hashes(places[h].chunks)
        }
}

/// `xorbs` says the same of every xorb that was filled.
pub open spec fn knows_cuts(xorbs: Xorbs, cuts: Seq<(MerkleHash, Seq<ChunkRef>)>) -> bool {
    forall|i: int|
        #![trigger cuts[i]]
        0 <= i < cuts.len() ==> xorbs.contains_key(cuts[i].0) && xorbs[cuts[i].0] == hashes_of(
            cuts[i].1,
        )
}

/// The hash that stands for the xorb being filled.
pub open spec fn marker() -> MerkleHash {
    MerkleHash { w0: u64::MAX, w1: u64::MAX, w2: u64::MAX, w3: u64::MAX }
}

/// The runs so far name the chunks so far.
pub open spec fn on_track(s: Packing, chunks: Seq<ChunkRef>, xorbs: Xorbs) -> bool {
    let with = xorbs.insert(marker(), hashes_of(s.novel));
    &&& s.at <= chunks.len()
    &&& s.novel.len() <= MAX_XORB_CHUNKS
    &&& run_size(s.novel, s.novel.len()) <= MAX_XORB_BYTES
    &&& all_lie_in(s.terms, with)
    &&& expanded(s.terms, with) == hashes_of(chunks).subrange(0, s.at as int)
}

/// Chunks that join the xorb being filled change no run that is there already.
proof fn lemma_expanded_grows(
    terms: Seq<Term>,
    xorbs: Xorbs,
    a: Seq<MerkleHash>,
    b: Seq<MerkleHash>,
)
    requires
        all_lie_in(terms, xorbs.insert(marker(), a)),
        a.len() <= b.len(),
        b.subrange(0, a.len() as int) == a,
    ensures
        all_lie_in(terms, xorbs.insert(marker(), b)),
        expanded(terms, xorbs.insert(marker(), b)) == expanded(terms, xorbs.insert(marker(), a)),
    decreases terms.len(),
{
    let x = xorbs.insert(marker(), a);
    let y = xorbs.insert(marker(), b);
    if terms.len() > 0 {
        let front = terms.drop_last();
        assert forall|i: int| #![trigger front[i]] 0 <= i < front.len() implies front[i].lies_in(
            x,
        ) by {
            assert(front[i] == terms[i]);
        }
        lemma_expanded_grows(front, xorbs, a, b);
        let t = terms[terms.len() - 1];
        assert(t.lies_in(x));
        assert(t.chunks(y) =~= t.chunks(x));
        assert forall|i: int| #![trigger terms[i]] 0 <= i < terms.len() implies terms[i].lies_in(
            y,
        ) by {
            assert(terms[i].lies_in(x));
        }
    }
}

/// Closing the xorb being filled keeps everything on track.
proof fn lemma_cut_on_track(s: Packing, chunks: Seq<ChunkRef>, xorbs: Xorbs)
    requires
        on_track(s, chunks, xorbs),
        !s.cut_hash().marks(),
        xorbs.contains_key(s.cut_hash()),
        xorbs[s.cut_hash()] == hashes_of(s.novel),
        serves(xorbs, s.places),
    ensures
        on_track(s.cut(), chunks, xorbs),
        serves(xorbs, s.cut().places),
        all_lie_in(s.cut().terms, xorbs),
        expanded(s.cut().terms, xorbs) == hashes_of(chunks).subrange(0, s.at as int),
{
    let hash = s.cut_hash();
    let t = s.cut();
    lemma_entries_fit(s.novel);
    law_binding_keeps_the_chunks(s.terms, hash, marker(), hashes_of(s.novel), xorbs);
    let none = Seq::<MerkleHash>::empty();
    assert(hashes_of(t.novel) =~= none);
    lemma_without_marker(t.terms, xorbs, none);
    assert(entry_hashes(entries_of(s.novel)) =~= hashes_of(s.novel));
    assert forall|h: MerkleHash| #![trigger t.places[h]] t.places.contains_key(h) implies {
        &&& place_fits(h, t.places[h])
        &&& xorbs.contains_key(t.places[h].xorb_hash)
        &&& xorbs[t.places[h].xorb_hash] == entry_hashes(t.places[h].chunks)
    } by {
        lemma_last_at(entries_of(s.novel), h);
        if last_at(entries_of(s.novel), h) is None {
            assert(place_fits(h, s.places[h]));
        }
    }
}

/// Runs none of which stands under the marker do not care what it means.
proof fn lemma_without_marker(terms: Seq<Term>, xorbs: Xorbs, any: Seq<MerkleHash>)
    requires
        all_lie_in(terms, xorbs),
        forall|i: int| #![trigger terms[i]] 0 <= i < terms.len() ==> !terms[i].xorb_hash.marks(),
    ensures
        all_lie_in(terms, xorbs.insert(marker(), any)),
        expanded(terms, xorbs.insert(marker(), any)) == expanded(terms, xorbs),
    decreases terms.len(),
{
    let y = xorbs.insert(marker(), any);
    if terms.len() > 0 {
        let front = terms.drop_last();
        assert forall|i: int| #![trigger front[i]] 0 <= i < front.len() implies front[i].lies_in(
            xorbs,
        ) && !front[i].xorb_hash.marks() by {
            assert(front[i] == terms[i]);
        }
        lemma_without_marker(front, xorbs, any);
        let t = terms[terms.len() - 1];
        assert(t.chunks(y) =~= t.chunks(xorbs));
        assert forall|i: int| #![trigger terms[i]] 0 <= i < terms.len() implies terms[i].lies_in(
            y,
        ) by {
            assert(terms[i].lies_in(xorbs));
        }
    }
}

proof fn lemma_entries_size(chunks: Seq<ChunkRef>, n: nat)
    requires
        n <= chunks.len(),
        run_size(chunks, chunks.len()) <= MAX_XORB_BYTES,
    ensures
        run_bytes(entries_of(chunks), 0, n as int) == run_size(chunks, n),
        run_size(chunks, n) <= MAX_XORB_BYTES,
    decreases chunks.len() - n, n,
{
    lemma_run_size_grows(chunks, n, chunks.len());
    if n > 0 {
        lemma_entries_size_below(chunks, n);
    }
}

proof fn lemma_entries_size_below(chunks: Seq<ChunkRef>, n: nat)
    requires
        0 < n <= chunks.len(),
        run_size(chunks, chunks.len()) <= MAX_XORB_BYTES,
    ensures
        run_bytes(entries_of(chunks), 0, n as int) == run_size(chunks, n),
    decreases n,
{
    lemma_run_size_grows(chunks, n, chunks.len());
    if n > 1 {
        lemma_entries_size_below(chunks, (n - 1) as nat);
    } else {
        assert(run_bytes(entries_of(chunks), 0, 0) == 0);
        assert(run_size(chunks, 0) == 0);
    }
}

/// The record of a xorb that is being filled fits the format.
pub proof fn lemma_entries_fit(chunks: Seq<ChunkRef>)
    requires
        chunks.len() <= MAX_XORB_CHUNKS,
        run_size(chunks, chunks.len()) <= MAX_XORB_BYTES,
    ensures
        record_fits(entries_of(chunks)),
{
    lemma_entries_size(chunks, chunks.len());
    if chunks.len() > 0 {
        lemma_run_size_grows(chunks, (chunks.len() - 1) as nat, chunks.len());
    }
}

/// Dealing with the next chunks keeps everything on track, as long as a xorb that
/// is closed on the way is known.
proof fn lemma_next_on_track(s: Packing, chunks: Seq<ChunkRef>, xorbs: Xorbs)
    requires
        on_track(s, chunks, xorbs),
        serves(xorbs, s.places),
        s.at < chunks.len(),
        s.fault(chunks) is None,
        knows_cuts(xorbs, s.next(chunks).cuts),
    ensures
        on_track(s.next(chunks), chunks, xorbs),
        serves(xorbs, s.next(chunks).places),
{
    let all = hashes_of(chunks);
    let query = all.subrange(s.at as int, chunks.len() as int);
    match s.reused(chunks) {
        Some((n, term)) => {
            let p = s.places[query[0]];
            assert(place_fits(query[0], p));
            lemma_run_fits(s.places, query);
            lemma_run_matches(p.chunks, p.index, query);
            let with = xorbs.insert(marker(), hashes_of(s.novel));
            assert(with[term.xorb_hash] == entry_hashes(p.chunks));
            assert(term.lies_in(with));
            let run = all.subrange(s.at as int, s.at as int + n);
            assert forall|j: int| 0 <= j < n implies #[trigger] term.chunks(with)[j] == run[j] by {
                assert(p.chunks[p.index + j].hash == query[j]);
            }
            assert(term.chunks(with) =~= run);
            law_pushing_appends_the_run(s.terms, term, with);
            assert(all.subrange(0, s.at as int) + all.subrange(s.at as int, s.at as int + n)
                =~= all.subrange(0, s.at as int + n));
        },
        None => {
            let c = chunks[s.at as int];
            let asked = Packing { spread: s.asked(chunks), ..s };
            assert(on_track(asked, chunks, xorbs));
            if asked.has_room(c.len as nat) {
                lemma_filled_on_track(asked, chunks, xorbs);
            } else {
                let t = asked.cut();
                let cuts = s.next(chunks).cuts;
                assert(cuts[cuts.len() - 1] == (asked.cut_hash(), asked.novel));
                lemma_cut_on_track(asked, chunks, xorbs);
                lemma_filled_on_track(t, chunks, xorbs);
            }
        },
    }
}

/// The same for a chunk that joins the xorb being filled.
proof fn lemma_filled_on_track(s: Packing, chunks: Seq<ChunkRef>, xorbs: Xorbs)
    requires
        on_track(s, chunks, xorbs),
        s.at < chunks.len(),
        s.has_room(chunks[s.at as int].len as nat),
    ensures
        on_track(s.filled(chunks[s.at as int]), chunks, xorbs),
{
    let all = hashes_of(chunks);
    let c = chunks[s.at as int];
    let t = s.filled(c);
    let a = hashes_of(s.novel);
    let b = hashes_of(t.novel);
    assert(b.subrange(0, a.len() as int) =~= a);
    lemma_expanded_grows(s.terms, xorbs, a, b);
    let with = xorbs.insert(marker(), b);
    let term = novel_term(marker(), c.len as nat, s.novel.len());
    assert(term.lies_in(with));
    assert(term.chunks(with) =~= seq![c.hash]);
    law_pushing_appends_the_run(s.terms, term, with);
    assert(all.subrange(0, s.at as int) + seq![c.hash] =~= all.subrange(0, s.at as int + 1));
    lemma_run_size_same(s.novel, t.novel, s.novel.len());
}

/// What is closed stays closed.
pub proof fn lemma_cuts_stay(s: Packing, chunks: Seq<ChunkRef>)
    requires
        s.run(chunks) is Ok,
    ensures
        s.cuts.len() <= s.run(chunks)->Ok_0.cuts.len(),
        s.run(chunks)->Ok_0.cuts.subrange(0, s.cuts.len() as int) == s.cuts,
    decreases chunks.len() - s.at,
{
    let end = s.run(chunks)->Ok_0;
    if s.at >= chunks.len() {
        assert(end.cuts.subrange(0, s.cuts.len() as int) =~= s.cuts);
    } else {
        let t = s.next(chunks);
        lemma_next_advances(s, chunks);
        lemma_cuts_stay(t, chunks);
        assert(t.cuts.subrange(0, s.cuts.len() as int) =~= s.cuts);
        assert(end.cuts.subrange(0, s.cuts.len() as int) =~= end.cuts.subrange(
            0,
            t.cuts.len() as int,
        ).subrange(0, s.cuts.len() as int));
    }
}

/// Every step deals with at least one chunk.
pub proof fn lemma_next_advances(s: Packing, chunks: Seq<ChunkRef>)
    requires
        s.at < chunks.len(),
    ensures
        s.at < s.next(chunks).at <= chunks.len(),
{
    let query = hashes_of(chunks).subrange(s.at as int, chunks.len() as int);
    let p = s.places[query[0]];
    lemma_run_matches(p.chunks, p.index, query);
}

proof fn lemma_run_on_track(s: Packing, chunks: Seq<ChunkRef>, xorbs: Xorbs)
    requires
        on_track(s, chunks, xorbs),
        serves(xorbs, s.places),
        s.run(chunks) is Ok,
        knows_cuts(xorbs, s.run(chunks)->Ok_0.cuts),
        s.novel.len() == 0 ==> forall|i: int|
            #![trigger s.terms[i]]
            0 <= i < s.terms.len() ==> !s.terms[i].xorb_hash.marks(),
    ensures
        all_lie_in(s.run(chunks)->Ok_0.terms, xorbs),
        expanded(s.run(chunks)->Ok_0.terms, xorbs) == hashes_of(chunks),
    decreases chunks.len() - s.at,
{
    let all = hashes_of(chunks);
    let end = s.run(chunks)->Ok_0;
    if s.at >= chunks.len() {
        assert(all.subrange(0, s.at as int) =~= all);
        if s.novel.len() == 0 {
            let with = xorbs.insert(marker(), hashes_of(s.novel));
            lemma_marker_unused(s.terms, xorbs, hashes_of(s.novel));
        } else {
            assert(end.cuts[end.cuts.len() - 1] == (s.cut_hash(), s.novel));
            lemma_cut_on_track(s, chunks, xorbs);
        }
    } else {
        let t = s.next(chunks);
        lemma_next_advances(s, chunks);
        lemma_cuts_stay(t, chunks);
        assert forall|i: int| #![trigger t.cuts[i]] 0 <= i < t.cuts.len() implies
            xorbs.contains_key(t.cuts[i].0) && xorbs[t.cuts[i].0] == hashes_of(t.cuts[i].1) by {
            assert(end.cuts.subrange(0, t.cuts.len() as int)[i] == end.cuts[i]);
        }
        lemma_next_on_track(s, chunks, xorbs);
        lemma_marked_only_while_filling(s, chunks, xorbs);
        lemma_run_on_track(t, chunks, xorbs);
    }
}

/// A run stands under the marker only while a xorb is being filled.
proof fn lemma_marked_only_while_filling(s: Packing, chunks: Seq<ChunkRef>, xorbs: Xorbs)
    requires
        s.at < chunks.len(),
        serves(xorbs, s.places),
        s.novel.len() == 0 ==> forall|i: int|
            #![trigger s.terms[i]]
            0 <= i < s.terms.len() ==> !s.terms[i].xorb_hash.marks(),
    ensures
        s.next(chunks).novel.len() == 0 ==> forall|i: int|
            #![trigger s.next(chunks).terms[i]]
            0 <= i < s.next(chunks).terms.len() ==> !s.next(chunks).terms[i].xorb_hash.marks(),
{
    let t = s.next(chunks);
    if t.novel.len() == 0 {
        let query = hashes_of(chunks).subrange(s.at as int, chunks.len() as int);
        assert(s.reused(chunks) is Some);
        let (n, term) = s.reused(chunks)->Some_0;
        assert(place_fits(query[0], s.places[query[0]]));
        assert forall|i: int| #![trigger t.terms[i]] 0 <= i < t.terms.len() implies
            !t.terms[i].xorb_hash.marks() by {
            if i < s.terms.len() {
                assert(!s.terms[i].xorb_hash.marks());
            }
        }
    }
}

proof fn lemma_marker_unused(terms: Seq<Term>, xorbs: Xorbs, any: Seq<MerkleHash>)
    requires
        all_lie_in(terms, xorbs.insert(marker(), any)),
        forall|i: int| #![trigger terms[i]] 0 <= i < terms.len() ==> !terms[i].xorb_hash.marks(),
    ensures
        all_lie_in(terms, xorbs),
        expanded(terms, xorbs) == expanded(terms, xorbs.insert(marker(), any)),
{
    let with = xorbs.insert(marker(), any);
    assert forall|i: int| #![trigger terms[i]] 0 <= i < terms.len() implies terms[i].lies_in(
        xorbs,
    ) by {
        assert(terms[i].lies_in(with));
    }
    lemma_without_marker(terms, xorbs, any);
}

/// The terms of a stored object name its chunks: all of them, in order, and no
/// other. That holds of every account of which xorb holds which chunks, as long as
/// it is right about the xorbs that the shard's lookup points at and about those
/// that were filled.
pub proof fn law_terms_name_the_chunks(
    places: Map<MerkleHash, Place>,
    known: Map<MerkleHash, Seq<ChunkEntry>>,
    chunks: Seq<ChunkRef>,
    xorbs: Xorbs,
)
    requires
        packed(places, known, chunks) is Ok,
        serves(xorbs, places),
        knows_cuts(xorbs, packed(places, known, chunks)->Ok_0.cuts),
    ensures
        all_lie_in(packed(places, known, chunks)->Ok_0.terms, xorbs),
        expanded(packed(places, known, chunks)->Ok_0.terms, xorbs) == hashes_of(chunks),
{
    let s = Packing::start(places, known);
    let none = Seq::<MerkleHash>::empty();
    assert(hashes_of(s.novel) =~= none);
    assert(hashes_of(chunks).subrange(0, 0) =~= none);
    assert(expanded(s.terms, xorbs.insert(marker(), none)) =~= none);
    lemma_run_on_track(s, chunks, xorbs);
}

/// Which bytes the chunks of each xorb have.
pub type Contents = Map<MerkleHash, Seq<Seq<u8>>>;

/// Chunks, one behind the other.
pub open spec fn joined_chunks(chunks: Seq<Seq<u8>>) -> Seq<u8>
    decreases chunks.len(),
{
    if chunks.len() == 0 {
        Seq::empty()
    } else {
        joined_chunks(chunks.drop_last()) + chunks.last()
    }
}

/// The hashes of the chunks of each xorb.
pub open spec fn names_of(contents: Contents) -> Xorbs {
    Map::new(
        |h: MerkleHash| contents.contains_key(h),
        |h: MerkleHash| Seq::new(contents[h].len(), |i: int| data_hash(contents[h][i])),
    )
}

/// The chunks that a run names.
pub open spec fn run_chunks(term: Term, contents: Contents) -> Seq<Seq<u8>> {
    contents[term.xorb_hash].subrange(term.chunk_index_start as int, term.chunk_index_end as int)
}

/// The chunks that a list of runs names, in order.
pub open spec fn all_chunks(terms: Seq<Term>, contents: Contents) -> Seq<Seq<u8>>
    decreases terms.len(),
{
    if terms.len() == 0 {
        Seq::empty()
    } else {
        all_chunks(terms.drop_last(), contents) + run_chunks(terms.last(), contents)
    }
}

/// What reading a list of runs brings: the bytes of each run, one behind the other.
pub open spec fn read_back(terms: Seq<Term>, contents: Contents) -> Seq<u8>
    decreases terms.len(),
{
    if terms.len() == 0 {
        Seq::empty()
    } else {
        read_back(terms.drop_last(), contents) + joined_chunks(run_chunks(terms.last(), contents))
    }
}

/// No stored chunk has the hash of a chunk of the object and other bytes.
pub open spec fn no_collision(contents: Contents, data: Seq<u8>, chunks: Seq<ChunkRef>) -> bool {
    forall|h: MerkleHash, i: int, j: int|
        #![trigger contents[h][i], chunks[j]]
        contents.contains_key(h) && 0 <= i < contents[h].len() && 0 <= j < chunks.len()
            && data_hash(contents[h][i]) == chunks[j].hash ==> contents[h][i] == chunks[j].bytes(
            data,
        )
}

pub proof fn lemma_joined_append(a: Seq<Seq<u8>>, b: Seq<Seq<u8>>)
    ensures
        joined_chunks(a + b) == joined_chunks(a) + joined_chunks(b),
    decreases b.len(),
{
    if b.len() == 0 {
        assert(a + b =~= a);
        assert(joined_chunks(a) + joined_chunks(b) =~= joined_chunks(a));
    } else {
        lemma_joined_append(a, b.drop_last());
        assert((a + b).drop_last() =~= a + b.drop_last());
        assert(joined_chunks(a + b) =~= joined_chunks(a) + joined_chunks(b));
    }
}

/// Every chunk that the runs name is a chunk of some xorb, and has the hash that
/// the runs name.
proof fn lemma_all_chunks(terms: Seq<Term>, contents: Contents)
    requires
        all_lie_in(terms, names_of(contents)),
    ensures
        all_chunks(terms, contents).len() == expanded(terms, names_of(contents)).len(),
        forall|i: int|
            #![trigger all_chunks(terms, contents)[i]]
            0 <= i < all_chunks(terms, contents).len() ==> {
                &&& data_hash(all_chunks(terms, contents)[i]) == expanded(terms, names_of(contents))[i]
                &&& exists|h: MerkleHash, k: int|
                    contents.contains_key(h) && 0 <= k < contents[h].len()
                        && #[trigger] contents[h][k] == all_chunks(terms, contents)[i]
            },
        read_back(terms, contents) == joined_chunks(all_chunks(terms, contents)),
    decreases terms.len(),
{
    let names = names_of(contents);
    if terms.len() > 0 {
        let front = terms.drop_last();
        assert forall|i: int| #![trigger front[i]] 0 <= i < front.len() implies front[i].lies_in(
            names,
        ) by {
            assert(front[i] == terms[i]);
        }
        lemma_all_chunks(front, contents);
        let t = terms[terms.len() - 1];
        assert(t.lies_in(names));
        let head = all_chunks(front, contents);
        let tail = run_chunks(t, contents);
        lemma_joined_append(head, tail);
        let all = all_chunks(terms, contents);
        assert(all == head + tail);
        assert forall|i: int| #![trigger all[i]] 0 <= i < all.len() implies {
            &&& data_hash(all[i]) == expanded(terms, names)[i]
            &&& exists|h: MerkleHash, k: int|
                contents.contains_key(h) && 0 <= k < contents[h].len()
                    && #[trigger] contents[h][k] == all[i]
        } by {
            if i < head.len() {
                assert(all[i] == head[i]);
            } else {
                let k = t.chunk_index_start + (i - head.len());
                assert(contents[t.xorb_hash][k] == all[i]);
                assert(t.chunks(names)[i - head.len()] == names[t.xorb_hash][k]);
            }
        }
    }
}

/// The chunks of an object, joined, are the object.
proof fn lemma_chunks_join(data: Seq<u8>, chunks: Seq<ChunkRef>, n: nat)
    requires
        chunks_of(data, chunks),
        n <= chunks.len(),
    ensures
        joined_chunks(Seq::new(n, |i: int| chunks[i].bytes(data))) == data.subrange(
            0,
            position(data, chunks, n) as int,
        ),
        position(data, chunks, n) <= data.len(),
    decreases n,
{
    let parts = Seq::new(n, |i: int| chunks[i].bytes(data));
    if n > 0 {
        let m = (n - 1) as nat;
        lemma_chunks_join(data, chunks, m);
        assert(parts.drop_last() =~= Seq::new(m, |i: int| chunks[i].bytes(data)));
        let c = chunks[m as int];
        if n < chunks.len() {
            assert(chunks[n as int].start == c.start + c.len);
        }
        assert(joined_chunks(parts) =~= data.subrange(0, position(data, chunks, n) as int));
    } else {
        if chunks.len() > 0 {
            assert(chunks[0].start == 0);
        }
        assert(joined_chunks(parts) =~= data.subrange(0, 0));
    }
}

/// Reading the terms of a stored object brings back exactly the bytes that were
/// stored. What each xorb holds may be told in any way that is right about the
/// xorbs that the lookup points at and about those that were filled, as long as no
/// two chunks with the same hash differ.
pub proof fn law_read_returns_what_was_stored(
    places: Map<MerkleHash, Place>,
    known: Map<MerkleHash, Seq<ChunkEntry>>,
    data: Seq<u8>,
    chunks: Seq<ChunkRef>,
    contents: Contents,
)
    requires
        chunks_of(data, chunks),
        packed(places, known, chunks) is Ok,
        serves(names_of(contents), places),
        knows_cuts(names_of(contents), packed(places, known, chunks)->Ok_0.cuts),
        no_collision(contents, data, chunks),
    ensures
        read_back(packed(places, known, chunks)->Ok_0.terms, contents) == data,
{
    let names = names_of(contents);
    let terms = packed(places, known, chunks)->Ok_0.terms;
    law_terms_name_the_chunks(places, known, chunks, names);
    lemma_all_chunks(terms, contents);
    let all = all_chunks(terms, contents);
    let want = Seq::new(chunks.len(), |i: int| chunks[i].bytes(data));
    assert forall|i: int| 0 <= i < all.len() implies #[trigger] all[i] == want[i] by {
        let (h, k) = choose|h: MerkleHash, k: int|
            contents.contains_key(h) && 0 <= k < contents[h].len() && #[trigger] contents[h][k]
                == all[i];
        assert(data_hash(contents[h][k]) == hashes_of(chunks)[i]);
        assert(chunks[i].hash == hashes_of(chunks)[i]);
    }
    assert(all =~= want);
    lemma_chunks_join(data, chunks, chunks.len());
    assert(data.subrange(0, data.len() as int) =~= data);
}

/// The bytes of each chunk of a xorb that was filled.
pub open spec fn cut_contents(data: Seq<u8>, chunks: Seq<ChunkRef>) -> Seq<Seq<u8>> {
    Seq::new(chunks.len(), |i: int| chunks[i].bytes(data))
}

/// A run of a xorb that was filled is read back as the chunks that were put into
/// it, by every reader that takes chunks of the largest size.
pub proof fn law_run_reads_its_chunks(
    xorb: CutXorb,
    data: Seq<u8>,
    from: nat,
    to: nat,
    limit: nat,
)
    requires
        xorb.wf(data),
        from < to <= xorb.chunks@.len(),
        limit >= MAX_CHUNK_SIZE,
    ensures
        ({
            let ends = footer_ends(xorb.packed.footer);
            unpacked(
                xorb.packed.bytes@.subrange(start_of(ends, from as int), ends[to - 1] as int),
                limit,
            ) == Some(
                joined_chunks(cut_contents(data, xorb.chunks@).subrange(from as int, to as int)),
            )
        }),
{
    lemma_run_data(data, xorb.chunks@, from as int, to as int);
}

proof fn lemma_run_data(data: Seq<u8>, chunks: Seq<ChunkRef>, from: int, to: int)
    requires
        0 <= from <= to <= chunks.len(),
    ensures
        run_data(data, chunks, from, to) == joined_chunks(
            cut_contents(data, chunks).subrange(from, to),
        ),
    decreases to - from,
{
    let parts = cut_contents(data, chunks).subrange(from, to);
    if from < to {
        lemma_run_data(data, chunks, from, to - 1);
        assert(parts.drop_last() =~= cut_contents(data, chunks).subrange(from, to - 1));
    }
}

/// Chunks in all of these xorbs, and their bytes.
pub open spec fn cut_chunks(cuts: Seq<(MerkleHash, Seq<ChunkRef>)>) -> nat
    decreases cuts.len(),
{
    if cuts.len() == 0 {
        0
    } else {
        cut_chunks(cuts.drop_last()) + cuts.last().1.len()
    }
}

pub open spec fn cut_bytes(cuts: Seq<(MerkleHash, Seq<ChunkRef>)>) -> nat
    decreases cuts.len(),
{
    if cuts.len() == 0 {
        0
    } else {
        cut_bytes(cuts.drop_last()) + run_size(cuts.last().1, cuts.last().1.len())
    }
}

pub open spec fn counts_right(s: Packing) -> bool {
    &&& s.novel_chunks == cut_chunks(s.cuts) + s.novel.len()
    &&& s.novel_bytes == cut_bytes(s.cuts) + run_size(s.novel, s.novel.len())
}

proof fn lemma_cut_counts(s: Packing)
    requires
        counts_right(s),
    ensures
        counts_right(s.cut()),
{
    assert(s.cut().cuts.drop_last() =~= s.cuts);
}

proof fn lemma_filled_counts(s: Packing, c: ChunkRef)
    requires
        counts_right(s),
    ensures
        counts_right(s.filled(c)),
{
    lemma_run_size_same(s.novel, s.novel.push(c), s.novel.len());
}

proof fn lemma_run_counts(s: Packing, chunks: Seq<ChunkRef>)
    requires
        counts_right(s),
        s.run(chunks) is Ok,
    ensures
        counts_right(s.run(chunks)->Ok_0),
        s.run(chunks)->Ok_0.novel.len() == 0,
    decreases chunks.len() - s.at,
{
    if s.at >= chunks.len() {
        lemma_cut_counts(s);
    } else {
        lemma_next_advances(s, chunks);
        if s.reused(chunks) is None {
            let c = chunks[s.at as int];
            let asked = Packing { spread: s.asked(chunks), ..s };
            lemma_cut_counts(asked);
            lemma_filled_counts(asked, c);
            lemma_filled_counts(asked.cut(), c);
        }
        lemma_run_counts(s.next(chunks), chunks);
    }
}

/// What is counted as novel is what the new xorbs hold.
pub proof fn law_novel_is_what_the_xorbs_hold(
    places: Map<MerkleHash, Place>,
    known: Map<MerkleHash, Seq<ChunkEntry>>,
    chunks: Seq<ChunkRef>,
)
    requires
        packed(places, known, chunks) is Ok,
    ensures
        ({
            let p = packed(places, known, chunks)->Ok_0;
            p.novel_chunks == cut_chunks(p.cuts) && p.novel_bytes == cut_bytes(p.cuts)
        }),
{
    lemma_run_counts(Packing::start(places, known), chunks);
}

proof fn lemma_run_forgets_nothing(s: Packing, chunks: Seq<ChunkRef>)
    requires
        s.run(chunks) is Ok,
    ensures
        s.places.dom().subset_of(s.run(chunks)->Ok_0.places.dom()),
        s.xorbs.dom().subset_of(s.run(chunks)->Ok_0.xorbs.dom()),
    decreases chunks.len() - s.at,
{
    if s.at < chunks.len() {
        lemma_next_advances(s, chunks);
        lemma_run_forgets_nothing(s.next(chunks), chunks);
    }
}

/// Storing an object forgets no chunk and no xorb that the shard knew.
pub proof fn law_storing_forgets_nothing(
    places: Map<MerkleHash, Place>,
    known: Map<MerkleHash, Seq<ChunkEntry>>,
    chunks: Seq<ChunkRef>,
)
    requires
        packed(places, known, chunks) is Ok,
    ensures
        places.dom().subset_of(packed(places, known, chunks)->Ok_0.places.dom()),
        known.dom().subset_of(packed(places, known, chunks)->Ok_0.xorbs.dom()),
{
    lemma_run_forgets_nothing(Packing::start(places, known), chunks);
}

/// The shard knows every chunk of an object.
pub open spec fn all_known(places: Map<MerkleHash, Place>, chunks: Seq<ChunkRef>) -> bool {
    forall|i: int|
        #![trigger chunks[i]]
        0 <= i < chunks.len() ==> places.contains_key(chunks[i].hash) && place_fits(
            chunks[i].hash,
            places[chunks[i].hash],
        )
}

/// The rule against scattering turns down no run that is found from here on.
pub open spec fn nothing_refused(s: Packing, chunks: Seq<ChunkRef>) -> bool
    decreases chunks.len() - s.at,
{
    if s.at >= chunks.len() {
        true
    } else {
        proof {
            lemma_next_advances(s, chunks);
        }
        &&& s.found(chunks) matches Some((n, term)) ==> continues_last(s.terms, term)
            || s.spread.admits(n)
        &&& nothing_refused(s.next(chunks), chunks)
    }
}

/// The first chunk that is left of an object whose chunks are all known is found.
proof fn lemma_known_is_found(s: Packing, chunks: Seq<ChunkRef>)
    requires
        s.at < chunks.len(),
        all_known(s.places, chunks),
    ensures
        s.found(chunks) matches Some((n, _)) && 1 <= n <= chunks.len() - s.at,
{
    let query = hashes_of(chunks).subrange(s.at as int, chunks.len() as int);
    assert(query[0] == chunks[s.at as int].hash);
    lemma_run_fits(s.places, query);
}

proof fn lemma_known_adds_nothing(s: Packing, chunks: Seq<ChunkRef>)
    requires
        all_known(s.places, chunks),
        nothing_refused(s, chunks),
        s.novel.len() == 0,
        s.run(chunks) is Ok,
    ensures
        s.run(chunks)->Ok_0.novel_bytes == s.novel_bytes,
        s.run(chunks)->Ok_0.novel_chunks == s.novel_chunks,
        s.run(chunks)->Ok_0.cuts == s.cuts,
    decreases chunks.len() - s.at,
{
    if s.at < chunks.len() {
        lemma_known_is_found(s, chunks);
        lemma_next_advances(s, chunks);
        lemma_known_adds_nothing(s.next(chunks), chunks);
    }
}

/// An object whose chunks are all known adds no bytes and no xorb, as long as the
/// rule against scattering does not have some of them stored again.
pub proof fn law_known_chunks_add_no_bytes(
    places: Map<MerkleHash, Place>,
    known: Map<MerkleHash, Seq<ChunkEntry>>,
    chunks: Seq<ChunkRef>,
)
    requires
        packed(places, known, chunks) is Ok,
        all_known(places, chunks),
        nothing_refused(Packing::start(places, known), chunks),
    ensures
        packed(places, known, chunks)->Ok_0.novel_bytes == 0,
        packed(places, known, chunks)->Ok_0.novel_chunks == 0,
        packed(places, known, chunks)->Ok_0.cuts.len() == 0,
{
    lemma_known_adds_nothing(Packing::start(places, known), chunks);
}

proof fn lemma_short_is_admitted(s: Packing, chunks: Seq<ChunkRef>)
    requires
        chunks.len() <= WINDOW,
        s.spread.window.len() <= s.at,
        s.terms.len() > 0 ==> s.spread.window.len() > 0,
    ensures
        nothing_refused(s, chunks),
    decreases chunks.len() - s.at,
{
    if s.at < chunks.len() {
        lemma_next_advances(s, chunks);
        lemma_short_is_admitted(s.next(chunks), chunks);
    }
}

/// The rule turns nothing down in an object of no more chunks than its window has
/// terms: identical content of that size is stored once.
pub proof fn law_short_object_is_never_scattered(
    places: Map<MerkleHash, Place>,
    known: Map<MerkleHash, Seq<ChunkEntry>>,
    chunks: Seq<ChunkRef>,
)
    requires
        chunks.len() <= WINDOW,
    ensures
        nothing_refused(Packing::start(places, known), chunks),
{
    lemma_short_is_admitted(Packing::start(places, known), chunks);
}

/// The chunks so far are known, or are on their way into the xorb being filled.
spec fn kept_so_far(s: Packing, chunks: Seq<ChunkRef>) -> bool {
    &&& s.at <= chunks.len()
    &&& s.novel.len() <= MAX_XORB_CHUNKS
    &&& run_size(s.novel, s.novel.len()) <= MAX_XORB_BYTES
    &&& complete(s.places, s.xorbs)
    &&& forall|h: MerkleHash|
        #![trigger s.places[h]]
        s.places.contains_key(h) ==> place_fits(h, s.places[h])
    &&& forall|i: int|
        #![trigger chunks[i]]
        0 <= i < s.at ==> s.places.contains_key(chunks[i].hash) || waits(s.novel, chunks[i].hash)
}

spec fn waits(novel: Seq<ChunkRef>, hash: MerkleHash) -> bool {
    exists|j: int| 0 <= j < novel.len() && #[trigger] novel[j].hash == hash
}

proof fn lemma_closed_keeps(s: Packing, chunks: Seq<ChunkRef>)
    requires
        kept_so_far(s, chunks),
        !s.cut_hash().marks(),
    ensures
        kept_so_far(s.cut(), chunks),
        forall|i: int|
            #![trigger chunks[i]]
            0 <= i < s.at ==> s.cut().places.contains_key(chunks[i].hash),
{
    let t = s.cut();
    let entries = entries_of(s.novel);
    lemma_entries_fit(s.novel);
    lemma_stays_complete(s.places, s.xorbs, s.cut_hash(), entries);
    assert forall|h: MerkleHash| #![trigger t.places[h]] t.places.contains_key(h) implies
        place_fits(h, t.places[h]) by {
        lemma_last_at(entries, h);
        if last_at(entries, h) is None {
            assert(place_fits(h, s.places[h]));
        }
    }
    assert forall|i: int| #![trigger chunks[i]] 0 <= i < s.at implies t.places.contains_key(
        chunks[i].hash,
    ) by {
        let h = chunks[i].hash;
        lemma_last_at(entries, h);
        if !s.places.contains_key(h) {
            let j = choose|j: int| 0 <= j < s.novel.len() && #[trigger] s.novel[j].hash == h;
            assert(entries[j].hash == h);
        }
    }
    assert(run_size(t.novel, 0) == 0);
}

proof fn lemma_filled_keeps(s: Packing, chunks: Seq<ChunkRef>)
    requires
        kept_so_far(s, chunks),
        s.at < chunks.len(),
        s.has_room(chunks[s.at as int].len as nat),
    ensures
        kept_so_far(s.filled(chunks[s.at as int]), chunks),
{
    let c = chunks[s.at as int];
    let t = s.filled(c);
    lemma_run_size_same(s.novel, t.novel, s.novel.len());
    assert forall|i: int| #![trigger chunks[i]] 0 <= i < t.at implies t.places.contains_key(
        chunks[i].hash,
    ) || waits(t.novel, chunks[i].hash) by {
        if i == s.at {
            assert(t.novel[s.novel.len() as int].hash == c.hash);
        } else if !s.places.contains_key(chunks[i].hash) {
            let h = chunks[i].hash;
            let j = choose|j: int| 0 <= j < s.novel.len() && #[trigger] s.novel[j].hash == h;
            assert(t.novel[j].hash == h);
        }
    }
}

proof fn lemma_run_keeps(s: Packing, chunks: Seq<ChunkRef>)
    requires
        kept_so_far(s, chunks),
        s.run(chunks) is Ok,
    ensures
        all_known(s.run(chunks)->Ok_0.places, chunks),
        complete(s.run(chunks)->Ok_0.places, s.run(chunks)->Ok_0.xorbs),
    decreases chunks.len() - s.at,
{
    let end = s.run(chunks)->Ok_0;
    if s.at >= chunks.len() {
        if s.novel.len() > 0 {
            lemma_closed_keeps(s, chunks);
        }
        assert forall|i: int| #![trigger chunks[i]] 0 <= i < chunks.len() implies
            end.places.contains_key(chunks[i].hash) && place_fits(
            chunks[i].hash,
            end.places[chunks[i].hash],
        ) by {
            assert(end.places.contains_key(chunks[i].hash));
            assert(place_fits(chunks[i].hash, end.places[chunks[i].hash]));
        }
    } else {
        lemma_next_advances(s, chunks);
        lemma_next_keeps(s, chunks);
        lemma_run_keeps(s.next(chunks), chunks);
    }
}

proof fn lemma_next_keeps(s: Packing, chunks: Seq<ChunkRef>)
    requires
        kept_so_far(s, chunks),
        s.at < chunks.len(),
        s.fault(chunks) is None,
    ensures
        kept_so_far(s.next(chunks), chunks),
{
    let t = s.next(chunks);
    lemma_next_advances(s, chunks);
    let c = chunks[s.at as int];
    match s.reused(chunks) {
        Some((n, term)) => {
            let query = hashes_of(chunks).subrange(s.at as int, chunks.len() as int);
            let p = s.places[query[0]];
            assert(place_fits(query[0], p));
            lemma_run_fits(s.places, query);
            lemma_run_matches(p.chunks, p.index, query);
            assert forall|i: int| #![trigger chunks[i]] 0 <= i < t.at implies
                t.places.contains_key(chunks[i].hash) || waits(t.novel, chunks[i].hash) by {
                if i >= s.at {
                    let j = i - s.at;
                    assert(p.chunks[p.index + j].hash == query[j]);
                    assert(s.places[query[0]].chunks[p.index + j].hash == chunks[i].hash);
                }
            }
        },
        None => {
            let asked = Packing { spread: s.asked(chunks), ..s };
            assert(kept_so_far(asked, chunks));
            if asked.has_room(c.len as nat) {
                lemma_filled_keeps(asked, chunks);
            } else {
                lemma_closed_keeps(asked, chunks);
                assert(run_size(asked.cut().novel, 0) == 0);
                lemma_filled_keeps(asked.cut(), chunks);
            }
        },
    }
}

/// Once an object is stored, the shard knows all of its chunks.
pub proof fn law_stored_chunks_are_known(
    places: Map<MerkleHash, Place>,
    known: Map<MerkleHash, Seq<ChunkEntry>>,
    files: Map<MerkleHash, Seq<Term>>,
    chunks: Seq<ChunkRef>,
)
    requires
        sound(places, known, files),
        packed(places, known, chunks) is Ok,
    ensures
        all_known(packed(places, known, chunks)->Ok_0.places, chunks),
{
    lemma_run_keeps(Packing::start(places, known), chunks);
}

/// Identical content adds no bytes: an object that is stored a second time adds no
/// chunk and no xorb, as long as the rule against scattering does not have some of its
/// chunks stored again. It does not for an object of no more chunks than the rule's
/// window has terms.
pub proof fn law_identical_content_adds_no_bytes(
    places: Map<MerkleHash, Place>,
    known: Map<MerkleHash, Seq<ChunkEntry>>,
    files: Map<MerkleHash, Seq<Term>>,
    chunks: Seq<ChunkRef>,
)
    requires
        sound(places, known, files),
        packed(places, known, chunks) is Ok,
        ({
            let p = packed(places, known, chunks)->Ok_0;
            &&& packed(p.places, p.xorbs, chunks) is Ok
            &&& chunks.len() <= WINDOW || nothing_refused(
                Packing::start(p.places, p.xorbs),
                chunks,
            )
        }),
    ensures
        ({
            let p = packed(places, known, chunks)->Ok_0;
            let again = packed(p.places, p.xorbs, chunks)->Ok_0;
            again.novel_bytes == 0 && again.novel_chunks == 0 && again.cuts.len() == 0
        }),
{
    let p = packed(places, known, chunks)->Ok_0;
    law_stored_chunks_are_known(places, known, files, chunks);
    if chunks.len() <= WINDOW {
        law_short_object_is_never_scattered(p.places, p.xorbs, chunks);
    }
    law_known_chunks_add_no_bytes(p.places, p.xorbs, chunks);
}

proof fn lemma_novel_stays(s: Packing, chunks: Seq<ChunkRef>)
    requires
        s.run(chunks) is Ok,
    ensures
        s.novel_bytes <= s.run(chunks)->Ok_0.novel_bytes,
        s.novel_chunks <= s.run(chunks)->Ok_0.novel_chunks,
    decreases chunks.len() - s.at,
{
    if s.at < chunks.len() {
        lemma_next_advances(s, chunks);
        lemma_novel_stays(s.next(chunks), chunks);
    }
}

/// The first object of a repository is novel: whatever is not empty adds bytes to an
/// empty one.
pub proof fn law_first_object_is_novel(data: Seq<u8>, chunks: Seq<ChunkRef>)
    requires
        chunks_of(data, chunks),
        data.len() > 0,
        packed(Map::empty(), Map::empty(), chunks) is Ok,
    ensures
        packed(Map::empty(), Map::empty(), chunks)->Ok_0.novel_bytes > 0,
        packed(Map::empty(), Map::empty(), chunks)->Ok_0.novel_chunks > 0,
{
    let s = Packing::start(Map::empty(), Map::empty());
    let t = s.next(chunks);
    assert(s.found(chunks) is None);
    assert(chunks[0].len > 0);
    assert(t.novel_bytes > 0 && t.novel_chunks > 0);
    lemma_novel_stays(t, chunks);
}

/// The chunks that a run has.
pub open spec fn run_count(term: Term) -> int {
    term.chunk_index_end - term.chunk_index_start
}

/// The rule against scattering knows how many chunks each of the last 128 terms has, and how
/// many all of them have together.
pub open spec fn counts_terms(s: Packing) -> bool {
    let window = s.spread.window;
    let m = s.terms.len();
    &&& window.len() == if m < 128 {
        m as int
    } else {
        128
    }
    &&& forall|k: int|
        0 <= k < window.len() ==> #[trigger] window[k] == run_count(s.terms[m - window.len() + k])
    &&& s.spread.chunks == sum(window)
}

/// A run that is appended is counted, alone or with the one that it continues.
proof fn lemma_pushed_counts(s: Packing, t: Packing, spread: Spread, term: Term, n: nat)
    requires
        counts_terms(s),
        spread.window == s.spread.window,
        spread.chunks == s.spread.chunks,
        run_count(term) == n,
        t.terms == pushed(s.terms, term),
        t.spread == spread.recorded(n, continues_last(s.terms, term)),
    ensures
        counts_terms(t),
{
    let w = s.spread.window;
    law_window_is_the_last_terms(spread, n);
    let window = t.spread.window;
    let m = t.terms.len();
    if continues_last(s.terms, term) {
        assert(window.drop_last() =~= w.drop_last());
        assert forall|k: int| 0 <= k < window.len() implies #[trigger] window[k] == run_count(
            t.terms[m - window.len() + k],
        ) by {
            assert(w[k] == run_count(s.terms[m - window.len() + k]));
        }
    } else {
        assert forall|k: int| 0 <= k < window.len() implies #[trigger] window[k] == run_count(
            t.terms[m - window.len() + k],
        ) by {
            if k < window.len() - 1 {
                let j = k + w.len() + 1 - window.len();
                assert(window[k] == w[j]);
                assert(w[j] == run_count(s.terms[s.terms.len() - w.len() + j]));
            }
        }
    }
}

proof fn lemma_filled_counts_terms(s: Packing, c: ChunkRef)
    requires
        counts_terms(s),
        s.novel.len() < MAX_XORB_CHUNKS,
    ensures
        counts_terms(s.filled(c)),
{
    let term = novel_term(marker(), c.len as nat, s.novel.len());
    lemma_pushed_counts(s, s.filled(c), s.spread, term, 1);
}

proof fn lemma_cut_counts_terms(s: Packing)
    requires
        counts_terms(s),
    ensures
        counts_terms(s.cut()),
{
    let t = s.cut();
    let w = s.spread.window;
    let m = s.terms.len();
    assert forall|k: int| 0 <= k < w.len() implies #[trigger] t.spread.window[k] == run_count(
        t.terms[m - w.len() + k],
    ) by {
        assert(w[k] == run_count(s.terms[m - w.len() + k]));
    }
}

proof fn lemma_run_counts_terms(s: Packing, chunks: Seq<ChunkRef>)
    requires
        kept_so_far(s, chunks),
        counts_terms(s),
        s.run(chunks) is Ok,
    ensures
        counts_terms(s.run(chunks)->Ok_0),
    decreases chunks.len() - s.at,
{
    if s.at >= chunks.len() {
        lemma_cut_counts_terms(s);
    } else {
        let t = s.next(chunks);
        lemma_next_advances(s, chunks);
        lemma_next_keeps(s, chunks);
        match s.reused(chunks) {
            Some((n, term)) => {
                let query = hashes_of(chunks).subrange(s.at as int, chunks.len() as int);
                assert(place_fits(query[0], s.places[query[0]]));
                lemma_run_fits(s.places, query);
                lemma_pushed_counts(s, t, s.asked(chunks), term, n);
            },
            None => {
                let c = chunks[s.at as int];
                let asked = Packing { spread: s.asked(chunks), ..s };
                assert(counts_terms(asked));
                if asked.has_room(c.len as nat) {
                    lemma_filled_counts_terms(asked, c);
                } else {
                    lemma_cut_counts_terms(asked);
                    lemma_filled_counts_terms(asked.cut(), c);
                }
            },
        }
        lemma_run_counts_terms(t, chunks);
    }
}

/// Whatever is stored and referenced on the way, the rule against scattering looks at the last
/// 128 terms of the file as they are, and knows how many chunks each of them has.
pub proof fn law_rule_counts_the_last_terms(
    places: Map<MerkleHash, Place>,
    known: Map<MerkleHash, Seq<ChunkEntry>>,
    files: Map<MerkleHash, Seq<Term>>,
    chunks: Seq<ChunkRef>,
)
    requires
        sound(places, known, files),
        packed(places, known, chunks) is Ok,
    ensures
        counts_terms(packed(places, known, chunks)->Ok_0),
{
    let s = Packing::start(places, known);
    assert(run_size(s.novel, 0) == 0);
    lemma_run_counts_terms(s, chunks);
}

} // verus!
