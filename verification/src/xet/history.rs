//! A repository over time: whatever is stored in it, and whichever store fails on the way,
//! an object that was stored is loaded as it was.
use vstd::prelude::*;

use crate::xet::chunk::{chunks_of, data_hash, file_hash_of, sizes_of, ChunkRef, MAX_CHUNK_SIZE};
use crate::xet::hash::MerkleHash;
use crate::xet::laws::{
    cut_contents, entry_hashes, lemma_next_advances, names_of, no_collision, serves, Contents,
};
use crate::xet::loading::{
    created, holds, holds_cuts, law_filled_xorb_serves_its_chunks,
    law_load_returns_what_was_stored, law_shard_is_right_when_read_again,
    law_storing_changes_no_other_object, law_storing_keeps_the_shard_right, loaded,
    points_at_records, readable, records_right, sizes_agree, sizes_right, stores_chunks, Blobs,
};
use crate::xet::pack::{packed, CutXorb, Packing, Stored};
use crate::xet::shard::{agree, place_fits, sound, ChunkEntry, Place};
use crate::xet::terms::Term;
use crate::xet::xorb::MAX_XORB_BYTES;

verus! {

/// What a repository consists of: what the store holds of each xorb, what its shard
/// records, and the lookup of whoever has read the shard last.
pub struct Repository {
    pub places: Map<MerkleHash, Place>,
    pub xorbs: Map<MerkleHash, Seq<ChunkEntry>>,
    pub files: Map<MerkleHash, Seq<Term>>,
    pub blobs: Blobs,
}

/// What happens to a repository.
pub enum Event {
    /// An object is stored.
    Stored { data: Seq<u8>, chunks: Seq<ChunkRef>, out: Stored },
    /// Storing an object fails once so many of its xorbs are written: a write failed, or
    /// another shard was written in the meantime.
    Failed { data: Seq<u8>, xorbs: Seq<CutXorb>, written: nat },
    /// The shard is read, or looked at again by one who has read it before.
    Read { places: Map<MerkleHash, Place> },
}

/// Which bytes the object with an id has.
pub type Objects = Map<MerkleHash, Seq<u8>>;

/// A lookup that is right about xorbs that the shard records.
pub open spec fn knows(
    places: Map<MerkleHash, Place>,
    xorbs: Map<MerkleHash, Seq<ChunkEntry>>,
    contents: Contents,
) -> bool {
    &&& serves(names_of(contents), places)
    &&& sizes_right(contents, places)
    &&& points_at_records(places, xorbs)
}

/// `contents` tells what was put into these xorbs. A hash of all zeros is left out: a
/// footer with it cannot be used.
pub open spec fn tells(contents: Contents, data: Seq<u8>, xorbs: Seq<CutXorb>) -> bool {
    forall|i: int|
        #![trigger xorbs[i]]
        0 <= i < xorbs.len() ==> {
            &&& contents.contains_key(xorbs[i].packed.hash)
            &&& contents[xorbs[i].packed.hash] == cut_contents(data, xorbs[i].chunks@)
            &&& xorbs[i].packed.hash != (MerkleHash { w0: 0, w1: 0, w2: 0, w3: 0 })
        }
}

/// The xorbs hold chunks of `data`.
pub open spec fn filled_from(data: Seq<u8>, xorbs: Seq<CutXorb>) -> bool {
    forall|i: int|
        #![trigger xorbs[i]]
        0 <= i < xorbs.len() ==> xorbs[i].wf(data) && xorbs[i].chunks@.len() > 0
}

impl Repository {
    /// A repository that nothing was stored in.
    pub open spec fn empty() -> Repository {
        Repository {
            places: Map::empty(),
            xorbs: Map::empty(),
            files: Map::empty(),
            blobs: Map::empty(),
        }
    }

    /// The event can happen here. `contents` and `objects` tell which bytes each hash stands
    /// for: that there is one answer for all events is that no two xorbs, no two chunks and
    /// no two objects of the history share a hash.
    pub open spec fn allows(self, e: Event, contents: Contents, objects: Objects) -> bool {
        match e {
            Event::Stored { data, chunks, out } => {
                &&& chunks_of(data, chunks)
                &&& packed(self.places, self.xorbs, chunks) matches Ok(p) && out.matches_packing(
                    p,
                    data,
                    chunks,
                    self.files,
                )
                &&& tells(contents, data, out.xorbs@)
                &&& no_collision(contents, data, chunks)
                &&& objects.contains_key(file_hash_of(sizes_of(chunks)))
                &&& objects[file_hash_of(sizes_of(chunks))] == data
            },
            Event::Failed { data, xorbs, written } => {
                &&& written <= xorbs.len()
                &&& filled_from(data, xorbs)
                &&& tells(contents, data, xorbs)
            },
            Event::Read { places } => {
                ||| knows(places, self.xorbs, contents)
                ||| sound(places, self.xorbs, self.files) && agree(places, self.xorbs)
            },
        }
    }

    /// The repository after the event. The shard is written last, so a store that fails
    /// leaves what it records as it was.
    pub open spec fn after(self, e: Event) -> Repository {
        match e {
            Event::Stored { data, chunks, out } => Repository {
                places: out.shard.places(),
                xorbs: out.shard.xorbs(),
                files: out.shard.files(),
                blobs: created(self.blobs, out.xorbs@, out.xorbs@.len()),
            },
            Event::Failed { data, xorbs, written } => Repository {
                blobs: created(self.blobs, xorbs, written),
                ..self
            },
            Event::Read { places } => Repository { places, ..self },
        }
    }

    /// The repository after the first `n` events.
    pub open spec fn after_all(events: Seq<Event>, n: nat) -> Repository
        decreases n,
    {
        if n == 0 {
            Repository::empty()
        } else {
            Repository::after_all(events, (n - 1) as nat).after(events[n - 1])
        }
    }

    /// An object is on record, all of its runs can be read, and they are the object.
    pub open spec fn loads(self, file: MerkleHash, data: Seq<u8>) -> bool {
        &&& self.files.contains_key(file)
        &&& runs_readable(self.files[file], self.blobs)
        &&& loaded(self.files[file], self.blobs) == data
    }

    /// What every event keeps.
    spec fn right(self, contents: Contents, objects: Objects) -> bool {
        &&& knows(self.places, self.xorbs, contents)
        &&& records_right(contents, self.xorbs)
        &&& blobs_right(self.blobs, contents)
        &&& forall|x: MerkleHash| #[trigger]
            self.xorbs.contains_key(x) ==> self.blobs.contains_key(x)
        &&& forall|f: MerkleHash| #[trigger]
            self.files.contains_key(f) ==> objects.contains_key(f) && self.loads(f, objects[f])
    }
}

/// Every run can be read.
pub open spec fn runs_readable(terms: Seq<Term>, blobs: Blobs) -> bool {
    forall|i: int| #![trigger terms[i]] 0 <= i < terms.len() ==> readable(terms[i], blobs)
}

/// Every xorb that is stored serves the chunks that were put into it.
spec fn blobs_right(blobs: Blobs, contents: Contents) -> bool {
    forall|h: MerkleHash| #[trigger] blobs.contains_key(h) ==> blob_right(blobs, contents, h)
}

spec fn blob_right(blobs: Blobs, contents: Contents, h: MerkleHash) -> bool {
    contents.contains_key(h) && stores_chunks(blobs[h], contents[h])
}

proof fn lemma_created_right(
    blobs: Blobs,
    xorbs: Seq<CutXorb>,
    n: nat,
    data: Seq<u8>,
    contents: Contents,
)
    requires
        blobs_right(blobs, contents),
        n <= xorbs.len(),
        filled_from(data, xorbs),
        tells(contents, data, xorbs),
    ensures
        blobs_right(created(blobs, xorbs, n), contents),
        forall|h: MerkleHash| #[trigger]
            blobs.contains_key(h) ==> created(blobs, xorbs, n).contains_key(h),
        forall|i: int|
            #![trigger xorbs[i]]
            0 <= i < n ==> created(blobs, xorbs, n).contains_key(xorbs[i].packed.hash),
    decreases n,
{
    if n > 0 {
        lemma_created_right(blobs, xorbs, (n - 1) as nat, data, contents);
        let before = created(blobs, xorbs, (n - 1) as nat);
        let after = created(blobs, xorbs, n);
        let x = xorbs[n - 1];
        law_filled_xorb_serves_its_chunks(x, data);
        assert forall|h: MerkleHash| #[trigger] after.contains_key(h) implies blob_right(
            after,
            contents,
            h,
        ) by {
            if before.contains_key(h) {
                assert(blob_right(before, contents, h));
                assert(after[h] == before[h]);
            }
        }
    }
}

/// Only full xorbs are cut, and only what is cut is recorded anew.
spec fn cut_so_far(s: Packing, known: Map<MerkleHash, Seq<ChunkEntry>>) -> bool {
    &&& forall|i: int|
        #![trigger s.cuts[i]]
        0 <= i < s.cuts.len() ==> s.cuts[i].1.len() > 0
    &&& forall|x: MerkleHash| #[trigger]
        s.xorbs.contains_key(x) ==> known.contains_key(x) || cut_under(s, x)
}

spec fn cut_under(s: Packing, x: MerkleHash) -> bool {
    exists|i: int| 0 <= i < s.cuts.len() && (#[trigger] s.cuts[i]).0 == x
}

proof fn lemma_cut(s: Packing, known: Map<MerkleHash, Seq<ChunkEntry>>)
    requires
        cut_so_far(s, known),
        s.novel.len() > 0,
    ensures
        cut_so_far(s.cut(), known),
{
    let t = s.cut();
    assert forall|i: int| #![trigger t.cuts[i]] 0 <= i < t.cuts.len() implies t.cuts[i].1.len()
        > 0 by {
        if i < s.cuts.len() {
            assert(t.cuts[i] == s.cuts[i]);
        }
    }
    assert forall|x: MerkleHash| #[trigger] t.xorbs.contains_key(x) implies known.contains_key(x)
        || cut_under(t, x) by {
        if x == s.cut_hash() {
            assert(t.cuts[s.cuts.len() as int].0 == x);
        } else if !known.contains_key(x) {
            assert(s.xorbs.contains_key(x));
            let i = choose|i: int| 0 <= i < s.cuts.len() && (#[trigger] s.cuts[i]).0 == x;
            assert(t.cuts[i] == s.cuts[i]);
        }
    }
}

proof fn lemma_run_cuts(
    s: Packing,
    chunks: Seq<ChunkRef>,
    known: Map<MerkleHash, Seq<ChunkEntry>>,
)
    requires
        cut_so_far(s, known),
        s.run(chunks) is Ok,
    ensures
        cut_so_far(s.run(chunks)->Ok_0, known),
    decreases chunks.len() - s.at,
{
    if s.at >= chunks.len() {
        if s.novel.len() > 0 {
            lemma_cut(s, known);
        }
    } else {
        let t = s.next(chunks);
        lemma_next_advances(s, chunks);
        let asked = Packing { spread: s.asked(chunks), ..s };
        assert(cut_so_far(asked, known));
        if s.reused(chunks) is None {
            let c = chunks[s.at as int];
            if !asked.has_room(c.len as nat) {
                assert(c.len <= MAX_CHUNK_SIZE <= MAX_XORB_BYTES);
                assert(asked.novel.len() > 0);
                lemma_cut(asked, known);
                assert(t.cuts == asked.cut().cuts && t.xorbs == asked.cut().xorbs);
            } else {
                assert(t.cuts == asked.cuts && t.xorbs == asked.xorbs);
            }
        } else {
            assert(t.cuts == s.cuts && t.xorbs == s.xorbs);
        }
        assert(cut_so_far(t, known)) by {
            assert forall|x: MerkleHash| #[trigger] t.xorbs.contains_key(
                x,
            ) implies known.contains_key(x) || cut_under(t, x) by {
                let u = if s.reused(chunks) is None && !asked.has_room(
                    chunks[s.at as int].len as nat,
                ) {
                    asked.cut()
                } else {
                    s
                };
                assert(u.cuts == t.cuts && u.xorbs == t.xorbs);
                assert(u.xorbs.contains_key(x));
                if !known.contains_key(x) {
                    assert(cut_under(u, x));
                    let i = choose|i: int| 0 <= i < u.cuts.len() && (#[trigger] u.cuts[i]).0 == x;
                    assert(t.cuts[i].0 == x);
                }
            }
        }
        lemma_run_cuts(t, chunks, known);
    }
}

/// What the store holds of the xorbs that `blobs` names.
spec fn stored_only(contents: Contents, blobs: Blobs) -> Contents {
    Map::new(
        |h: MerkleHash| contents.contains_key(h) && blobs.contains_key(h),
        |h: MerkleHash| contents[h],
    )
}

/// An object that was just stored is loaded as it was.
proof fn lemma_new_object_loads(
    r: Repository,
    data: Seq<u8>,
    chunks: Seq<ChunkRef>,
    out: Stored,
    contents: Contents,
    objects: Objects,
)
    requires
        r.right(contents, objects),
        r.allows(Event::Stored { data, chunks, out }, contents, objects),
    ensures
        ({
            let t = r.after(Event::Stored { data, chunks, out });
            &&& t.loads(file_hash_of(sizes_of(chunks)), data)
            &&& blobs_right(t.blobs, contents)
            &&& forall|x: MerkleHash| #[trigger]
                t.xorbs.contains_key(x) ==> t.blobs.contains_key(x)
        }),
{
    let t = r.after(Event::Stored { data, chunks, out });
    let p = packed(r.places, r.xorbs, chunks)->Ok_0;
    let xorbs = out.xorbs@;
    let start = Packing::start(r.places, r.xorbs);
    assert(cut_so_far(start, r.xorbs));
    lemma_run_cuts(start, chunks, r.xorbs);
    assert(filled_from(data, xorbs)) by {
        assert forall|i: int| #![trigger xorbs[i]] 0 <= i < xorbs.len() implies xorbs[i].wf(data)
            && xorbs[i].chunks@.len() > 0 by {
            assert(xorbs[i].chunks@ == p.cuts[i].1);
        }
    }
    lemma_created_right(r.blobs, xorbs, xorbs.len(), data, contents);
    let c = stored_only(contents, t.blobs);
    assert forall|x: MerkleHash| #[trigger] t.xorbs.contains_key(x) implies t.blobs.contains_key(
        x,
    ) by {
        if r.xorbs.contains_key(x) {
            assert(r.blobs.contains_key(x));
        } else {
            assert(cut_under(p, x));
            let i = choose|i: int| 0 <= i < p.cuts.len() && (#[trigger] p.cuts[i]).0 == x;
            assert(xorbs[i].packed.hash == x);
        }
    }
    assert(holds(t.blobs, c)) by {
        assert forall|h: MerkleHash| #![trigger c[h]] c.contains_key(h) implies
            t.blobs.contains_key(h) && stores_chunks(t.blobs[h], c[h]) by {
            assert(blob_right(t.blobs, contents, h));
        }
    }
    assert(holds_cuts(c, data, p.cuts)) by {
        assert forall|i: int| #![trigger p.cuts[i]] 0 <= i < p.cuts.len() implies c.contains_key(
            p.cuts[i].0,
        ) && c[p.cuts[i].0] == cut_contents(data, p.cuts[i].1) by {
            assert(xorbs[i].packed.hash == p.cuts[i].0);
        }
    }
    assert(no_collision(c, data, chunks)) by {
        assert forall|h: MerkleHash, i: int, j: int|
            #![trigger c[h][i], chunks[j]]
            c.contains_key(h) && 0 <= i < c[h].len() && 0 <= j < chunks.len() && data_hash(c[h][i])
                == chunks[j].hash implies c[h][i] == chunks[j].bytes(data) by {
            assert(contents[h][i] == c[h][i]);
        }
    }
    lemma_knows_stored(r, c, contents, t.blobs);
    law_load_returns_what_was_stored(r.places, r.xorbs, data, chunks, c, t.blobs);
    assert(t.files[file_hash_of(sizes_of(chunks))] == p.terms);
}

/// A lookup that is right stays right where only what is stored is told of.
proof fn lemma_knows_stored(r: Repository, c: Contents, contents: Contents, blobs: Blobs)
    requires
        knows(r.places, r.xorbs, contents),
        c == stored_only(contents, blobs),
        forall|x: MerkleHash| #[trigger] r.xorbs.contains_key(x) ==> blobs.contains_key(x),
    ensures
        serves(names_of(c), r.places),
        sizes_right(c, r.places),
{
    let names = names_of(c);
    assert forall|h: MerkleHash| #![trigger r.places[h]] r.places.contains_key(h) implies {
        &&& place_fits(h, r.places[h])
        &&& names.contains_key(r.places[h].xorb_hash)
        &&& names[r.places[h].xorb_hash] == entry_hashes(r.places[h].chunks)
        &&& sizes_agree(c[r.places[h].xorb_hash], r.places[h].chunks)
    } by {
        let x = r.places[h].xorb_hash;
        assert(r.xorbs.contains_key(x));
        assert(blobs.contains_key(x));
        assert(names_of(contents).contains_key(x));
        assert(c.contains_key(x) && c[x] == contents[x]);
        assert(names[x] =~= names_of(contents)[x]);
    }
}

/// Every event keeps a repository right.
proof fn lemma_event_keeps_right(
    r: Repository,
    e: Event,
    contents: Contents,
    objects: Objects,
)
    requires
        r.right(contents, objects),
        r.allows(e, contents, objects),
    ensures
        r.after(e).right(contents, objects),
        forall|f: MerkleHash| #[trigger]
            r.files.contains_key(f) ==> r.after(e).files.contains_key(f),
{
    let t = r.after(e);
    match e {
        Event::Stored { data, chunks, out } => {
            let p = packed(r.places, r.xorbs, chunks)->Ok_0;
            let file = file_hash_of(sizes_of(chunks));
            lemma_new_object_loads(r, data, chunks, out, contents, objects);
            assert(holds_cuts(contents, data, p.cuts)) by {
                assert forall|i: int| #![trigger p.cuts[i]] 0 <= i < p.cuts.len() implies
                    contents.contains_key(p.cuts[i].0) && contents[p.cuts[i].0] == cut_contents(
                    data,
                    p.cuts[i].1,
                ) by {
                    assert(out.xorbs@[i].packed.hash == p.cuts[i].0);
                }
            }
            law_storing_keeps_the_shard_right(r.places, r.xorbs, data, chunks, contents);
            assert forall|f: MerkleHash| #[trigger] t.files.contains_key(f) implies
                objects.contains_key(f) && t.loads(f, objects[f]) by {
                if f != file {
                    assert(r.files.contains_key(f));
                    lemma_still_loads(r, f, out.xorbs@, out.xorbs@.len(), objects[f]);
                    assert(t.files[f] == r.files[f]);
                }
            }
        },
        Event::Failed { data, xorbs, written } => {
            lemma_created_right(r.blobs, xorbs, written, data, contents);
            assert forall|f: MerkleHash| #[trigger] t.files.contains_key(f) implies
                objects.contains_key(f) && t.loads(f, objects[f]) by {
                assert(r.files.contains_key(f));
                lemma_still_loads(r, f, xorbs, written, objects[f]);
            }
            assert forall|x: MerkleHash| #[trigger] t.xorbs.contains_key(x) implies
                t.blobs.contains_key(x) by {
                assert(r.xorbs.contains_key(x));
            }
        },
        Event::Read { places } => {
            if !knows(places, r.xorbs, contents) {
                law_shard_is_right_when_read_again(places, r.xorbs, r.files, contents);
            }
            assert forall|f: MerkleHash| #[trigger] t.files.contains_key(f) implies
                objects.contains_key(f) && t.loads(f, objects[f]) by {
                assert(r.files.contains_key(f));
            }
            assert forall|x: MerkleHash| #[trigger] t.xorbs.contains_key(x) implies
                t.blobs.contains_key(x) by {
                assert(r.xorbs.contains_key(x));
            }
        },
    }
}

/// Xorbs that are written do not change what an object is loaded as.
proof fn lemma_still_loads(
    r: Repository,
    f: MerkleHash,
    xorbs: Seq<CutXorb>,
    n: nat,
    data: Seq<u8>,
)
    requires
        r.loads(f, data),
        n <= xorbs.len(),
    ensures
        runs_readable(r.files[f], created(r.blobs, xorbs, n)),
        loaded(r.files[f], created(r.blobs, xorbs, n)) == data,
{
    law_storing_changes_no_other_object(r.files[f], r.blobs, xorbs, n);
}

proof fn lemma_always_right(
    events: Seq<Event>,
    n: nat,
    contents: Contents,
    objects: Objects,
)
    requires
        n <= events.len(),
        possible(events, contents, objects),
    ensures
        Repository::after_all(events, n).right(contents, objects),
    decreases n,
{
    if n == 0 {
        let r = Repository::empty();
        assert(r.right(contents, objects));
    } else {
        lemma_always_right(events, (n - 1) as nat, contents, objects);
        let r = Repository::after_all(events, (n - 1) as nat);
        assert(r.allows(events[n - 1], contents, objects));
        lemma_event_keeps_right(r, events[n - 1], contents, objects);
    }
}

/// Each event can happen where those before it have happened.
pub open spec fn possible(events: Seq<Event>, contents: Contents, objects: Objects) -> bool {
    forall|n: int|
        #![trigger events[n]]
        0 <= n < events.len() ==> Repository::after_all(events, n as nat).allows(
            events[n],
            contents,
            objects,
        )
}

proof fn lemma_stays_on_record(
    events: Seq<Event>,
    i: nat,
    n: nat,
    f: MerkleHash,
    contents: Contents,
    objects: Objects,
)
    requires
        i <= n <= events.len(),
        possible(events, contents, objects),
        Repository::after_all(events, i).files.contains_key(f),
    ensures
        Repository::after_all(events, n).files.contains_key(f),
    decreases n - i,
{
    if i < n {
        lemma_stays_on_record(events, i, (n - 1) as nat, f, contents, objects);
        lemma_always_right(events, (n - 1) as nat, contents, objects);
        let r = Repository::after_all(events, (n - 1) as nat);
        assert(r.allows(events[n - 1], contents, objects));
        lemma_event_keeps_right(r, events[n - 1], contents, objects);
    }
}

/// An object that was stored is loaded byte for byte, whatever was stored before it and
/// since, by whom, and whichever stores failed on the way: it is on record, each of its runs
/// can be read by every reader that takes chunks of the largest size, and all of them
/// together are the object.
pub proof fn law_object_loads_ever_after(
    events: Seq<Event>,
    i: int,
    contents: Contents,
    objects: Objects,
)
    requires
        possible(events, contents, objects),
        0 <= i < events.len(),
        events[i] is Stored,
    ensures
        events[i] matches Event::Stored { data, chunks, .. } && Repository::after_all(
            events,
            events.len(),
        ).loads(file_hash_of(sizes_of(chunks)), data),
{
    if let Event::Stored { data, chunks, out } = events[i] {
        let file = file_hash_of(sizes_of(chunks));
        let r = Repository::after_all(events, i as nat);
        assert(r.allows(events[i], contents, objects));
        assert(Repository::after_all(events, (i + 1) as nat) == r.after(events[i]));
        assert(r.after(events[i]).files.contains_key(file));
        lemma_stays_on_record(events, (i + 1) as nat, events.len(), file, contents, objects);
        lemma_always_right(events, events.len(), contents, objects);
        assert(objects[file] == data);
    }
}

} // verus!
