//! Storing an object: which of its chunks are referenced, and which are packed
//! into new xorbs.
use vstd::prelude::*;

use crate::store::StoreError;
use crate::xet::chunk::{
    chunk_all, chunks_of, cut_for, file_hash_of, file_id, hashes, hashes_of, sizes_of, ChunkRef,
    MAX_CHUNK_SIZE, TARGET_CHUNK_SIZE,
};
use crate::xet::defrag::{lemma_sum_first, Defrag, Spread, WINDOW};
use crate::xet::hash::MerkleHash;
use crate::xet::shard::{
    lemma_run_fits, lemma_run_matches, longest_run, place_fits, places_with, record_fits,
    run_bytes, xet_err, xet_message, ChunkEntry, Place, Shard,
};
use crate::xet::terms::{
    bind_marker, bound, continues, continues_last, merged_bytes, push_term, pushed, Term,
};
use crate::xet::xorb::{
    footer_ends, footer_usable, holds_chunks, one_xorb, pack_xorb, run_size, stored_footer,
    xorb_hash_of, PackedXorb, MAX_XORB_BYTES, MAX_XORB_CHUNKS,
};

verus! {

/// An object that is being stored.
#[verifier::ext_equal]
pub struct Packing {
    /// Chunks that are dealt with.
    pub at: nat,
    /// The runs that make up those chunks. Runs of the xorb that is being filled
    /// stand under the marker hash.
    pub terms: Seq<Term>,
    pub spread: Spread,
    /// The chunks of the xorb that is being filled.
    pub novel: Seq<ChunkRef>,
    /// What the shard knows by now.
    pub places: Map<MerkleHash, Place>,
    pub xorbs: Map<MerkleHash, Seq<ChunkEntry>>,
    /// The xorbs that were filled: their hashes and chunks.
    pub cuts: Seq<(MerkleHash, Seq<ChunkRef>)>,
    /// Bytes and number of all chunks that were stored.
    pub novel_bytes: nat,
    pub novel_chunks: nat,
}

/// The record of a xorb with these chunks.
pub open spec fn entries_of(chunks: Seq<ChunkRef>) -> Seq<ChunkEntry> {
    Seq::new(
        chunks.len(),
        |i: int|
            ChunkEntry {
                hash: chunks[i].hash,
                start: run_size(chunks, i as nat) as u32,
                len: chunks[i].len as u32,
            },
    )
}

/// The run of one chunk of the xorb that is being filled.
pub open spec fn novel_term(marker: MerkleHash, len: nat, index: nat) -> Term {
    Term {
        xorb_hash: marker,
        xorb_flags: 0,
        unpacked_segment_bytes: len as u32,
        chunk_index_start: index as u32,
        chunk_index_end: (index + 1) as u32,
    }
}

impl Packing {
    /// Before the first chunk.
    pub open spec fn start(
        places: Map<MerkleHash, Place>,
        xorbs: Map<MerkleHash, Seq<ChunkEntry>>,
    ) -> Packing {
        Packing {
            at: 0,
            terms: Seq::empty(),
            spread: Spread::empty(),
            novel: Seq::empty(),
            places,
            xorbs,
            cuts: Seq::empty(),
            novel_bytes: 0,
            novel_chunks: 0,
        }
    }

    /// The run of stored chunks that the rest of the object begins with.
    pub open spec fn found(self, chunks: Seq<ChunkRef>) -> Option<(nat, Term)> {
        longest_run(self.places, hashes_of(chunks).subrange(self.at as int, chunks.len() as int))
    }

    /// The run that is referenced rather than stored again: one that continues the
    /// last run, or one that the rule against scattering admits.
    pub open spec fn reused(self, chunks: Seq<ChunkRef>) -> Option<(nat, Term)> {
        match self.found(chunks) {
            Some((n, term)) => if n > 0 && (continues_last(self.terms, term)
                || self.spread.admits(n)) {
                Some((n, term))
            } else {
                None
            },
            None => None,
        }
    }

    /// What the rule remembers: it is asked about a run that was found and does not
    /// continue the last one.
    pub open spec fn asked(self, chunks: Seq<ChunkRef>) -> Spread {
        match self.found(chunks) {
            Some((n, term)) => if continues_last(self.terms, term) {
                self.spread
            } else {
                self.spread.asked(n)
            },
            None => self.spread,
        }
    }

    /// After a stored run was referenced.
    pub open spec fn referenced(self, n: nat, term: Term, spread: Spread) -> Packing {
        Packing {
            at: self.at + n,
            terms: pushed(self.terms, term),
            spread: spread.recorded(n, continues_last(self.terms, term)),
            ..self
        }
    }

    /// A chunk of `len` bytes goes into the xorb that is being filled.
    pub open spec fn has_room(self, len: nat) -> bool {
        run_size(self.novel, self.novel.len()) + len <= MAX_XORB_BYTES && self.novel.len()
            < MAX_XORB_CHUNKS
    }

    /// The hash of the xorb that is being filled.
    pub open spec fn cut_hash(self) -> MerkleHash {
        xorb_hash_of(sizes_of(self.novel))
    }

    /// After the xorb that is being filled was closed: its runs are bound to its
    /// hash, and the shard knows its chunks.
    pub open spec fn cut(self) -> Packing {
        let hash = self.cut_hash();
        Packing {
            terms: bound(self.terms, hash),
            novel: Seq::empty(),
            places: places_with(self.places, hash, entries_of(self.novel)),
            xorbs: self.xorbs.insert(hash, entries_of(self.novel)),
            cuts: self.cuts.push((hash, self.novel)),
            ..self
        }
    }

    /// After a chunk was put into the xorb that is being filled.
    pub open spec fn filled(self, c: ChunkRef) -> Packing {
        let marker = MerkleHash { w0: u64::MAX, w1: u64::MAX, w2: u64::MAX, w3: u64::MAX };
        let term = novel_term(marker, c.len as nat, self.novel.len());
        Packing {
            at: self.at + 1,
            terms: pushed(self.terms, term),
            spread: self.spread.recorded(1, continues_last(self.terms, term)),
            novel: self.novel.push(c),
            novel_bytes: self.novel_bytes + c.len as nat,
            novel_chunks: self.novel_chunks + 1,
            ..self
        }
    }

    /// After the next chunk, or the next run of them, was dealt with.
    pub open spec fn next(self, chunks: Seq<ChunkRef>) -> Packing {
        let spread = self.asked(chunks);
        match self.reused(chunks) {
            Some((n, term)) => self.referenced(n, term, spread),
            None => {
                let c = chunks[self.at as int];
                let asked = Packing { spread, ..self };
                if asked.has_room(c.len as nat) {
                    asked.filled(c)
                } else {
                    asked.cut().filled(c)
                }
            },
        }
    }

    /// Why the next chunk cannot be dealt with: a size that the format has no room
    /// for, or a hash that it reserves.
    pub open spec fn fault(self, chunks: Seq<ChunkRef>) -> Option<Seq<char>> {
        match self.reused(chunks) {
            Some((_, term)) => if merged_bytes(self.terms, term) > u32::MAX {
                Some(xet_message("term"@, "run exceeds 32 bits"@))
            } else {
                None
            },
            None => {
                let c = chunks[self.at as int];
                if c.len > MAX_CHUNK_SIZE {
                    Some(xet_message("xorb write"@, "chunk exceeds its limit"@))
                } else if !self.has_room(c.len as nat) && self.cut_hash().marks() {
                    Some(xet_message("xorb write"@, "hash is reserved"@))
                } else {
                    None
                }
            },
        }
    }

    /// After the last chunk: the xorb that is being filled is closed.
    pub open spec fn closed(self) -> Result<Packing, Seq<char>> {
        if self.novel.len() == 0 {
            Ok(self)
        } else if self.cut_hash().marks() {
            Err(xet_message("xorb write"@, "hash is reserved"@))
        } else {
            Ok(self.cut())
        }
    }

    /// After all chunks.
    pub open spec fn run(self, chunks: Seq<ChunkRef>) -> Result<Packing, Seq<char>>
        decreases chunks.len() - self.at,
    {
        if self.at >= chunks.len() {
            self.closed()
        } else {
            proof {
                let query = hashes_of(chunks).subrange(self.at as int, chunks.len() as int);
                let p = self.places[query[0]];
                lemma_run_matches(p.chunks, p.index, query);
            }
            match self.fault(chunks) {
                Some(message) => Err(message),
                None => self.next(chunks).run(chunks),
            }
        }
    }
}

/// A xorb that was filled, ready to be stored.
pub struct CutXorb {
    pub packed: PackedXorb,
    pub chunks: Vec<ChunkRef>,
}

impl CutXorb {
    /// The xorb holds chunks of `data`, and they can be read back out of it.
    pub open spec fn wf(self, data: Seq<u8>) -> bool {
        &&& one_xorb(data, self.chunks@)
        &&& self.packed.hash == xorb_hash_of(sizes_of(self.chunks@))
        &&& stored_footer(self.packed.bytes@) == Some(
            (footer_usable(self.packed.footer), footer_ends(self.packed.footer)),
        )
        &&& footer_usable(self.packed.footer) == (self.chunks@.len() > 0 && self.packed.hash != (
        MerkleHash { w0: 0, w1: 0, w2: 0, w3: 0 }))
        &&& holds_chunks(
            self.packed.bytes@,
            data,
            self.chunks@,
            footer_ends(self.packed.footer),
        )
    }
}

/// An object that is being stored.
pub struct Packer {
    pub at: usize,
    pub terms: Vec<Term>,
    pub defrag: Defrag,
    pub novel: Vec<ChunkRef>,
    /// Bytes of the chunks in `novel`.
    pub filling: usize,
    pub shard: Shard,
    pub xorbs: Vec<CutXorb>,
    pub novel_bytes: u64,
    pub novel_chunks: usize,
}

impl View for Packer {
    type V = Packing;

    open spec fn view(&self) -> Packing {
        Packing {
            at: self.at as nat,
            terms: self.terms@,
            spread: self.defrag@,
            novel: self.novel@,
            places: self.shard.places(),
            xorbs: self.shard.xorbs(),
            cuts: Seq::new(
                self.xorbs@.len(),
                |i: int| (self.xorbs@[i].packed.hash, self.xorbs@[i].chunks@),
            ),
            novel_bytes: self.novel_bytes as nat,
            novel_chunks: self.novel_chunks as nat,
        }
    }
}

/// Where the chunk at `at` begins.
pub open spec fn position(data: Seq<u8>, chunks: Seq<ChunkRef>, at: nat) -> nat {
    if at < chunks.len() {
        chunks[at as int].start as nat
    } else {
        data.len()
    }
}

impl Packer {
    pub open spec fn wf(self, data: Seq<u8>, chunks: Seq<ChunkRef>) -> bool {
        &&& self.shard.wf()
        &&& self.at <= chunks.len()
        &&& self.defrag@.wf()
        &&& self.defrag.chunks <= self.at
        &&& self.terms@.len() > 0 ==> self.defrag@.window.len() > 0
        &&& self.terms@.len() <= self.at
        &&& one_xorb(data, self.novel@)
        &&& self.filling == run_size(self.novel@, self.novel@.len())
        &&& self.novel_chunks <= self.at
        &&& self.novel_chunks == 0 <==> self.novel_bytes == 0
        &&& self.novel_bytes <= position(data, chunks, self.at as nat)
        &&& forall|i: int|
            #![trigger self.terms@[i]]
            0 <= i < self.terms@.len() && self.terms@[i].xorb_hash.marks()
                ==> self.terms@[i].unpacked_segment_bytes <= self.filling
        &&& forall|i: int|
            #![trigger self.xorbs@[i]]
            0 <= i < self.xorbs@.len() ==> self.xorbs@[i].wf(data)
    }

    /// Closes the xorb that is being filled.
    fn cut(&mut self, data: &[u8], Ghost(chunks): Ghost<Seq<ChunkRef>>) -> (r: Result<
        (),
        StoreError,
    >)
        requires
            old(self).wf(data@, chunks),
        ensures
            if old(self)@.cut_hash().marks() {
                r matches Err(e) && e.says(xet_message("xorb write"@, "hash is reserved"@))
            } else {
                &&& r is Ok
                &&& final(self)@ == old(self)@.cut()
                &&& final(self).wf(data@, chunks)
                &&& final(self).shard.files() == old(self).shard.files()
            },
    {
        let ghost before = self@;
        let packed = match pack_xorb(data, &self.novel) {
            Ok(packed) => packed,
            Err(e) => {
                return Err(e);
            },
        };
        let hash = packed.hash;
        if hash == MerkleHash::marker() {
            return Err(xet_err("xorb write", "hash is reserved"));
        }
        let entries = entries(&self.novel, Ghost(data@));
        self.shard.add_xorb(hash, &entries);
        bind_marker(&mut self.terms, hash);
        let mut full: Vec<ChunkRef> = Vec::new();
        std::mem::swap(&mut full, &mut self.novel);
        self.filling = 0;
        let ghost old_xorbs = self.xorbs@;
        self.xorbs.push(CutXorb { packed, chunks: full });
        proof {
            assert(self@.cuts =~= before.cut().cuts);
            assert(self@ =~= before.cut());
            assert forall|i: int|
                #![trigger self.xorbs@[i]]
                0 <= i < self.xorbs@.len() implies self.xorbs@[i].wf(data@) by {
                if i < old_xorbs.len() {
                    assert(self.xorbs@[i] == old_xorbs[i]);
                }
            }
        }
        Ok(())
    }
}

/// The record of a xorb with these chunks.
fn entries(chunks: &Vec<ChunkRef>, Ghost(data): Ghost<Seq<u8>>) -> (r: Vec<ChunkEntry>)
    requires
        one_xorb(data, chunks@),
    ensures
        r@ == entries_of(chunks@),
        record_fits(r@),
{
    let mut r: Vec<ChunkEntry> = Vec::new();
    let mut start: u32 = 0;
    let mut i: usize = 0;
    while i < chunks.len()
        invariant
            i <= chunks@.len(),
            one_xorb(data, chunks@),
            start == run_size(chunks@, i as nat),
            start <= MAX_XORB_BYTES,
            r@ =~= entries_of(chunks@).subrange(0, i as int),
            run_bytes(r@, 0, i as int) == start,
            i > 0 ==> r@.last().start + r@.last().len == start,
        decreases chunks@.len() - i,
    {
        let c = chunks[i];
        let ghost before = r@;
        proof {
            lemma_run_size_grows(chunks@, (i + 1) as nat, chunks@.len());
            assert(chunks@[i as int] == c);
        }
        r.push(ChunkEntry { hash: c.hash, start, len: c.len as u32 });
        proof {
            lemma_run_bytes_same(before, r@, i as int);
        }
        start = start + c.len as u32;
        i = i + 1;
    }
    assert(r@ =~= entries_of(chunks@));
    r
}

pub proof fn lemma_run_size_grows(chunks: Seq<ChunkRef>, n: nat, m: nat)
    requires
        n <= m,
    ensures
        run_size(chunks, n) <= run_size(chunks, m),
    decreases m - n,
{
    if n < m {
        lemma_run_size_grows(chunks, n, (m - 1) as nat);
    }
}

proof fn lemma_run_bytes_same(a: Seq<ChunkEntry>, b: Seq<ChunkEntry>, n: int)
    requires
        0 <= n <= a.len(),
        n <= b.len(),
        forall|i: int| 0 <= i < n ==> a[i] == b[i],
    ensures
        run_bytes(a, 0, n) == run_bytes(b, 0, n),
    decreases n,
{
    if n > 0 {
        lemma_run_bytes_same(a, b, n - 1);
    }
}

pub proof fn lemma_run_size_same(a: Seq<ChunkRef>, b: Seq<ChunkRef>, n: nat)
    requires
        n <= a.len(),
        n <= b.len(),
        forall|i: int| 0 <= i < n ==> a[i] == b[i],
    ensures
        run_size(a, n) == run_size(b, n),
    decreases n,
{
    if n > 0 {
        lemma_run_size_same(a, b, (n - 1) as nat);
    }
}

impl Packer {
    /// References a stored run.
    fn reference(
        &mut self,
        n: usize,
        term: Term,
        merges: bool,
        Ghost(data): Ghost<Seq<u8>>,
        Ghost(chunks): Ghost<Seq<ChunkRef>>,
    )
        requires
            old(self).wf(data, chunks),
            chunks_of(data, chunks),
            1 <= n <= chunks.len() - old(self).at,
            chunks.len() <= usize::MAX,
            merges == continues_last(old(self).terms@, term),
            merged_bytes(old(self).terms@, term) <= u32::MAX,
            !term.xorb_hash.marks(),
        ensures
            final(self)@ == old(self)@.referenced(n as nat, term, old(self)@.spread),
            final(self).wf(data, chunks),
            final(self).shard.files() == old(self).shard.files(),
    {
        let ghost before = self@;
        let ghost old_terms = self.terms@;
        let merged = push_term(&mut self.terms, term);
        self.defrag.record(n, merged);
        self.at = self.at + n;
        proof {
            lemma_position_grows(data, chunks, before.at, self.at as nat);
            lemma_recorded_bound(before.spread, n as nat, merged);
            assert(self@ =~= before.referenced(n as nat, term, before.spread));
            assert forall|i: int|
                #![trigger self.terms@[i]]
                0 <= i < self.terms@.len()
                    && self.terms@[i].xorb_hash.marks() implies self.terms@[i].unpacked_segment_bytes
                <= self.filling by {
                if i < old_terms.len() {
                    assert(self.terms@[i].xorb_hash == old_terms[i].xorb_hash);
                }
            }
        }
    }

    /// Puts a chunk into the xorb that is being filled.
    fn fill(
        &mut self,
        c: ChunkRef,
        Ghost(data): Ghost<Seq<u8>>,
        Ghost(chunks): Ghost<Seq<ChunkRef>>,
    )
        requires
            old(self).wf(data, chunks),
            chunks_of(data, chunks),
            data.len() <= usize::MAX,
            old(self).at < chunks.len() <= usize::MAX,
            chunks[old(self).at as int] == c,
            c.len <= MAX_CHUNK_SIZE,
            old(self)@.has_room(c.len as nat),
        ensures
            final(self)@ == old(self)@.filled(c),
            final(self).wf(data, chunks),
            final(self).shard.files() == old(self).shard.files(),
    {
        let ghost before = self@;
        let ghost old_terms = self.terms@;
        let idx: u32 = self.novel.len() as u32;
        let term = Term {
            xorb_hash: MerkleHash::marker(),
            xorb_flags: 0,
            unpacked_segment_bytes: c.len as u32,
            chunk_index_start: idx,
            chunk_index_end: idx + 1,
        };
        proof {
            assert(term == novel_term(term.xorb_hash, c.len as nat, before.novel.len()));
            if continues_last(old_terms, term) {
                assert(old_terms[old_terms.len() - 1].unpacked_segment_bytes <= self.filling);
            }
            assert(chunks[self.at as int].start == position(data, chunks, self.at as nat));
            lemma_position_next(data, chunks, self.at as nat);
        }
        let merged = push_term(&mut self.terms, term);
        self.defrag.record(1, merged);
        let ghost old_novel = self.novel@;
        self.novel.push(c);
        self.filling = self.filling + c.len;
        self.novel_bytes = self.novel_bytes + c.len as u64;
        self.novel_chunks = self.novel_chunks + 1;
        self.at = self.at + 1;
        proof {
            lemma_recorded_bound(before.spread, 1, merged);
            lemma_run_size_same(old_novel, self.novel@, old_novel.len());
            assert(self@ =~= before.filled(c));
            assert forall|i: int|
                #![trigger self.novel@[i]]
                0 <= i < self.novel@.len() implies self.novel@[i].len <= MAX_CHUNK_SIZE
                && self.novel@[i].start + self.novel@[i].len <= data.len() by {
                if i < old_novel.len() {
                    assert(self.novel@[i] == old_novel[i]);
                }
            }
            assert forall|i: int|
                #![trigger self.terms@[i]]
                0 <= i < self.terms@.len()
                    && self.terms@[i].xorb_hash.marks() implies self.terms@[i].unpacked_segment_bytes
                <= self.filling by {
                if i < old_terms.len() {
                    assert(self.terms@[i].xorb_hash == old_terms[i].xorb_hash);
                }
            }
        }
    }
}

/// Chunks begin one behind the other.
proof fn lemma_position_next(data: Seq<u8>, chunks: Seq<ChunkRef>, at: nat)
    requires
        chunks_of(data, chunks),
        at < chunks.len(),
    ensures
        position(data, chunks, at + 1) == position(data, chunks, at) + chunks[at as int].len,
{
    if at + 1 < chunks.len() {
        assert(chunks[at as int + 1].start == chunks[at as int].start + chunks[at as int].len);
    }
}

proof fn lemma_position_grows(data: Seq<u8>, chunks: Seq<ChunkRef>, a: nat, b: nat)
    requires
        chunks_of(data, chunks),
        a <= b <= chunks.len(),
    ensures
        position(data, chunks, a) <= position(data, chunks, b),
    decreases b - a,
{
    if a < b {
        lemma_position_grows(data, chunks, a, (b - 1) as nat);
        lemma_position_next(data, chunks, (b - 1) as nat);
    }
}

proof fn lemma_recorded_bound(s: Spread, n: nat, merged: bool)
    requires
        s.wf(),
        merged ==> s.window.len() > 0,
        s.recorded(n, merged).wf(),
    ensures
        s.recorded(n, merged).window.len() > 0,
        s.recorded(n, merged).chunks <= s.chunks + n,
{
    if !merged && s.window.push(n).len() > WINDOW {
        let all = s.window.push(n);
        lemma_sum_first(s.window);
        assert(all[0] == s.window[0]);
    }
}

impl Packer {
    fn new(shard: Shard, Ghost(data): Ghost<Seq<u8>>, Ghost(chunks): Ghost<Seq<ChunkRef>>) -> (r:
        Packer)
        requires
            shard.wf(),
        ensures
            r@ == Packing::start(shard.places(), shard.xorbs()),
            r.wf(data, chunks),
            r.shard.files() == shard.files(),
    {
        let r = Packer {
            at: 0,
            terms: Vec::new(),
            defrag: Defrag::new(),
            novel: Vec::new(),
            filling: 0,
            shard,
            xorbs: Vec::new(),
            novel_bytes: 0,
            novel_chunks: 0,
        };
        assert(r@.cuts =~= Seq::<(MerkleHash, Seq<ChunkRef>)>::empty());
        assert(r@ =~= Packing::start(shard.places(), shard.xorbs()));
        r
    }

    /// Deals with the next chunk, or with the next run of stored chunks.
    fn step(&mut self, data: &[u8], chunks: &Vec<ChunkRef>, hashes: &Vec<MerkleHash>) -> (r: Result<
        (),
        StoreError,
    >)
        requires
            old(self).wf(data@, chunks@),
            chunks_of(data@, chunks@),
            hashes@ == hashes_of(chunks@),
            old(self).at < chunks@.len(),
        ensures
            match old(self)@.fault(chunks@) {
                Some(message) => r matches Err(e) && e.says(message),
                None => {
                    &&& r is Ok
                    &&& final(self)@ == old(self)@.next(chunks@)
                    &&& final(self).wf(data@, chunks@)
                    &&& final(self).shard.files() == old(self).shard.files()
                    &&& old(self).at < final(self).at
                },
            },
    {
        let ghost before = self@;
        let ghost query = hashes_of(chunks@).subrange(self.at as int, chunks@.len() as int);
        assert(chunks@.len() == chunks.len());
        assert(data@.len() == data.len());
        match self.shard.find(hashes, self.at) {
            Some((n, term)) => {
                proof {
                    let p = self.shard.places()[query[0]];
                    assert(place_fits(query[0], p));
                    lemma_run_fits(self.shard.places(), query);
                }
                let count: usize = self.terms.len();
                let merges = count > 0 && continues(&self.terms[count - 1], &term);
                if merges || self.defrag.allow(n) {
                    let ghost asked = self@;
                    assert(asked =~= (Packing { spread: before.asked(chunks@), ..before }));
                    if merges && self.terms[count - 1].unpacked_segment_bytes as u64
                        + term.unpacked_segment_bytes as u64 > 0xffff_ffff {
                        return Err(xet_err("term", "run exceeds 32 bits"));
                    }
                    self.reference(n, term, merges, Ghost(data@), Ghost(chunks@));
                    assert(self@ =~= before.next(chunks@));
                    return Ok(());
                }
            },
            None => {},
        }
        let ghost asked = self@;
        assert(asked =~= (Packing { spread: before.asked(chunks@), ..before }));
        assert(before.reused(chunks@) is None);
        let c = chunks[self.at];
        if c.len > MAX_CHUNK_SIZE {
            return Err(xet_err("xorb write", "chunk exceeds its limit"));
        }
        if self.filling + c.len > MAX_XORB_BYTES || self.novel.len() >= MAX_XORB_CHUNKS {
            match self.cut(data, Ghost(chunks@)) {
                Ok(()) => {},
                Err(e) => {
                    return Err(e);
                },
            }
        }
        self.fill(c, Ghost(data@), Ghost(chunks@));
        assert(self@ =~= before.next(chunks@));
        Ok(())
    }
}

/// What a store call did.
#[derive(Debug, Clone, Copy, PartialEq, Eq, Structural)]
pub struct StoreStats {
    /// The id of the file: a Merkle root over the chunk hashes, not a hash of the
    /// bytes.
    pub file_hash: MerkleHash,
    pub logical_bytes: u64,
    pub novel_bytes: u64,
    pub chunks: usize,
    pub novel_chunks: usize,
    /// Terms in the reconstruction; one per contiguous chunk run.
    pub terms: usize,
}

/// What storing an object comes to: the xorbs to write, in this order, and then
/// the shard that names them.
pub struct Stored {
    pub stats: StoreStats,
    pub terms: Vec<Term>,
    pub xorbs: Vec<CutXorb>,
    pub shard: Shard,
}

/// What storing the object with these chunks comes to, or why it is refused.
pub open spec fn packed(
    places: Map<MerkleHash, Place>,
    xorbs: Map<MerkleHash, Seq<ChunkEntry>>,
    chunks: Seq<ChunkRef>,
) -> Result<Packing, Seq<char>> {
    match Packing::start(places, xorbs).run(chunks) {
        Err(message) => Err(message),
        Ok(p) => if p.terms.len() > u32::MAX {
            Err(xet_message("shard add"@, "too many terms"@))
        } else if file_hash_of(sizes_of(chunks)).marks() {
            Err(xet_message("shard add"@, "hash is reserved"@))
        } else {
            Ok(p)
        },
    }
}

impl Stored {
    /// The outcome that `p` describes, for the object `data` with these chunks.
    pub open spec fn matches_packing(
        self,
        p: Packing,
        data: Seq<u8>,
        chunks: Seq<ChunkRef>,
        files: Map<MerkleHash, Seq<Term>>,
    ) -> bool {
        let file = file_hash_of(sizes_of(chunks));
        &&& self.stats == (StoreStats {
            file_hash: file,
            logical_bytes: data.len() as u64,
            novel_bytes: p.novel_bytes as u64,
            chunks: chunks.len() as usize,
            novel_chunks: p.novel_chunks as usize,
            terms: p.terms.len() as usize,
        })
        &&& p.novel_bytes <= data.len()
        &&& p.novel_chunks <= chunks.len()
        &&& p.novel_chunks == 0 <==> p.novel_bytes == 0
        &&& p.terms.len() <= chunks.len()
        &&& self.terms@ == p.terms
        &&& self.shard.wf()
        &&& self.shard.places() == p.places
        &&& self.shard.xorbs() == p.xorbs
        &&& self.shard.files() == files.insert(file, p.terms)
        &&& self.xorbs@.len() == p.cuts.len()
        &&& forall|i: int|
            #![trigger self.xorbs@[i]]
            0 <= i < self.xorbs@.len() ==> self.xorbs@[i].wf(data) && self.xorbs@[i].packed.hash
                == p.cuts[i].0 && self.xorbs@[i].chunks@ == p.cuts[i].1
    }
}

/// Stores the object `data`, which was cut into `chunks`, in a repository with this
/// shard.
pub fn store_chunks(data: &[u8], chunks: &Vec<ChunkRef>, shard: Shard) -> (r: Result<
    Stored,
    StoreError,
>)
    requires
        shard.wf(),
        chunks_of(data@, chunks@),
    ensures
        match packed(shard.places(), shard.xorbs(), chunks@) {
            Ok(p) => r matches Ok(out) && out.matches_packing(p, data@, chunks@, shard.files()),
            Err(message) => r matches Err(e) && e.says(message),
        },
{
    let ghost begin = Packing::start(shard.places(), shard.xorbs());
    let ghost files = shard.files();
    let file_hash = file_id(data, chunks);
    let list = hashes(chunks);
    let mut packer = Packer::new(shard, Ghost(data@), Ghost(chunks@));
    assert(chunks@.len() == chunks.len());
    assert(data@.len() == data.len());
    while packer.at < chunks.len()
        invariant
            packer.wf(data@, chunks@),
            chunks_of(data@, chunks@),
            list@ == hashes_of(chunks@),
            packer@.run(chunks@) == begin.run(chunks@),
            packer.shard.files() == files,
            begin == Packing::start(shard.places(), shard.xorbs()),
        decreases chunks@.len() - packer.at,
    {
        let ghost now = packer@;
        match packer.step(data, chunks, &list) {
            Ok(()) => {},
            Err(e) => {
                return Err(e);
            },
        }
    }
    if packer.novel.len() > 0 {
        match packer.cut(data, Ghost(chunks@)) {
            Ok(()) => {},
            Err(e) => {
                return Err(e);
            },
        }
    }
    let ghost end = packer@;
    assert(begin.run(chunks@) == Ok::<Packing, Seq<char>>(end));
    let Packer { terms, shard, xorbs, novel_bytes, novel_chunks, .. } = packer;
    let mut shard = shard;
    if terms.len() as u64 > 0xffff_ffff {
        return Err(xet_err("shard add", "too many terms"));
    }
    if file_hash == MerkleHash::marker() {
        return Err(xet_err("shard add", "hash is reserved"));
    }
    shard.add_file(file_hash, &terms);
    let stats = StoreStats {
        file_hash,
        logical_bytes: data.len() as u64,
        novel_bytes,
        chunks: chunks.len(),
        novel_chunks,
        terms: terms.len(),
    };
    Ok(Stored { stats, terms, xorbs, shard })
}

/// Stores an object in a repository with this shard. Where the object is cut is
/// the chunker's to decide; the rest follows from the cuts.
pub fn store_object(data: &[u8], shard: Shard) -> (r: Result<Stored, StoreError>)
    requires
        shard.wf(),
    ensures
        exists|chunks: Seq<ChunkRef>| #[trigger]
            cut_for(data@, chunks, TARGET_CHUNK_SIZE) && match packed(
                shard.places(),
                shard.xorbs(),
                chunks,
            ) {
                Ok(p) => r matches Ok(out) && out.matches_packing(p, data@, chunks, shard.files()),
                Err(message) => r matches Err(e) && e.says(message),
            },
{
    let chunks = chunk_all(data);
    store_chunks(data, &chunks, shard)
}

} // verus!
