//! Bytes that a repository has to store: every version whole, or every distinct
//! chunk once.
use vstd::prelude::*;

use sha2::{Digest, Sha256};

use crate::eval::set::ChunkSet;
use crate::xet::chunk::{chunk_at, chunks_of, cut_for, targetable, ChunkRef};
use crate::xet::hash::MerkleHash;

verus! {

/// Chunk `i` is the first of its kind: its hash is not in `seen`, and no chunk
/// before it has it.
pub open spec fn is_new(chunks: Seq<ChunkRef>, seen: Set<MerkleHash>, i: int) -> bool {
    &&& !seen.contains(chunks[i].hash)
    &&& forall|j: int| 0 <= j < i ==> #[trigger] chunks[j].hash != chunks[i].hash
}

/// Bytes of the first `n` chunks that have to be stored where those in `seen` are
/// stored already.
pub open spec fn novel_upto(chunks: Seq<ChunkRef>, seen: Set<MerkleHash>, n: nat) -> nat
    decreases n,
{
    if n == 0 {
        0
    } else {
        novel_upto(chunks, seen, (n - 1) as nat) + if is_new(chunks, seen, n - 1) {
            chunks[n - 1].len as nat
        } else {
            0
        }
    }
}

/// Bytes of `chunks` that have to be stored where those in `seen` are stored
/// already.
pub open spec fn novel_bytes(chunks: Seq<ChunkRef>, seen: Set<MerkleHash>) -> nat {
    novel_upto(chunks, seen, chunks.len())
}

/// Bytes of all chunks.
pub open spec fn all_bytes(chunks: Seq<ChunkRef>) -> nat
    decreases chunks.len(),
{
    if chunks.len() == 0 {
        0
    } else {
        all_bytes(chunks.drop_last()) + chunks.last().len as nat
    }
}

/// The hashes in `seen`, and those of `chunks`.
pub open spec fn seen_with(seen: Set<MerkleHash>, chunks: Seq<ChunkRef>) -> Set<MerkleHash> {
    Set::new(
        |h: MerkleHash|
            seen.contains(h) || exists|i: int|
                0 <= i < chunks.len() && #[trigger] chunks[i].hash == h,
    )
}

/// Chunk-granular storage never takes more than the chunks have bytes.
pub proof fn law_novel_is_at_most_all(chunks: Seq<ChunkRef>, seen: Set<MerkleHash>)
    ensures
        novel_bytes(chunks, seen) <= all_bytes(chunks),
    decreases chunks.len(),
{
    if chunks.len() > 0 {
        let rest = chunks.drop_last();
        law_novel_is_at_most_all(rest, seen);
        lemma_novel_of_prefix(chunks, rest, seen, rest.len());
    }
}

/// What is stored already costs nothing.
pub proof fn law_seen_chunks_cost_nothing(chunks: Seq<ChunkRef>, seen: Set<MerkleHash>)
    requires
        forall|i: int| 0 <= i < chunks.len() ==> seen.contains(#[trigger] chunks[i].hash),
    ensures
        novel_bytes(chunks, seen) == 0,
{
    lemma_seen_upto(chunks, seen, chunks.len());
}

proof fn lemma_seen_upto(chunks: Seq<ChunkRef>, seen: Set<MerkleHash>, n: nat)
    requires
        n <= chunks.len(),
        forall|i: int| 0 <= i < chunks.len() ==> seen.contains(#[trigger] chunks[i].hash),
    ensures
        novel_upto(chunks, seen, n) == 0,
    decreases n,
{
    if n > 0 {
        lemma_seen_upto(chunks, seen, (n - 1) as nat);
    }
}

/// What two uploads cost, one after the other, is what their chunks cost together:
/// over a whole history, each distinct chunk is stored once.
pub proof fn law_history_stores_a_chunk_once(
    a: Seq<ChunkRef>,
    b: Seq<ChunkRef>,
    seen: Set<MerkleHash>,
)
    ensures
        novel_bytes(a + b, seen) == novel_bytes(a, seen) + novel_bytes(b, seen_with(seen, a)),
        seen_with(seen_with(seen, a), b) == seen_with(seen, a + b),
{
    lemma_history_upto(a, b, seen, b.len());
    lemma_novel_of_prefix(a + b, a, seen, a.len());
    let two = seen_with(seen_with(seen, a), b);
    let one = seen_with(seen, a + b);
    assert forall|h: MerkleHash| #[trigger] two.contains(h) == one.contains(h) by {
        if exists|i: int| 0 <= i < a.len() && #[trigger] a[i].hash == h {
            let i = choose|i: int| 0 <= i < a.len() && #[trigger] a[i].hash == h;
            assert((a + b)[i].hash == h);
        }
        if exists|i: int| 0 <= i < b.len() && #[trigger] b[i].hash == h {
            let i = choose|i: int| 0 <= i < b.len() && #[trigger] b[i].hash == h;
            assert((a + b)[a.len() + i].hash == h);
        }
        if exists|i: int| 0 <= i < (a + b).len() && #[trigger] (a + b)[i].hash == h {
            let i = choose|i: int| 0 <= i < (a + b).len() && #[trigger] (a + b)[i].hash == h;
            if i < a.len() {
                assert(a[i].hash == h);
            } else {
                assert(b[i - a.len()].hash == h);
            }
        }
    }
    assert(two =~= one);
}

proof fn lemma_history_upto(a: Seq<ChunkRef>, b: Seq<ChunkRef>, seen: Set<MerkleHash>, n: nat)
    requires
        n <= b.len(),
    ensures
        novel_upto(a + b, seen, a.len() + n) == novel_upto(a + b, seen, a.len()) + novel_upto(
            b,
            seen_with(seen, a),
            n,
        ),
    decreases n,
{
    if n > 0 {
        lemma_history_upto(a, b, seen, (n - 1) as nat);
        let all = a + b;
        let at = a.len() + n - 1;
        let first = seen_with(seen, a);
        assert(all[at] == b[n - 1]);
        if is_new(all, seen, at) {
            assert forall|j: int| 0 <= j < n - 1 implies #[trigger] b[j].hash != b[n - 1].hash by {
                assert(all[a.len() + j].hash == b[j].hash);
            }
            assert forall|j: int| 0 <= j < a.len() implies #[trigger] a[j].hash != b[n - 1].hash by {
                assert(all[j].hash == a[j].hash);
            }
            assert(is_new(b, first, n - 1));
        }
        if is_new(b, first, n - 1) {
            assert forall|j: int| 0 <= j < at implies #[trigger] all[j].hash != all[at].hash by {
                if j < a.len() {
                    assert(all[j].hash == a[j].hash);
                    assert(first.contains(a[j].hash));
                } else {
                    assert(all[j].hash == b[j - a.len()].hash);
                }
            }
            assert(is_new(all, seen, at));
        }
        assert((a.len() + n - 1) as nat == a.len() + (n - 1) as nat);
    }
}

/// Later chunks do not change what the earlier ones cost.
proof fn lemma_novel_of_prefix(
    all: Seq<ChunkRef>,
    prefix: Seq<ChunkRef>,
    seen: Set<MerkleHash>,
    n: nat,
)
    requires
        n <= prefix.len() <= all.len(),
        forall|i: int| 0 <= i < prefix.len() ==> #[trigger] all[i] == prefix[i],
    ensures
        novel_upto(all, seen, n) == novel_upto(prefix, seen, n),
    decreases n,
{
    if n > 0 {
        lemma_novel_of_prefix(all, prefix, seen, (n - 1) as nat);
        assert(all[n - 1] == prefix[n - 1]);
        assert(is_new(all, seen, n - 1) == is_new(prefix, seen, n - 1)) by {
            if is_new(prefix, seen, n - 1) {
                assert forall|j: int| 0 <= j < n - 1 implies #[trigger] all[j].hash != all[n
                    - 1].hash by {
                    assert(prefix[j].hash != prefix[n - 1].hash);
                }
            }
            if is_new(all, seen, n - 1) {
                assert forall|j: int| 0 <= j < n - 1 implies #[trigger] prefix[j].hash
                    != prefix[n - 1].hash by {
                    assert(all[j].hash != all[n - 1].hash);
                }
            }
        }
    }
}

/// Bytes of `chunks` that have to be stored where those in `seen` are stored
/// already.
pub fn novel(chunks: &Vec<ChunkRef>, seen: &ChunkSet) -> (r: usize)
    requires
        all_bytes(chunks@) <= usize::MAX,
    ensures
        r == novel_bytes(chunks@, seen@),
{
    let mut local = ChunkSet::new();
    let mut n: usize = 0;
    let mut i: usize = 0;
    while i < chunks.len()
        invariant
            i <= chunks@.len(),
            all_bytes(chunks@) <= usize::MAX,
            n == novel_upto(chunks@, seen@, i as nat),
            forall|j: int|
                0 <= j < i ==> seen@.contains(#[trigger] chunks@[j].hash) || local@.contains(
                    chunks@[j].hash,
                ),
            forall|h: MerkleHash| #[trigger]
                local@.contains(h) ==> !seen@.contains(h) && exists|j: int|
                    0 <= j < i && #[trigger] chunks@[j].hash == h,
        decreases chunks@.len() - i,
    {
        let c = chunks[i];
        proof {
            lemma_novel_grows(chunks@, seen@, (i + 1) as nat, chunks@.len());
            law_novel_is_at_most_all(chunks@, seen@);
        }
        if !seen.contains(c.hash) {
            let ghost before = local@;
            if local.insert(c.hash) {
                assert(is_new(chunks@, seen@, i as int));
                n = n + c.len;
            }
            assert forall|h: MerkleHash| #[trigger] local@.contains(h) implies !seen@.contains(h)
                && exists|j: int| 0 <= j < i + 1 && #[trigger] chunks@[j].hash == h by {
                if before.contains(h) {
                    let j = choose|j: int| 0 <= j < i && #[trigger] chunks@[j].hash == h;
                    assert(chunks@[j].hash == h);
                } else {
                    assert(chunks@[i as int].hash == h);
                }
            }
        } else {
            assert forall|h: MerkleHash| #[trigger] local@.contains(h) implies !seen@.contains(h)
                && exists|j: int| 0 <= j < i + 1 && #[trigger] chunks@[j].hash == h by {
                let j = choose|j: int| 0 <= j < i && #[trigger] chunks@[j].hash == h;
                assert(chunks@[j].hash == h);
            }
        }
        i = i + 1;
    }
    n
}

proof fn lemma_novel_grows(chunks: Seq<ChunkRef>, seen: Set<MerkleHash>, a: nat, b: nat)
    requires
        a <= b,
    ensures
        novel_upto(chunks, seen, a) <= novel_upto(chunks, seen, b),
    decreases b - a,
{
    if a < b {
        lemma_novel_grows(chunks, seen, a, (b - 1) as nat);
    }
}

/// The chunks of an object have as many bytes as the object.
pub proof fn lemma_chunks_cover(data: Seq<u8>, chunks: Seq<ChunkRef>)
    requires
        chunks_of(data, chunks),
    ensures
        all_bytes(chunks) == data.len(),
{
    lemma_bytes_upto(data, chunks, chunks.len());
    assert(chunks.subrange(0, chunks.len() as int) =~= chunks);
}

proof fn lemma_bytes_upto(data: Seq<u8>, chunks: Seq<ChunkRef>, n: nat)
    requires
        chunks_of(data, chunks),
        n <= chunks.len(),
    ensures
        n > 0 ==> all_bytes(chunks.subrange(0, n as int)) == chunks[n - 1].start + chunks[n
            - 1].len,
        n == 0 ==> all_bytes(chunks.subrange(0, n as int)) == 0,
    decreases n,
{
    if n > 0 {
        let upto = chunks.subrange(0, n as int);
        lemma_bytes_upto(data, chunks, (n - 1) as nat);
        assert(upto.drop_last() =~= chunks.subrange(0, n - 1));
        assert(upto.last() == chunks[n - 1]);
        if n > 1 {
            assert(chunks[n - 1].start == chunks[n - 2].start + chunks[n - 2].len);
        }
    }
}

/// The digest that SHA-256 gives of these bytes.
pub uninterp spec fn sha256_of(bytes: Seq<u8>) -> Seq<u8>;

/// Calls `Sha256::new`, `update` with all of `data`, and `finalize`. Says that the
/// digest is a function of the bytes, and 32 bytes long.
#[verifier::external_body]
fn sha256(data: &[u8]) -> (r: Vec<u8>)
    ensures
        r@ == sha256_of(data@),
        r@.len() == 32,
{
    let mut h = Sha256::new();
    h.update(data);
    h.finalize().to_vec()
}

fn same_bytes(a: &Vec<u8>, b: &Vec<u8>) -> (r: bool)
    ensures
        r == (a@ == b@),
{
    if a.len() != b.len() {
        return false;
    }
    let mut i: usize = 0;
    while i < a.len()
        invariant
            i <= a@.len(),
            a@.len() == b@.len(),
            forall|j: int| 0 <= j < i ==> a@[j] == b@[j],
        decreases a@.len() - i,
    {
        if a[i] != b[i] {
            return false;
        }
        i = i + 1;
    }
    assert(a@ =~= b@);
    true
}

/// Bytes that one upload adds to the store.
#[derive(Clone, Copy, PartialEq, Eq, Structural, Debug)]
pub struct Cost {
    /// Where an object is stored whole, under its digest.
    pub whole: usize,
    /// Where chunks are stored.
    pub xet: usize,
}

/// What an upload of `data` in these chunks costs beside an object with digest
/// `oid` and the chunks in `seen`.
pub open spec fn upload_cost(
    data: Seq<u8>,
    digest: Seq<u8>,
    chunks: Seq<ChunkRef>,
    oid: Seq<u8>,
    seen: Set<MerkleHash>,
) -> (nat, nat) {
    (
        if digest == oid {
            0
        } else {
            data.len()
        },
        novel_bytes(chunks, seen),
    )
}

/// A store that holds one object: its digest and its chunks.
pub struct Baseline {
    pub oid: Vec<u8>,
    pub chunks: usize,
    pub seen: ChunkSet,
    /// Bytes that its distinct chunks have.
    pub stored: usize,
}

impl Baseline {
    /// Stores the first object: its chunks, each distinct one once.
    pub fn new(data: &[u8], target: usize) -> (r: Baseline)
        requires
            targetable(target),
        ensures
            r.oid@ == sha256_of(data@),
            exists|chunks: Seq<ChunkRef>| #[trigger]
                cut_for(data@, chunks, target) && r.seen@ == seen_with(Set::empty(), chunks)
                    && r.stored == novel_bytes(chunks, Set::empty()) && r.chunks == chunks.len(),
    {
        let chunks = chunk_at(data, target);
        let mut tally = Tally::new();
        assert(data@.len() == data.len());
        tally.add(data, &chunks);
        Baseline { oid: sha256(data), chunks: chunks.len(), seen: tally.seen, stored: tally.xet }
    }

    /// What an upload beside it costs.
    pub fn upload(&self, data: &[u8], target: usize) -> (r: Cost)
        requires
            targetable(target),
        ensures
            exists|chunks: Seq<ChunkRef>| #[trigger]
                cut_for(data@, chunks, target) && (r.whole as nat, r.xet as nat) == upload_cost(
                    data@,
                    sha256_of(data@),
                    chunks,
                    self.oid@,
                    self.seen@,
                ),
    {
        let chunks = chunk_at(data, target);
        self.cost(data, &sha256(data), &chunks)
    }

    /// What an upload with this digest and these chunks costs.
    pub fn cost(&self, data: &[u8], digest: &Vec<u8>, chunks: &Vec<ChunkRef>) -> (r: Cost)
        requires
            chunks_of(data@, chunks@),
        ensures
            (r.whole as nat, r.xet as nat) == upload_cost(
                data@,
                digest@,
                chunks@,
                self.oid@,
                self.seen@,
            ),
    {
        proof {
            lemma_chunks_cover(data@, chunks@);
            assert(data@.len() == data.len());
        }
        let whole: usize = if same_bytes(digest, &self.oid) {
            0
        } else {
            data.len()
        };
        Cost { whole, xet: novel(chunks, &self.seen) }
    }
}

/// What a repository costs so far.
pub struct Tally {
    pub seen: ChunkSet,
    /// Bytes of all versions.
    pub whole: usize,
    /// Bytes of the distinct chunks.
    pub xet: usize,
    /// How many distinct chunks there are.
    pub distinct: usize,
}

/// Bytes of bookkeeping that a stored chunk takes, its hash included.
pub const CHUNK_RECORD: u128 = 48;

impl Tally {
    pub open spec fn well_formed(self) -> bool {
        &&& self.seen@.finite()
        &&& self.distinct == self.seen@.len()
        &&& self.distinct <= self.xet <= self.whole
    }

    pub fn new() -> (r: Tally)
        ensures
            r.well_formed(),
            r.seen@ == Set::<MerkleHash>::empty(),
            r.whole == 0,
            r.xet == 0,
    {
        Tally { seen: ChunkSet::new(), whole: 0, xet: 0, distinct: 0 }
    }

    /// Adds a version: all of it to one count, and what is new of its chunks to the
    /// other.
    pub fn add(&mut self, data: &[u8], chunks: &Vec<ChunkRef>)
        requires
            old(self).well_formed(),
            chunks_of(data@, chunks@),
            old(self).whole + data@.len() <= usize::MAX,
        ensures
            final(self).well_formed(),
            final(self).whole == old(self).whole + data@.len(),
            final(self).xet == old(self).xet + novel_bytes(chunks@, old(self).seen@),
            final(self).seen@ == seen_with(old(self).seen@, chunks@),
    {
        let ghost before = self.seen@;
        let ghost cost = self.xet as nat;
        let ghost limit = self.whole as nat;
        proof {
            lemma_chunks_cover(data@, chunks@);
            law_novel_is_at_most_all(chunks@, before);
            assert(self.seen@ =~= seen_with(before, chunks@.subrange(0, 0)));
        }
        let mut i: usize = 0;
        while i < chunks.len()
            invariant
                i <= chunks@.len(),
                chunks_of(data@, chunks@),
                self.whole == limit,
                limit + data@.len() <= usize::MAX,
                cost <= limit,
                novel_bytes(chunks@, before) <= data@.len(),
                self.seen@.finite(),
                self.distinct == self.seen@.len(),
                self.distinct <= self.xet,
                self.xet == cost + novel_upto(chunks@, before, i as nat),
                self.seen@ == seen_with(before, chunks@.subrange(0, i as int)),
            decreases chunks@.len() - i,
        {
            let c = chunks[i];
            let ghost was = self.seen@;
            proof {
                lemma_novel_grows(chunks@, before, (i + 1) as nat, chunks@.len());
                lemma_seen_next(before, chunks@, i as int);
            }
            if self.seen.insert(c.hash) {
                assert(c.len > 0);
                self.xet = self.xet + c.len;
                self.distinct = self.distinct + 1;
            } else {
                assert(was.insert(c.hash) =~= was);
            }
            i = i + 1;
        }
        self.whole = self.whole + data.len();
        assert(chunks@.subrange(0, chunks@.len() as int) =~= chunks@);
    }

    /// What the records of the chunks take, by a rough estimate.
    pub fn metadata_bytes(&self) -> (r: u128)
        requires
            self.well_formed(),
        ensures
            r == CHUNK_RECORD * self.seen@.len(),
    {
        CHUNK_RECORD * self.distinct as u128
    }
}

proof fn lemma_seen_next(before: Set<MerkleHash>, chunks: Seq<ChunkRef>, i: int)
    requires
        0 <= i < chunks.len(),
    ensures
        seen_with(before, chunks.subrange(0, i + 1)) == seen_with(
            before,
            chunks.subrange(0, i),
        ).insert(chunks[i].hash),
        is_new(chunks, before, i) == !seen_with(before, chunks.subrange(0, i)).contains(
            chunks[i].hash,
        ),
{
    let a = chunks.subrange(0, i);
    let b = chunks.subrange(0, i + 1);
    let next = seen_with(before, b);
    let now = seen_with(before, a);
    assert forall|h: MerkleHash| #[trigger] next.contains(h) == now.insert(
        chunks[i].hash,
    ).contains(h) by {
        if exists|j: int| 0 <= j < a.len() && #[trigger] a[j].hash == h {
            let j = choose|j: int| 0 <= j < a.len() && #[trigger] a[j].hash == h;
            assert(b[j].hash == h);
        }
        if exists|j: int| 0 <= j < b.len() && #[trigger] b[j].hash == h {
            let j = choose|j: int| 0 <= j < b.len() && #[trigger] b[j].hash == h;
            if j < i {
                assert(a[j].hash == h);
            }
        }
        assert(b[i].hash == chunks[i].hash);
    }
    assert(next =~= now.insert(chunks[i].hash));
    if is_new(chunks, before, i) {
        assert forall|j: int| 0 <= j < a.len() implies #[trigger] a[j].hash != chunks[i].hash by {
            assert(chunks[j].hash != chunks[i].hash);
        }
    }
    if !now.contains(chunks[i].hash) {
        assert forall|j: int| 0 <= j < i implies #[trigger] chunks[j].hash != chunks[i].hash by {
            assert(a[j].hash == chunks[j].hash);
        }
    }
}

/// What a repository costs once a version is in it.
#[derive(Clone, Copy, PartialEq, Eq, Structural, Debug)]
pub struct Row {
    /// Bytes of the version.
    pub size: usize,
    /// Bytes of all versions so far.
    pub whole: usize,
    /// Bytes of the distinct chunks so far.
    pub xet: usize,
}

/// Bytes of the first `n` versions.
pub open spec fn whole_upto(series: Seq<Vec<u8>>, n: nat) -> nat
    decreases n,
{
    if n == 0 {
        0
    } else {
        whole_upto(series, (n - 1) as nat) + series[n - 1]@.len()
    }
}

/// The hashes in the first `n` versions, given the chunks of each.
pub open spec fn seen_upto(cuts: Seq<Seq<ChunkRef>>, n: nat) -> Set<MerkleHash>
    decreases n,
{
    if n == 0 {
        Set::empty()
    } else {
        seen_with(seen_upto(cuts, (n - 1) as nat), cuts[n - 1])
    }
}

/// Bytes that the first `n` versions add, given the chunks of each.
pub open spec fn xet_upto(cuts: Seq<Seq<ChunkRef>>, n: nat) -> nat
    decreases n,
{
    if n == 0 {
        0
    } else {
        xet_upto(cuts, (n - 1) as nat) + novel_bytes(cuts[n - 1], seen_upto(cuts, (n - 1) as nat))
    }
}

/// `row` is what version `i` and those before it cost when they are cut into these
/// chunks.
pub open spec fn row_of(
    series: Seq<Vec<u8>>,
    cuts: Seq<Seq<ChunkRef>>,
    target: usize,
    row: Row,
    i: int,
) -> bool {
    &&& cut_for(series[i]@, cuts[i], target)
    &&& row.size == series[i]@.len()
    &&& row.whole == whole_upto(series, (i + 1) as nat)
    &&& row.xet == xet_upto(cuts, (i + 1) as nat)
    &&& row.xet <= row.whole
}

/// `rows` are what a series of versions costs when it is cut into these chunks.
pub open spec fn history_of(
    series: Seq<Vec<u8>>,
    cuts: Seq<Seq<ChunkRef>>,
    target: usize,
    rows: Seq<Row>,
) -> bool {
    &&& cuts.len() == series.len() == rows.len()
    &&& forall|i: int| 0 <= i < rows.len() ==> row_of(series, cuts, target, #[trigger] rows[i], i)
}

proof fn lemma_whole_grows(series: Seq<Vec<u8>>, a: nat, b: nat)
    requires
        a <= b,
    ensures
        whole_upto(series, a) <= whole_upto(series, b),
    decreases b - a,
{
    if a < b {
        lemma_whole_grows(series, a, (b - 1) as nat);
    }
}

/// Only the chunks of the first `n` versions matter to what they cost.
pub proof fn lemma_earlier_cuts(a: Seq<Seq<ChunkRef>>, b: Seq<Seq<ChunkRef>>, n: nat)
    requires
        n <= a.len() <= b.len(),
        forall|i: int| 0 <= i < n ==> #[trigger] a[i] == b[i],
    ensures
        seen_upto(a, n) == seen_upto(b, n),
        xet_upto(a, n) == xet_upto(b, n),
    decreases n,
{
    if n > 0 {
        lemma_earlier_cuts(a, b, (n - 1) as nat);
        assert(a[n - 1] == b[n - 1]);
    }
}

/// Cuts each version of a series, and says what the repository costs after it.
pub fn history(series: &Vec<Vec<u8>>, target: usize) -> (r: Vec<Row>)
    requires
        targetable(target),
        whole_upto(series@, series@.len()) <= usize::MAX,
    ensures
        exists|cuts: Seq<Seq<ChunkRef>>| #[trigger] history_of(series@, cuts, target, r@),
{
    let mut tally = Tally::new();
    let mut rows: Vec<Row> = Vec::new();
    let ghost mut cuts: Seq<Seq<ChunkRef>> = Seq::empty();
    let mut i: usize = 0;
    while i < series.len()
        invariant
            i <= series@.len(),
            targetable(target),
            whole_upto(series@, series@.len()) <= usize::MAX,
            tally.well_formed(),
            tally.whole == whole_upto(series@, i as nat),
            tally.xet == xet_upto(cuts, i as nat),
            tally.seen@ == seen_upto(cuts, i as nat),
            cuts.len() == i,
            rows@.len() == i,
            forall|j: int| 0 <= j < i ==> row_of(series@, cuts, target, #[trigger] rows@[j], j),
        decreases series@.len() - i,
    {
        let data = series[i].as_slice();
        let chunks = chunk_at(data, target);
        let ghost before = cuts;
        let ghost earlier = rows@;
        proof {
            lemma_whole_grows(series@, (i + 1) as nat, series@.len());
            cuts = cuts.push(chunks@);
            lemma_earlier_cuts(before, cuts, i as nat);
        }
        tally.add(data, &chunks);
        rows.push(Row { size: data.len(), whole: tally.whole, xet: tally.xet });
        proof {
            assert forall|j: int| 0 <= j < i + 1 implies row_of(
                series@,
                cuts,
                target,
                #[trigger] rows@[j],
                j,
            ) by {
                if j < i {
                    assert(rows@[j] == earlier[j]);
                    assert(row_of(series@, before, target, earlier[j], j));
                    assert(before[j] == cuts[j]);
                    lemma_earlier_cuts(before, cuts, (j + 1) as nat);
                }
            }
        }
        i = i + 1;
    }
    assert(history_of(series@, cuts, target, rows@));
    rows
}

/// A chunk costs its bytes where it is not stored yet, and nothing where it is; it is stored
/// from then on, and nothing else is. No chunks cost nothing.
pub proof fn law_new_chunk_costs_its_bytes(c: ChunkRef, seen: Set<MerkleHash>)
    ensures
        novel_bytes(seq![c], seen) == if seen.contains(c.hash) {
            0
        } else {
            c.len as nat
        },
        novel_bytes(Seq::empty(), seen) == 0,
        seen_with(seen, seq![c]) == seen.insert(c.hash),
        seen_with(seen, Seq::empty()) == seen,
        all_bytes(seq![c]) == c.len,
        all_bytes(Seq::empty()) == 0,
{
    let one = seq![c];
    assert(novel_upto(one, seen, 0) == 0);
    assert(novel_upto(one, seen, 1) == novel_upto(one, seen, 0) + if is_new(one, seen, 0) {
        c.len as nat
    } else {
        0
    });
    let with = seen_with(seen, one);
    assert forall|h: MerkleHash| #[trigger] with.contains(h) == seen.insert(c.hash).contains(
        h,
    ) by {
        if h == c.hash {
            assert(one[0].hash == h);
        }
    }
    assert(with =~= seen.insert(c.hash));
    assert(seen_with(seen, Seq::empty()) =~= seen);
    assert(one.drop_last() =~= Seq::<ChunkRef>::empty());
    assert(all_bytes(one.drop_last()) == 0);
}

/// The bytes of chunks are those of the first and of the second part of them together.
pub proof fn law_bytes_of_chunks_add_up(a: Seq<ChunkRef>, b: Seq<ChunkRef>)
    ensures
        all_bytes(a + b) == all_bytes(a) + all_bytes(b),
    decreases b.len(),
{
    if b.len() == 0 {
        assert(a + b =~= a);
    } else {
        law_bytes_of_chunks_add_up(a, b.drop_last());
        assert((a + b).drop_last() =~= a + b.drop_last());
        assert((a + b).last() == b.last());
    }
}

/// An upload costs all of its bytes where objects are stored whole, unless the object is the
/// one that is there; and where chunks are stored, it costs those that are not there, each
/// once. An object whose chunks are all there costs nothing.
pub proof fn law_upload_costs_what_is_new(
    b: &Baseline,
    data: &[u8],
    digest: &Vec<u8>,
    chunks: &Vec<ChunkRef>,
    cost: Cost,
    seen: &ChunkSet,
    n: usize,
)
    requires
        chunks_of(data@, chunks@),
        call_ensures(Baseline::cost, (b, data, digest, chunks), cost),
        all_bytes(chunks@) <= usize::MAX,
        call_ensures(novel, (chunks, seen), n),
    ensures
        cost.whole == if digest@ == b.oid@ {
            0
        } else {
            data@.len()
        },
        cost.xet == novel_bytes(chunks@, b.seen@),
        cost.xet <= data@.len(),
        (forall|i: int| 0 <= i < chunks@.len() ==> b.seen@.contains(#[trigger] chunks@[i].hash))
            ==> cost.xet == 0,
        n == novel_bytes(chunks@, seen@),
{
    lemma_chunks_cover(data@, chunks@);
    law_novel_is_at_most_all(chunks@, b.seen@);
    if forall|i: int| 0 <= i < chunks@.len() ==> b.seen@.contains(#[trigger] chunks@[i].hash) {
        law_seen_chunks_cost_nothing(chunks@, b.seen@);
    }
}

/// A version that is added counts for all of its bytes, and for those of its chunks that are
/// new; every chunk is recorded once, in 48 bytes.
pub proof fn law_tally_counts_every_version(t: &Tally, m: u128)
    requires
        t.well_formed(),
        call_ensures(Tally::metadata_bytes, (t,), m),
    ensures
        m == 48 * t.seen@.len(),
        t.seen@.len() <= t.xet <= t.whole,
        forall|x: &mut Tally, data: &[u8], chunks: &Vec<ChunkRef>, r: ()| #[trigger]
            call_ensures(Tally::add, (x, data, chunks), r) && (*x).well_formed() && chunks_of(
                data@,
                chunks@,
            ) && (*x).whole + data@.len() <= usize::MAX ==> {
                &&& (*final(x)).whole == (*x).whole + data@.len()
                &&& (*final(x)).xet == (*x).xet + novel_bytes(chunks@, (*x).seen@)
                &&& forall|h: MerkleHash| #[trigger]
                    (*final(x)).seen@.contains(h) <==> (*x).seen@.contains(h) || exists|i: int|
                        0 <= i < chunks@.len() && #[trigger] chunks@[i].hash == h
            },
{
}

/// What a history costs grows with each version: by all of its bytes where versions are stored
/// whole, and by no more than that where chunks are.
pub proof fn law_history_grows_by_each_version(
    series: Seq<Vec<u8>>,
    cuts: Seq<Seq<ChunkRef>>,
    target: usize,
    rows: Seq<Row>,
    i: int,
)
    requires
        history_of(series, cuts, target, rows),
        0 <= i < rows.len(),
    ensures
        rows.len() == series.len(),
        rows[i].size == series[i]@.len(),
        rows[i].whole == (if i == 0 {
            0
        } else {
            rows[i - 1].whole as int
        }) + series[i]@.len(),
        ({
            let before = if i == 0 {
                0
            } else {
                rows[i - 1].xet as int
            };
            before <= rows[i].xet <= before + series[i]@.len()
        }),
        rows[i].xet <= rows[i].whole,
{
    assert(row_of(series, cuts, target, rows[i], i));
    lemma_chunks_cover(series[i]@, cuts[i]);
    law_novel_is_at_most_all(cuts[i], seen_upto(cuts, i as nat));
    assert(whole_upto(series, (i + 1) as nat) == whole_upto(series, i as nat) + series[i]@.len());
    assert(xet_upto(cuts, (i + 1) as nat) == xet_upto(cuts, i as nat) + novel_bytes(
        cuts[i],
        seen_upto(cuts, i as nat),
    ));
    if i > 0 {
        assert(row_of(series, cuts, target, rows[i - 1], i - 1));
    } else {
        assert(whole_upto(series, 0) == 0);
        assert(xet_upto(cuts, 0) == 0);
    }
}

/// Over a history, each distinct chunk costs its bytes once: what all versions cost is what
/// their chunks cost in one row.
pub proof fn law_history_costs_its_distinct_chunks(cuts: Seq<Seq<ChunkRef>>, n: nat)
    requires
        n <= cuts.len(),
    ensures
        xet_upto(cuts, n) == novel_bytes(all_cuts(cuts, n), Set::empty()),
        seen_upto(cuts, n) == seen_with(Set::empty(), all_cuts(cuts, n)),
    decreases n,
{
    let none = Set::<MerkleHash>::empty();
    if n == 0 {
        assert(seen_with(none, all_cuts(cuts, 0)) =~= none);
    } else {
        law_history_costs_its_distinct_chunks(cuts, (n - 1) as nat);
        law_history_stores_a_chunk_once(all_cuts(cuts, (n - 1) as nat), cuts[n - 1], none);
    }
}

/// The chunks of the first `n` versions, one behind the other.
pub open spec fn all_cuts(cuts: Seq<Seq<ChunkRef>>, n: nat) -> Seq<ChunkRef>
    decreases n,
{
    if n == 0 {
        Seq::empty()
    } else {
        all_cuts(cuts, (n - 1) as nat) + cuts[n - 1]
    }
}

/// Storing an object again costs nothing where objects are stored whole, and no more than its
/// bytes where chunks are. A baseline has no more in its chunks than the object has bytes.
pub proof fn law_same_object_costs_nothing_whole(
    data: &[u8],
    target: usize,
    b: Baseline,
    cost: Cost,
)
    requires
        call_ensures(Baseline::new, (data, target), b),
        call_ensures(Baseline::upload, (&b, data, target), cost),
    ensures
        cost.whole == 0,
        cost.xet <= data@.len(),
        b.stored <= data@.len(),
        data@.len() > 0 ==> b.chunks > 0,
{
    let chunks = choose|chunks: Seq<ChunkRef>| #[trigger]
        cut_for(data@, chunks, target) && b.seen@ == seen_with(Set::empty(), chunks) && b.stored
            == novel_bytes(chunks, Set::empty()) && b.chunks == chunks.len();
    lemma_chunks_cover(data@, chunks);
    law_novel_is_at_most_all(chunks, Set::empty());
    let again = choose|chunks: Seq<ChunkRef>| #[trigger]
        cut_for(data@, chunks, target) && (cost.whole as nat, cost.xet as nat) == upload_cost(
            data@,
            sha256_of(data@),
            chunks,
            b.oid@,
            b.seen@,
        );
    lemma_chunks_cover(data@, again);
    law_novel_is_at_most_all(again, b.seen@);
}

/// A history has a row for each version, which tells its size, the bytes of all versions so
/// far, and those of the chunks: never fewer than before, and never more than the version
/// adds.
pub proof fn law_history_tells_of_every_version(
    series: &Vec<Vec<u8>>,
    target: usize,
    rows: Vec<Row>,
    i: int,
)
    requires
        call_ensures(history, (series, target), rows),
        0 <= i < series@.len(),
    ensures
        rows@.len() == series@.len(),
        rows@[i].size == series@[i]@.len(),
        ({
            let before = if i == 0 {
                (0, 0)
            } else {
                (rows@[i - 1].whole as int, rows@[i - 1].xet as int)
            };
            &&& rows@[i].whole == before.0 + series@[i]@.len()
            &&& before.1 <= rows@[i].xet <= before.1 + series@[i]@.len()
        }),
{
    let cuts = choose|cuts: Seq<Seq<ChunkRef>>| #[trigger]
        history_of(series@, cuts, target, rows@);
    law_history_grows_by_each_version(series@, cuts, target, rows@, i);
}

} // verus!
