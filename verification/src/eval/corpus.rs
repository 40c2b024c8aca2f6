//! A corpus of conversations that share their head and diverge into turns of their
//! own, and what it costs to store it.
use vstd::prelude::*;
use vstd::utf8::encode_utf8;

use crate::eval::cost::{
    all_bytes, all_cuts, law_history_costs_its_distinct_chunks, law_history_stores_a_chunk_once,
    law_new_chunk_costs_its_bytes, lemma_chunks_cover, lemma_earlier_cuts, novel_bytes, seen_upto,
    seen_with, xet_upto, Tally,
};
use crate::eval::shapes::{conversation, conversation_of};
use crate::xet::chunk::{chunk_at, cut_for, targetable, ChunkRef};
use crate::xet::hash::MerkleHash;

verus! {

/// The seed of the first conversation; each that follows has the next.
pub const FIRST_SEED: u64 = 1000;

/// What a corpus costs.
pub struct Corpus {
    pub tally: Tally,
    /// How many chunks its conversations have, each time one occurs.
    pub chunks: usize,
    /// Bytes of the last conversation.
    pub one: usize,
}

/// Conversation `i` of a corpus.
pub open spec fn member(head: Seq<char>, turns: nat, turn_bytes: nat, i: int) -> Seq<u8> {
    encode_utf8(conversation_of(head, (FIRST_SEED + i) as u64, turns, turn_bytes))
}

/// Bytes of the first `n` conversations.
pub open spec fn said_upto(head: Seq<char>, turns: nat, turn_bytes: nat, n: nat) -> nat
    decreases n,
{
    if n == 0 {
        0
    } else {
        said_upto(head, turns, turn_bytes, (n - 1) as nat) + member(
            head,
            turns,
            turn_bytes,
            n - 1,
        ).len()
    }
}

/// How many chunks the first `n` conversations have, given those of each.
pub open spec fn chunks_upto(cuts: Seq<Seq<ChunkRef>>, n: nat) -> nat
    decreases n,
{
    if n == 0 {
        0
    } else {
        chunks_upto(cuts, (n - 1) as nat) + cuts[n - 1].len()
    }
}

/// `c` is what the first `n` conversations cost when they are cut into these chunks.
pub open spec fn costs(
    c: Corpus,
    cuts: Seq<Seq<ChunkRef>>,
    head: Seq<char>,
    n: nat,
    turns: nat,
    turn_bytes: nat,
    target: usize,
) -> bool {
    &&& cuts.len() == n
    &&& forall|i: int|
        0 <= i < n ==> cut_for(member(head, turns, turn_bytes, i), #[trigger] cuts[i], target)
    &&& c.tally.well_formed()
    &&& c.tally.whole == said_upto(head, turns, turn_bytes, n)
    &&& c.tally.xet == xet_upto(cuts, n)
    &&& c.tally.seen@ == seen_upto(cuts, n)
    &&& c.chunks == chunks_upto(cuts, n)
    &&& c.one == if n == 0 {
        0
    } else {
        member(head, turns, turn_bytes, n - 1).len()
    }
}

proof fn lemma_said_grows(head: Seq<char>, turns: nat, turn_bytes: nat, a: nat, b: nat)
    requires
        a <= b,
    ensures
        said_upto(head, turns, turn_bytes, a) <= said_upto(head, turns, turn_bytes, b),
    decreases b - a,
{
    if a < b {
        lemma_said_grows(head, turns, turn_bytes, a, (b - 1) as nat);
    }
}

proof fn lemma_earlier_chunks(a: Seq<Seq<ChunkRef>>, b: Seq<Seq<ChunkRef>>, n: nat)
    requires
        n <= a.len() <= b.len(),
        forall|i: int| 0 <= i < n ==> #[trigger] a[i] == b[i],
    ensures
        chunks_upto(a, n) == chunks_upto(b, n),
    decreases n,
{
    if n > 0 {
        lemma_earlier_chunks(a, b, (n - 1) as nat);
        assert(a[n - 1] == b[n - 1]);
    }
}

/// No chunk is empty, so there are at most as many as bytes.
proof fn lemma_at_most_bytes(chunks: Seq<ChunkRef>)
    requires
        forall|i: int| 0 <= i < chunks.len() ==> (#[trigger] chunks[i]).len > 0,
    ensures
        chunks.len() <= all_bytes(chunks),
    decreases chunks.len(),
{
    if chunks.len() > 0 {
        lemma_at_most_bytes(chunks.drop_last());
    }
}

/// What `count` conversations cost, each cut with this target for its chunks. `None`
/// where their bytes are too many to count.
pub fn corpus(
    head: &str,
    count: u64,
    turns: usize,
    turn_bytes: usize,
    target: usize,
) -> (r: Option<Corpus>)
    requires
        targetable(target),
        turn_bytes <= usize::MAX - 16,
        count <= u64::MAX - FIRST_SEED,
    ensures
        r is None <==> said_upto(head@, turns as nat, turn_bytes as nat, count as nat)
            > usize::MAX,
        r is Some ==> exists|cuts: Seq<Seq<ChunkRef>>| #[trigger]
            costs(
                r->Some_0,
                cuts,
                head@,
                count as nat,
                turns as nat,
                turn_bytes as nat,
                target,
            ),
{
    let mut tally = Tally::new();
    let mut all: usize = 0;
    let mut one: usize = 0;
    let ghost mut cuts: Seq<Seq<ChunkRef>> = Seq::empty();
    let mut i: u64 = 0;
    while i < count
        invariant
            i <= count,
            targetable(target),
            turn_bytes <= usize::MAX - 16,
            count <= u64::MAX - FIRST_SEED,
            cuts.len() == i,
            forall|j: int|
                0 <= j < i ==> cut_for(
                    member(head@, turns as nat, turn_bytes as nat, j),
                    #[trigger] cuts[j],
                    target,
                ),
            tally.well_formed(),
            tally.whole == said_upto(head@, turns as nat, turn_bytes as nat, i as nat),
            tally.xet == xet_upto(cuts, i as nat),
            tally.seen@ == seen_upto(cuts, i as nat),
            all == chunks_upto(cuts, i as nat),
            all <= tally.whole,
            one == if i == 0 {
                0
            } else {
                member(head@, turns as nat, turn_bytes as nat, i - 1).len()
            },
        decreases count - i,
    {
        let text = conversation(head, FIRST_SEED + i, turns, turn_bytes);
        let data = text.as_str().as_bytes();
        let ghost bytes = member(head@, turns as nat, turn_bytes as nat, i as int);
        assert(data@ == bytes);
        proof {
            lemma_said_grows(
                head@,
                turns as nat,
                turn_bytes as nat,
                (i + 1) as nat,
                count as nat,
            );
        }
        if data.len() > usize::MAX - tally.whole {
            return None;
        }
        let chunks = chunk_at(data, target);
        let ghost before = cuts;
        proof {
            cuts = cuts.push(chunks@);
            lemma_earlier_cuts(before, cuts, i as nat);
            lemma_earlier_chunks(before, cuts, i as nat);
            lemma_chunks_cover(data@, chunks@);
            lemma_at_most_bytes(chunks@);
        }
        tally.add(data, &chunks);
        all = all + chunks.len();
        one = data.len();
        i = i + 1;
    }
    let c = Corpus { tally, chunks: all, one };
    assert(costs(
        c,
        cuts,
        head@,
        count as nat,
        turns as nat,
        turn_bytes as nat,
        target,
    ));
    let r = Some(c);
    assert(r->Some_0 == c);
    r
}

/// A corpus costs what its conversations say, one after the other, each from the next seed.
pub proof fn law_corpus_is_its_conversations(
    head: Seq<char>,
    turns: nat,
    turn_bytes: nat,
    n: nat,
)
    ensures
        said_upto(head, turns, turn_bytes, n + 1) == said_upto(head, turns, turn_bytes, n)
            + encode_utf8(
            conversation_of(head, (1000 + n) as u64, turns, turn_bytes),
        ).len(),
        said_upto(head, turns, turn_bytes, 0) == 0,
{
}

/// What is said of a corpus is what all of its conversations come to: it takes no more bytes
/// in chunks than whole, every distinct chunk is recorded once, and there are no more distinct
/// chunks than chunks.
pub proof fn law_corpus_costs_no_more_in_chunks(
    c: Corpus,
    cuts: Seq<Seq<ChunkRef>>,
    head: Seq<char>,
    n: nat,
    turns: nat,
    turn_bytes: nat,
    target: usize,
)
    requires
        costs(c, cuts, head, n, turns, turn_bytes, target),
    ensures
        c.tally.xet <= c.tally.whole,
        c.tally.whole == said_upto(head, turns, turn_bytes, n),
        c.tally.xet == novel_bytes(all_cuts(cuts, n), Set::empty()),
        c.chunks == all_cuts(cuts, n).len(),
{
    law_history_costs_its_distinct_chunks(cuts, n);
    lemma_chunks_counted(cuts, n);
}

proof fn lemma_chunks_counted(cuts: Seq<Seq<ChunkRef>>, n: nat)
    ensures
        chunks_upto(cuts, n) == all_cuts(cuts, n).len(),
    decreases n,
{
    if n > 0 {
        lemma_chunks_counted(cuts, (n - 1) as nat);
    }
}

/// The cost of a corpus is told wherever its bytes can be counted. It tells the bytes of all
/// conversations, no more in chunks than that, and the bytes of the last one.
pub proof fn law_corpus_is_counted_where_it_can_be(
    head: &str,
    count: u64,
    turns: usize,
    turn_bytes: usize,
    target: usize,
    r: Option<Corpus>,
)
    requires
        call_ensures(corpus, (head, count, turns, turn_bytes, target), r),
        count <= u64::MAX - 1000,
    ensures
        r is Some <==> said_upto(head@, turns as nat, turn_bytes as nat, count as nat)
            <= usize::MAX,
        r matches Some(c) ==> {
            &&& c.tally.whole == said_upto(head@, turns as nat, turn_bytes as nat, count as nat)
            &&& c.tally.xet <= c.tally.whole
            &&& c.tally.distinct <= c.chunks
            &&& count == 0 ==> c.one == 0
            &&& count > 0 ==> c.one == encode_utf8(
                conversation_of(
                    head@,
                    (999 + count) as u64,
                    turns as nat,
                    turn_bytes as nat,
                ),
            ).len()
        },
{
    if let Some(c) = r {
        let n = count as nat;
        assert(r->Some_0 == c);
        let cuts = choose|cuts: Seq<Seq<ChunkRef>>| #[trigger]
            costs(r->Some_0, cuts, head@, n, turns as nat, turn_bytes as nat, target);
        law_corpus_costs_no_more_in_chunks(
            c,
            cuts,
            head@,
            n,
            turns as nat,
            turn_bytes as nat,
            target,
        );
        law_history_costs_its_distinct_chunks(cuts, n);
        lemma_distinct_at_most_all(all_cuts(cuts, n));
    }
}

proof fn lemma_distinct_at_most_all(chunks: Seq<ChunkRef>)
    ensures
        seen_with(Set::empty(), chunks).finite(),
        seen_with(Set::empty(), chunks).len() <= chunks.len(),
    decreases chunks.len(),
{
    let none = Set::<MerkleHash>::empty();
    if chunks.len() == 0 {
        assert(seen_with(none, chunks) =~= none);
    } else {
        let front = chunks.drop_last();
        let last = seq![chunks.last()];
        lemma_distinct_at_most_all(front);
        law_history_stores_a_chunk_once(front, last, none);
        law_new_chunk_costs_its_bytes(chunks.last(), seen_with(none, front));
        assert(front + last =~= chunks);
    }
}

} // verus!
