//! A file as a list of chunk runs.
use vstd::prelude::*;

use crate::xet::hash::MerkleHash;

verus! {

/// A run of chunks of one xorb.
#[derive(Clone, Copy, PartialEq, Eq, Structural, Debug)]
pub struct Term {
    pub xorb_hash: MerkleHash,
    pub xorb_flags: u32,
    /// Bytes of the run, uncompressed.
    pub unpacked_segment_bytes: u32,
    pub chunk_index_start: u32,
    pub chunk_index_end: u32,
}

/// Which chunks each xorb holds.
pub type Xorbs = Map<MerkleHash, Seq<MerkleHash>>;

impl Term {
    /// The chunk run of `next` begins where this one ends.
    pub open spec fn precedes(self, next: Term) -> bool {
        self.xorb_hash == next.xorb_hash && self.chunk_index_end == next.chunk_index_start
    }

    /// Both runs as one.
    pub open spec fn joined(self, next: Term) -> Term {
        Term {
            unpacked_segment_bytes: (self.unpacked_segment_bytes + next.unpacked_segment_bytes) as u32,
            chunk_index_end: next.chunk_index_end,
            ..self
        }
    }

    /// The chunks that the run names.
    pub open spec fn chunks(self, xorbs: Xorbs) -> Seq<MerkleHash> {
        xorbs[self.xorb_hash].subrange(self.chunk_index_start as int, self.chunk_index_end as int)
    }

    /// The run lies within its xorb.
    pub open spec fn lies_in(self, xorbs: Xorbs) -> bool {
        &&& xorbs.contains_key(self.xorb_hash)
        &&& self.chunk_index_start <= self.chunk_index_end <= xorbs[self.xorb_hash].len()
    }
}

/// `next` continues the last of `terms`.
pub open spec fn continues_last(terms: Seq<Term>, next: Term) -> bool {
    terms.len() > 0 && terms.last().precedes(next)
}

/// Bytes of the last run after `next` was appended to `terms`.
pub open spec fn merged_bytes(terms: Seq<Term>, next: Term) -> int {
    if continues_last(terms, next) {
        terms.last().unpacked_segment_bytes + next.unpacked_segment_bytes
    } else {
        next.unpacked_segment_bytes as int
    }
}

/// `terms` after `next` was appended: merged into the last run where it continues
/// it.
pub open spec fn pushed(terms: Seq<Term>, next: Term) -> Seq<Term> {
    if continues_last(terms, next) {
        terms.drop_last().push(terms.last().joined(next))
    } else {
        terms.push(next)
    }
}

/// `terms` with every run of the xorb that was being filled pointed at `hash`.
pub open spec fn bound(terms: Seq<Term>, hash: MerkleHash) -> Seq<Term> {
    Seq::new(
        terms.len(),
        |i: int|
            if terms[i].xorb_hash.marks() {
                Term { xorb_hash: hash, ..terms[i] }
            } else {
                terms[i]
            },
    )
}

/// The chunks that a list of runs names, in order.
pub open spec fn expanded(terms: Seq<Term>, xorbs: Xorbs) -> Seq<MerkleHash>
    decreases terms.len(),
{
    if terms.len() == 0 {
        Seq::empty()
    } else {
        expanded(terms.drop_last(), xorbs) + terms.last().chunks(xorbs)
    }
}

/// Bytes of all runs.
pub open spec fn total_bytes(terms: Seq<Term>) -> nat
    decreases terms.len(),
{
    if terms.len() == 0 {
        0
    } else {
        total_bytes(terms.drop_last()) + terms.last().unpacked_segment_bytes as nat
    }
}

/// Every run lies within its xorb.
pub open spec fn all_lie_in(terms: Seq<Term>, xorbs: Xorbs) -> bool {
    forall|i: int| #![trigger terms[i]] 0 <= i < terms.len() ==> terms[i].lies_in(xorbs)
}

pub fn continues(last: &Term, next: &Term) -> (r: bool)
    ensures
        r == last.precedes(*next),
{
    last.xorb_hash == next.xorb_hash && last.chunk_index_end == next.chunk_index_start
}

/// Appends a term, merging it into the previous one when the chunk run continues.
/// Returns whether it merged.
pub fn push_term(terms: &mut Vec<Term>, next: Term) -> (merged: bool)
    requires
        merged_bytes(old(terms)@, next) <= u32::MAX,
    ensures
        final(terms)@ == pushed(old(terms)@, next),
        merged == continues_last(old(terms)@, next),
{
    let n: usize = terms.len();
    if n > 0 {
        let last = terms[n - 1];
        if continues(&last, &next) {
            terms.set(
                n - 1,
                Term {
                    xorb_hash: last.xorb_hash,
                    xorb_flags: last.xorb_flags,
                    unpacked_segment_bytes: last.unpacked_segment_bytes
                        + next.unpacked_segment_bytes,
                    chunk_index_start: last.chunk_index_start,
                    chunk_index_end: next.chunk_index_end,
                },
            );
            assert(terms@ =~= pushed(old(terms)@, next));
            return true;
        }
    }
    terms.push(next);
    false
}

/// Points every term still under the marker hash at the xorb just written.
pub fn bind_marker(terms: &mut Vec<Term>, hash: MerkleHash)
    ensures
        final(terms)@ == bound(old(terms)@, hash),
{
    let n: usize = terms.len();
    let mut i: usize = 0;
    let marker = MerkleHash::marker();
    let ghost start = terms@;
    while i < n
        invariant
            i <= n,
            n == terms@.len(),
            n == start.len(),
            marker.marks(),
            forall|j: int| 0 <= j < i ==> #[trigger] terms@[j] == bound(start, hash)[j],
            forall|j: int| i <= j < n ==> #[trigger] terms@[j] == start[j],
        decreases n - i,
    {
        let t = terms[i];
        if t.xorb_hash == marker {
            terms.set(
                i,
                Term {
                    xorb_hash: hash,
                    xorb_flags: t.xorb_flags,
                    unpacked_segment_bytes: t.unpacked_segment_bytes,
                    chunk_index_start: t.chunk_index_start,
                    chunk_index_end: t.chunk_index_end,
                },
            );
        }
        i = i + 1;
    }
    assert(terms@ =~= bound(start, hash));
}

/// Merging runs leaves out no chunk, adds none and reorders none.
pub proof fn law_pushing_appends_the_run(terms: Seq<Term>, next: Term, xorbs: Xorbs)
    requires
        all_lie_in(terms, xorbs),
        next.lies_in(xorbs),
    ensures
        expanded(pushed(terms, next), xorbs) == expanded(terms, xorbs) + next.chunks(xorbs),
        all_lie_in(pushed(terms, next), xorbs),
{
    if continues_last(terms, next) {
        let last = terms.last();
        let merged = last.joined(next);
        assert(last == terms[terms.len() - 1]);
        let all = pushed(terms, next);
        assert(all.drop_last() =~= terms.drop_last());
        assert(merged.chunks(xorbs) =~= last.chunks(xorbs) + next.chunks(xorbs));
        assert(expanded(all, xorbs) =~= expanded(terms, xorbs) + next.chunks(xorbs));
        assert forall|i: int| #![trigger all[i]] 0 <= i < all.len() implies all[i].lies_in(xorbs) by {
            if i < terms.len() - 1 {
                assert(all[i] == terms[i]);
            }
        }
    } else {
        assert(terms.push(next).drop_last() =~= terms);
        let all = pushed(terms, next);
        assert forall|i: int| #![trigger all[i]] 0 <= i < all.len() implies all[i].lies_in(xorbs) by {
            if i < terms.len() {
                assert(all[i] == terms[i]);
            }
        }
    }
}

/// Merging runs keeps the number of bytes.
pub proof fn law_pushing_adds_the_bytes(terms: Seq<Term>, next: Term)
    requires
        merged_bytes(terms, next) <= u32::MAX,
    ensures
        total_bytes(pushed(terms, next)) == total_bytes(terms) + next.unpacked_segment_bytes,
{
    if continues_last(terms, next) {
        assert(pushed(terms, next).drop_last() =~= terms.drop_last());
    } else {
        assert(terms.push(next).drop_last() =~= terms);
    }
}

/// Runs of the xorb being filled name the same chunks after they are bound to its
/// hash, and all other runs are left alone.
pub proof fn law_binding_keeps_the_chunks(
    terms: Seq<Term>,
    hash: MerkleHash,
    marker: MerkleHash,
    pending: Seq<MerkleHash>,
    xorbs: Xorbs,
)
    requires
        marker.marks(),
        xorbs.contains_key(hash),
        xorbs[hash] == pending,
        all_lie_in(terms, xorbs.insert(marker, pending)),
    ensures
        expanded(bound(terms, hash), xorbs) == expanded(terms, xorbs.insert(marker, pending)),
        all_lie_in(bound(terms, hash), xorbs),
    decreases terms.len(),
{
    let with = xorbs.insert(marker, pending);
    let out = bound(terms, hash);
    if terms.len() > 0 {
        let front = terms.drop_last();
        assert forall|i: int| #![trigger front[i]] 0 <= i < front.len() implies front[i].lies_in(
            with,
        ) by {
            assert(front[i] == terms[i]);
        }
        law_binding_keeps_the_chunks(front, hash, marker, pending, xorbs);
        assert(out.drop_last() =~= bound(front, hash));
        let t = terms[terms.len() - 1];
        assert(t.lies_in(with));
        assert(out.last().chunks(xorbs) =~= t.chunks(with));
        assert forall|i: int| #![trigger out[i]] 0 <= i < out.len() implies out[i].lies_in(
            xorbs,
        ) by {
            assert(terms[i].lies_in(with));
        }
    }
}

/// Binding changes no run's size.
pub proof fn law_binding_keeps_the_bytes(terms: Seq<Term>, hash: MerkleHash)
    ensures
        total_bytes(bound(terms, hash)) == total_bytes(terms),
    decreases terms.len(),
{
    if terms.len() > 0 {
        law_binding_keeps_the_bytes(terms.drop_last(), hash);
        assert(bound(terms, hash).drop_last() =~= bound(terms.drop_last(), hash));
    }
}

/// A run is merged into the last one exactly where it goes on in the same xorb with the chunk
/// behind it. Either way the runs before are left alone, and no run is lost.
pub proof fn law_runs_are_merged_where_they_continue(terms: Seq<Term>, next: Term)
    ensures
        ({
            let out = pushed(terms, next);
            let merges = terms.len() > 0 && terms.last().xorb_hash == next.xorb_hash
                && terms.last().chunk_index_end == next.chunk_index_start;
            &&& continues_last(terms, next) == merges
            &&& out.len() == terms.len() + if merges {
                0int
            } else {
                1
            }
            &&& forall|i: int|
                0 <= i < terms.len() - (if merges {
                    1int
                } else {
                    0
                }) ==> #[trigger] out[i] == terms[i]
            &&& !merges ==> out.last() == next
            &&& merges ==> {
                &&& out.last().xorb_hash == next.xorb_hash
                &&& out.last().chunk_index_start == terms.last().chunk_index_start
                &&& out.last().chunk_index_end == next.chunk_index_end
                &&& out.last().xorb_flags == terms.last().xorb_flags
                &&& terms.last().unpacked_segment_bytes + next.unpacked_segment_bytes
                    <= 0xffff_ffff ==> out.last().unpacked_segment_bytes
                    == terms.last().unpacked_segment_bytes + next.unpacked_segment_bytes
            }
        }),
{
}

/// Binding points the runs of the xorb that was being filled at its hash, and changes nothing
/// else of them nor anything of the others.
pub proof fn law_only_marked_runs_are_bound(terms: Seq<Term>, hash: MerkleHash, i: int)
    requires
        0 <= i < terms.len(),
    ensures
        bound(terms, hash).len() == terms.len(),
        ({
            let (t, u) = (terms[i], bound(terms, hash)[i]);
            let h = t.xorb_hash;
            let marked = h.w0 == u64::MAX && h.w1 == u64::MAX && h.w2 == u64::MAX && h.w3
                == u64::MAX;
            &&& u.xorb_hash == if marked {
                hash
            } else {
                t.xorb_hash
            }
            &&& u.xorb_flags == t.xorb_flags
            &&& u.unpacked_segment_bytes == t.unpacked_segment_bytes
            &&& u.chunk_index_start == t.chunk_index_start
            &&& u.chunk_index_end == t.chunk_index_end
        }),
{
}

/// The same of the calls: two runs are one where the second goes on in the same xorb with the
/// chunk behind the first.
pub proof fn law_continuation_is_seen(last: &Term, next: &Term, r: bool, hash: MerkleHash)
    requires
        call_ensures(continues, (last, next), r),
    ensures
        r <==> last.xorb_hash == next.xorb_hash && last.chunk_index_end == next.chunk_index_start,
        forall|terms: &mut Vec<Term>, merged: bool| #[trigger]
            call_ensures(push_term, (terms, *next), merged) && merged_bytes((*terms)@, *next)
                <= u32::MAX ==> {
                let before = (*terms)@;
                let after = (*final(terms))@;
                &&& merged <==> before.len() > 0 && before.last().xorb_hash == next.xorb_hash
                    && before.last().chunk_index_end == next.chunk_index_start
                &&& after.len() == before.len() + if merged {
                    0int
                } else {
                    1
                }
                &&& after.last().chunk_index_end == next.chunk_index_end
                &&& total_bytes(after) == total_bytes(before) + next.unpacked_segment_bytes
            },
        forall|terms: &mut Vec<Term>, u: ()| #[trigger]
            call_ensures(bind_marker, (terms, hash), u) ==> {
                &&& (*final(terms))@.len() == (*terms)@.len()
                &&& forall|i: int|
                    0 <= i < (*terms)@.len() ==> (#[trigger] (*final(terms))@[i]).xorb_hash == if (
                    *terms)@[i].xorb_hash.marks() {
                        hash
                    } else {
                        (*terms)@[i].xorb_hash
                    }
            },
{
    assert forall|terms: &mut Vec<Term>, merged: bool| #[trigger]
        call_ensures(push_term, (terms, *next), merged) && merged_bytes((*terms)@, *next)
            <= u32::MAX implies {
        let before = (*terms)@;
        let after = (*final(terms))@;
        &&& merged <==> before.len() > 0 && before.last().xorb_hash == next.xorb_hash
            && before.last().chunk_index_end == next.chunk_index_start
        &&& after.len() == before.len() + if merged {
            0int
        } else {
            1
        }
        &&& after.last().chunk_index_end == next.chunk_index_end
        &&& total_bytes(after) == total_bytes(before) + next.unpacked_segment_bytes
    } by {
        law_pushing_adds_the_bytes((*terms)@, *next);
    }
}

} // verus!
