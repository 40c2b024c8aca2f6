//! A set of hashes.
use std::collections::HashMap;

use vstd::prelude::*;

use crate::xet::hash::MerkleHash;

verus! {

broadcast use vstd::std_specs::hash::group_hash_axioms;

/// A set of hashes. They are spread by their first word; those that share it stand
/// in one bucket.
pub struct ChunkSet {
    pub buckets: HashMap<u64, Vec<MerkleHash>>,
}

impl View for ChunkSet {
    type V = Set<MerkleHash>;

    open spec fn view(&self) -> Set<MerkleHash> {
        Set::new(
            |h: MerkleHash|
                self.buckets@.contains_key(h.w0) && self.buckets@[h.w0]@.contains(h),
        )
    }
}

fn find(bucket: &Vec<MerkleHash>, h: MerkleHash) -> (r: bool)
    ensures
        r == bucket@.contains(h),
{
    let mut i: usize = 0;
    while i < bucket.len()
        invariant
            i <= bucket@.len(),
            forall|j: int| 0 <= j < i ==> bucket@[j] != h,
        decreases bucket@.len() - i,
    {
        if bucket[i] == h {
            assert(bucket@[i as int] == h);
            return true;
        }
        i = i + 1;
    }
    false
}

impl ChunkSet {
    pub fn new() -> (r: ChunkSet)
        ensures
            r@ == Set::<MerkleHash>::empty(),
    {
        let r = ChunkSet { buckets: HashMap::new() };
        assert(r@ =~= Set::<MerkleHash>::empty());
        r
    }

    pub fn contains(&self, h: MerkleHash) -> (r: bool)
        ensures
            r == self@.contains(h),
    {
        match self.buckets.get(&h.w0) {
            Some(bucket) => find(bucket, h),
            None => false,
        }
    }

    /// Adds a hash. Returns whether it is new.
    pub fn insert(&mut self, h: MerkleHash) -> (r: bool)
        ensures
            r == !old(self)@.contains(h),
            final(self)@ == old(self)@.insert(h),
    {
        if self.contains(h) {
            assert(self@ =~= old(self)@.insert(h));
            return false;
        }
        let ghost before = self.buckets@;
        let mut bucket: Vec<MerkleHash> = match self.buckets.remove(&h.w0) {
            Some(bucket) => bucket,
            None => Vec::new(),
        };
        let ghost was = bucket@;
        bucket.push(h);
        let ghost now = bucket@;
        self.buckets.insert(h.w0, bucket);
        proof {
            assert(now[now.len() - 1] == h);
            assert forall|x: MerkleHash| #[trigger] self@.contains(x) == old(self)@.insert(
                h,
            ).contains(x) by {
                if x.w0 == h.w0 {
                    if was.contains(x) {
                        let i = choose|i: int| 0 <= i < was.len() && was[i] == x;
                        assert(now[i] == x);
                    }
                    if now.contains(x) && x != h {
                        let i = choose|i: int| 0 <= i < now.len() && now[i] == x;
                        assert(was[i] == x);
                    }
                }
            }
            assert(self@ =~= old(self)@.insert(h));
        }
        true
    }
}

/// A set holds what was put into it and nothing else, and says of each hash once that it is
/// new.
pub proof fn law_set_holds_what_was_put_in(s: &ChunkSet, h: MerkleHash, has: bool, e: ChunkSet)
    requires
        call_ensures(ChunkSet::contains, (s, h), has),
        call_ensures(ChunkSet::new, (), e),
    ensures
        has <==> s@.contains(h),
        forall|x: MerkleHash| !#[trigger] e@.contains(x),
        forall|t: &mut ChunkSet, new: bool| #[trigger]
            call_ensures(ChunkSet::insert, (t, h), new) ==> {
                &&& new <==> !(*t)@.contains(h)
                &&& forall|x: MerkleHash| #[trigger]
                    (*final(t))@.contains(x) <==> (*t)@.contains(x) || x == h
            },
{
}

} // verus!
