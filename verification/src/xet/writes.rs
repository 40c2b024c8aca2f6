//! The writes that storing an object takes, in their order, and what a store that fails
//! between two of them leaves behind.
use vstd::prelude::*;

use crate::store::{PutMode, Version};
use crate::xet::hash::{law_keys_differ, xorb_key, xorb_path, MerkleHash};
use crate::xet::history::runs_readable;
use crate::xet::loading::{created, law_storing_changes_no_other_object, loaded, Blobs};
use crate::xet::pack::Stored;
use crate::xet::repo::{
    home, law_keys_lie_under_one_prefix, shard_key, shard_mode, shard_path, xorb_mode,
};
use crate::xet::terms::Term;

verus! {

/// A write that storing an object takes.
pub enum StoreWrite {
    /// Of the xorb with this number.
    Xorb { at: usize, key: String, mode: PutMode },
    Shard { key: String, mode: PutMode },
}

/// The write that follows once `done` of them are done: the xorbs one after the other, and
/// the shard last, so that it names nothing that is not there. `version` is that of the
/// shard which the object was packed by.
pub fn next_write(stored: &Stored, version: &Option<Version>, done: usize) -> (r: Option<
    StoreWrite,
>)
    ensures
        if done < stored.xorbs@.len() {
            r matches Some(StoreWrite::Xorb { at, key, mode }) && at == done && key@ == xorb_path(
                stored.xorbs@[done as int].packed.hash,
            ) && mode is Create
        } else if done == stored.xorbs@.len() {
            r matches Some(StoreWrite::Shard { key, mode }) && key@ == shard_path()
                && match *version {
                Some(v) => mode == PutMode::Update(v),
                None => mode is Create,
            }
        } else {
            r is None
        },
{
    let count: usize = stored.xorbs.len();
    if done < count {
        let key = xorb_key(stored.xorbs[done].packed.hash);
        Some(StoreWrite::Xorb { at: done, key, mode: xorb_mode() })
    } else if done == count {
        Some(StoreWrite::Shard { key: shard_key(), mode: shard_mode(version) })
    } else {
        None
    }
}

/// The bytes of the objects in a store, by their keys.
pub type Held = Map<Seq<char>, Seq<u8>>;

/// What a store holds after the first `n` writes. A xorb whose key is taken is left as it
/// is.
pub open spec fn after_writes(objects: Held, out: Stored, shard: Seq<u8>, n: nat) -> Held
    decreases n,
{
    if n == 0 {
        objects
    } else {
        let before = after_writes(objects, out, shard, (n - 1) as nat);
        if n <= out.xorbs@.len() {
            let key = xorb_path(out.xorbs@[n - 1].packed.hash);
            if before.contains_key(key) {
                before
            } else {
                before.insert(key, out.xorbs@[n - 1].packed.bytes@)
            }
        } else if n == out.xorbs@.len() + 1 {
            before.insert(shard_path(), shard)
        } else {
            before
        }
    }
}

/// The xorbs among the objects of a store.
pub open spec fn xorbs_of(objects: Held) -> Blobs {
    Map::new(
        |h: MerkleHash| objects.contains_key(xorb_path(h)),
        |h: MerkleHash| objects[xorb_path(h)],
    )
}

/// The shard is no xorb.
proof fn lemma_shard_is_no_xorb(h: MerkleHash)
    ensures
        xorb_path(h) != shard_path(),
{
    law_keys_lie_under_one_prefix(h);
    reveal_strlit("lfs/xet/shard");
    reveal_strlit("lfs/xet/xorbs/");
    assert(xorb_path(h)[8] == 'x');
    assert(shard_path()[8] == 's');
}

/// A key that was there has what it had.
pub open spec fn unchanged(before: Held, after: Held, key: Seq<char>) -> bool {
    &&& after.contains_key(key) == before.contains_key(key)
    &&& before.contains_key(key) ==> after[key] == before[key]
}

proof fn lemma_writes(objects: Held, out: Stored, shard: Seq<u8>, n: nat)
    requires
        n <= out.xorbs@.len(),
    ensures
        unchanged(objects, after_writes(objects, out, shard, n), shard_path()),
        forall|key: Seq<char>| #[trigger]
            objects.contains_key(key) ==> unchanged(
                objects,
                after_writes(objects, out, shard, n),
                key,
            ),
        forall|key: Seq<char>| #[trigger]
            after_writes(objects, out, shard, n).contains_key(key) && !objects.contains_key(key)
                ==> home().is_prefix_of(key),
        xorbs_of(after_writes(objects, out, shard, n)) == created(
            xorbs_of(objects),
            out.xorbs@,
            n,
        ),
    decreases n,
{
    if n > 0 {
        lemma_writes(objects, out, shard, (n - 1) as nat);
        let before = after_writes(objects, out, shard, (n - 1) as nat);
        let after = after_writes(objects, out, shard, n);
        let hash = out.xorbs@[n - 1].packed.hash;
        lemma_shard_is_no_xorb(hash);
        law_keys_lie_under_one_prefix(hash);
        assert forall|key: Seq<char>| #[trigger] objects.contains_key(key) implies unchanged(
            objects,
            after,
            key,
        ) by {
            assert(unchanged(objects, before, key));
        }
        assert forall|key: Seq<char>| #[trigger] after.contains_key(key) && !objects.contains_key(
            key,
        ) implies home().is_prefix_of(key) by {
            if key != xorb_path(hash) {
                assert(before.contains_key(key));
            }
        }
        assert forall|h: MerkleHash| xorb_path(h) == #[trigger] xorb_path(hash) implies h
            == hash by {
            law_keys_differ(h, hash);
        }
        let now = xorbs_of(after);
        let made = created(xorbs_of(objects), out.xorbs@, n);
        assert forall|h: MerkleHash| #![trigger now.contains_key(h)] now.contains_key(h)
            == made.contains_key(h) && (now.contains_key(h) ==> now[h] == made[h]) by {
            law_keys_differ(h, hash);
            assert(xorbs_of(before).contains_key(h) == before.contains_key(xorb_path(h)));
        }
        assert(now =~= made);
    } else {
        assert(xorbs_of(objects) =~= created(xorbs_of(objects), out.xorbs@, 0));
    }
}

/// A store that fails leaves the repository as it was: the shard is written last, so before
/// that it is the same and names the same files; no object of the store is changed, what is
/// new lies under one prefix, and every run that could be read is read as the same bytes.
/// Once all writes are done, the shard is the new one and nothing else was changed.
pub proof fn law_shard_is_written_last(
    objects: Held,
    out: Stored,
    shard: Seq<u8>,
    n: nat,
    terms: Seq<Term>,
)
    requires
        n <= out.xorbs@.len() + 1,
        runs_readable(terms, xorbs_of(objects)),
    ensures
        ({
            let after = after_writes(objects, out, shard, n);
            &&& if n <= out.xorbs@.len() {
                unchanged(objects, after, shard_path())
            } else {
                after.contains_key(shard_path()) && after[shard_path()] == shard
            }
            &&& forall|key: Seq<char>| #[trigger]
                objects.contains_key(key) && key != shard_path() ==> unchanged(objects, after, key)
            &&& forall|key: Seq<char>| #[trigger]
                after.contains_key(key) && !objects.contains_key(key) ==> home().is_prefix_of(key)
            &&& runs_readable(terms, xorbs_of(after))
            &&& loaded(terms, xorbs_of(after)) == loaded(terms, xorbs_of(objects))
        }),
{
    let count = out.xorbs@.len();
    let m = if n <= count {
        n
    } else {
        count
    };
    let before = after_writes(objects, out, shard, m);
    let after = after_writes(objects, out, shard, n);
    lemma_writes(objects, out, shard, m);
    law_storing_changes_no_other_object(terms, xorbs_of(objects), out.xorbs@, m);
    if n > count {
        law_keys_lie_under_one_prefix(MerkleHash { w0: 0, w1: 0, w2: 0, w3: 0 });
        assert forall|key: Seq<char>| #[trigger] objects.contains_key(key) && key
            != shard_path() implies unchanged(objects, after, key) by {
            assert(unchanged(objects, before, key));
        }
        assert forall|key: Seq<char>| #[trigger] after.contains_key(key) && !objects.contains_key(
            key,
        ) implies home().is_prefix_of(key) by {
            if key != shard_path() {
                assert(before.contains_key(key));
            }
        }
        assert forall|h: MerkleHash| #![trigger xorb_path(h)] after.contains_key(xorb_path(h))
            == before.contains_key(xorb_path(h)) && (before.contains_key(xorb_path(h))
            ==> after[xorb_path(h)] == before[xorb_path(h)]) by {
            lemma_shard_is_no_xorb(h);
        }
        assert(xorbs_of(after) =~= xorbs_of(before));
    }
}

/// The writes of a store call come in this order: each xorb once and under its own key, only
/// where there is none of that name, then the shard, on condition that it still is the one the
/// object was packed by, and then none.
pub proof fn law_writes_come_in_order(
    stored: &Stored,
    version: &Option<Version>,
    done: usize,
    r: Option<StoreWrite>,
    key: String,
    hash: MerkleHash,
)
    requires
        call_ensures(next_write, (stored, version, done), r),
        done < stored.xorbs@.len() ==> hash == stored.xorbs@[done as int].packed.hash,
        call_ensures(xorb_key, (hash,), key),
    ensures
        r is None <==> done > stored.xorbs@.len(),
        r matches Some(StoreWrite::Xorb { at, key: k, mode }) ==> done < stored.xorbs@.len() && at
            == done && k@ == key@ && mode is Create,
        r matches Some(StoreWrite::Shard { key: k, mode }) ==> {
            &&& done == stored.xorbs@.len()
            &&& k@ == "lfs/xet/shard"@
            &&& mode is Create <==> *version is None
            &&& *version matches Some(v) ==> mode == PutMode::Update(v)
        },
{
}

} // verus!
