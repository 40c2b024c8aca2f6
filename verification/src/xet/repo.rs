//! One repository's chunk store: which reads and writes an object needs, in which
//! order, and what each answer means. The caller performs them.
//!
//! The parsed shard and the xorb footers are kept, so that a read is a ranged read
//! per term and not a shard parse and a whole xorb.
use std::sync::Arc;

use vstd::prelude::*;

use moka::sync::Cache;
use xet_core_structures::xorb_object::XorbObject;

use crate::store::{ByteRange, GetOptions, PutMode, StoreError, Version};
use crate::xet::hash::{xorb_path, MerkleHash};
use crate::xet::shard::{stored_fits, stored_shard, xet_err, xet_message, Shard, StoredShard};
use crate::xet::terms::Term;

verus! {

/// Footers that are kept at most.
pub const FOOTER_CACHE_ENTRIES: u64 = 4096;

/// The key of the shard.
pub open spec fn shard_path() -> Seq<char> {
    "lfs/xet/shard"@
}

/// Where the shard is stored.
pub fn shard_key() -> (r: String)
    ensures
        r@ == shard_path(),
{
    String::from_str("lfs/xet/shard")
}

/// A bounded cache.
#[verifier::external_type_specification]
#[verifier::external_body]
#[verifier::reject_recursive_types(K)]
#[verifier::reject_recursive_types(V)]
#[verifier::reject_recursive_types(S)]
pub struct ExCache<K, V, S>(Cache<K, V, S>);

/// The footer that was put into a cache last, for each hash. The cache may have
/// dropped some of them since, where they are more than it was made to hold.
pub uninterp spec fn footers_put(cache: Cache<MerkleHash, Arc<XorbObject>>) -> Map<
    MerkleHash,
    XorbObject,
>;

/// How many footers a cache was made to hold.
pub uninterp spec fn footers_limit(cache: Cache<MerkleHash, Arc<XorbObject>>) -> u64;

/// Calls `Cache::builder` with a largest number of entries: an empty cache with that
/// limit.
#[verifier::external_body]
fn new_cache(entries: u64) -> (r: Cache<MerkleHash, Arc<XorbObject>>)
    ensures
        forall|h: MerkleHash|
            #![trigger footers_put(r).contains_key(h)]
            !footers_put(r).contains_key(h),
        footers_limit(r) == entries,
{
    Cache::builder().max_capacity(entries).build()
}

/// Calls `Cache::get`. What it finds is what was put in last under that hash. As long as
/// no more footers were put in than the cache was made to hold, all of them are there:
/// entries neither expire nor weigh more than one, so an entry is turned away or evicted
/// only where there are too many. Which of them are there beyond that is the cache's to
/// decide.
#[verifier::external_body]
fn cache_get(cache: &Cache<MerkleHash, Arc<XorbObject>>, hash: MerkleHash) -> (r: Option<
    Arc<XorbObject>,
>)
    ensures
        r matches Some(f) ==> footers_put(*cache).contains_key(hash) && footers_put(*cache)[hash]
            == *f,
        footers_put(*cache).contains_key(hash) && footers_put(*cache).dom().finite() && footers_put(
            *cache,
        ).dom().len() <= footers_limit(*cache) ==> r is Some,
{
    cache.get(&hash)
}

/// Calls `Cache::insert`, which puts a footer in place of an earlier one and leaves
/// the limit as it is.
#[verifier::external_body]
fn cache_insert(
    cache: &mut Cache<MerkleHash, Arc<XorbObject>>,
    hash: MerkleHash,
    footer: Arc<XorbObject>,
)
    ensures
        footers_put(*final(cache)) == footers_put(*old(cache)).insert(hash, *footer),
        footers_limit(*final(cache)) == footers_limit(*old(cache)),
{
    cache.insert(hash, footer)
}

/// What the store answered when the shard was asked for.
pub enum ShardAnswer {
    /// There is none.
    Missing,
    /// It still has the version that was named.
    Unchanged,
    Found { version: Version, bytes: Vec<u8> },
}

/// One repository's chunk store.
pub struct Xet {
    /// The shard as it was read or written last, with its version.
    pub shard: Option<(Version, Shard)>,
    pub footers: Cache<MerkleHash, Arc<XorbObject>>,
}

/// A stored shard that is read as `s`.
pub open spec fn reads_as(bytes: Seq<u8>, s: Shard) -> bool {
    stored_fits(bytes) && stored_shard(bytes) == Some(
        StoredShard { places: s.places(), xorbs: s.xorbs(), files: s.files() },
    )
}

/// A stored shard that is refused, with the error for it.
pub open spec fn refused(bytes: Seq<u8>, e: StoreError) -> bool {
    if stored_fits(bytes) {
        stored_shard(bytes) is None && exists|why: Seq<char>|
            e.says(#[trigger] xet_message("shard read"@, why))
    } else {
        e.says(xet_message("shard read"@, "chunk sizes exceed 32 bits"@))
    }
}

/// The complaint about a store that calls the shard unchanged when none is kept.
pub open spec fn nothing_kept() -> Seq<char> {
    xet_message("shard"@, "not-modified with nothing cached"@)
}

impl Xet {
    /// A shard that is kept is sound, and so many footers are kept at most.
    pub open spec fn wf(self) -> bool {
        &&& self.shard matches Some((_, s)) ==> s.wf()
        &&& footers_limit(self.footers) == FOOTER_CACHE_ENTRIES
        &&& footers_put(self.footers).dom().finite()
    }

    pub fn new() -> (r: Xet)
        ensures
            r.wf(),
            r.shard is None,
            forall|h: MerkleHash|
                #![trigger footers_put(r.footers).contains_key(h)]
                !footers_put(r.footers).contains_key(h),
    {
        let footers = new_cache(FOOTER_CACHE_ENTRIES);
        assert(footers_put(footers).dom() =~= Set::empty());
        Xet { shard: None, footers }
    }

    /// How the shard is asked for: on condition that it changed, where one is kept,
    /// so that an unchanged one costs no body and no parse.
    pub fn shard_options(&self) -> (r: GetOptions)
        ensures
            r.if_match is None,
            r.range is None,
            match self.shard {
                Some((version, _)) => r.if_none_match == Some(version),
                None => r.if_none_match is None,
            },
    {
        let if_none_match = match &self.shard {
            Some((version, _)) => Some(version.clone()),
            None => None,
        };
        GetOptions { if_none_match, if_match: None, range: None }
    }

    /// The shard that an object is stored with, and the version that the write
    /// replaces. It is taken out of what is kept: it is about to change.
    pub fn take_shard(&mut self, answer: ShardAnswer) -> (r: Result<
        (Shard, Option<Version>),
        StoreError,
    >)
        requires
            old(self).wf(),
        ensures
            final(self).wf(),
            final(self).footers == old(self).footers,
            match r {
                Ok((s, version)) => {
                    &&& s.wf()
                    &&& final(self).shard is None
                    &&& match answer {
                        ShardAnswer::Missing => version is None && s.places().dom()
                            == Set::<MerkleHash>::empty() && s.xorbs().dom() == Set::<
                            MerkleHash,
                        >::empty() && s.files().dom() == Set::<MerkleHash>::empty(),
                        ShardAnswer::Unchanged => old(self).shard matches Some((v, kept)) && s
                            == kept && version == Some(v),
                        ShardAnswer::Found { version: v, bytes } => version == Some(v)
                            && reads_as(bytes@, s),
                    }
                },
                Err(e) => {
                    &&& *final(self) == *old(self)
                    &&& match answer {
                        ShardAnswer::Missing => false,
                        ShardAnswer::Unchanged => old(self).shard is None && e.says(nothing_kept()),
                        ShardAnswer::Found { version: _, bytes } => refused(bytes@, e),
                    }
                },
            },
    {
        match answer {
            ShardAnswer::Missing => {
                self.shard = None;
                let s = Shard::new();
                assert(s.places().dom() =~= Set::<MerkleHash>::empty());
                assert(s.xorbs().dom() =~= Set::<MerkleHash>::empty());
                assert(s.files().dom() =~= Set::<MerkleHash>::empty());
                Ok((s, None))
            },
            ShardAnswer::Unchanged => match self.shard.take() {
                Some((version, shard)) => Ok((shard, Some(version))),
                None => Err(xet_err("shard", "not-modified with nothing cached")),
            },
            ShardAnswer::Found { version, bytes } => match Shard::read(bytes.as_slice()) {
                Ok(shard) => {
                    self.shard = None;
                    Ok((shard, Some(version)))
                },
                Err(e) => Err(e),
            },
        }
    }

    /// How a file is put together, by the shard that the store answered with.
    /// `None` where the shard has no record of it. A shard that came anew is kept.
    pub fn file_terms(&mut self, answer: ShardAnswer, file: MerkleHash) -> (r: Result<
        Option<Vec<Term>>,
        StoreError,
    >)
        requires
            old(self).wf(),
        ensures
            final(self).wf(),
            final(self).footers == old(self).footers,
            match answer {
                ShardAnswer::Missing => r matches Ok(None) && final(self).shard == old(self).shard,
                ShardAnswer::Unchanged => {
                    &&& final(self).shard == old(self).shard
                    &&& match old(self).shard {
                        Some((_, s)) => r matches Ok(terms) && recorded(s, file, terms),
                        None => r matches Err(e) && e.says(nothing_kept()),
                    }
                },
                ShardAnswer::Found { version, bytes } => match r {
                    Ok(terms) => final(self).shard matches Some((v, s)) && v == version && reads_as(
                        bytes@,
                        s,
                    ) && recorded(s, file, terms),
                    Err(e) => refused(bytes@, e) && final(self).shard == old(self).shard,
                },
            },
    {
        match answer {
            ShardAnswer::Missing => Ok(None),
            ShardAnswer::Unchanged => match &self.shard {
                Some((_, s)) => Ok(s.file(file)),
                None => Err(xet_err("shard", "not-modified with nothing cached")),
            },
            ShardAnswer::Found { version, bytes } => match Shard::read(bytes.as_slice()) {
                Ok(s) => {
                    let terms = s.file(file);
                    self.shard = Some((version, s));
                    Ok(terms)
                },
                Err(e) => Err(e),
            },
        }
    }

    /// Keeps a shard that was written, with the version that it got.
    pub fn keep_shard(&mut self, version: Version, shard: Shard)
        requires
            old(self).wf(),
            shard.wf(),
        ensures
            final(self).wf(),
            final(self).footers == old(self).footers,
            final(self).shard == Some((version, shard)),
    {
        self.shard = Some((version, shard));
    }

    /// The footer of a xorb, where it is kept: always, as long as no more of them were put
    /// in than are kept at most.
    pub fn kept_footer(&self, hash: MerkleHash) -> (r: Option<Arc<XorbObject>>)
        requires
            self.wf(),
        ensures
            r matches Some(f) ==> footers_put(self.footers).contains_key(hash) && footers_put(
                self.footers,
            )[hash] == *f,
            footers_put(self.footers).contains_key(hash) && footers_put(self.footers).dom().len()
                <= FOOTER_CACHE_ENTRIES ==> r is Some,
    {
        cache_get(&self.footers, hash)
    }

    /// Keeps the footer of a xorb.
    pub fn keep_footer(&mut self, hash: MerkleHash, footer: Arc<XorbObject>)
        requires
            old(self).wf(),
        ensures
            final(self).wf(),
            final(self).shard == old(self).shard,
            footers_put(final(self).footers) == footers_put(old(self).footers).insert(
                hash,
                *footer,
            ),
    {
        cache_insert(&mut self.footers, hash, footer)
    }
}

/// What a shard has on record for a file.
pub open spec fn recorded(s: Shard, file: MerkleHash, terms: Option<Vec<Term>>) -> bool {
    match terms {
        Some(terms) => s.files().contains_key(file) && terms@ == s.files()[file],
        None => !s.files().contains_key(file),
    }
}

/// On which condition a shard is written: that the version which was read still
/// stands, or that there is none.
pub fn shard_mode(at: &Option<Version>) -> (r: PutMode)
    ensures
        match *at {
            Some(v) => r == PutMode::Update(v),
            None => r is Create,
        },
{
    match at {
        Some(v) => PutMode::Update(v.clone()),
        None => PutMode::Create,
    }
}

/// What the write of a xorb means. A concurrent writer that stored the identical
/// xorb is no conflict: the hash is the content, so whoever won wrote the same
/// bytes.
pub fn xorb_written(outcome: Result<(), StoreError>) -> (r: Result<(), StoreError>)
    ensures
        match outcome {
            Ok(_) => r is Ok,
            Err(e) => if e is PreconditionFailed {
                r is Ok
            } else {
                r == Err::<(), StoreError>(e)
            },
        },
{
    match outcome {
        Ok(()) => Ok(()),
        Err(StoreError::PreconditionFailed { .. }) => Ok(()),
        Err(e) => Err(e),
    }
}

/// How a range of an object is asked for.
pub fn range_options(range: ByteRange) -> (r: GetOptions)
    ensures
        r.if_none_match is None,
        r.if_match is None,
        r.range == Some(range),
{
    GetOptions { if_none_match: None, if_match: None, range: Some(range) }
}

/// What a read without a condition brought. A store that answers it with "not
/// modified" is at fault.
pub fn read_answer(body: Option<Vec<u8>>) -> (r: Result<Vec<u8>, StoreError>)
    ensures
        match body {
            Some(bytes) => r == Ok::<Vec<u8>, StoreError>(bytes),
            None => r matches Err(e) && e.says(
                xet_message("read"@, "unconditional GET returned not-modified"@),
            ),
        },
{
    match body {
        Some(bytes) => Ok(bytes),
        None => Err(xet_err("read", "unconditional GET returned not-modified")),
    }
}

/// How a xorb is written: only where there is none of its name.
pub fn xorb_mode() -> (r: PutMode)
    ensures
        r is Create,
{
    PutMode::Create
}

/// Where everything of this module is stored.
pub open spec fn home() -> Seq<char> {
    "lfs/xet/"@
}

/// Every key that is written lies under one prefix.
pub proof fn law_keys_lie_under_one_prefix(hash: MerkleHash)
    ensures
        home().is_prefix_of(shard_path()),
        home().is_prefix_of(xorb_path(hash)),
{
    reveal_strlit("lfs/xet/");
    reveal_strlit("lfs/xet/shard");
    reveal_strlit("lfs/xet/xorbs/");
    assert(shard_path().subrange(0, home().len() as int) =~= home());
    assert(xorb_path(hash).subrange(0, home().len() as int) =~= home());
}

/// The shard is asked for on condition that it changed where one is kept, and without one
/// otherwise. It is written on condition that it has the version that was read, or that there
/// is none. A xorb is written only where there is none of its name, and one that is there
/// already is no failure; every other failure is. A range is asked for as it is.
pub proof fn law_conditions_keep_writers_apart(
    x: &Xet,
    asked: GetOptions,
    at: &Option<Version>,
    mode: PutMode,
    xorb: PutMode,
    outcome: Result<(), StoreError>,
    written: Result<(), StoreError>,
    range: ByteRange,
    ranged: GetOptions,
    body: Option<Vec<u8>>,
    read: Result<Vec<u8>, StoreError>,
)
    requires
        call_ensures(Xet::shard_options, (x,), asked),
        call_ensures(shard_mode, (at,), mode),
        call_ensures(xorb_mode, (), xorb),
        call_ensures(xorb_written, (outcome,), written),
        call_ensures(range_options, (range,), ranged),
        call_ensures(read_answer, (body,), read),
    ensures
        asked.range is None && asked.if_match is None,
        asked.if_none_match is Some <==> x.shard is Some,
        x.shard matches Some((v, _)) ==> asked.if_none_match == Some(v),
        mode is Create <==> *at is None,
        *at matches Some(v) ==> mode == PutMode::Update(v),
        xorb is Create,
        written is Ok <==> outcome is Ok || outcome->Err_0 is PreconditionFailed,
        written matches Err(e) ==> outcome == Err::<(), StoreError>(e),
        ranged.range == Some(range) && ranged.if_match is None && ranged.if_none_match is None,
        read is Ok <==> body is Some,
        read matches Ok(b) ==> body == Some(b),
{
}

/// An object is stored by the shard that the store answered with: an empty one where there is
/// none, the one that is kept where it still stands, and the one that was read otherwise, each
/// with the version that the write is to replace. What is kept is used up by that, and nothing
/// is where the answer is refused.
pub proof fn law_shard_is_the_one_that_was_answered(answer: ShardAnswer)
    ensures
        forall|x: &mut Xet, r: Result<(Shard, Option<Version>), StoreError>| #[trigger]
            call_ensures(Xet::take_shard, (x, answer), r) && (*x).wf() ==> {
                &&& answer is Missing ==> (r matches Ok((s, v)) && v is None && s.places().dom()
                    == Set::<MerkleHash>::empty() && s.files().dom() == Set::<MerkleHash>::empty()
                    && s.xorbs().dom() == Set::<MerkleHash>::empty())
                &&& answer is Unchanged ==> (r is Ok <==> (*x).shard is Some)
                &&& answer is Unchanged ==> (r matches Ok((s, v)) ==> (*x).shard == Some(
                    (v->Some_0, s),
                ) && v is Some)
                &&& answer matches ShardAnswer::Found { version, bytes } ==> {
                    &&& r is Ok <==> stored_fits(bytes@) && stored_shard(bytes@) is Some
                    &&& r matches Ok((s, v)) ==> v == Some(version) && stored_shard(bytes@) == Some(
                        StoredShard { places: s.places(), xorbs: s.xorbs(), files: s.files() },
                    )
                }
                &&& r is Ok ==> (*final(x)).shard is None
                &&& r is Err ==> (*final(x)).shard == (*x).shard
                &&& (*final(x)).footers == (*x).footers
            },
        forall|x: &mut Xet, version: Version, shard: Shard, r: ()| #[trigger]
            call_ensures(Xet::keep_shard, (x, version, shard), r) && (*x).wf() && shard.wf()
                ==> (*final(x)).shard == Some((version, shard)) && (*final(x)).footers
                == (*x).footers,
{
}

/// A file is put together as the shard has it on record, the one that came or the one that is
/// kept; it is unknown exactly where that has no record of it, and where there is no shard.
pub proof fn law_file_is_as_the_shard_records_it(answer: ShardAnswer, file: MerkleHash)
    ensures
        forall|x: &mut Xet, r: Result<Option<Vec<Term>>, StoreError>| #[trigger]
            call_ensures(Xet::file_terms, (x, answer, file), r) && (*x).wf() ==> {
                &&& answer is Missing ==> (r matches Ok(None)) && (*final(x)).shard == (*x).shard
                &&& answer is Unchanged ==> {
                    &&& r is Ok <==> (*x).shard is Some
                    &&& (*final(x)).shard == (*x).shard
                }
                &&& answer matches ShardAnswer::Found { version, bytes } ==> {
                    &&& r is Ok <==> stored_fits(bytes@) && stored_shard(bytes@) is Some
                    &&& r is Ok ==> (*final(x)).shard is Some && (*final(x)).shard->Some_0.0
                        == version
                    &&& r is Err ==> (*final(x)).shard == (*x).shard
                }
                &&& !(answer is Missing) ==> (r matches Ok(found) ==> {
                    let s = (*final(x)).shard->Some_0.1;
                    &&& found is Some <==> s.files().contains_key(file)
                    &&& found matches Some(terms) ==> terms@ == s.files()[file]
                })
            },
{
}

/// A footer that was kept is found again as it was, as long as no more than 4096 were kept;
/// what is found is always what was kept last for that xorb.
pub proof fn law_kept_footer_is_found_again(
    x: &Xet,
    hash: MerkleHash,
    r: Option<Arc<XorbObject>>,
)
    requires
        x.wf(),
        call_ensures(Xet::kept_footer, (x, hash), r),
    ensures
        r matches Some(f) ==> footers_put(x.footers).contains_key(hash) && footers_put(
            x.footers,
        )[hash] == *f,
        footers_put(x.footers).contains_key(hash) && footers_put(x.footers).dom().len() <= 4096
            ==> r is Some,
        forall|y: &mut Xet, footer: Arc<XorbObject>, u: ()| #[trigger]
            call_ensures(Xet::keep_footer, (y, hash, footer), u) && (*y).wf() ==> {
                &&& footers_put((*final(y)).footers).contains_key(hash)
                &&& footers_put((*final(y)).footers)[hash] == *footer
                &&& (*final(y)).shard == (*y).shard
                &&& forall|h: MerkleHash|
                    #![trigger footers_put((*final(y)).footers).contains_key(h)]
                    h != hash ==> footers_put((*final(y)).footers).contains_key(h) == footers_put(
                        (*y).footers,
                    ).contains_key(h)
            },
{
}

/// The shard has one key, and no xorb is stored under it.
pub proof fn law_shard_has_a_key_of_its_own(key: String, hash: MerkleHash)
    requires
        call_ensures(shard_key, (), key),
    ensures
        key@ == "lfs/xet/shard"@,
        key@ != xorb_path(hash),
{
    reveal_strlit("lfs/xet/shard");
    reveal_strlit("lfs/xet/xorbs/");
    assert(key@[8] == 's');
    assert(xorb_path(hash)[8] == 'x');
}

} // verus!
