//! The decorator's decisions: which reads an object needs, in which order, and
//! what each answer means. The caller performs the reads.
use vstd::hash_map::StringHashMap;
use vstd::prelude::*;

use crate::encrypted::codec::{ChunkCodec, Shown};
use crate::encrypted::container::{
    copy_bytes, encode_result, field, fixed_fault, law_header_round_trip, lemma_encoded_len,
    FixedPart, Header, HeaderFields, FIXED_HEADER,
};
use crate::encrypted::layout::{clamped, flat, plan_read, unsealed, Piece, ReadPlan};
use crate::encrypted::object::{
    accepts_its_own, faithful, law_read_gives_back_what_was_written, object_header, opens_to,
    presented, seal_object, sealed,
};
use crate::number::{decimal, decimal_text};
use crate::store::{same_version, ByteRange, GetOptions, ObjectMeta, StoreError, Version};

verus! {

/// Bytes that the first read of an object asks for: the fixed header and a codec
/// header of any plausible size. A larger one costs a second read.
pub const PROBE: u64 = 544;

/// The header of one version of an object.
pub struct CachedHeader {
    pub version: String,
    pub header: Header,
}

/// What is kept for a version: the entry that was added last.
pub open spec fn latest(entries: Seq<CachedHeader>, version: Seq<char>) -> Option<HeaderFields>
    decreases entries.len(),
{
    if entries.len() == 0 {
        None
    } else if entries.last().version@ == version {
        Some(entries.last().header@)
    } else {
        latest(entries.drop_last(), version)
    }
}

/// Seals objects by `codec` before they reach a store, and opens them when they
/// come back.
pub struct EncryptedStore<C: ChunkCodec> {
    pub codec: C,
    /// Headers by key and version. Stored versions never change, so keeping them is
    /// sound; an object that still has the version it was seen with last is read in one
    /// round trip and not in two.
    pub headers: StringHashMap<Vec<CachedHeader>>,
}

/// What follows from the first read of an object.
pub enum ProbeStep {
    /// The object still has the version that the caller knows.
    NotModified,
    /// The header is known already.
    Known(Header),
    /// The body of the read has to be looked at.
    ReadBody,
}

/// What follows from the body of the first read.
pub enum HeaderStep {
    Ready(Header),
    /// The codec's bytes reach beyond the first read; this one brings them.
    More { fixed: FixedPart, options: GetOptions },
}

/// What follows from an object's header: these bytes of the container are read, and
/// opened by the plan. There is no object to hand out before that, not even an empty
/// one: the header is not to be trusted until a chunk was opened under it.
pub struct GetStep {
    pub meta: ObjectMeta,
    pub plan: ReadPlan,
    pub options: GetOptions,
}

/// How the read of an object begins.
pub enum FirstRead {
    /// With its header.
    Probe(GetOptions),
    /// With its chunks, by a header that is kept.
    Chunks { header: Header, step: GetStep },
}

/// What follows from reading an object's chunks by a header that was kept.
pub enum AfterChunks {
    /// The bytes are those of the version that the header belongs to.
    Open,
    /// The object has another version by now: begin with its header.
    Probe,
    Fail(StoreError),
}

/// The header that the bytes `b` begin with, with the codec's bytes taken from
/// `codec`.
pub open spec fn header_in(b: Seq<u8>, codec: Seq<u8>) -> HeaderFields {
    HeaderFields {
        plaintext_len: field(b, 14, 8),
        chunk_count: field(b, 22, 4),
        tag_len: field(b, 26, 2),
        codec,
    }
}

/// Why the first bytes of an object are refused by a codec whose tags have
/// `tag_len` bytes.
pub open spec fn probe_fault(b: Seq<u8>, tag_len: nat) -> Option<Seq<char>> {
    match fixed_fault(b) {
        Some(message) => Some(message),
        None => if field(b, 26, 2) != tag_len {
            Some(
                "wgenc container: tag_len "@ + decimal(field(b, 26, 2)) + " != this codec's "@
                    + decimal(tag_len),
            )
        } else {
            None
        },
    }
}

/// A read of `range` that fails unless the object still has this version.
pub open spec fn pinned(o: GetOptions, version: Seq<char>, start: int, end: int) -> bool {
    &&& o.if_none_match is None
    &&& o.if_match matches Some(v) && v@ == version
    &&& o.range matches Some(r) && r.start == start && r.end == end
}

fn pin(version: &Version, start: u64, end: u64) -> (r: GetOptions)
    ensures
        pinned(r, version@, start as int, end as int),
{
    GetOptions {
        if_none_match: None,
        if_match: Some(version.clone()),
        range: Some(ByteRange { start, end }),
    }
}

/// The read `o` brings the header, and carries the conditions of `opts`.
pub open spec fn probes(opts: GetOptions, o: GetOptions) -> bool {
    &&& o.if_none_match == opts.if_none_match
    &&& o.if_match == opts.if_match
    &&& o.range == Some(ByteRange { start: 0, end: PROBE })
}

/// The read of an object's header. It carries the caller's conditions, so that their
/// outcomes reach the caller unchanged.
pub fn probe_options(opts: &GetOptions) -> (r: GetOptions)
    ensures
        probes(*opts, r),
{
    GetOptions {
        if_none_match: same_version(&opts.if_none_match),
        if_match: same_version(&opts.if_match),
        range: Some(ByteRange { start: 0, end: PROBE }),
    }
}

impl<C: ChunkCodec> EncryptedStore<C> {
    /// The header that is kept for a version of an object.
    pub open spec fn known(self, key: Seq<char>, version: Seq<char>) -> Option<HeaderFields> {
        if self.headers@.contains_key(key) {
            latest(self.headers@[key]@, version)
        } else {
            None
        }
    }

    /// Every kept header is one that this codec can read by.
    pub open spec fn wf(self) -> bool {
        forall|key: Seq<char>, version: Seq<char>|
            #![trigger self.known(key, version)]
            self.known(key, version) matches Some(h) ==> h.valid() && h.tag_len
                == self.codec.tag_len()
    }

    pub fn new(codec: C) -> (r: Self)
        ensures
            r.codec == codec,
            r.wf(),
            forall|key: Seq<char>, version: Seq<char>|
                #![trigger r.known(key, version)]
                r.known(key, version) is None,
    {
        EncryptedStore { codec, headers: StringHashMap::new() }
    }

    /// The version of an object whose header was kept last, with that header.
    pub open spec fn newest(self, key: Seq<char>) -> Option<(Seq<char>, HeaderFields)> {
        if self.headers@.contains_key(key) && self.headers@[key]@.len() > 0 {
            let last = self.headers@[key]@.last();
            Some((last.version@, last.header@))
        } else {
            None
        }
    }

    /// The header that a read with these conditions can begin by: that of the version
    /// which the caller names, or of the one that was seen last. A caller who asks
    /// whether the object changed is answered by a first read of the header.
    pub open spec fn usable(self, key: Seq<char>, opts: GetOptions) -> Option<
        (Seq<char>, HeaderFields),
    > {
        if opts.if_none_match is Some {
            None
        } else {
            match opts.if_match {
                Some(v) => match self.known(key, v@) {
                    Some(h) => Some((v@, h)),
                    None => None,
                },
                None => self.newest(key),
            }
        }
    }

    fn last_kept(&self, key: &str) -> (r: Option<(Version, Header)>)
        requires
            self.wf(),
        ensures
            match r {
                Some((v, h)) => self.newest(key@) == Some((v@, h@)) && h@.valid(),
                None => self.newest(key@) is None,
            },
    {
        match self.headers.get(key) {
            Some(entries) => {
                let n: usize = entries.len();
                if n == 0 {
                    return None;
                }
                let last = &entries[n - 1];
                proof {
                    assert(self.known(key@, last.version@) == Some(last.header@));
                }
                Some((Version { text: last.version.clone() }, last.header.clone()))
            },
            None => None,
        }
    }

    fn lookup(&self, key: &str, version: &Version) -> (r: Option<Header>)
        ensures
            match r {
                Some(h) => self.known(key@, version@) == Some(h@),
                None => self.known(key@, version@) is None,
            },
    {
        let entries = match self.headers.get(key) {
            Some(entries) => entries,
            None => {
                return None;
            },
        };
        let mut i: usize = entries.len();
        assert(entries@.subrange(0, i as int) =~= entries@);
        while i > 0
            invariant
                i <= entries@.len(),
                self.headers@.contains_key(key@),
                *entries == self.headers@[key@],
                latest(entries@, version@) == latest(entries@.subrange(0, i as int), version@),
            decreases i,
        {
            let ghost front = entries@.subrange(0, i as int);
            assert(front.drop_last() =~= entries@.subrange(0, i - 1));
            i = i - 1;
            if entries[i].version == version.text {
                return Some(entries[i].header.clone());
            }
        }
        None
    }

    /// Keeps a header, as the one that was seen last of its object. A version has one entry
    /// at most.
    fn remember(&mut self, key: &str, version: &Version, header: &Header)
        requires
            old(self).wf(),
            header@.valid(),
            header@.tag_len == old(self).codec.tag_len(),
        ensures
            final(self).wf(),
            final(self).codec == old(self).codec,
            final(self).known(key@, version@) == Some(header@),
            final(self).newest(key@) == Some((version@, header@)),
            final(self).keeps(*old(self), key@, version@),
    {
        let mut entries: Vec<CachedHeader> = Vec::new();
        match self.headers.get(key) {
            Some(kept) => {
                let mut i: usize = 0;
                while i < kept.len()
                    invariant
                        i <= kept@.len(),
                        forall|v: Seq<char>|
                            #![trigger latest(entries@, v)]
                            v != version@ ==> latest(entries@, v) == latest(
                                kept@.subrange(0, i as int),
                                v,
                            ),
                    decreases kept@.len() - i,
                {
                    let ghost front = kept@.subrange(0, i + 1);
                    let ghost before = entries@;
                    assert(front.drop_last() =~= kept@.subrange(0, i as int));
                    if kept[i].version != version.text {
                        entries.push(
                            CachedHeader {
                                version: kept[i].version.clone(),
                                header: kept[i].header.clone(),
                            },
                        );
                        assert(entries@.drop_last() =~= before);
                    }
                    assert forall|v: Seq<char>|
                        #![trigger latest(entries@, v)]
                        v != version@ implies latest(entries@, v) == latest(front, v) by {
                        assert(latest(before, v) == latest(kept@.subrange(0, i as int), v));
                    }
                    i = i + 1;
                }
                assert(kept@.subrange(0, kept@.len() as int) =~= kept@);
            },
            None => {},
        }
        let ghost others = entries@;
        assert forall|v: Seq<char>| #![trigger latest(others, v)] v != version@ implies latest(
            others,
            v,
        ) == self.known(key@, v) by {}
        entries.push(CachedHeader { version: version.text.clone(), header: header.clone() });
        proof {
            assert(entries@.drop_last() =~= others);
        }
        let ghost kept_now = entries@;
        self.headers.insert(String::from_str(key), entries);
        proof {
            assert forall|k: Seq<char>, v: Seq<char>|
                #![trigger self.known(k, v)]
                k != key@ || v != version@ implies self.known(k, v) == old(self).known(k, v) by {
                if k == key@ {
                    assert(latest(kept_now, v) == latest(others, v));
                }
            }
        }
    }

    /// What is kept is what was kept before, but for this version of this object.
    pub open spec fn keeps(self, before: Self, key: Seq<char>, version: Seq<char>) -> bool {
        forall|k: Seq<char>, v: Seq<char>|
            #![trigger self.known(k, v)]
            k != key || v != version ==> self.known(k, v) == before.known(k, v)
    }

    /// Makes a version the one that was seen last, where its header is kept.
    fn renew(&mut self, key: &str, version: &Version) -> (r: Option<Header>)
        requires
            old(self).wf(),
        ensures
            final(self).wf(),
            final(self).codec == old(self).codec,
            final(self).known(key@, version@) == old(self).known(key@, version@),
            final(self).keeps(*old(self), key@, version@),
            match old(self).known(key@, version@) {
                Some(h) => {
                    &&& r matches Some(header) && header@ == h && h.valid()
                    &&& final(self).newest(key@) == Some((version@, h))
                },
                None => r is None && *final(self) == *old(self),
            },
    {
        match self.lookup(key, version) {
            Some(header) => {
                self.remember(key, version, &header);
                Some(header)
            },
            None => None,
        }
    }
}

impl<C: ChunkCodec> EncryptedStore<C> {
    /// What follows from the first read of `key`, which answered with `version`.
    /// `modified` is false where the caller's own version still stands. Either way the
    /// object has that version, so that a header which is kept for it is the one to begin
    /// by from now on.
    pub fn probed(&mut self, key: &str, version: &Version, modified: bool) -> (r: ProbeStep)
        requires
            old(self).wf(),
        ensures
            final(self).wf(),
            final(self).codec == old(self).codec,
            final(self).known(key@, version@) == old(self).known(key@, version@),
            final(self).keeps(*old(self), key@, version@),
            match old(self).known(key@, version@) {
                Some(h) => final(self).newest(key@) == Some((version@, h)),
                None => *final(self) == *old(self),
            },
            if !modified {
                r is NotModified
            } else {
                match old(self).known(key@, version@) {
                    Some(h) => r matches ProbeStep::Known(header) && header@ == h && h.valid(),
                    None => r is ReadBody,
                }
            },
    {
        let kept = self.renew(key, version);
        if !modified {
            return ProbeStep::NotModified;
        }
        match kept {
            Some(header) => ProbeStep::Known(header),
            None => ProbeStep::ReadBody,
        }
    }

    /// What follows from the body of the first read. A header that is complete is
    /// kept.
    pub fn read_header(&mut self, key: &str, version: &Version, body: &[u8]) -> (r: Result<
        HeaderStep,
        StoreError,
    >)
        requires
            old(self).wf(),
        ensures
            final(self).wf(),
            final(self).codec == old(self).codec,
            match probe_fault(body@, old(self).codec.tag_len()) {
                Some(message) => {
                    &&& r matches Err(e) && e.says(message)
                    &&& *final(self) == *old(self)
                },
                None => {
                    let codec_len = field(body@, 28, 4) as int;
                    if body@.len() < FIXED_HEADER + codec_len {
                        &&& r matches Ok(HeaderStep::More { fixed, options }) && {
                            &&& fixed.valid()
                            &&& fixed.plaintext_len == field(body@, 14, 8)
                            &&& fixed.chunk_count == field(body@, 22, 4)
                            &&& fixed.tag_len == old(self).codec.tag_len()
                            &&& fixed.codec_len == codec_len
                            &&& pinned(
                                options,
                                version@,
                                FIXED_HEADER as int,
                                FIXED_HEADER + codec_len,
                            )
                        }
                        &&& *final(self) == *old(self)
                    } else {
                        let h = header_in(
                            body@,
                            body@.subrange(FIXED_HEADER as int, FIXED_HEADER + codec_len),
                        );
                        &&& r matches Ok(HeaderStep::Ready(header)) && header@ == h && h.valid()
                        &&& final(self).known(key@, version@) == Some(h)
                        &&& final(self).newest(key@) == Some((version@, h))
                        &&& final(self).keeps(*old(self), key@, version@)
                    }
                },
            },
    {
        let fixed = match Header::decode_fixed(body) {
            Ok(fixed) => fixed,
            Err(e) => {
                return Err(e);
            },
        };
        let tag_len: usize = self.codec.overhead_per_chunk();
        if fixed.tag_len != tag_len {
            let mut m = String::from_str("wgenc container: tag_len ");
            m.append(decimal_text(fixed.tag_len as u64).as_str());
            m.append(" != this codec's ");
            m.append(decimal_text(tag_len as u64).as_str());
            return Err(StoreError::Other(m));
        }
        let end: u64 = FIXED_HEADER as u64 + fixed.codec_len as u64;
        if (body.len() as u64) < end {
            // Pinned to the same version, so that the two reads cannot straddle
            // generations.
            return Ok(
                HeaderStep::More { fixed, options: pin(version, FIXED_HEADER as u64, end) },
            );
        }
        let codec = vstd::slice::slice_subrange(body, FIXED_HEADER, end as usize);
        let header = header_of(fixed, codec);
        self.remember(key, version, &header);
        Ok(HeaderStep::Ready(header))
    }

    /// The header whose codec bytes `more` a second read brought.
    pub fn read_more(&mut self, key: &str, version: &Version, fixed: FixedPart, more: &[u8]) -> (r:
        Header)
        requires
            old(self).wf(),
            fixed.valid(),
            fixed.tag_len == old(self).codec.tag_len(),
            more@.len() <= u32::MAX,
        ensures
            final(self).wf(),
            final(self).codec == old(self).codec,
            r@ == (HeaderFields {
                plaintext_len: fixed.plaintext_len as nat,
                chunk_count: fixed.chunk_count as nat,
                tag_len: fixed.tag_len as nat,
                codec: more@,
            }),
            r@.valid(),
            final(self).known(key@, version@) == Some(r@),
            final(self).newest(key@) == Some((version@, r@)),
            final(self).keeps(*old(self), key@, version@),
    {
        let header = header_of(fixed, more);
        self.remember(key, version, &header);
        header
    }

    /// Seals an object for writing. What the store is given is the container; the
    /// codec is asked once to begin the write, and once for all chunks.
    pub fn seal(&self, key: &str, plain: &[u8]) -> (r: Result<Vec<u8>, StoreError>)
        ensures
            match r {
                Ok(out) => exists|codec_header: Seq<u8>, pieces: Seq<Piece>|
                    #[trigger] written(self.codec, key@, plain@, codec_header, pieces, out@),
                Err(e) => {
                    ||| e matches StoreError::Other(why) && self.codec.refuses(key@, why@)
                    ||| exists|codec_header: Seq<u8>|
                        #[trigger] unfit(self.codec, key@, plain@, codec_header, e)
                    ||| exists|codec_header: Seq<u8>|
                        #[trigger] unsealable(self.codec, key@, plain@, codec_header, e)
                },
            },
    {
        let codec_header = match self.codec.begin_write(key) {
            Ok(codec_header) => codec_header,
            Err(why) => {
                return Err(StoreError::Other(why));
            },
        };
        let ghost ch = codec_header@;
        let ghost h = object_header(self.codec, plain@, ch);
        assert(plain@.len() == plain.len());
        let r = seal_object(&self.codec, key, plain, codec_header);
        proof {
            if r is Ok {
                let out = r->Ok_0;
                let pieces = choose|pieces: Seq<Piece>|
                    #[trigger] sealed(self.codec, key@, h, plain@, pieces) && out@ == h.encoded()
                        + flat(pieces);
                assert(written(self.codec, key@, plain@, ch, pieces, out@));
            } else if encode_result(h) is Err || h.container_len() > usize::MAX {
                assert(unfit(self.codec, key@, plain@, ch, r->Err_0));
            } else {
                assert(unsealable(self.codec, key@, plain@, ch, r->Err_0));
            }
        }
        r
    }

    /// What follows from an object's header when a range of it is asked for. The
    /// read is pinned to the version that the header came from: the reads of one
    /// range must not straddle two generations of the object.
    pub fn plan_get(
        &self,
        key: &str,
        header: &Header,
        version: &Version,
        range: Option<ByteRange>,
    ) -> (r: GetStep)
        requires
            header@.valid(),
        ensures
            r.serves(key@, header@, version@, range),
    {
        let meta = meta_of(key, header.plaintext_len as u64, version);
        let plan = plan_read(header, range);
        let options = pin(version, plan.ct_start, plan.ct_end);
        GetStep { meta, plan, options }
    }

    /// How the read of `key` begins. An object that was read before costs one round
    /// trip: its chunks are read right away, on condition that it still has the version
    /// that the kept header belongs to.
    pub fn first_read(&self, key: &str, opts: &GetOptions) -> (r: FirstRead)
        requires
            self.wf(),
        ensures
            match self.usable(key@, *opts) {
                Some((version, h)) => r matches FirstRead::Chunks { header, step } && header@ == h
                    && h.valid() && step.serves(key@, h, version, opts.range),
                None => r matches FirstRead::Probe(o) && probes(*opts, o),
            },
    {
        let kept = if opts.if_none_match.is_some() {
            None
        } else {
            match &opts.if_match {
                Some(version) => match self.lookup(key, version) {
                    Some(header) => Some((version.clone(), header)),
                    None => None,
                },
                None => self.last_kept(key),
            }
        };
        match kept {
            Some((version, header)) => {
                let step = self.plan_get(key, &header, &version, opts.range);
                FirstRead::Chunks { header, step }
            },
            None => FirstRead::Probe(probe_options(opts)),
        }
    }
}

impl GetStep {
    /// The read of `range` of the object `key`, by the header `h` of its version
    /// `version`.
    pub open spec fn serves(
        self,
        key: Seq<char>,
        h: HeaderFields,
        version: Seq<char>,
        range: Option<ByteRange>,
    ) -> bool {
        &&& plaintext_meta(self.meta, key, h.plaintext_len, version)
        &&& self.plan.covers(h, clamped(range, h.plaintext_len))
        &&& pinned(self.options, version, self.plan.ct_start as int, self.plan.ct_end as int)
    }
}

impl<C: ChunkCodec> EncryptedStore<C> {
    /// What follows from reading the chunks of `key` by the header that is kept for
    /// `version`. A version that is gone is a failure only to a caller who named it; one
    /// that stands is the one to begin by from now on.
    pub fn chunks_read(
        &mut self,
        key: &str,
        version: &Version,
        opts: &GetOptions,
        outcome: Result<(), StoreError>,
    ) -> (r: AfterChunks)
        requires
            old(self).wf(),
        ensures
            final(self).wf(),
            final(self).codec == old(self).codec,
            final(self).known(key@, version@) == old(self).known(key@, version@),
            final(self).keeps(*old(self), key@, version@),
            match outcome {
                Ok(_) => r is Open && match old(self).known(key@, version@) {
                    Some(h) => final(self).newest(key@) == Some((version@, h)),
                    None => *final(self) == *old(self),
                },
                Err(e) => *final(self) == *old(self) && if e is PreconditionFailed
                    && opts.if_match is None {
                    r is Probe
                } else {
                    r == AfterChunks::Fail(e)
                },
            },
    {
        match outcome {
            Ok(()) => {
                self.renew(key, version);
                AfterChunks::Open
            },
            Err(e) => {
                let gone = match &e {
                    StoreError::PreconditionFailed { .. } => true,
                    _ => false,
                };
                if gone && opts.if_match.is_none() {
                    AfterChunks::Probe
                } else {
                    AfterChunks::Fail(e)
                }
            },
        }
    }
}

/// An object is read in one round trip once a read of it succeeded, as long as it keeps its
/// version: whichever step brought the header, `newest` is that version with it, and a
/// read without conditions begins by it.
pub proof fn law_kept_header_saves_a_round_trip<C: ChunkCodec>(
    store: EncryptedStore<C>,
    key: Seq<char>,
    version: Seq<char>,
    h: HeaderFields,
    opts: GetOptions,
)
    requires
        store.newest(key) == Some((version, h)),
        opts.if_none_match is None,
        opts.if_match is None || (opts.if_match matches Some(v) && v@ == version),
    ensures
        store.usable(key, opts) == Some((version, h)),
{
}

/// `out` is a container of `plain`, sealed by `codec` as the object `key`.
pub open spec fn written<C: ChunkCodec>(
    codec: C,
    key: Seq<char>,
    plain: Seq<u8>,
    codec_header: Seq<u8>,
    pieces: Seq<Piece>,
    out: Seq<u8>,
) -> bool {
    let h = object_header(codec, plain, codec_header);
    &&& codec.begins(key, codec_header)
    &&& h.valid()
    &&& sealed(codec, key, h, plain, pieces)
    &&& out == h.encoded() + flat(pieces)
}

/// The write was refused because the container of `plain` cannot be written down.
pub open spec fn unfit<C: ChunkCodec>(
    codec: C,
    key: Seq<char>,
    plain: Seq<u8>,
    codec_header: Seq<u8>,
    e: StoreError,
) -> bool {
    let h = object_header(codec, plain, codec_header);
    &&& codec.begins(key, codec_header)
    &&& match encode_result(h) {
        Err(message) => e.says(message),
        Ok(_) => h.container_len() > usize::MAX && e.says("wgenc container: too large"@),
    }
}

/// The write was refused because the codec would not seal the chunks of `plain`.
pub open spec fn unsealable<C: ChunkCodec>(
    codec: C,
    key: Seq<char>,
    plain: Seq<u8>,
    codec_header: Seq<u8>,
    e: StoreError,
) -> bool {
    let h = object_header(codec, plain, codec_header);
    &&& codec.begins(key, codec_header)
    &&& e matches StoreError::Other(why) && codec.refuses_seal(
        key,
        codec_header,
        presented(key, h, 0, unsealed(plain, h.chunk_count, h.tag_len)),
        why@,
    )
}

/// An object as its readers see it: with the size of its plaintext.
pub open spec fn plaintext_meta(
    meta: ObjectMeta,
    key: Seq<char>,
    plaintext_len: nat,
    version: Seq<char>,
) -> bool {
    &&& meta.key@ == key
    &&& meta.size == plaintext_len
    &&& meta.version@ == version
}

fn meta_of(key: &str, size: u64, version: &Version) -> (r: ObjectMeta)
    ensures
        plaintext_meta(r, key@, size as nat, version@),
{
    ObjectMeta { key: String::from_str(key), size, version: version.clone() }
}

fn header_of(fixed: FixedPart, codec: &[u8]) -> (r: Header)
    ensures
        r@ == (HeaderFields {
            plaintext_len: fixed.plaintext_len as nat,
            chunk_count: fixed.chunk_count as nat,
            tag_len: fixed.tag_len as nat,
            codec: codec@,
        }),
{
    Header {
        plaintext_len: fixed.plaintext_len,
        chunk_count: fixed.chunk_count,
        tag_len: fixed.tag_len,
        codec: copy_bytes(codec),
    }
}

/// What a write answers: what the store said of the container, with the size of
/// the plaintext.
pub fn put_answer(stored: ObjectMeta, plaintext_len: u64) -> (r: ObjectMeta)
    ensures
        r.key == stored.key,
        r.version == stored.version,
        r.size == plaintext_len,
{
    ObjectMeta { key: stored.key, size: plaintext_len, version: stored.version }
}

/// What a question after an object answers, given what reading its header came
/// to: a header and its version, the version alone, or a failure. An object that
/// is not there is no failure.
pub fn head_answer(
    key: &str,
    outcome: Result<(Option<Header>, Version), StoreError>,
) -> (r: Result<Option<ObjectMeta>, StoreError>)
    ensures
        match outcome {
            Ok((Some(h), version)) => r matches Ok(Some(meta)) && plaintext_meta(
                meta,
                key@,
                h@.plaintext_len,
                version@,
            ),
            Ok((None, version)) => r matches Ok(Some(meta)) && plaintext_meta(
                meta,
                key@,
                0,
                version@,
            ),
            Err(e) => if e is NotFound {
                r matches Ok(None)
            } else {
                r == Err::<Option<ObjectMeta>, StoreError>(e)
            },
        },
{
    match outcome {
        Ok((Some(h), version)) => Ok(Some(meta_of(key, h.plaintext_len as u64, &version))),
        Ok((None, version)) => Ok(Some(meta_of(key, 0, &version))),
        Err(e) => if e.is_not_found() {
            Ok(None)
        } else {
            Err(e)
        },
    }
}

/// The first read of a sealed object is accepted by the codec that sealed it, and
/// it brings the header under which the object was sealed. That holds as well
/// where the codec's bytes reach beyond the first read and a second read brings
/// them.
pub proof fn law_header_is_read_back<C: ChunkCodec>(
    codec: C,
    key: Seq<char>,
    plain: Seq<u8>,
    codec_header: Seq<u8>,
    pieces: Seq<Piece>,
    out: Seq<u8>,
)
    requires
        written(codec, key, plain, codec_header, pieces, out),
    ensures
        ({
            let h = object_header(codec, plain, codec_header);
            let body = out.subrange(
                0,
                if out.len() < PROBE {
                    out.len() as int
                } else {
                    PROBE as int
                },
            );
            let codec_end = FIXED_HEADER + field(body, 28, 4) as int;
            &&& probe_fault(body, codec.tag_len()) is None
            &&& codec_end <= out.len()
            &&& header_in(body, out.subrange(FIXED_HEADER as int, codec_end)) == h
            &&& body.len() >= codec_end ==> header_in(
                body,
                body.subrange(FIXED_HEADER as int, codec_end),
            ) == h
        }),
{
    let h = object_header(codec, plain, codec_header);
    let n = if out.len() < PROBE {
        out.len() as int
    } else {
        PROBE as int
    };
    let body = out.subrange(0, n);
    lemma_encoded_len(h);
    assert(out.subrange(0, h.header_len() as int) =~= h.encoded());
    law_header_round_trip(h, out);
    assert(body.subrange(0, 8) =~= out.subrange(0, 8));
    assert(body.subrange(8, 10) =~= out.subrange(8, 10));
    assert(body.subrange(10, 14) =~= out.subrange(10, 14));
    assert(body.subrange(14, 22) =~= out.subrange(14, 22));
    assert(body.subrange(22, 26) =~= out.subrange(22, 26));
    assert(body.subrange(26, 28) =~= out.subrange(26, 28));
    assert(body.subrange(28, 32) =~= out.subrange(28, 32));
    let codec_end = FIXED_HEADER + field(body, 28, 4) as int;
    if body.len() >= codec_end {
        assert(body.subrange(FIXED_HEADER as int, codec_end) =~= out.subrange(
            FIXED_HEADER as int,
            codec_end,
        ));
    }
}

/// What an encrypted store reads of an object that it sealed is what was written there: the
/// bytes from `start` to `end` that the object has, or all of them without a range. It needs
/// the container alone, its header as it stands there and the chunks where the plan points.
pub proof fn law_store_reads_what_it_sealed<C: ChunkCodec>(
    store: &EncryptedStore<C>,
    key: &str,
    plain: &[u8],
    out: Vec<u8>,
    header: &Header,
    version: &Version,
    range: Option<ByteRange>,
    step: GetStep,
    r: Result<Vec<u8>, StoreError>,
)
    requires
        faithful(store.codec),
        accepts_its_own(store.codec),
        call_ensures(EncryptedStore::<C>::seal, (store, key, plain), Ok::<Vec<u8>, StoreError>(out)),
        header@.valid(),
        header@ == header_in(
            out@,
            out@.subrange(FIXED_HEADER as int, FIXED_HEADER + field(out@, 28, 4)),
        ),
        call_ensures(
            EncryptedStore::<C>::plan_get,
            (store, key, header, version, range),
            step,
        ),
        opens_to(
            store.codec,
            key@,
            header@,
            step.plan,
            out@.subrange(step.plan.ct_start as int, step.plan.ct_end as int),
            r,
        ),
    ensures
        r matches Ok(bytes) && match range {
            None => bytes@ == plain@,
            Some(asked) => {
                &&& asked.start <= asked.end <= plain@.len() ==> bytes@ == plain@.subrange(
                    asked.start as int,
                    asked.end as int,
                )
                &&& asked.start < plain@.len() <= asked.end ==> bytes@ == plain@.subrange(
                    asked.start as int,
                    plain@.len() as int,
                )
                &&& asked.start >= plain@.len() || asked.start >= asked.end ==> bytes@.len() == 0
            },
        },
        step.meta.key@ == key@,
        step.meta.size == plain@.len(),
        step.meta.version@ == version@,
        step.options.if_match matches Some(v) && v@ == version@,
        step.options.if_none_match is None,
        step.options.range == Some(
            ByteRange { start: step.plan.ct_start, end: step.plan.ct_end },
        ),
{
    let (codec_header, pieces) = choose|codec_header: Seq<u8>, pieces: Seq<Piece>|
        #[trigger] written(store.codec, key@, plain@, codec_header, pieces, out@);
    let h = object_header(store.codec, plain@, codec_header);
    lemma_encoded_len(h);
    assert(out@.subrange(0, h.header_len() as int) =~= h.encoded());
    law_header_round_trip(h, out@);
    assert(header@ =~= h);
    law_read_gives_back_what_was_written(
        store.codec,
        key@,
        plain@,
        codec_header,
        pieces,
        range,
        step.plan,
        r,
    );
    let bytes = r->Ok_0;
    match range {
        None => {
            assert(bytes@ =~= plain@);
        },
        Some(asked) => {
            if asked.start <= asked.end <= plain@.len() {
                assert(bytes@ =~= plain@.subrange(asked.start as int, asked.end as int));
            }
            if asked.start < plain@.len() <= asked.end {
                assert(bytes@ =~= plain@.subrange(asked.start as int, plain@.len() as int));
            }
        },
    }
}

/// A write is refused for no other reason than that the codec refuses it, or that its
/// container cannot be written down: more than four bytes count of chunks or of the codec's
/// bytes, tags of more than two bytes' count, or more bytes than can be addressed.
pub proof fn law_write_is_refused_only_where_it_must<C: ChunkCodec>(
    store: &EncryptedStore<C>,
    key: &str,
    plain: &[u8],
    e: StoreError,
)
    requires
        call_ensures(
            EncryptedStore::<C>::seal,
            (store, key, plain),
            Err::<Vec<u8>, StoreError>(e),
        ),
        forall|why: Seq<char>| !#[trigger] store.codec.refuses(key@, why),
        forall|codec_header: Seq<u8>, batch: Seq<Shown>, why: Seq<char>|
            !#[trigger] store.codec.refuses_seal(key@, codec_header, batch, why),
    ensures
        exists|codec_header: Seq<u8>|
            {
                &&& #[trigger] store.codec.begins(key@, codec_header)
                &&& {
                    ||| plain@.len() > 0xffff_ffff * 0x10_0000
                    ||| store.codec.tag_len() > 0xffff
                    ||| codec_header.len() > 0xffff_ffff
                    ||| 32 + codec_header.len() + plain@.len() + (plain@.len() / 0x10_0000 + 1)
                        * store.codec.tag_len() > usize::MAX
                }
            },
{
    let codec_header = choose|codec_header: Seq<u8>|
        #[trigger] unfit(store.codec, key@, plain@, codec_header, e);
    assert(unfit(store.codec, key@, plain@, codec_header, e));
    let h = object_header(store.codec, plain@, codec_header);
    let t = store.codec.tag_len();
    let m = plain@.len() / 0x10_0000 + 1;
    assert(h.chunk_count <= m);
    assert(h.chunk_count * t <= m * t) by (nonlinear_arith)
        requires
            h.chunk_count <= m,
    ;
    assert(store.codec.begins(key@, codec_header));
}

/// How a read begins is told by the conditions of the caller and by what is kept. It begins
/// with the chunks only by a header that is kept, and only on condition that the object has
/// the version of that header: the one which the caller names, or the one that was seen last.
/// It begins with the header in every other case, and then carries the caller's conditions as
/// they are.
pub proof fn law_first_read_is_safe<C: ChunkCodec>(
    store: &EncryptedStore<C>,
    key: &str,
    opts: &GetOptions,
    r: FirstRead,
)
    requires
        store.wf(),
        call_ensures(EncryptedStore::<C>::first_read, (store, key, opts), r),
    ensures
        match r {
            FirstRead::Probe(o) => {
                &&& o.if_match == opts.if_match
                &&& o.if_none_match == opts.if_none_match
                &&& o.range == Some(ByteRange { start: 0, end: 544 })
                &&& opts.if_none_match is Some || match opts.if_match {
                    Some(v) => store.known(key@, v@) is None,
                    None => store.newest(key@) is None,
                }
            },
            FirstRead::Chunks { header, step } => {
                &&& opts.if_none_match is None
                &&& step.options.if_none_match is None
                &&& step.options.if_match matches Some(v) && {
                    &&& store.known(key@, v@) == Some(header@)
                    &&& opts.if_match matches Some(asked) ==> v@ == asked@
                    &&& opts.if_match is None ==> store.newest(key@) == Some((v@, header@))
                    &&& step.meta.version@ == v@
                }
                &&& step.meta.key@ == key@
                &&& step.meta.size == header.plaintext_len
                &&& step.options.range == Some(
                    ByteRange { start: step.plan.ct_start, end: step.plan.ct_end },
                )
            },
        },
{
}

/// What is kept of a version is what was kept of it last, whatever other versions were kept
/// before and since.
pub proof fn law_latest_entry_counts(
    entries: Seq<CachedHeader>,
    more: Seq<CachedHeader>,
    entry: CachedHeader,
    version: Seq<char>,
)
    requires
        forall|i: int| 0 <= i < more.len() ==> (#[trigger] more[i]).version@ != version,
    ensures
        latest(entries + more, version) == latest(entries, version),
        entry.version@ == version ==> latest(entries.push(entry) + more, version) == Some(
            entry.header@,
        ),
        latest(more, version) is None,
    decreases more.len(),
{
    if more.len() == 0 {
        assert(entries + more =~= entries);
        assert(entries.push(entry) + more =~= entries.push(entry));
    } else {
        let front = more.drop_last();
        assert forall|i: int| 0 <= i < front.len() implies (#[trigger] front[i]).version@
            != version by {
            assert(front[i] == more[i]);
        }
        assert(more[more.len() - 1].version@ != version);
        law_latest_entry_counts(entries, front, entry, version);
        assert((entries + more).drop_last() =~= entries + front);
        assert((entries.push(entry) + more).drop_last() =~= entries.push(entry) + front);
    }
}

/// A question after an object is answered with the size of its plaintext and with the version
/// and name that it has. One that is not there is no failure, and every other failure is
/// passed on as it is.
pub proof fn law_question_is_answered_of_the_plaintext(
    key: &str,
    header: Option<Header>,
    version: Version,
    e: StoreError,
    found: Result<Option<ObjectMeta>, StoreError>,
    failed: Result<Option<ObjectMeta>, StoreError>,
    stored: ObjectMeta,
    plaintext_len: u64,
    put: ObjectMeta,
)
    requires
        call_ensures(
            head_answer,
            (key, Ok::<(Option<Header>, Version), StoreError>((header, version))),
            found,
        ),
        call_ensures(
            head_answer,
            (key, Err::<(Option<Header>, Version), StoreError>(e)),
            failed,
        ),
        call_ensures(put_answer, (stored, plaintext_len), put),
    ensures
        found matches Ok(Some(meta)) && meta.key@ == key@ && meta.version@ == version@
            && meta.size == match header {
            Some(h) => h.plaintext_len as u64,
            None => 0u64,
        },
        failed is Ok <==> e is NotFound,
        failed matches Ok(none) ==> none is None,
        failed matches Err(why) ==> why == e,
        put == (ObjectMeta { key: stored.key, size: plaintext_len, version: stored.version }),
{
}

/// The first bytes of an object are taken for its header exactly where they are one and its
/// tags have the size that this codec's have. A header that they hold whole is kept, and is
/// made of what stands there; one whose codec bytes reach beyond them is completed by a read
/// of the rest, on condition that the version is still the same. Nothing is kept otherwise.
pub proof fn law_header_is_taken_as_it_stands<C: ChunkCodec>(
    key: &str,
    version: &Version,
    body: &[u8],
    fixed: Result<FixedPart, StoreError>,
)
    requires
        call_ensures(Header::decode_fixed, (body,), fixed),
    ensures
        forall|s: &mut EncryptedStore<C>, r: Result<HeaderStep, StoreError>| #[trigger]
            call_ensures(EncryptedStore::<C>::read_header, (s, key, version, body), r) && (*s).wf()
                ==> {
                &&& r is Ok <==> fixed is Ok && fixed->Ok_0.tag_len == (*s).codec.tag_len()
                &&& r matches Err(e) ==> e is Other
                &&& r matches Ok(HeaderStep::Ready(h)) ==> {
                    let p = fixed->Ok_0;
                    &&& body@.len() >= 32 + p.codec_len
                    &&& h.plaintext_len == p.plaintext_len
                    &&& h.chunk_count == p.chunk_count
                    &&& h.tag_len == p.tag_len
                    &&& h.codec@ == body@.subrange(32, 32 + p.codec_len)
                    &&& (*final(s)).known(key@, version@) == Some(h@)
                    &&& (*final(s)).newest(key@) == Some((version@, h@))
                }
                &&& r matches Ok(HeaderStep::More { fixed: p, options }) ==> {
                    &&& body@.len() < 32 + p.codec_len
                    &&& p == fixed->Ok_0
                    &&& options.if_match matches Some(v) && v@ == version@
                    &&& options.if_none_match is None
                    &&& options.range == Some(
                        ByteRange { start: 32, end: (32 + p.codec_len) as u64 },
                    )
                }
                &&& !(r matches Ok(HeaderStep::Ready(_))) ==> *final(s) == *s
                &&& forall|k: Seq<char>, v: Seq<char>|
                    #![trigger (*final(s)).known(k, v)]
                    k != key@ || v != version@ ==> (*final(s)).known(k, v) == (*s).known(k, v)
            },
{
}

/// A header that a second read completes is made of what the first one said and of the bytes
/// that the second brought, and is kept.
pub proof fn law_header_is_completed_by_the_second_read<C: ChunkCodec>(
    key: &str,
    version: &Version,
    fixed: FixedPart,
    more: &[u8],
)
    ensures
        forall|s: &mut EncryptedStore<C>, h: Header| #[trigger]
            call_ensures(EncryptedStore::<C>::read_more, (s, key, version, fixed, more), h)
                && (*s).wf() && fixed.valid() && fixed.tag_len == (*s).codec.tag_len()
                && more@.len() <= u32::MAX ==> {
                &&& h.plaintext_len == fixed.plaintext_len
                &&& h.chunk_count == fixed.chunk_count
                &&& h.tag_len == fixed.tag_len
                &&& h.codec@ == more@
                &&& (*final(s)).known(key@, version@) == Some(h@)
                &&& (*final(s)).newest(key@) == Some((version@, h@))
                &&& forall|k: Seq<char>, v: Seq<char>|
                    #![trigger (*final(s)).known(k, v)]
                    k != key@ || v != version@ ==> (*final(s)).known(k, v) == (*s).known(k, v)
            },
{
}

/// What the first read brings is told by what is kept of the version that it found: the
/// caller's own version stands, the header is known, or the body has to be looked at. A header
/// that was seen again is the one to begin by from then on. Chunks that were read by a kept
/// header count unless the version is gone; then the read begins anew, or fails where the
/// caller had named that version. Every other failure is passed on.
pub proof fn law_kept_headers_follow_what_is_seen<C: ChunkCodec>(
    key: &str,
    version: &Version,
    modified: bool,
    opts: &GetOptions,
    outcome: Result<(), StoreError>,
)
    ensures
        forall|s: &mut EncryptedStore<C>, r: ProbeStep| #[trigger]
            call_ensures(EncryptedStore::<C>::probed, (s, key, version, modified), r) && (*s).wf()
                ==> {
                let kept = (*s).known(key@, version@);
                &&& r is NotModified <==> !modified
                &&& r is Known <==> modified && kept is Some
                &&& r matches ProbeStep::Known(h) ==> kept == Some(h@)
                &&& kept is Some ==> (*final(s)).newest(key@) == Some((version@, kept->Some_0))
                &&& forall|k: Seq<char>, v: Seq<char>| #[trigger]
                    (*final(s)).known(k, v) == (*s).known(k, v)
            },
        forall|s: &mut EncryptedStore<C>, r: AfterChunks| #[trigger]
            call_ensures(EncryptedStore::<C>::chunks_read, (s, key, version, opts, outcome), r)
                && (*s).wf() ==> {
                &&& r is Open <==> outcome is Ok
                &&& r is Probe <==> outcome is Err && outcome->Err_0 is PreconditionFailed
                    && opts.if_match is None
                &&& r matches AfterChunks::Fail(e) ==> outcome == Err::<(), StoreError>(e)
                &&& outcome is Ok ==> ((*s).known(key@, version@) matches Some(h) ==> (
                *final(s)).newest(key@) == Some((version@, h)))
                &&& outcome is Err ==> *final(s) == *s
                &&& forall|k: Seq<char>, v: Seq<char>| #[trigger]
                    (*final(s)).known(k, v) == (*s).known(k, v)
            },
{
    assert forall|s: &mut EncryptedStore<C>, r: ProbeStep| #[trigger]
        call_ensures(EncryptedStore::<C>::probed, (s, key, version, modified), r) && (
    *s).wf() implies {
        let kept = (*s).known(key@, version@);
        &&& r is NotModified <==> !modified
        &&& r is Known <==> modified && kept is Some
        &&& r matches ProbeStep::Known(h) ==> kept == Some(h@)
        &&& kept is Some ==> (*final(s)).newest(key@) == Some((version@, kept->Some_0))
        &&& forall|k: Seq<char>, v: Seq<char>| #[trigger]
            (*final(s)).known(k, v) == (*s).known(k, v)
    } by {
        assert((*final(s)).keeps(*s, key@, version@));
        assert forall|k: Seq<char>, v: Seq<char>| #[trigger]
            (*final(s)).known(k, v) == (*s).known(k, v) by {}
    }
    assert forall|s: &mut EncryptedStore<C>, r: AfterChunks| #[trigger]
        call_ensures(EncryptedStore::<C>::chunks_read, (s, key, version, opts, outcome), r) && (
    *s).wf() implies {
        &&& r is Open <==> outcome is Ok
        &&& r is Probe <==> outcome is Err && outcome->Err_0 is PreconditionFailed
            && opts.if_match is None
        &&& r matches AfterChunks::Fail(e) ==> outcome == Err::<(), StoreError>(e)
        &&& outcome is Ok ==> ((*s).known(key@, version@) matches Some(h) ==> (*final(s)).newest(
            key@,
        ) == Some((version@, h)))
        &&& outcome is Err ==> *final(s) == *s
        &&& forall|k: Seq<char>, v: Seq<char>| #[trigger]
            (*final(s)).known(k, v) == (*s).known(k, v)
    } by {
        assert((*final(s)).keeps(*s, key@, version@));
        assert forall|k: Seq<char>, v: Seq<char>| #[trigger]
            (*final(s)).known(k, v) == (*s).known(k, v) by {}
    }
}

/// Every object can be written and asked for, whatever its key, its bytes, the conditions and
/// the range; a header is taken from any bytes, and a kept one serves every read.
pub proof fn law_every_object_can_be_asked_for<C: ChunkCodec>(
    store: &EncryptedStore<C>,
    key: &str,
    plain: &[u8],
    header: &Header,
    version: &Version,
    range: Option<ByteRange>,
    opts: &GetOptions,
    b: &[u8],
)
    ensures
        call_requires(EncryptedStore::<C>::seal, (store, key, plain)),
        header@.valid() ==> call_requires(
            EncryptedStore::<C>::plan_get,
            (store, key, header, version, range),
        ),
        store.wf() ==> call_requires(EncryptedStore::<C>::first_read, (store, key, opts)),
        call_requires(Header::decode_fixed, (b,)),
        call_requires(Header::encode, (header,)),
        call_requires(probe_options, (opts,)),
{
}

} // verus!
