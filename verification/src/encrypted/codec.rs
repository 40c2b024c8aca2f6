//! The seam between the container and a cipher.
use vstd::prelude::*;

verus! {

/// One chunk presented to a codec: transformed in place, tag written alongside.
pub struct Chunk<'a> {
    /// Position within the object. A codec that derives a nonce from it must treat
    /// it as sealed identity, not a hint: it is already inside `aad`.
    pub index: u64,
    /// Associated data. Passed to the cipher unchanged.
    pub aad: &'a [u8],
    /// Transformed in place; the transformation does not change its length.
    pub data: &'a mut [u8],
    /// Authentication tag, exactly `overhead_per_chunk()` bytes.
    pub tag: &'a mut [u8],
}

/// A chunk as a codec is shown it: its position, its associated data, its bytes and
/// its tag.
pub type Shown = (u64, Seq<u8>, Seq<u8>, Seq<u8>);

pub open spec fn shown(batch: Seq<Chunk<'_>>) -> Seq<Shown> {
    Seq::new(
        batch.len(),
        |i: int| (batch[i].index, batch[i].aad@, batch[i].data@, batch[i].tag@),
    )
}

/// Seals and opens object chunks. Implementations own key management entirely;
/// the container never sees a key.
///
/// Both operations take a batch, so that a codec backed by a network service
/// makes one round trip for a whole span of chunks.
///
/// What a codec can make of its input is for it to say. One that says nothing of it
/// promises nothing.
pub trait ChunkCodec {
    /// Bytes appended per chunk.
    open spec fn tag_len(&self) -> nat {
        arbitrary()
    }

    /// This codec can begin the write of `object` with the bytes `codec_header`.
    open spec fn begins(&self, object: Seq<char>, codec_header: Seq<u8>) -> bool {
        true
    }

    /// `data` and `tag` are what this codec can make of `plain` when it seals it.
    open spec fn seals(
        &self,
        object: Seq<char>,
        codec_header: Seq<u8>,
        index: u64,
        aad: Seq<u8>,
        plain: Seq<u8>,
        data: Seq<u8>,
        tag: Seq<u8>,
    ) -> bool {
        true
    }

    /// This codec accepts `tag` for `data` and can open it as `plain`.
    open spec fn opens(
        &self,
        object: Seq<char>,
        codec_header: Seq<u8>,
        index: u64,
        aad: Seq<u8>,
        data: Seq<u8>,
        tag: Seq<u8>,
        plain: Seq<u8>,
    ) -> bool {
        true
    }

    /// This codec can refuse to begin the write of `object`, with the failure `why`.
    open spec fn refuses(&self, object: Seq<char>, why: Seq<char>) -> bool {
        true
    }

    /// This codec can refuse to seal these chunks, with the failure `why`.
    open spec fn refuses_seal(
        &self,
        object: Seq<char>,
        codec_header: Seq<u8>,
        batch: Seq<Shown>,
        why: Seq<char>,
    ) -> bool {
        true
    }

    /// This codec can refuse to open these chunks, with the failure `why`.
    open spec fn refuses_open(
        &self,
        object: Seq<char>,
        codec_header: Seq<u8>,
        batch: Seq<Shown>,
        why: Seq<char>,
    ) -> bool {
        true
    }

    /// Bytes appended per chunk (an authentication tag). Fixed for the lifetime of
    /// a codec: the container computes ciphertext offsets from it.
    fn overhead_per_chunk(&self) -> (n: usize)
        ensures
            n == self.tag_len(),
    ;

    /// Begins writing `object`; returns bytes the container stores in the header so
    /// the object can be reopened, typically a wrapped data key. Called once per
    /// object write, never per chunk.
    fn begin_write(&self, object: &str) -> (r: Result<Vec<u8>, String>)
        ensures
            match r {
                Ok(codec_header) => self.begins(object@, codec_header@),
                Err(why) => self.refuses(object@, why@),
            },
    ;

    /// Seals a batch in place, writing each chunk's tag.
    fn seal(&self, object: &str, codec_header: &[u8], batch: &mut [Chunk<'_>]) -> (r: Result<
        (),
        String,
    >)
        ensures
            r matches Err(why) ==> self.refuses_seal(
                object@,
                codec_header@,
                shown(old(batch)@),
                why@,
            ),
            forall|i: int|
                #![trigger old(batch)@[i]]
                0 <= i < old(batch)@.len() ==> {
                    let c = old(batch)@[i];
                    &&& final(c.data)@.len() == c.data@.len()
                    &&& final(c.tag)@.len() == c.tag@.len()
                    &&& r is Ok ==> self.seals(
                        object@,
                        codec_header@,
                        c.index,
                        c.aad@,
                        c.data@,
                        final(c.data)@,
                        final(c.tag)@,
                    )
                },
    ;

    /// Opens a batch in place, verifying each tag. Must fail rather than yield
    /// unauthenticated bytes.
    fn open(&self, object: &str, codec_header: &[u8], batch: &mut [Chunk<'_>]) -> (r: Result<
        (),
        String,
    >)
        ensures
            r matches Err(why) ==> self.refuses_open(
                object@,
                codec_header@,
                shown(old(batch)@),
                why@,
            ),
            forall|i: int|
                #![trigger old(batch)@[i]]
                0 <= i < old(batch)@.len() ==> {
                    let c = old(batch)@[i];
                    &&& final(c.data)@.len() == c.data@.len()
                    &&& final(c.tag)@.len() == c.tag@.len()
                    &&& r is Ok ==> self.opens(
                        object@,
                        codec_header@,
                        c.index,
                        c.aad@,
                        c.data@,
                        c.tag@,
                        final(c.data)@,
                    )
                },
    ;
}

} // verus!
