//! Streams that cross the boundary in frames.
//!
//! The side that owns a stream hands out at most one frame per call: the rest of
//! the chunk at hand, or a frame's worth of it. The other side asks until it is
//! told that the stream ended.
use vstd::prelude::*;

use crate::encrypted::container::copy_bytes;
use crate::plugin::abi::{read_slice, slice_fault, Buffer, MAX_FRAME};
use crate::store::StoreError;

verus! {

/// The frames that a chunk crosses in: whole ones, and what is left. An empty chunk
/// crosses in an empty frame.
pub open spec fn frames_of(chunk: Seq<u8>) -> Seq<Seq<u8>>
    decreases chunk.len(),
{
    if chunk.len() <= MAX_FRAME {
        seq![chunk]
    } else {
        seq![chunk.subrange(0, MAX_FRAME as int)] + frames_of(
            chunk.subrange(MAX_FRAME as int, chunk.len() as int),
        )
    }
}

/// Byte sequences, one behind the other.
pub open spec fn concat(parts: Seq<Seq<u8>>) -> Seq<u8>
    decreases parts.len(),
{
    if parts.len() == 0 {
        Seq::empty()
    } else {
        parts[0] + concat(parts.drop_first())
    }
}

/// The frames that a stream of chunks crosses in.
pub open spec fn frames_of_all(chunks: Seq<Seq<u8>>) -> Seq<Seq<u8>>
    decreases chunks.len(),
{
    if chunks.len() == 0 {
        Seq::empty()
    } else {
        frames_of(chunks[0]) + frames_of_all(chunks.drop_first())
    }
}

/// The chunk that a stream is handing out.
pub struct StreamState {
    pub chunk: Vec<u8>,
    /// Bytes of it that were handed out.
    pub sent: usize,
}

/// What the stream itself did when it was asked for its next chunk.
pub enum Pulled {
    Chunk(Vec<u8>),
    Failed(StoreError),
    Ended,
    Panicked,
}

/// What the other side is told.
pub enum FrameAnswer {
    Bytes(Vec<u8>),
    Failed(StoreError),
    Ended,
}

impl FrameAnswer {
    /// The status code of an answer.
    pub open spec fn code(self) -> int {
        match self {
            FrameAnswer::Bytes(_) => 1,
            FrameAnswer::Ended => 0,
            FrameAnswer::Failed(_) => -1,
        }
    }

    pub fn status(&self) -> (r: i32)
        ensures
            r == self.code(),
    {
        match self {
            FrameAnswer::Bytes(_) => 1,
            FrameAnswer::Ended => 0,
            FrameAnswer::Failed(_) => -1,
        }
    }
}

impl View for StreamState {
    type V = Seq<u8>;

    /// The bytes that are still to be handed out.
    open spec fn view(&self) -> Seq<u8> {
        self.chunk@.subrange(self.sent as int, self.chunk@.len() as int)
    }
}

impl StreamState {
    pub open spec fn wf(self) -> bool {
        self.sent <= self.chunk@.len()
    }

    pub fn new() -> (r: StreamState)
        ensures
            r.wf(),
            r@ == Seq::<u8>::empty(),
    {
        let r = StreamState { chunk: Vec::new(), sent: 0 };
        assert(r@ =~= Seq::<u8>::empty());
        r
    }

    /// Whether the stream has to be asked for its next chunk first.
    pub fn exhausted(&self) -> (r: bool)
        requires
            self.wf(),
        ensures
            r == (self@.len() == 0),
    {
        self.sent == self.chunk.len()
    }

    /// The next frame of the chunk at hand.
    fn cut(&mut self) -> (r: Vec<u8>)
        requires
            old(self).wf(),
        ensures
            final(self).wf(),
            r@ == frames_of(old(self)@)[0],
            final(self)@ == old(self)@.subrange(r@.len() as int, old(self)@.len() as int),
            r@.len() == if old(self)@.len() < MAX_FRAME {
                old(self)@.len() as int
            } else {
                MAX_FRAME as int
            },
    {
        let left: usize = self.chunk.len() - self.sent;
        let size: usize = if left < MAX_FRAME {
            left
        } else {
            MAX_FRAME
        };
        let ghost before = self@;
        let end: usize = self.sent + size;
        let frame = copy_bytes(
            vstd::slice::slice_subrange(self.chunk.as_slice(), self.sent, end),
        );
        self.sent = end;
        proof {
            assert(frame@ =~= before.subrange(0, size as int));
            if before.len() <= MAX_FRAME {
                assert(frame@ =~= before);
            }
            assert(self@ =~= before.subrange(size as int, before.len() as int));
        }
        frame
    }

    /// Hands out the next frame. `pulled` is what the stream did where the chunk at
    /// hand is exhausted.
    pub fn next(&mut self, pulled: Option<Pulled>) -> (r: FrameAnswer)
        requires
            old(self).wf(),
            pulled is Some <==> old(self)@.len() == 0,
        ensures
            final(self).wf(),
            match pulled {
                None => r matches FrameAnswer::Bytes(b) && b@ == frames_of(old(self)@)[0]
                    && final(self)@ == old(self)@.subrange(b@.len() as int, old(self)@.len() as int),
                Some(Pulled::Chunk(c)) => r matches FrameAnswer::Bytes(b) && b@ == frames_of(c@)[0]
                    && final(self)@ == c@.subrange(b@.len() as int, c@.len() as int),
                Some(Pulled::Failed(e)) => r == FrameAnswer::Failed(e) && final(self)@ == old(
                    self,
                )@,
                Some(Pulled::Ended) => r is Ended && final(self)@ == old(self)@,
                Some(Pulled::Panicked) => (r matches FrameAnswer::Failed(e) && e.says(
                    "plugin stream panicked"@,
                )) && final(self)@ == old(self)@,
            },
            r matches FrameAnswer::Bytes(b) ==> b@.len() <= MAX_FRAME,
    {
        match pulled {
            None => FrameAnswer::Bytes(self.cut()),
            Some(Pulled::Chunk(c)) => {
                self.chunk = c;
                self.sent = 0;
                assert(self@ =~= c@);
                FrameAnswer::Bytes(self.cut())
            },
            Some(Pulled::Failed(e)) => FrameAnswer::Failed(e),
            Some(Pulled::Ended) => FrameAnswer::Ended,
            Some(Pulled::Panicked) => FrameAnswer::Failed(
                StoreError::other("plugin stream panicked"),
            ),
        }
    }
}

/// What the receiver of a stream makes of an answer.
pub enum Received {
    Ended,
    Bytes(Vec<u8>),
    /// The buffer holds an error, to be decoded.
    Error,
}

/// Takes an answer apart.
pub fn receive(code: i32, buffer: &Buffer) -> (r: Result<Received, StoreError>)
    requires
        buffer.wf(),
    ensures
        if code == 0 {
            r matches Ok(Received::Ended)
        } else if code == 1 {
            match slice_fault(!buffer.held, buffer.bytes@.len(), MAX_FRAME as nat) {
                Some(message) => r matches Err(e) && e.says(message),
                None => r matches Ok(Received::Bytes(b)) && b@ == buffer.bytes@,
            }
        } else if code == -1 {
            r matches Ok(Received::Error)
        } else {
            r matches Err(e) && e.says("invalid plugin stream status"@)
        },
{
    if code == 0 {
        Ok(Received::Ended)
    } else if code == 1 {
        match read_slice(buffer.slice(), MAX_FRAME) {
            Ok(bytes) => {
                assert(bytes@ =~= buffer.bytes@);
                Ok(Received::Bytes(copy_bytes(bytes)))
            },
            Err(e) => Err(e),
        }
    } else if code == -1 {
        Ok(Received::Error)
    } else {
        Err(StoreError::other("invalid plugin stream status"))
    }
}

/// The frames of a chunk carry it whole, and none of them is too large to be
/// received.
pub proof fn law_frames_carry_the_chunk(chunk: Seq<u8>)
    ensures
        concat(frames_of(chunk)) == chunk,
        frames_of(chunk).len() >= 1,
        forall|i: int|
            #![trigger frames_of(chunk)[i]]
            0 <= i < frames_of(chunk).len() ==> frames_of(chunk)[i].len() <= MAX_FRAME,
    decreases chunk.len(),
{
    let frames = frames_of(chunk);
    if chunk.len() <= MAX_FRAME {
        assert(frames.drop_first() =~= Seq::<Seq<u8>>::empty());
        assert(concat(frames.drop_first()) =~= Seq::<u8>::empty());
        assert(concat(frames) =~= chunk);
    } else {
        let first = chunk.subrange(0, MAX_FRAME as int);
        let rest = chunk.subrange(MAX_FRAME as int, chunk.len() as int);
        law_frames_carry_the_chunk(rest);
        assert(frames.drop_first() =~= frames_of(rest));
        assert(concat(frames) =~= first + rest);
        assert forall|i: int| #![trigger frames[i]] 0 <= i < frames.len() implies frames[i].len()
            <= MAX_FRAME by {
            if i > 0 {
                assert(frames[i] == frames_of(rest)[i - 1]);
            }
        }
    }
}

proof fn lemma_concat_append(a: Seq<Seq<u8>>, b: Seq<Seq<u8>>)
    ensures
        concat(a + b) == concat(a) + concat(b),
    decreases a.len(),
{
    if a.len() == 0 {
        assert(a + b =~= b);
        assert(concat(a) + concat(b) =~= concat(b));
    } else {
        lemma_concat_append(a.drop_first(), b);
        assert((a + b).drop_first() =~= a.drop_first() + b);
        assert(concat(a + b) =~= concat(a) + concat(b));
    }
}

/// A stream comes out on the other side as it went in, byte for byte, however it
/// was cut into chunks.
pub proof fn law_frames_carry_the_stream(chunks: Seq<Seq<u8>>)
    ensures
        concat(frames_of_all(chunks)) == concat(chunks),
    decreases chunks.len(),
{
    if chunks.len() > 0 {
        law_frames_carry_the_chunk(chunks[0]);
        law_frames_carry_the_stream(chunks.drop_first());
        lemma_concat_append(frames_of(chunks[0]), frames_of_all(chunks.drop_first()));
    }
}

/// Handing out the frame at the front leaves the frames behind it.
pub proof fn law_next_frame_leaves_the_rest(chunk: Seq<u8>)
    requires
        chunk.len() > MAX_FRAME,
    ensures
        ({
            let first = frames_of(chunk)[0];
            frames_of(chunk) == seq![first] + frames_of(
                chunk.subrange(first.len() as int, chunk.len() as int),
            )
        }),
{
}

/// A stream is received as it was sent: each frame that it crosses in is accepted and
/// comes out as it is, and all of them together are the stream, however it was cut into
/// chunks. Its end is told as its end, and its failure as a failure.
pub proof fn law_stream_is_received_as_sent(chunks: Seq<Seq<u8>>)
    ensures
        concat(frames_of_all(chunks)) == concat(chunks),
        forall|i: int|
            #![trigger frames_of_all(chunks)[i]]
            0 <= i < frames_of_all(chunks).len() ==> slice_fault(
                false,
                frames_of_all(chunks)[i].len(),
                MAX_FRAME as nat,
            ) is None,
        forall|b: Vec<u8>| #[trigger] FrameAnswer::Bytes(b).code() == 1,
        FrameAnswer::Ended.code() == 0,
        forall|e: StoreError| #[trigger] FrameAnswer::Failed(e).code() == -1,
    decreases chunks.len(),
{
    law_frames_carry_the_stream(chunks);
    if chunks.len() > 0 {
        let first = frames_of(chunks[0]);
        let rest = frames_of_all(chunks.drop_first());
        law_frames_carry_the_chunk(chunks[0]);
        law_stream_is_received_as_sent(chunks.drop_first());
        let all = frames_of_all(chunks);
        assert forall|i: int| #![trigger all[i]] 0 <= i < all.len() implies slice_fault(
            false,
            all[i].len(),
            MAX_FRAME as nat,
        ) is None by {
            if i < first.len() {
                assert(all[i] == first[i]);
            } else {
                assert(all[i] == rest[i - first.len()]);
            }
        }
    }
}

/// A chunk crosses in as few frames as can carry it: all but the last are full, and the last
/// is not empty unless the chunk is.
pub proof fn law_frames_are_full(chunk: Seq<u8>)
    ensures
        forall|i: int|
            #![trigger frames_of(chunk)[i]]
            0 <= i < frames_of(chunk).len() - 1 ==> frames_of(chunk)[i].len() == 0x10_0000,
        frames_of(chunk).last().len() <= 0x10_0000,
        chunk.len() > 0 ==> frames_of(chunk).last().len() > 0,
        frames_of(chunk).len() >= 1,
    decreases chunk.len(),
{
    let frames = frames_of(chunk);
    if chunk.len() > MAX_FRAME {
        let rest = chunk.subrange(MAX_FRAME as int, chunk.len() as int);
        law_frames_are_full(rest);
        assert forall|i: int| #![trigger frames[i]] 0 <= i < frames.len() - 1 implies frames[i].len()
            == 0x10_0000 by {
            if i > 0 {
                assert(frames[i] == frames_of(rest)[i - 1]);
            }
        }
        assert(frames.last() == frames_of(rest).last());
    }
}

/// A stream hands out its bytes in order and loses none: what comes out is the front of what
/// is at hand, a frame's worth or all of it, and the rest is what comes next. Its end and its
/// failure are told as what they are.
pub proof fn law_stream_hands_out_what_is_at_hand(pulled: Option<Pulled>)
    ensures
        forall|s: &mut StreamState, r: FrameAnswer| #[trigger]
            call_ensures(StreamState::next, (s, pulled), r) && (*s).wf() && (pulled is Some
                <==> (*s)@.len() == 0) ==> {
                let at_hand = match pulled {
                    Some(Pulled::Chunk(c)) => c@,
                    _ => (*s)@,
                };
                &&& r is Bytes <==> pulled is None || pulled->Some_0 is Chunk
                &&& r is Ended <==> pulled is Some && pulled->Some_0 is Ended
                &&& r matches FrameAnswer::Bytes(b) ==> {
                    &&& b@ + (*final(s))@ == at_hand
                    &&& b@.len() == 0x10_0000 || (b@.len() < 0x10_0000 && (*final(s))@.len() == 0)
                }
                &&& pulled matches Some(Pulled::Failed(e)) ==> r == FrameAnswer::Failed(e)
                &&& pulled is Some && pulled->Some_0 is Panicked ==> r is Failed
                &&& !(r is Bytes) ==> (*final(s))@ == (*s)@
            },
{
    assert forall|s: &mut StreamState, r: FrameAnswer| #[trigger]
        call_ensures(StreamState::next, (s, pulled), r) && (*s).wf() && (pulled is Some <==> (
    *s)@.len() == 0) implies {
        let at_hand = match pulled {
            Some(Pulled::Chunk(c)) => c@,
            _ => (*s)@,
        };
        &&& r is Bytes <==> pulled is None || pulled->Some_0 is Chunk
        &&& r is Ended <==> pulled is Some && pulled->Some_0 is Ended
        &&& r matches FrameAnswer::Bytes(b) ==> {
            &&& b@ + (*final(s))@ == at_hand
            &&& b@.len() == 0x10_0000 || (b@.len() < 0x10_0000 && (*final(s))@.len() == 0)
        }
        &&& pulled matches Some(Pulled::Failed(e)) ==> r == FrameAnswer::Failed(e)
        &&& pulled is Some && pulled->Some_0 is Panicked ==> r is Failed
        &&& !(r is Bytes) ==> (*final(s))@ == (*s)@
    } by {
        let at_hand = match pulled {
            Some(Pulled::Chunk(c)) => c@,
            _ => (*s)@,
        };
        if let FrameAnswer::Bytes(b) = r {
            assert(b@ == frames_of(at_hand)[0]);
            assert(b@ + (*final(s))@ =~= at_hand);
        }
    }
}

/// What is received is what was sent: bytes that a frame can carry, an end, or a failure. A
/// frame that is too large and a status that there is none of are refused.
pub proof fn law_answer_is_received_as_sent(
    sent: FrameAnswer,
    code: i32,
    buffer: &Buffer,
    r: Result<Received, StoreError>,
    any: i32,
    other: Result<Received, StoreError>,
)
    requires
        buffer.wf(),
        call_ensures(FrameAnswer::status, (&sent,), code),
        sent matches FrameAnswer::Bytes(b) ==> buffer.bytes@ == b@ && buffer.held,
        call_ensures(receive, (code, buffer), r),
        call_ensures(receive, (any, buffer), other),
    ensures
        sent is Ended ==> r == Ok::<Received, StoreError>(Received::Ended),
        sent is Failed ==> r == Ok::<Received, StoreError>(Received::Error),
        sent matches FrameAnswer::Bytes(b) ==> {
            &&& r is Ok <==> b@.len() <= 0x10_0000
            &&& r matches Ok(got) ==> (got matches Received::Bytes(v) && v@ == b@)
        },
        any != 0 && any != 1 && any != -1 ==> other is Err,
{
}

/// A stream is asked for its next chunk exactly where all of the one at hand was handed out,
/// and a new one has nothing at hand.
pub proof fn law_stream_is_asked_when_nothing_is_at_hand(
    s: &StreamState,
    empty: bool,
    fresh: StreamState,
)
    requires
        s.wf(),
        call_ensures(StreamState::exhausted, (s,), empty),
        call_ensures(StreamState::new, (), fresh),
    ensures
        empty <==> s.sent == s.chunk@.len(),
        fresh@.len() == 0,
{
}

} // verus!
