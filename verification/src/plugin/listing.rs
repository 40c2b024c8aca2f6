//! A listing as a stream of newline-terminated records. Newline framing permits
//! the byte stream to split a record anywhere.
use vstd::prelude::*;

use crate::encrypted::container::{copy_bytes, put_bytes};
use crate::plugin::abi::MAX_METADATA;
use crate::plugin::frame::concat;
use crate::store::StoreError;

verus! {

/// Where the first newline of `b` from `at` on stands, or the end where there is
/// none.
pub open spec fn newline_from(b: Seq<u8>, at: int) -> int
    decreases b.len() - at,
{
    if at < 0 || at >= b.len() || b[at] == 10u8 {
        at
    } else {
        newline_from(b, at + 1)
    }
}

/// The first record of `b`, with its newline, where it is complete.
pub open spec fn first_record(b: Seq<u8>) -> Option<Seq<u8>> {
    let end = newline_from(b, 0);
    if end < b.len() {
        Some(b.subrange(0, end + 1))
    } else {
        None
    }
}

/// What follows the first record.
pub open spec fn after_record(b: Seq<u8>) -> Seq<u8> {
    b.subrange(newline_from(b, 0) + 1, b.len() as int)
}

/// The complete records of `b`.
pub open spec fn records(b: Seq<u8>) -> Seq<Seq<u8>>
    decreases b.len(),
{
    match first_record(b) {
        None => Seq::empty(),
        Some(record) => {
            proof {
                lemma_newline(b, 0);
            }
            seq![record] + records(after_record(b))
        },
    }
}

/// What follows the last complete record.
pub open spec fn unfinished(b: Seq<u8>) -> Seq<u8>
    decreases b.len(),
{
    match first_record(b) {
        None => b,
        Some(_) => {
            proof {
                lemma_newline(b, 0);
            }
            unfinished(after_record(b))
        },
    }
}

pub proof fn lemma_newline(b: Seq<u8>, at: int)
    requires
        0 <= at <= b.len(),
    ensures
        at <= newline_from(b, at) <= b.len(),
        newline_from(b, at) < b.len() ==> b[newline_from(b, at)] == 10u8,
        forall|i: int| at <= i < newline_from(b, at) ==> b[i] != 10u8,
    decreases b.len() - at,
{
    if at < b.len() && b[at] != 10u8 {
        lemma_newline(b, at + 1);
    }
}

proof fn lemma_newline_is(b: Seq<u8>, at: int, end: int)
    requires
        0 <= at <= end <= b.len(),
        end < b.len() ==> b[end] == 10u8,
        forall|i: int| at <= i < end ==> b[i] != 10u8,
    ensures
        newline_from(b, at) == end,
    decreases end - at,
{
    if at < end {
        lemma_newline_is(b, at + 1, end);
    }
}

/// The records that arrived and were not handed on yet.
pub struct ListDecoder {
    pub buf: Vec<u8>,
    /// Bytes of it that were handed on.
    pub start: usize,
    /// No newline stands between `start` and here.
    pub scanned: usize,
}

/// What follows from what arrived so far.
pub enum ListStep {
    Record(Vec<u8>),
    /// The next chunk of the stream is needed.
    Feed,
    Refused(StoreError),
}

impl View for ListDecoder {
    type V = Seq<u8>;

    /// What arrived and was not handed on yet.
    open spec fn view(&self) -> Seq<u8> {
        self.buf@.subrange(self.start as int, self.buf@.len() as int)
    }
}

impl ListDecoder {
    pub open spec fn wf(self) -> bool {
        &&& self.start <= self.scanned <= self.buf@.len()
        &&& forall|i: int|
            #![trigger self.buf@[i]]
            self.start <= i < self.scanned ==> self.buf@[i] != 10u8
    }

    pub fn new() -> (r: ListDecoder)
        ensures
            r.wf(),
            r@ == Seq::<u8>::empty(),
    {
        let r = ListDecoder { buf: Vec::new(), start: 0, scanned: 0 };
        assert(r@ =~= Seq::<u8>::empty());
        r
    }

    /// Takes the next chunk of the stream in.
    pub fn feed(&mut self, chunk: &[u8])
        requires
            old(self).wf(),
        ensures
            final(self).wf(),
            final(self)@ == old(self)@ + chunk@,
    {
        let ghost before = self@;
        let ghost old_buf = self.buf@;
        let size: usize = self.buf.len();
        let mut buf = copy_bytes(
            vstd::slice::slice_subrange(self.buf.as_slice(), self.start, size),
        );
        put_bytes(&mut buf, chunk);
        self.scanned = self.scanned - self.start;
        let ghost gone = self.start as int;
        self.start = 0;
        self.buf = buf;
        proof {
            assert(self@ =~= before + chunk@);
            assert forall|i: int|
                #![trigger self.buf@[i]]
                self.start <= i < self.scanned implies self.buf@[i] != 10u8 by {
                assert(self.buf@[i] == old_buf[gone + i]);
            }
        }
    }

    /// The next record, where it is complete. A record may not grow beyond the
    /// limit of metadata.
    pub fn next(&mut self) -> (r: ListStep)
        requires
            old(self).wf(),
        ensures
            final(self).wf(),
            match first_record(old(self)@) {
                Some(record) => {
                    &&& r matches ListStep::Record(b) && b@ == record
                    &&& final(self)@ == after_record(old(self)@)
                },
                None => {
                    &&& final(self)@ == old(self)@
                    &&& if old(self)@.len() > MAX_METADATA {
                        r matches ListStep::Refused(e) && e.rejects(
                            "plugin list record exceeds limit"@,
                        )
                    } else {
                        r is Feed
                    }
                },
            },
    {
        let ghost before = self@;
        let ghost from = self.start as int;
        let size: usize = self.buf.len();
        while self.scanned < size && self.buf[self.scanned] != 10u8
            invariant
                self.wf(),
                self@ == before,
                self.start == from,
                size == self.buf@.len(),
            decreases size - self.scanned,
        {
            self.scanned = self.scanned + 1;
            assert(self@ =~= before);
        }
        proof {
            assert forall|i: int| 0 <= i < self.scanned - from implies before[i] != 10u8 by {
                assert(before[i] == self.buf@[from + i]);
            }
            lemma_newline_is(before, 0, self.scanned - from);
        }
        if self.scanned < size {
            let end: usize = self.scanned + 1;
            let record = copy_bytes(
                vstd::slice::slice_subrange(self.buf.as_slice(), self.start, end),
            );
            assert(record@ =~= before.subrange(0, self.scanned - from + 1));
            self.start = end;
            self.scanned = end;
            assert(self@ =~= after_record(before));
            return ListStep::Record(record);
        }
        if size - self.start > MAX_METADATA {
            return ListStep::Refused(StoreError::invalid("plugin list record exceeds limit"));
        }
        ListStep::Feed
    }

    /// What the end of the stream means: nothing more, unless it came within a
    /// record.
    pub fn end(&self) -> (r: Result<(), StoreError>)
        requires
            self.wf(),
        ensures
            if self@.len() == 0 {
                r is Ok
            } else {
                r matches Err(e) && e.says("truncated plugin listing"@)
            },
    {
        if self.start == self.buf.len() {
            Ok(())
        } else {
            Err(StoreError::other("truncated plugin listing"))
        }
    }
}

/// How a stream is split into chunks does not matter: what arrives later is joined
/// to what was left unfinished, and the same records come out.
pub proof fn law_splits_do_not_matter(a: Seq<u8>, b: Seq<u8>)
    ensures
        records(a + b) == records(a) + records(unfinished(a) + b),
        unfinished(a + b) == unfinished(unfinished(a) + b),
    decreases a.len(),
{
    let all = a + b;
    lemma_newline(a, 0);
    match first_record(a) {
        None => {
            assert(records(a) + records(all) =~= records(all));
        },
        Some(record) => {
            let end = newline_from(a, 0);
            lemma_newline_is(all, 0, end);
            assert(all.subrange(0, end + 1) =~= record);
            let rest = after_record(a);
            assert(after_record(all) =~= rest + b);
            law_splits_do_not_matter(rest, b);
            assert(records(all) =~= records(a) + records(unfinished(a) + b));
        },
    }
}

/// A listing that was written record by record, each with one newline at its end
/// and none before, is read back as the same records, with nothing left over.
pub proof fn law_listing_round_trip(list: Seq<Seq<u8>>)
    requires
        forall|i: int|
            #![trigger list[i]]
            0 <= i < list.len() ==> is_record(list[i]),
    ensures
        records(written(list)) == list,
        unfinished(written(list)) == Seq::<u8>::empty(),
    decreases list.len(),
{
    if list.len() == 0 {
        assert(records(written(list)) =~= list);
    } else {
        let first = list[0];
        let rest = list.drop_first();
        assert forall|i: int| #![trigger rest[i]] 0 <= i < rest.len() implies is_record(rest[i]) by {
            assert(rest[i] == list[i + 1]);
        }
        law_listing_round_trip(rest);
        let all = written(list);
        assert(all == first + written(rest));
        assert forall|i: int| 0 <= i < first.len() - 1 implies all[i] != 10u8 by {
            assert(all[i] == first[i]);
        }
        lemma_newline_is(all, 0, first.len() - 1);
        assert(all.subrange(0, first.len() as int) =~= first);
        assert(after_record(all) =~= written(rest));
        assert(records(all) =~= list);
    }
}

/// Bytes whose only newline is the last of them.
pub open spec fn is_record(r: Seq<u8>) -> bool {
    &&& r.len() > 0
    &&& r.last() == 10u8
    &&& forall|i: int| 0 <= i < r.len() - 1 ==> r[i] != 10u8
}

/// Records, one behind the other.
pub open spec fn written(list: Seq<Seq<u8>>) -> Seq<u8>
    decreases list.len(),
{
    if list.len() == 0 {
        Seq::empty()
    } else {
        list[0] + written(list.drop_first())
    }
}

/// A record as it is sent: its text, and the newline that ends it.
pub fn record(text: Vec<u8>) -> (r: Vec<u8>)
    ensures
        r@ == text@.push(10u8),
{
    let mut r: Vec<u8> = text;
    r.push(10);
    r
}

/// How a listing ends.
pub enum ListEnd {
    Complete,
    /// The stream ended within a record.
    Truncated,
    /// A record outgrew the limit before it ended.
    TooLong,
}

/// What decoding a stream comes to, frame by frame, with `held` in front of it: the
/// records that are handed on, and how the listing ends. Complete records are handed on
/// before the stream is asked for more.
pub open spec fn decoded(held: Seq<u8>, frames: Seq<Seq<u8>>) -> (Seq<Seq<u8>>, ListEnd)
    decreases frames.len(), held.len(),
{
    match first_record(held) {
        Some(record) => {
            proof {
                lemma_newline(held, 0);
            }
            let (rest, end) = decoded(after_record(held), frames);
            (seq![record] + rest, end)
        },
        None => if held.len() > MAX_METADATA {
            (Seq::empty(), ListEnd::TooLong)
        } else if frames.len() == 0 {
            (
                Seq::empty(),
                if held.len() == 0 {
                    ListEnd::Complete
                } else {
                    ListEnd::Truncated
                },
            )
        } else {
            decoded(held + frames[0], frames.drop_first())
        },
    }
}

/// No record is longer than metadata may be, the newline that ends it aside.
pub open spec fn records_fit(b: Seq<u8>) -> bool {
    forall|i: int|
        #![trigger records(b)[i]]
        0 <= i < records(b).len() ==> records(b)[i].len() <= MAX_METADATA + 1
}

/// A listing yields its records, all of them and in order, wherever its frames were cut.
/// It is complete where nothing follows the last record, truncated where something does,
/// and refused where that is longer than a record may be.
pub proof fn law_listing_is_decoded_whole(held: Seq<u8>, frames: Seq<Seq<u8>>)
    requires
        records_fit(held + concat(frames)),
    ensures
        ({
            let all = held + concat(frames);
            let (list, end) = decoded(held, frames);
            &&& list == records(all)
            &&& end == if unfinished(all).len() > MAX_METADATA {
                ListEnd::TooLong
            } else if unfinished(all).len() > 0 {
                ListEnd::Truncated
            } else {
                ListEnd::Complete
            }
        }),
    decreases frames.len(), held.len(),
{
    let all = held + concat(frames);
    lemma_newline(held, 0);
    lemma_newline(all, 0);
    match first_record(held) {
        Some(record) => {
            let end = newline_from(held, 0);
            lemma_newline_is(all, 0, end);
            assert(all.subrange(0, end + 1) =~= record);
            let rest = after_record(held);
            assert(after_record(all) =~= rest + concat(frames));
            let tail = records(rest + concat(frames));
            assert(records(all) == seq![record] + tail);
            assert forall|i: int| #![trigger tail[i]] 0 <= i < tail.len() implies tail[i].len()
                <= MAX_METADATA + 1 by {
                assert(records(all)[i + 1] == tail[i]);
            }
            law_listing_is_decoded_whole(rest, frames);
        },
        None => {
            assert forall|i: int| 0 <= i < held.len() implies all[i] != 10u8 by {
                assert(all[i] == held[i]);
            }
            if held.len() > MAX_METADATA {
                if first_record(all) is Some {
                    assert(newline_from(all, 0) >= held.len());
                    assert(records(all)[0] == first_record(all)->Some_0);
                    assert(records(all)[0].len() > MAX_METADATA + 1);
                }
            } else if frames.len() == 0 {
                assert(all =~= held);
            } else {
                assert((held + frames[0]) + concat(frames.drop_first()) =~= all);
                law_listing_is_decoded_whole(held + frames[0], frames.drop_first());
            }
        },
    }
}

/// The records of some bytes are told by their newlines: each record ends with one and holds
/// no other, all of them and what is left over are the bytes, in order, and what is left over
/// holds none.
pub proof fn law_newlines_tell_the_records(b: Seq<u8>)
    ensures
        written(records(b)) + unfinished(b) == b,
        forall|i: int|
            0 <= i < records(b).len() ==> {
                let r = #[trigger] records(b)[i];
                &&& r.len() > 0
                &&& r[r.len() - 1] == 10u8
                &&& forall|j: int| 0 <= j < r.len() - 1 ==> r[j] != 10u8
            },
        forall|j: int| 0 <= j < unfinished(b).len() ==> #[trigger] unfinished(b)[j] != 10u8,
    decreases b.len(),
{
    lemma_newline(b, 0);
    match first_record(b) {
        None => {
            assert(written(records(b)) + unfinished(b) =~= b);
        },
        Some(record) => {
            let rest = after_record(b);
            law_newlines_tell_the_records(rest);
            let all = records(b);
            assert(all.drop_first() =~= records(rest));
            assert(record + rest =~= b);
            assert(written(all) + unfinished(b) =~= record + (written(records(rest))
                + unfinished(rest)));
            assert forall|i: int| 0 <= i < all.len() implies {
                let r = #[trigger] all[i];
                &&& r.len() > 0
                &&& r[r.len() - 1] == 10u8
                &&& forall|j: int| 0 <= j < r.len() - 1 ==> r[j] != 10u8
            } by {
                if i > 0 {
                    assert(all[i] == records(rest)[i - 1]);
                }
            }
        },
    }
}

/// A decoder hands on the first record that is complete, and keeps the rest. It waits for more
/// where none is, and refuses only what has grown beyond 16 MiB without an end. A stream may
/// end exactly where nothing is left.
pub proof fn law_decoder_hands_on_what_is_complete(d: &ListDecoder, end: Result<(), StoreError>)
    requires
        d.wf(),
        call_ensures(ListDecoder::end, (d,), end),
    ensures
        end is Ok <==> d@.len() == 0,
        forall|s: &mut ListDecoder, r: ListStep| #[trigger]
            call_ensures(ListDecoder::next, (s,), r) && (*s).wf() ==> {
                let complete = exists|i: int| 0 <= i < (*s)@.len() && #[trigger] (*s)@[i] == 10u8;
                &&& r is Record <==> complete
                &&& r is Refused <==> !complete && (*s)@.len() > 0x100_0000
                &&& r matches ListStep::Record(b) ==> {
                    &&& b@ + (*final(s))@ == (*s)@
                    &&& b@.len() > 0 && b@[b@.len() - 1] == 10u8
                    &&& forall|i: int| 0 <= i < b@.len() - 1 ==> #[trigger] b@[i] != 10u8
                }
                &&& !(r is Record) ==> (*final(s))@ == (*s)@
            },
        forall|s: &mut ListDecoder, chunk: &[u8], r: ()| #[trigger]
            call_ensures(ListDecoder::feed, (s, chunk), r) && (*s).wf() ==> (*final(s))@ == (*s)@
                + chunk@,
{
    assert forall|s: &mut ListDecoder, r: ListStep| #[trigger]
        call_ensures(ListDecoder::next, (s,), r) && (*s).wf() implies {
        let complete = exists|i: int| 0 <= i < (*s)@.len() && #[trigger] (*s)@[i] == 10u8;
        &&& r is Record <==> complete
        &&& r is Refused <==> !complete && (*s)@.len() > 0x100_0000
        &&& r matches ListStep::Record(b) ==> {
            &&& b@ + (*final(s))@ == (*s)@
            &&& b@.len() > 0 && b@[b@.len() - 1] == 10u8
            &&& forall|i: int| 0 <= i < b@.len() - 1 ==> #[trigger] b@[i] != 10u8
        }
        &&& !(r is Record) ==> (*final(s))@ == (*s)@
    } by {
        let all = (*s)@;
        lemma_newline(all, 0);
        let at = newline_from(all, 0);
        if at < all.len() {
            assert(all[at] == 10u8);
        }
        if let ListStep::Record(b) = r {
            assert(b@ + (*final(s))@ =~= all);
        }
    }
}

/// A record is sent as its text and a newline.
pub proof fn law_record_is_its_text_and_a_newline(text: Vec<u8>, r: Vec<u8>)
    requires
        call_ensures(record, (text,), r),
    ensures
        r@.len() == text@.len() + 1,
        r@.drop_last() == text@,
        r@.last() == 10u8,
{
    assert(r@.drop_last() =~= text@);
}

} // verus!
