//! Sealing a whole object, and opening a range of one.
use vstd::prelude::*;

use crate::encrypted::codec::{shown, ChunkCodec, Shown};
use crate::encrypted::container::{
    aad, aad_for, chunk_count, chunks_for, copy_bytes, encode_result, law_aad_is_injective,
    lemma_encoded_len, Header, HeaderFields, CHUNK,
};
use crate::encrypted::layout::{
    aads_for, clamped, container_batch, cut, flat, joined, lay_out, lemma_chunk_bounds,
    lemma_cut_sized,
    lemma_flat_append, lemma_flat_len, lemma_flat_of_cut, lemma_flat_pieces, lemma_joined_len,
    lemma_plan_bounds, lemma_unsealed_len, piece_at, plain_chunk, plan_read, span_batch, split_span,
    unsealed, Piece, ReadPlan,
};
use crate::store::{ByteRange, StoreError};

verus! {

/// The pieces that `codec` can make of the chunks of `plain` when it seals them
/// as `object` under the header `h`.
pub open spec fn sealed<C: ChunkCodec>(
    codec: C,
    object: Seq<char>,
    h: HeaderFields,
    plain: Seq<u8>,
    pieces: Seq<Piece>,
) -> bool {
    &&& pieces.len() == h.chunk_count
    &&& h.sized(0, pieces)
    &&& forall|i: int|
        #![trigger pieces[i]]
        0 <= i < pieces.len() ==> codec.seals(
            object,
            h.codec,
            i as u64,
            aad(vstd::utf8::encode_utf8(object), i as nat, h),
            plain_chunk(plain, i as nat),
            pieces[i].0,
            pieces[i].1,
        )
}

/// The plaintexts that `codec` can make of `pieces` when it opens them as chunks
/// `first`, `first + 1`, and so on, of `object`.
pub open spec fn opened<C: ChunkCodec>(
    codec: C,
    object: Seq<char>,
    h: HeaderFields,
    first: nat,
    pieces: Seq<Piece>,
    plains: Seq<Piece>,
) -> bool {
    &&& plains.len() == pieces.len()
    &&& forall|k: int|
        #![trigger plains[k]]
        0 <= k < plains.len() ==> {
            &&& plains[k].0.len() == pieces[k].0.len()
            &&& codec.opens(
                object,
                h.codec,
                (first + k) as u64,
                aad(vstd::utf8::encode_utf8(object), (first + k) as nat, h),
                pieces[k].0,
                pieces[k].1,
                plains[k].0,
            )
        }
}

/// The header that `plain` gets when `codec` writes it with its bytes
/// `codec_header`.
pub open spec fn object_header<C: ChunkCodec>(
    codec: C,
    plain: Seq<u8>,
    codec_header: Seq<u8>,
) -> HeaderFields {
    HeaderFields {
        plaintext_len: plain.len(),
        chunk_count: chunks_for(plain.len()),
        tag_len: codec.tag_len(),
        codec: codec_header,
    }
}

/// Chunks `first`, `first + 1`, and so on, of `object`, as a codec is shown them.
pub open spec fn presented(
    object: Seq<char>,
    h: HeaderFields,
    first: nat,
    pieces: Seq<Piece>,
) -> Seq<Shown> {
    Seq::new(
        pieces.len(),
        |k: int|
            (
                (first + k) as u64,
                aad(vstd::utf8::encode_utf8(object), (first + k) as nat, h),
                pieces[k].0,
                pieces[k].1,
            ),
    )
}

/// Seals `plain` into a container, with one call of the codec for all chunks.
/// `codec_header` is what the codec answered when the write began.
pub fn seal_object<C: ChunkCodec>(
    codec: &C,
    object: &str,
    plain: &[u8],
    codec_header: Vec<u8>,
) -> (r: Result<Vec<u8>, StoreError>)
    ensures
        ({
            let h = object_header(*codec, plain@, codec_header@);
            match encode_result(h) {
                Err(message) => r matches Err(e) && e.says(message),
                Ok(encoded) => if h.container_len() > usize::MAX {
                    r matches Err(e) && e.says("wgenc container: too large"@)
                } else {
                    match r {
                        Ok(out) => exists|pieces: Seq<Piece>|
                            #[trigger] sealed(*codec, object@, h, plain@, pieces) && out@
                                == encoded + flat(pieces),
                        Err(e) => e matches StoreError::Other(why) && codec.refuses_seal(
                            object@,
                            h.codec,
                            presented(object@, h, 0, unsealed(plain@, h.chunk_count, h.tag_len)),
                            why@,
                        ),
                    }
                },
            }
        }),
{
    let header = Header {
        plaintext_len: plain.len(),
        chunk_count: chunk_count(plain.len()),
        tag_len: codec.overhead_per_chunk(),
        codec: codec_header,
    };
    let ghost h = object_header(*codec, plain@, codec_header@);
    assert(header@ =~= h);
    let mut out: Vec<u8> = match lay_out(plain, &header) {
        Ok(out) => out,
        Err(e) => {
            return Err(e);
        },
    };
    let ghost laid = out@;
    proof {
        lemma_encoded_len(h);
        lemma_unsealed_len(h, plain@);
    }
    let aads = aads_for(object, 0, header.chunk_count - 1, &header);
    let mut batch = container_batch(out.as_mut_slice(), &header, &aads);
    let ghost chunks = batch@;
    assert(laid == laid.subrange(0, h.header_len() as int) + flat(
        Seq::new(chunks.len(), |i: int| (chunks[i].data@, chunks[i].tag@)),
    ));
    let done = codec.seal(object, header.codec.as_slice(), batch.as_mut_slice());
    proof {
        let laid_pieces = Seq::new(chunks.len(), |i: int| (chunks[i].data@, chunks[i].tag@));
        let pieces = Seq::new(
            chunks.len(),
            |i: int| (final(chunks[i].data)@, final(chunks[i].tag)@),
        );
        let plain_pieces = unsealed(plain@, h.chunk_count, h.tag_len);
        let all = laid.len() as int;
        assert(flat(laid_pieces) =~= laid.subrange(h.header_len() as int, all));
        assert(flat(plain_pieces) =~= laid.subrange(h.header_len() as int, all));
        lemma_flat_pieces(h, 0, laid_pieces, plain_pieces);
        assert(shown(chunks) =~= presented(object@, h, 0, plain_pieces)) by {
            assert forall|i: int| 0 <= i < chunks.len() implies #[trigger] shown(chunks)[i]
                == presented(object@, h, 0, plain_pieces)[i] by {
                assert(laid_pieces[i] == plain_pieces[i]);
            }
        }
        if done is Ok {
            assert forall|i: int| #![trigger pieces[i]] 0 <= i < pieces.len() implies codec.seals(
                object@,
                h.codec,
                i as u64,
                aad(vstd::utf8::encode_utf8(object@), i as nat, h),
                plain_chunk(plain@, i as nat),
                pieces[i].0,
                pieces[i].1,
            ) by {
                assert(laid_pieces[i] == plain_pieces[i]);
            }
            assert(sealed(*codec, object@, h, plain@, pieces));
            assert(out@ =~= h.encoded() + flat(pieces));
        }
    }
    match done {
        Ok(()) => Ok(out),
        Err(why) => Err(StoreError::Other(why)),
    }
}

/// What opening the chunks that `plan` names can come to, out of the bytes `ct` that the
/// container holds where the plan points.
pub open spec fn opens_to<C: ChunkCodec>(
    codec: C,
    object: Seq<char>,
    h: HeaderFields,
    plan: ReadPlan,
    ct: Seq<u8>,
    r: Result<Vec<u8>, StoreError>,
) -> bool {
    let first = plan.first as nat;
    let pieces = cut(h, first, (plan.last - plan.first + 1) as nat, ct);
    if ct.len() < h.span_len(first, plan.last as nat) {
        r matches Err(e) && e.says("wgenc container: truncated"@)
    } else {
        match r {
            Ok(bytes) => exists|plains: Seq<Piece>| #[trigger]
                opened(codec, object, h, first, pieces, plains) && bytes@ == joined(
                    plains,
                ).subrange(plan.start - first * CHUNK, plan.end - first * CHUNK),
            Err(e) => e matches StoreError::Other(why) && codec.refuses_open(
                object,
                h.codec,
                presented(object, h, first, pieces),
                why@,
            ),
        }
    }
}

/// Opens the chunks that `plan` names, with one call of the codec for all of them,
/// and gives back the plaintext range. `ct` is what the container holds where the
/// plan points.
pub fn open_range<C: ChunkCodec>(
    codec: &C,
    object: &str,
    header: &Header,
    plan: &ReadPlan,
    ct: &[u8],
) -> (r: Result<Vec<u8>, StoreError>)
    requires
        header@.valid(),
        plan.covers(header@, (plan.start as int, plan.end as int)),
    ensures
        opens_to(*codec, object@, header@, *plan, ct@, r),
{
    let first: usize = plan.first;
    let ghost h = header@;
    let ghost n = (plan.last - plan.first + 1) as nat;
    let ghost pieces = cut(h, first as nat, n, ct@);
    let (mut data, mut tags) = match split_span(ct, header, first, plan.last) {
        Ok(parts) => parts,
        Err(e) => {
            return Err(e);
        },
    };
    let aads = aads_for(object, first, plan.last, header);
    proof {
        lemma_cut_sized(h, first as nat, n, ct@);
        lemma_joined_len(h, first as nat, pieces);
    }
    let mut batch = span_batch(
        data.as_mut_slice(),
        tags.as_mut_slice(),
        header,
        first,
        plan.last,
        &aads,
        Ghost(pieces),
    );
    let ghost chunks = batch@;
    assert(shown(chunks) =~= presented(object@, h, first as nat, pieces));
    let done = codec.open(object, header.codec.as_slice(), batch.as_mut_slice());
    match done {
        Ok(()) => {},
        Err(why) => {
            return Err(StoreError::Other(why));
        },
    }
    proof {
        lemma_plan_bounds(h, *plan);
    }
    let off: usize = plan.start - first * CHUNK;
    proof {
        let plains = Seq::new(
            chunks.len(),
            |i: int| (final(chunks[i].data)@, final(chunks[i].tag)@),
        );
        assert(data@ == joined(plains));
        assert(opened(*codec, object@, h, first as nat, pieces, plains));
        lemma_joined_len(h, first as nat, plains);
    }
    let slice = vstd::slice::slice_subrange(data.as_slice(), off, off + (plan.end - plan.start));
    Ok(copy_bytes(slice))
}

/// What the codec opens is what it sealed: whenever it accepts a tag that it made
/// under the same object, header, index and associated data, it gives back the
/// plaintext.
pub open spec fn faithful<C: ChunkCodec>(codec: C) -> bool {
    forall|
        object: Seq<char>,
        codec_header: Seq<u8>,
        index: u64,
        aad: Seq<u8>,
        plain: Seq<u8>,
        data: Seq<u8>,
        tag: Seq<u8>,
        back: Seq<u8>,
    |
        #[trigger] codec.seals(object, codec_header, index, aad, plain, data, tag)
            && #[trigger] codec.opens(object, codec_header, index, aad, data, tag, back) ==> back
            == plain
}

/// The codec refuses no batch of chunks each of which it sealed.
pub open spec fn accepts_its_own<C: ChunkCodec>(codec: C) -> bool {
    forall|object: Seq<char>, codec_header: Seq<u8>, batch: Seq<Shown>, why: Seq<char>|
        own_batch(codec, object, codec_header, batch) ==> !(#[trigger] codec.refuses_open(
            object,
            codec_header,
            batch,
            why,
        ))
}

pub open spec fn own_batch<C: ChunkCodec>(
    codec: C,
    object: Seq<char>,
    codec_header: Seq<u8>,
    batch: Seq<Shown>,
) -> bool {
    forall|k: int|
        #![trigger batch[k]]
        0 <= k < batch.len() ==> own_chunk(codec, object, codec_header, batch[k])
}

/// The codec can have made this chunk of some plaintext.
pub open spec fn own_chunk<C: ChunkCodec>(
    codec: C,
    object: Seq<char>,
    codec_header: Seq<u8>,
    c: Shown,
) -> bool {
    exists|plain: Seq<u8>| #[trigger]
        codec.seals(object, codec_header, c.0, c.1, plain, c.2, c.3)
}

/// The codec opens nothing as a chunk of `object` but what was sealed under one of the
/// associated data that the chunks of `object` have under the header `h`.
pub open spec fn bound_to<C: ChunkCodec>(codec: C, object: Seq<char>, h: HeaderFields) -> bool {
    forall|
        codec_header: Seq<u8>,
        index: u64,
        a: Seq<u8>,
        data: Seq<u8>,
        tag: Seq<u8>,
        plain: Seq<u8>,
    |
        #[trigger] codec.opens(object, codec_header, index, a, data, tag, plain) ==> sealed_under(
            object,
            h,
            a,
        )
}

pub open spec fn sealed_under(object: Seq<char>, h: HeaderFields, a: Seq<u8>) -> bool {
    exists|i: nat| i < h.chunk_count && a == #[trigger] aad(vstd::utf8::encode_utf8(object), i, h)
}

/// The bytes that a plan reads out of a container are the pieces of its chunks,
/// and nothing else.
pub proof fn law_span_holds_its_chunks(h: HeaderFields, pieces: Seq<Piece>, first: nat, last: nat)
    requires
        h.valid(),
        pieces.len() == h.chunk_count,
        h.sized(0, pieces),
        first <= last < h.chunk_count,
    ensures
        ({
            let container = h.encoded() + flat(pieces);
            let from = h.ct_off(first) as int;
            let to = from + h.span_len(first, last);
            &&& to <= container.len()
            &&& container.len() == h.container_len()
            &&& container.subrange(from, to).len() == h.span_len(first, last)
            &&& cut(h, first, (last - first + 1) as nat, container.subrange(from, to))
                == pieces.subrange(first as int, last as int + 1)
        }),
{
    let container = h.encoded() + flat(pieces);
    let from = h.ct_off(first) as int;
    let to = from + h.span_len(first, last);
    let head = pieces.subrange(0, first as int);
    let mid = pieces.subrange(first as int, last as int + 1);
    let tail = pieces.subrange(last as int + 1, pieces.len() as int);
    lemma_encoded_len(h);
    lemma_flat_len(h, 0, pieces);
    lemma_flat_len(h, 0, head);
    lemma_flat_len(h, first, mid);
    lemma_flat_append(head, mid);
    lemma_flat_append(head + mid, tail);
    assert(pieces =~= head + mid + tail);
    let ct = container.subrange(from, to);
    assert(ct =~= flat(mid));
    let n = (last - first + 1) as nat;
    lemma_cut_sized(h, first, n, ct);
    lemma_flat_of_cut(h, first, n, ct);
    assert(ct.subrange(0, ct.len() as int) =~= ct);
    lemma_flat_pieces(h, first, cut(h, first, n, ct), mid);
}

/// A range read of a sealed object gives back exactly the bytes that were written
/// there, as long as the codec opens what it sealed.
pub proof fn law_range_read_returns_written_bytes<C: ChunkCodec>(
    codec: C,
    object: Seq<char>,
    plain: Seq<u8>,
    codec_header: Seq<u8>,
    pieces: Seq<Piece>,
    plan: ReadPlan,
    plains: Seq<Piece>,
)
    requires
        faithful(codec),
        object_header(codec, plain, codec_header).valid(),
        sealed(codec, object, object_header(codec, plain, codec_header), plain, pieces),
        plan.covers(
            object_header(codec, plain, codec_header),
            (plan.start as int, plan.end as int),
        ),
        ({
            let h = object_header(codec, plain, codec_header);
            let container = h.encoded() + flat(pieces);
            opened(
                codec,
                object,
                h,
                plan.first as nat,
                cut(
                    h,
                    plan.first as nat,
                    (plan.last - plan.first + 1) as nat,
                    container.subrange(plan.ct_start as int, plan.ct_end as int),
                ),
                plains,
            )
        }),
    ensures
        joined(plains).subrange(plan.start - plan.first * CHUNK, plan.end - plan.first * CHUNK)
            == plain.subrange(plan.start as int, plan.end as int),
{
    let h = object_header(codec, plain, codec_header);
    let first = plan.first as nat;
    let last = plan.last as nat;
    law_span_holds_its_chunks(h, pieces, first, last);
    let mid = pieces.subrange(first as int, last as int + 1);
    assert forall|k: int| #![trigger plains[k]] 0 <= k < plains.len() implies plains[k].0
        == plain_chunk(plain, (first + k) as nat) by {
        assert(mid[k] == pieces[first + k]);
        let i = first + k;
        let a = aad(vstd::utf8::encode_utf8(object), i as nat, h);
        assert(codec.seals(
            object,
            h.codec,
            i as u64,
            a,
            plain_chunk(plain, i as nat),
            pieces[i].0,
            pieces[i].1,
        ));
        assert(codec.opens(
            object,
            h.codec,
            i as u64,
            a,
            pieces[i].0,
            pieces[i].1,
            plains[k].0,
        ));
    }
    lemma_joined_plain(h, plain, first, plains);
    lemma_plan_bounds(h, plan);
    lemma_chunk_bounds(h, last);
    assert((first + plains.len()) * CHUNK == last * 0x10_0000 + 0x10_0000);
    assert(joined(plains).subrange(plan.start - first * CHUNK, plan.end - first * CHUNK)
        =~= plain.subrange(plan.start as int, plan.end as int));
}

/// Consecutive chunks of a plaintext, joined, are the plaintext between their
/// ends.
proof fn lemma_joined_plain(h: HeaderFields, plain: Seq<u8>, first: nat, plains: Seq<Piece>)
    requires
        h.valid(),
        h.plaintext_len == plain.len(),
        first < h.chunk_count,
        first + plains.len() <= h.chunk_count,
        forall|k: int|
            #![trigger plains[k]]
            0 <= k < plains.len() ==> plains[k].0 == plain_chunk(plain, (first + k) as nat),
    ensures
        first * CHUNK <= plain.len(),
        ({
            let to = (first + plains.len()) * CHUNK;
            joined(plains) == plain.subrange(
                first * CHUNK,
                if plain.len() < to {
                    plain.len() as int
                } else {
                    to
                },
            )
        }),
    decreases plains.len(),
{
    lemma_chunk_bounds(h, first);
    if plains.len() > 0 {
        lemma_joined_plain(h, plain, first, plains.drop_last());
        let i = (first + plains.len() - 1) as nat;
        lemma_chunk_bounds(h, i);
        assert(plains.last().0 == plain_chunk(plain, i));
        let to = (first + plains.len()) * CHUNK;
        let end = if plain.len() < to {
            plain.len() as int
        } else {
            to
        };
        assert(joined(plains) =~= plain.subrange(first * CHUNK, end));
    } else {
        assert(joined(plains) =~= plain.subrange(first * CHUNK, first * CHUNK));
    }
}

/// Reading a sealed object succeeds and gives back what was written: the whole of it, or
/// the range that was asked for, cut to the object; nothing where nothing is left of it.
/// That holds of every codec that accepts the chunks it sealed and opens them as what
/// they were.
pub proof fn law_read_gives_back_what_was_written<C: ChunkCodec>(
    codec: C,
    object: Seq<char>,
    plain: Seq<u8>,
    codec_header: Seq<u8>,
    pieces: Seq<Piece>,
    range: Option<ByteRange>,
    plan: ReadPlan,
    r: Result<Vec<u8>, StoreError>,
)
    requires
        faithful(codec),
        accepts_its_own(codec),
        object_header(codec, plain, codec_header).valid(),
        sealed(codec, object, object_header(codec, plain, codec_header), plain, pieces),
        plan.covers(object_header(codec, plain, codec_header), clamped(range, plain.len())),
        opens_to(
            codec,
            object,
            object_header(codec, plain, codec_header),
            plan,
            (object_header(codec, plain, codec_header).encoded() + flat(pieces)).subrange(
                plan.ct_start as int,
                plan.ct_end as int,
            ),
            r,
        ),
    ensures
        ({
            let c = clamped(range, plain.len());
            r matches Ok(bytes) && bytes@ == if c.0 < c.1 {
                plain.subrange(c.0, c.1)
            } else {
                Seq::empty()
            }
        }),
{
    let h = object_header(codec, plain, codec_header);
    let first = plan.first as nat;
    let last = plan.last as nat;
    let n = (plan.last - plan.first + 1) as nat;
    let ct = (h.encoded() + flat(pieces)).subrange(plan.ct_start as int, plan.ct_end as int);
    law_span_holds_its_chunks(h, pieces, first, last);
    let mid = pieces.subrange(first as int, last as int + 1);
    assert(cut(h, first, n, ct) == mid);
    let batch = presented(object, h, first, mid);
    assert forall|k: int| #![trigger batch[k]] 0 <= k < batch.len() implies own_chunk(
        codec,
        object,
        h.codec,
        batch[k],
    ) by {
        let i = first + k;
        assert(mid[k] == pieces[i]);
        assert(codec.seals(
            object,
            h.codec,
            i as u64,
            aad(vstd::utf8::encode_utf8(object), i as nat, h),
            plain_chunk(plain, i as nat),
            pieces[i].0,
            pieces[i].1,
        ));
        let c = batch[k];
        assert(c == (
            i as u64,
            aad(vstd::utf8::encode_utf8(object), i as nat, h),
            pieces[i].0,
            pieces[i].1,
        ));
        assert(codec.seals(object, h.codec, c.0, c.1, plain_chunk(plain, i as nat), c.2, c.3));
    }
    assert(own_batch(codec, object, h.codec, batch));
    assert(r is Ok);
    let bytes = r->Ok_0;
    let plains = choose|plains: Seq<Piece>| #[trigger]
        opened(codec, object, h, first, mid, plains) && bytes@ == joined(plains).subrange(
            plan.start - first * CHUNK,
            plan.end - first * CHUNK,
        );
    law_range_read_returns_written_bytes(
        codec,
        object,
        plain,
        codec_header,
        pieces,
        plan,
        plains,
    );
}

/// An object is never served under a forged header: where the codec opens only what was
/// sealed for the object, no read under a header that differs in any field succeeds,
/// whatever its range and whatever bytes are opened.
pub proof fn law_forged_header_is_refused<C: ChunkCodec>(
    codec: C,
    object: Seq<char>,
    h: HeaderFields,
    forged: HeaderFields,
    plan: ReadPlan,
    ct: Seq<u8>,
    r: Result<Vec<u8>, StoreError>,
)
    requires
        h.valid(),
        forged.valid(),
        forged != h,
        bound_to(codec, object, h),
        plan.covers(forged, (plan.start as int, plan.end as int)),
        opens_to(codec, object, forged, plan, ct, r),
    ensures
        r is Err,
{
    if r is Ok {
        let first = plan.first as nat;
        let pieces = cut(forged, first, (plan.last - plan.first + 1) as nat, ct);
        let plains = choose|plains: Seq<Piece>| #[trigger]
            opened(codec, object, forged, first, pieces, plains) && r->Ok_0@ == joined(
                plains,
            ).subrange(plan.start - first * CHUNK, plan.end - first * CHUNK);
        let name = vstd::utf8::encode_utf8(object);
        let a = aad(name, first, forged);
        assert(codec.opens(
            object,
            forged.codec,
            first as u64,
            a,
            pieces[0].0,
            pieces[0].1,
            plains[0].0,
        ));
        let i = choose|i: nat| i < h.chunk_count && a == #[trigger] aad(name, i, h);
        law_aad_is_injective(name, first, forged, name, i, h);
    }
}

/// The bytes from `start` to `end` of a plaintext, each cut to its end; nothing where nothing
/// is left.
pub open spec fn asked_bytes(plain: Seq<u8>, start: int, end: int) -> Seq<u8> {
    Seq::new(
        (if end < start || plain.len() < start {
            0
        } else if end < plain.len() {
            end - start
        } else {
            plain.len() - start
        }) as nat,
        |i: int| plain[start + i],
    )
}

/// A read gives back exactly the range that was asked for: byte `i` of what is read is byte
/// `start + i` of what was written, for as many bytes as there are from `start` to `end`
/// within the object. Without a range it gives back all of it.
pub proof fn law_range_is_read_as_it_was_written<C: ChunkCodec>(
    codec: C,
    object: Seq<char>,
    plain: Seq<u8>,
    codec_header: Seq<u8>,
    pieces: Seq<Piece>,
    header: &Header,
    range: Option<ByteRange>,
    plan: ReadPlan,
    r: Result<Vec<u8>, StoreError>,
)
    requires
        faithful(codec),
        accepts_its_own(codec),
        header@ == object_header(codec, plain, codec_header),
        header@.valid(),
        sealed(codec, object, header@, plain, pieces),
        call_ensures(plan_read, (header, range), plan),
        opens_to(
            codec,
            object,
            header@,
            plan,
            (header@.encoded() + flat(pieces)).subrange(plan.ct_start as int, plan.ct_end as int),
            r,
        ),
    ensures
        r matches Ok(bytes) && {
            &&& range is None ==> bytes@ == plain
            &&& range matches Some(asked) ==> {
                &&& bytes@ == asked_bytes(plain, asked.start as int, asked.end as int)
                &&& asked.start <= asked.end <= plain.len() ==> bytes@ == plain.subrange(
                    asked.start as int,
                    asked.end as int,
                )
                &&& asked.start < plain.len() <= asked.end ==> bytes@ == plain.subrange(
                    asked.start as int,
                    plain.len() as int,
                )
                &&& asked.start >= plain.len() || asked.start >= asked.end ==> bytes@ == Seq::<
                    u8,
                >::empty()
            }
        },
{
    law_read_gives_back_what_was_written(
        codec,
        object,
        plain,
        codec_header,
        pieces,
        range,
        plan,
        r,
    );
    let bytes = r->Ok_0;
    match range {
        None => {
            assert(bytes@ =~= plain);
        },
        Some(asked) => {
            assert(bytes@ =~= asked_bytes(plain, asked.start as int, asked.end as int));
            if asked.start <= asked.end <= plain.len() {
                assert(bytes@ =~= plain.subrange(asked.start as int, asked.end as int));
            }
            if asked.start < plain.len() <= asked.end {
                assert(bytes@ =~= plain.subrange(asked.start as int, plain.len() as int));
            }
        },
    }
}

/// Sealing an object fails only where the codec refuses it, where a field of its header does
/// not fit its place, or where its container does not fit the address space. What is sealed
/// takes up the header, the plaintext and a tag for each chunk.
pub proof fn law_sealing_succeeds_where_it_can<C: ChunkCodec>(
    codec: &C,
    object: &str,
    plain: &[u8],
    codec_header: Vec<u8>,
    r: Result<Vec<u8>, StoreError>,
    count: usize,
)
    requires
        call_ensures(seal_object::<C>, (codec, object, plain, codec_header), r),
        count >= 1,
        plain@.len() <= count * 0x10_0000,
        count > 1 ==> (count - 1) * 0x10_0000 < plain@.len(),
    ensures
        ({
            let size = 32 + codec_header@.len() + plain@.len() + count * codec.tag_len();
            let fits = count <= 0xffff_ffff && codec.tag_len() <= 0xffff && codec_header@.len()
                <= 0xffff_ffff && size <= usize::MAX;
            &&& r matches Ok(out) ==> fits && out@.len() == size
            &&& fits && r is Err ==> exists|batch: Seq<Shown>, why: Seq<char>|
                r->Err_0 == StoreError::Other(r->Err_0->Other_0) && r->Err_0->Other_0@ == why
                    && #[trigger] codec.refuses_seal(object@, codec_header@, batch, why)
        }),
{
    let h = object_header(*codec, plain@, codec_header@);
    assert(plain@.len() == plain.len());
    let n = chunks_for(plain@.len());
    assert(n == count) by {
        assert(CHUNK == 0x10_0000);
    }
    if r is Ok {
        let out = r->Ok_0;
        let pieces = choose|pieces: Seq<Piece>|
            #[trigger] sealed(*codec, object@, h, plain@, pieces) && out@ == h.encoded() + flat(
                pieces,
            );
        lemma_encoded_len(h);
        lemma_flat_len(h, 0, pieces);
    }
}

/// A container holds its chunks where the format puts them: each right behind the one before,
/// its tag behind its bytes, and all of them behind the header.
pub proof fn law_chunk_stands_in_its_place(h: HeaderFields, pieces: Seq<Piece>, i: nat)
    requires
        h.valid(),
        pieces.len() == h.chunk_count,
        h.sized(0, pieces),
        i < h.chunk_count,
    ensures
        ({
            let container = h.encoded() + flat(pieces);
            let from = 32 + h.codec.len() as int + i * (0x10_0000 + h.tag_len);
            let data = pieces[i as int].0;
            let tag = pieces[i as int].1;
            &&& from + data.len() + tag.len() <= container.len()
            &&& container.subrange(from, from + data.len()) == data
            &&& container.subrange(from + data.len(), from + data.len() + tag.len()) == tag
            &&& tag.len() == h.tag_len
            &&& i + 1 < h.chunk_count ==> data.len() == 0x10_0000
            &&& i + 1 == h.chunk_count ==> i * 0x10_0000 + data.len() == h.plaintext_len
        }),
{
    law_span_holds_its_chunks(h, pieces, i, i);
    lemma_chunk_bounds(h, i);
    let container = h.encoded() + flat(pieces);
    let from = h.ct_off(i) as int;
    let to = from + h.span_len(i, i);
    let ct = container.subrange(from, to);
    let s = h.stride() as int;
    assert((i - i) * s == 0) by (nonlinear_arith);
    assert(0nat * h.stride() == 0) by (nonlinear_arith);
    let one = cut(h, i, 1, ct);
    assert(one == pieces.subrange(i as int, i as int + 1));
    assert(one[0] == pieces[i as int]);
    let data = pieces[i as int].0;
    let tag = pieces[i as int].1;
    assert(container.subrange(from, from + data.len()) =~= ct.subrange(0, data.len() as int));
    assert(container.subrange(from + data.len(), from + data.len() + tag.len()) =~= ct.subrange(
        data.len() as int,
        data.len() as int + tag.len(),
    ));
}

/// What is sealed is the object, chunk by chunk: the codec is shown each stretch of it once,
/// under its position, with the associated data of that position and the codec's own bytes,
/// and what the codec makes of it is what the container holds there.
pub proof fn law_each_chunk_is_sealed_in_its_place<C: ChunkCodec>(
    codec: &C,
    object: &str,
    plain: &[u8],
    codec_header: Vec<u8>,
    out: Vec<u8>,
    header: &Header,
    i: usize,
    a: Vec<u8>,
)
    requires
        call_ensures(
            seal_object::<C>,
            (codec, object, plain, codec_header),
            Ok::<Vec<u8>, StoreError>(out),
        ),
        header.plaintext_len == plain@.len(),
        header.tag_len == codec.tag_len(),
        header.codec@ == codec_header@,
        call_ensures(chunk_count, (header.plaintext_len,), header.chunk_count),
        i < header.chunk_count,
        call_ensures(aad_for, (object, i, header), a),
    ensures
        ({
            let from = 32 + codec_header@.len() + i * (0x10_0000 + header.tag_len);
            let size = if i + 1 < header.chunk_count {
                0x10_0000
            } else {
                plain@.len() - i * 0x10_0000
            };
            &&& 0 <= size <= 0x10_0000
            &&& from + size + header.tag_len <= out@.len()
            &&& codec.seals(
                object@,
                codec_header@,
                i as u64,
                a@,
                plain@.subrange(i * 0x10_0000, i * 0x10_0000 + size),
                out@.subrange(from as int, from + size),
                out@.subrange(from + size, from + size + header.tag_len),
            )
        }),
{
    let h = object_header(*codec, plain@, codec_header@);
    assert(plain@.len() == plain.len());
    assert(header@ =~= h);
    let pieces = choose|pieces: Seq<Piece>|
        #[trigger] sealed(*codec, object@, h, plain@, pieces) && out@ == h.encoded() + flat(
            pieces,
        );
    assert(h.valid());
    law_chunk_stands_in_its_place(h, pieces, i as nat);
    lemma_chunk_bounds(h, i as nat);
    assert(pieces[i as int].0.len() == h.body_len(i as nat));
    let size = pieces[i as int].0.len();
    assert(plain_chunk(plain@, i as nat) =~= plain@.subrange(i * 0x10_0000, i * 0x10_0000 + size));
}

/// Chunk `k` stands in the joined chunks behind the whole ones before it.
proof fn lemma_joined_at(h: HeaderFields, first: nat, plains: Seq<Piece>, k: int)
    requires
        h.valid(),
        first + plains.len() <= h.chunk_count,
        0 <= k < plains.len(),
        forall|j: int|
            #![trigger plains[j]]
            0 <= j < plains.len() ==> plains[j].0.len() == h.body_len((first + j) as nat),
    ensures
        k * CHUNK + plains[k].0.len() <= joined(plains).len(),
        joined(plains).subrange(k * CHUNK, k * CHUNK + plains[k].0.len()) == plains[k].0,
    decreases plains.len(),
{
    let front = plains.drop_last();
    lemma_joined_len(h, first, front);
    if k == plains.len() - 1 {
        assert(joined(front).len() == k * CHUNK);
        assert(joined(plains).subrange(k * CHUNK, k * CHUNK + plains[k].0.len()) =~= plains[k].0);
    } else {
        assert forall|j: int| #![trigger front[j]] 0 <= j < front.len() implies front[j].0.len()
            == h.body_len((first + j) as nat) by {
            assert(front[j] == plains[j]);
        }
        lemma_joined_at(h, first, front, k);
        assert(joined(plains).subrange(k * CHUNK, k * CHUNK + plains[k].0.len()) =~= joined(
            front,
        ).subrange(k * CHUNK, k * CHUNK + plains[k].0.len()));
    }
}

/// The codec opens chunk `i`, which stands at `at` in `ct`, as `part`: a whole chunk, or what
/// there is of one at the end of the plaintext.
pub open spec fn opens_part<C: ChunkCodec>(
    codec: C,
    object: Seq<char>,
    header: Header,
    i: usize,
    a: Seq<u8>,
    ct: Seq<u8>,
    at: int,
    part: Seq<u8>,
) -> bool {
    let size = part.len() as int;
    &&& codec.opens(
        object,
        header.codec@,
        i as u64,
        a,
        ct.subrange(at, at + size),
        ct.subrange(at + size, at + size + header.tag_len),
        part,
    )
    &&& i + 1 < header.chunk_count ==> size == 0x10_0000
    &&& i + 1 == header.chunk_count ==> i * 0x10_0000 + size == header.plaintext_len
}

/// What is opened is what was asked for: the codec opens each chunk of the span under its
/// position, with the associated data of that position and the bytes and the tag that stand
/// there, and what is read of the range is what it makes of them. Bytes that end before the
/// span does are refused as truncated, and a refusal of the codec is passed on.
pub proof fn law_span_is_opened_as_a_whole<C: ChunkCodec>(
    codec: &C,
    object: &str,
    header: &Header,
    plan: &ReadPlan,
    ct: &[u8],
    r: Result<Vec<u8>, StoreError>,
    i: usize,
    a: Vec<u8>,
)
    requires
        header@.valid(),
        plan.covers(header@, (plan.start as int, plan.end as int)),
        call_ensures(open_range::<C>, (codec, object, header, plan, ct), r),
        plan.first <= i <= plan.last,
        call_ensures(aad_for, (object, i, header), a),
    ensures
        r matches Ok(bytes) ==> exists|part: Seq<u8>|
            {
                &&& #[trigger] opens_part(
                    *codec,
                    object@,
                    *header,
                    i,
                    a@,
                    ct@,
                    (i - plan.first) * (0x10_0000 + header.tag_len),
                    part,
                )
                &&& forall|j: int|
                    plan.start <= j < plan.end && i * 0x10_0000 <= j < i * 0x10_0000 + part.len()
                        ==> bytes@[j - plan.start] == #[trigger] part[j - i * 0x10_0000]
            },
        ct@.len() < plan.ct_end - plan.ct_start ==> (r matches Err(e) && e.says(
            "wgenc container: truncated"@,
        )),
        r matches Ok(bytes) ==> bytes@.len() == plan.end - plan.start,
        ct@.len() >= plan.ct_end - plan.ct_start ==> (r matches Err(e) ==> exists|
            batch: Seq<Shown>,
        |
            e is Other && #[trigger] codec.refuses_open(
                object@,
                header.codec@,
                batch,
                e->Other_0@,
            ) && batch.len() == plan.last - plan.first + 1),
{
    let h = header@;
    let first = plan.first as nat;
    let n = (plan.last - plan.first + 1) as nat;
    let pieces = cut(h, first, n, ct@);
    lemma_plan_bounds(h, *plan);
    lemma_chunk_bounds(h, plan.last as nat);
    if ct@.len() >= plan.ct_end - plan.ct_start {
        match r {
            Ok(bytes) => {
                lemma_cut_sized(h, first, n, ct@);
                let plains = choose|plains: Seq<Piece>| #[trigger]
                    opened(*codec, object@, h, first, pieces, plains) && bytes@ == joined(
                        plains,
                    ).subrange(plan.start - first * CHUNK, plan.end - first * CHUNK);
                assert forall|k: int| #![trigger plains[k]] 0 <= k < plains.len() implies
                    plains[k].0.len() == h.body_len((first + k) as nat) by {
                    assert(plains[k].0.len() == pieces[k].0.len());
                }
                lemma_joined_len(h, first, plains);
                let k = i - first;
                let part = plains[k].0;
                lemma_joined_at(h, first, plains, k);
                lemma_chunk_bounds(h, i as nat);
                assert(h.stride() == 0x10_0000 + header.tag_len);
                assert(pieces[k] == piece_at(h, first, ct@, k as nat));
                assert(opens_part(
                    *codec,
                    object@,
                    *header,
                    i,
                    a@,
                    ct@,
                    (i - plan.first) * (0x10_0000 + header.tag_len),
                    part,
                ));
                let whole = joined(plains);
                let here = whole.subrange(k * CHUNK, k * CHUNK + part.len());
                assert forall|j: int|
                    plan.start <= j < plan.end && i * 0x10_0000 <= j < i * 0x10_0000
                        + part.len() implies bytes@[j - plan.start] == #[trigger] part[j - i
                    * 0x10_0000] by {
                    assert(here[j - i * 0x10_0000] == whole[j - first * 0x10_0000]);
                }
            },
            Err(e) => {
                let batch = presented(object@, h, first, pieces);
                assert(codec.refuses_open(object@, h.codec, batch, e->Other_0@));
            },
        }
    }
}

} // verus!
