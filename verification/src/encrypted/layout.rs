//! Where the chunks of a container stand, and which of them a plaintext range
//! needs.
use vstd::prelude::*;

use crate::encrypted::codec::Chunk;
use crate::encrypted::container::{
    aad, aad_for, chunk_count, chunks_for, encode_result, lemma_encoded_len, put_bytes, Header,
    HeaderFields, CHUNK, FIXED_HEADER,
};
use crate::store::{ByteRange, StoreError};

verus! {

/// A chunk as it is stored: its bytes, and the tag behind them.
pub type Piece = (Seq<u8>, Seq<u8>);

/// Pieces as a container holds them, each tag right behind its chunk.
pub open spec fn flat(pieces: Seq<Piece>) -> Seq<u8>
    decreases pieces.len(),
{
    if pieces.len() == 0 {
        Seq::empty()
    } else {
        flat(pieces.drop_last()) + (pieces.last().0 + pieces.last().1)
    }
}

/// The chunk bytes of the pieces, joined.
pub open spec fn joined(pieces: Seq<Piece>) -> Seq<u8>
    decreases pieces.len(),
{
    if pieces.len() == 0 {
        Seq::empty()
    } else {
        joined(pieces.drop_last()) + pieces.last().0
    }
}

/// The tags of the pieces, joined.
pub open spec fn joined_tags(pieces: Seq<Piece>) -> Seq<u8>
    decreases pieces.len(),
{
    if pieces.len() == 0 {
        Seq::empty()
    } else {
        joined_tags(pieces.drop_last()) + pieces.last().1
    }
}

impl HeaderFields {
    /// Plaintext bytes in chunk `i`.
    pub open spec fn body_len(self, i: nat) -> nat {
        let rest = self.plaintext_len - i * CHUNK;
        if rest < CHUNK {
            rest as nat
        } else {
            CHUNK as nat
        }
    }

    /// Bytes that a whole chunk and its tag take up.
    pub open spec fn stride(self) -> nat {
        CHUNK as nat + self.tag_len
    }

    /// Where chunk `i` begins within the container.
    pub open spec fn ct_off(self, i: nat) -> nat {
        self.header_len() + i * self.stride()
    }

    /// Bytes that chunks `first` to `last` take up, tags included.
    pub open spec fn span_len(self, first: nat, last: nat) -> nat {
        ((last - first) * self.stride() + self.body_len(last) + self.tag_len) as nat
    }

    /// Pieces that have the sizes of chunks `first`, `first + 1`, and so on.
    pub open spec fn sized(self, first: nat, pieces: Seq<Piece>) -> bool {
        forall|k: int|
            #![trigger pieces[k]]
            0 <= k < pieces.len() ==> pieces[k].0.len() == self.body_len((first + k) as nat)
                && pieces[k].1.len() == self.tag_len
    }

    /// Bytes of chunk `i` and all behind it, tags included.
    pub open spec fn tail_len(self, i: nat) -> int {
        if i < self.chunk_count {
            self.plaintext_len - i * CHUNK + (self.chunk_count - i) * self.tag_len
        } else {
            0
        }
    }

    /// Bytes of the whole container.
    pub open spec fn container_len(self) -> nat {
        self.header_len() + self.plaintext_len + self.chunk_count * self.tag_len
    }
}

/// Chunk `i` of a plaintext.
pub open spec fn plain_chunk(plain: Seq<u8>, i: nat) -> Seq<u8> {
    let from = i * CHUNK;
    plain.subrange(from, if plain.len() < from + CHUNK { plain.len() as int } else { from + CHUNK })
}

/// The first `n` chunks of a plaintext with empty tags, as they are laid out
/// before sealing.
pub open spec fn unsealed(plain: Seq<u8>, n: nat, tag_len: nat) -> Seq<Piece> {
    Seq::new(n, |i: int| (plain_chunk(plain, i as nat), Seq::new(tag_len, |j: int| 0u8)))
}

/// Plaintext bytes in chunk `i`.
pub fn body_len(header: &Header, i: usize) -> (n: usize)
    requires
        header@.valid(),
        i < header.chunk_count,
    ensures
        n == header@.body_len(i as nat),
        n <= CHUNK,
        i * CHUNK + n <= header.plaintext_len,
{
    proof {
        lemma_chunk_bounds(header@, i as nat);
    }
    let rest = header.plaintext_len - i * CHUNK;
    if rest < CHUNK {
        rest
    } else {
        CHUNK
    }
}

/// Every chunk but the last is whole, and the last one ends with the plaintext.
pub proof fn lemma_chunk_bounds(h: HeaderFields, i: nat)
    requires
        h.valid(),
        i < h.chunk_count,
    ensures
        i * CHUNK <= h.plaintext_len,
        i + 1 < h.chunk_count ==> (i + 1) * CHUNK < h.plaintext_len && h.body_len(i) == CHUNK,
        i + 1 == h.chunk_count ==> i * CHUNK + h.body_len(i) == h.plaintext_len,
        h.body_len(i) <= CHUNK,
{
}

/// The chunk that holds a plaintext offset.
pub proof fn lemma_chunk_of(at: int)
    requires
        at >= 0,
    ensures
        (at / CHUNK as int) * CHUNK <= at < (at / CHUNK as int) * CHUNK + CHUNK,
{
    assert((at / 0x10_0000) * 0x10_0000 <= at < (at / 0x10_0000) * 0x10_0000 + 0x10_0000);
}

proof fn lemma_tail_len(h: HeaderFields, i: nat)
    requires
        h.valid(),
        i < h.chunk_count,
    ensures
        h.tail_len(i) == h.body_len(i) + h.tag_len + h.tail_len(i + 1),
        h.tail_len(i + 1) >= 0,
{
    lemma_chunk_bounds(h, i);
    let n = h.chunk_count - i;
    let t = h.tag_len as int;
    assert(n * t == t + (n - 1) * t) by (nonlinear_arith);
    assert((n - 1) * t >= 0) by (nonlinear_arith)
        requires
            n >= 1,
            t >= 0,
    ;
    assert(n == 1 ==> n * t == t) by (nonlinear_arith);
}

fn put_zeros(out: &mut Vec<u8>, n: usize)
    ensures
        final(out)@ == old(out)@ + Seq::new(n as nat, |j: int| 0u8),
{
    let mut i: usize = 0;
    assert(out@ =~= old(out)@ + Seq::new(0, |j: int| 0u8));
    while i < n
        invariant
            i <= n,
            out@ == old(out)@ + Seq::new(i as nat, |j: int| 0u8),
        decreases n - i,
    {
        out.push(0);
        i = i + 1;
        assert(out@ =~= old(out)@ + Seq::new(i as nat, |j: int| 0u8));
    }
}

/// The container of `plain` before it is sealed: the header, then every chunk
/// with room for its tag. Fails where the header does not fit its fields or the
/// container does not fit the address space.
pub fn lay_out(plain: &[u8], header: &Header) -> (r: Result<Vec<u8>, StoreError>)
    requires
        header@.plaintext_len == plain@.len(),
        header@.chunk_count == chunks_for(plain@.len()),
    ensures
        match encode_result(header@) {
            Err(message) => r matches Err(e) && e.says(message),
            Ok(encoded) => if header@.container_len() <= usize::MAX {
                r matches Ok(out) && out@ == encoded + flat(
                    unsealed(plain@, header@.chunk_count, header@.tag_len),
                )
            } else {
                r matches Err(e) && e.says("wgenc container: too large"@)
            },
        },
        r is Ok ==> header@.valid(),
{
    let encoded = match header.encode() {
        Ok(encoded) => encoded,
        Err(e) => {
            return Err(e);
        },
    };
    let count: usize = header.chunk_count;
    let tag_len: usize = header.tag_len;
    proof {
        lemma_encoded_len(header@);
        assert(count * tag_len <= 0xffff_ffff * 0xffff) by (nonlinear_arith)
            requires
                count <= 0xffff_ffff,
                tag_len <= 0xffff,
        ;
    }
    let tags: u128 = (count as u128) * (tag_len as u128);
    let size: u128 = encoded.len() as u128 + plain.len() as u128 + tags;
    if size > usize::MAX as u128 {
        return Err(StoreError::other("wgenc container: too large"));
    }
    let mut out: Vec<u8> = encoded;
    let ghost start = out@;
    let mut i: usize = 0;
    let ghost h = header@;
    assert(flat(unsealed(plain@, 0, h.tag_len)) =~= Seq::<u8>::empty());
    while i < count
        invariant
            i <= count,
            count == header.chunk_count,
            tag_len == header.tag_len,
            h == header@,
            h.valid(),
            h.plaintext_len == plain@.len(),
            plain@.len() <= usize::MAX,
            out@ =~= start + flat(unsealed(plain@, i as nat, h.tag_len)),
        decreases count - i,
    {
        proof {
            lemma_chunk_bounds(h, i as nat);
        }
        let s: usize = i * CHUNK;
        let body: usize = body_len(header, i);
        assert(plain@.len() == plain.len());
        let chunk = vstd::slice::slice_subrange(plain, s, s + body);
        put_bytes(&mut out, chunk);
        put_zeros(&mut out, tag_len);
        proof {
            let before = unsealed(plain@, i as nat, h.tag_len);
            let now = unsealed(plain@, (i + 1) as nat, h.tag_len);
            assert(now.drop_last() =~= before);
            assert(chunk@ =~= plain_chunk(plain@, i as nat));
        }
        i = i + 1;
    }
    Ok(out)
}

/// The associated data of chunks `first` to `last`.
pub fn aads_for(object: &str, first: usize, last: usize, header: &Header) -> (r: Vec<Vec<u8>>)
    requires
        first <= last < usize::MAX,
    ensures
        r@.len() == last - first + 1,
        forall|k: int|
            #![trigger r@[k]]
            0 <= k < r@.len() ==> r@[k]@ == aad(
                vstd::utf8::encode_utf8(object@),
                (first + k) as nat,
                header@,
            ),
{
    let mut r: Vec<Vec<u8>> = Vec::new();
    let mut i: usize = first;
    while i <= last
        invariant
            first <= i <= last + 1,
            last < usize::MAX,
            r@.len() == i - first,
            forall|k: int|
                #![trigger r@[k]]
                0 <= k < r@.len() ==> r@[k]@ == aad(
                    vstd::utf8::encode_utf8(object@),
                    (first + k) as nat,
                    header@,
                ),
        decreases last + 1 - i,
    {
        r.push(aad_for(object, i, header));
        i = i + 1;
    }
    r
}

/// The chunks of a laid-out container, in order, each borrowing its own bytes and
/// the room for its tag. What a codec leaves in them is what the container holds
/// afterwards; the header stays as it is.
pub fn container_batch<'a>(
    container: &'a mut [u8],
    header: &Header,
    aads: &'a Vec<Vec<u8>>,
) -> (b: Vec<Chunk<'a>>)
    requires
        header@.valid(),
        aads@.len() == header@.chunk_count,
        old(container)@.len() == header@.container_len(),
    ensures
        b@.len() == header@.chunk_count,
        forall|i: int|
            #![trigger b@[i]]
            0 <= i < b@.len() ==> {
                &&& b@[i].index == i
                &&& b@[i].aad@ == aads@[i]@
                &&& b@[i].data@.len() == header@.body_len(i as nat)
                &&& b@[i].tag@.len() == header@.tag_len
            },
        old(container)@ == old(container)@.subrange(0, header@.header_len() as int) + flat(
            Seq::new(b@.len(), |i: int| (b@[i].data@, b@[i].tag@)),
        ),
        final(container)@ == old(container)@.subrange(0, header@.header_len() as int) + flat(
            Seq::new(b@.len(), |i: int| (final(b@[i].data)@, final(b@[i].tag)@)),
        ),
{
    let ghost whole = container@;
    let ghost h = header@;
    assert(container.len() == whole.len());
    let header_len: usize = FIXED_HEADER + header.codec.len();
    let (head, body): (&'a mut [u8], &'a mut [u8]) = container.split_at_mut(header_len);
    let ghost start = head@;
    let ghost tail = body@;
    let mut rest: &'a mut [u8] = body;
    let mut b: Vec<Chunk<'a>> = Vec::new();
    let mut i: usize = 0;
    let count: usize = header.chunk_count;
    proof {
        assert(has_resolved(head));
        assert(tail =~= flat(Seq::new(0, |i: int| (b@[i].data@, b@[i].tag@))) + rest@);
    }
    while i < count
        invariant
            i <= count,
            count == header.chunk_count,
            count == aads@.len(),
            h == header@,
            h.valid(),
            b@.len() == i,
            rest@.len() == h.tail_len(i as nat),
            forall|k: int|
                #![trigger b@[k]]
                0 <= k < b@.len() ==> {
                    &&& b@[k].index == k
                    &&& b@[k].aad@ == aads@[k]@
                    &&& b@[k].data@.len() == h.body_len(k as nat)
                    &&& b@[k].tag@.len() == h.tag_len
                },
            tail =~= flat(Seq::new(b@.len(), |k: int| (b@[k].data@, b@[k].tag@))) + rest@,
            after_borrow(container)@ =~= start + (flat(
                Seq::new(b@.len(), |k: int| (final(b@[k].data)@, final(b@[k].tag)@)),
            ) + final(rest)@),
        decreases count - i,
    {
        proof {
            lemma_chunk_bounds(h, i as nat);
            lemma_tail_len(h, i as nat);
        }
        let (data, behind) = rest.split_at_mut(body_len(header, i));
        let (tag, next) = behind.split_at_mut(header.tag_len);
        rest = next;
        let ghost b0 = b@;
        b.push(Chunk { index: i as u64, aad: aads[i].as_slice(), data, tag });
        proof {
            let before = Seq::new(b0.len(), |k: int| (b0[k].data@, b0[k].tag@));
            let now = Seq::new(b@.len(), |k: int| (b@[k].data@, b@[k].tag@));
            assert(now.drop_last() =~= before);
            let before_f = Seq::new(b0.len(), |k: int| (final(b0[k].data)@, final(b0[k].tag)@));
            let now_f = Seq::new(b@.len(), |k: int| (final(b@[k].data)@, final(b@[k].tag)@));
            assert(now_f.drop_last() =~= before_f);
        }
        i = i + 1;
    }
    proof {
        assert(has_resolved(rest));
        assert(final(rest)@ =~= Seq::<u8>::empty());
        assert(rest@ =~= Seq::<u8>::empty());
    }
    b
}

/// Which bytes of a container a plaintext range needs.
pub struct ReadPlan {
    /// The plaintext range, cut to the object. Where nothing is left of it, it is empty
    /// and stands at the beginning of the chunk that is read.
    pub start: usize,
    pub end: usize,
    /// The chunks that hold it. Where nothing is left of the range, the last chunk: a
    /// header counts for nothing before a chunk was opened under it.
    pub first: usize,
    pub last: usize,
    /// Where those chunks stand in the container.
    pub ct_start: u64,
    pub ct_end: u64,
}

/// The range that is asked for, cut to an object of `plaintext_len` bytes.
pub open spec fn clamped(range: Option<ByteRange>, plaintext_len: nat) -> (int, int) {
    match range {
        None => (0, plaintext_len as int),
        Some(r) => (
            if r.start < plaintext_len {
                r.start as int
            } else {
                plaintext_len as int
            },
            if r.end < plaintext_len {
                r.end as int
            } else {
                plaintext_len as int
            },
        ),
    }
}

impl ReadPlan {
    /// The plan reads the plaintext range `(start, end)` of an object with header
    /// `h`, and no chunk that holds none of it. For an empty range it reads the last
    /// chunk, and takes nothing from it.
    pub open spec fn covers(self, h: HeaderFields, range: (int, int)) -> bool {
        &&& if range.0 < range.1 {
            &&& self.start == range.0
            &&& self.end == range.1
            &&& self.end <= h.plaintext_len
            &&& self.first == self.start / CHUNK
            &&& self.last == (self.end - 1) / CHUNK as int
        } else {
            &&& self.last == h.chunk_count - 1
            &&& self.first == self.last
            &&& self.start == self.first * CHUNK
            &&& self.end == self.start
        }
        &&& self.first <= self.last < h.chunk_count
        &&& self.ct_start == h.ct_off(self.first as nat)
        &&& self.ct_end == self.ct_start + h.span_len(self.first as nat, self.last as nat)
    }
}

fn clamp(v: u64, limit: usize) -> (r: usize)
    ensures
        r == if v < limit {
            v as int
        } else {
            limit as int
        },
{
    if v < limit as u64 {
        v as usize
    } else {
        limit
    }
}

/// The read that a plaintext range needs: at least one chunk, also where the range holds
/// nothing.
pub fn plan_read(header: &Header, range: Option<ByteRange>) -> (r: ReadPlan)
    requires
        header@.valid(),
    ensures
        r.covers(header@, clamped(range, header@.plaintext_len)),
{
    let ghost h = header@;
    let plen: usize = header.plaintext_len;
    let (start, end): (usize, usize) = match range {
        None => (0, plen),
        Some(r) => (clamp(r.start, plen), clamp(r.end, plen)),
    };
    let (start, end, first, last): (usize, usize, usize, usize) = if start < end {
        (start, end, start / CHUNK, (end - 1) / CHUNK)
    } else {
        let only: usize = header.chunk_count - 1;
        proof {
            lemma_chunk_bounds(h, only as nat);
        }
        (only * CHUNK, only * CHUNK, only, only)
    };
    let stride: u64 = CHUNK as u64 + header.tag_len as u64;
    let head: u64 = FIXED_HEADER as u64 + header.codec.len() as u64;
    proof {
        lemma_chunk_bounds(h, last as nat);
        assert(0 <= first * stride <= 0xffff_ffff * 0x20_0000) by (nonlinear_arith)
            requires
                0 <= first <= 0xffff_ffff,
                0 <= stride <= 0x20_0000,
        ;
        assert(0 <= last * stride <= 0xffff_ffff * 0x20_0000) by (nonlinear_arith)
            requires
                0 <= last <= 0xffff_ffff,
                0 <= stride <= 0x20_0000,
        ;
        assert(last * stride == first * stride + (last - first) * stride) by (nonlinear_arith);
        assert(stride == h.stride());
    }
    let ct_start: u64 = head + first as u64 * stride;
    let ct_end: u64 = head + last as u64 * stride + body_len(header, last) as u64
        + header.tag_len as u64;
    ReadPlan { start, end, first, last, ct_start, ct_end }
}

/// Piece `k` of the bytes `ct` of chunks `first`, `first + 1`, and so on.
pub open spec fn piece_at(h: HeaderFields, first: nat, ct: Seq<u8>, k: nat) -> Piece {
    let at = k * h.stride();
    let body = h.body_len(first + k);
    (
        ct.subrange(at as int, at as int + body),
        ct.subrange(at as int + body, at as int + body + h.tag_len),
    )
}

/// The first `n` pieces of the bytes `ct` of chunks `first`, `first + 1`, and so
/// on.
pub open spec fn cut(h: HeaderFields, first: nat, n: nat, ct: Seq<u8>) -> Seq<Piece> {
    Seq::new(n, |k: int| piece_at(h, first, ct, k as nat))
}

/// Parts the ciphertext of chunks `first` to `last` into the chunk bytes and the
/// tags, each without gaps. Fails where the bytes end before the last tag does.
pub fn split_span(ct: &[u8], header: &Header, first: usize, last: usize) -> (r: Result<
    (Vec<u8>, Vec<u8>),
    StoreError,
>)
    requires
        header@.valid(),
        first <= last < header@.chunk_count,
    ensures
        match r {
            Ok((data, tags)) => {
                let pieces = cut(header@, first as nat, (last - first + 1) as nat, ct@);
                &&& ct@.len() >= header@.span_len(first as nat, last as nat)
                &&& data@ == joined(pieces)
                &&& tags@ == joined_tags(pieces)
            },
            Err(e) => {
                &&& ct@.len() < header@.span_len(first as nat, last as nat)
                &&& e.says("wgenc container: truncated"@)
            },
        },
{
    let ghost h = header@;
    let mut data: Vec<u8> = Vec::new();
    let mut tags: Vec<u8> = Vec::new();
    let mut pos: usize = 0;
    let mut i: usize = first;
    let size: usize = ct.len();
    assert(joined(cut(h, first as nat, 0, ct@)) =~= Seq::<u8>::empty());
    assert(joined_tags(cut(h, first as nat, 0, ct@)) =~= Seq::<u8>::empty());
    while i <= last
        invariant
            first <= i <= last + 1,
            last < h.chunk_count <= u32::MAX,
            h == header@,
            h.valid(),
            size == ct@.len(),
            i <= last ==> pos == (i - first) * h.stride(),
            pos <= size,
            i == last + 1 ==> size >= h.span_len(first as nat, last as nat),
            data@ =~= joined(cut(h, first as nat, (i - first) as nat, ct@)),
            tags@ =~= joined_tags(cut(h, first as nat, (i - first) as nat, ct@)),
        decreases last + 1 - i,
    {
        let body: usize = body_len(header, i);
        let ghost k = (i - first) as nat;
        proof {
            lemma_chunk_bounds(h, i as nat);
            let s = h.stride() as int;
            assert((k + 1) * s == k * s + s) by (nonlinear_arith);
            assert(k * s <= (last - first) * s) by (nonlinear_arith)
                requires
                    k <= last - first,
                    s >= 0,
            ;
            assert(k < last - first ==> k * s + s <= (last - first) * s) by (nonlinear_arith)
                requires
                    s >= 0,
            ;
        }
        if body + header.tag_len > size - pos {
            return Err(StoreError::other("wgenc container: truncated"));
        }
        put_bytes(&mut data, vstd::slice::slice_subrange(ct, pos, pos + body));
        put_bytes(
            &mut tags,
            vstd::slice::slice_subrange(ct, pos + body, pos + body + header.tag_len),
        );
        proof {
            let before = cut(h, first as nat, k, ct@);
            let now = cut(h, first as nat, k + 1, ct@);
            assert(now.drop_last() =~= before);
        }
        pos = pos + body + header.tag_len;
        i = i + 1;
    }
    Ok((data, tags))
}

/// Chunks `first` to `last`, in order, each borrowing its own part of the chunk
/// bytes and of the tags.
pub(crate) fn span_batch<'a>(
    data: &'a mut [u8],
    tags: &'a mut [u8],
    header: &Header,
    first: usize,
    last: usize,
    aads: &'a Vec<Vec<u8>>,
    Ghost(pieces): Ghost<Seq<Piece>>,
) -> (b: Vec<Chunk<'a>>)
    requires
        header@.valid(),
        first <= last < header@.chunk_count,
        aads@.len() == last - first + 1,
        pieces.len() == last - first + 1,
        header@.sized(first as nat, pieces),
        old(data)@ == joined(pieces),
        old(tags)@ == joined_tags(pieces),
    ensures
        b@.len() == pieces.len(),
        forall|k: int|
            #![trigger b@[k]]
            0 <= k < b@.len() ==> {
                &&& b@[k].index == first + k
                &&& b@[k].aad@ == aads@[k]@
                &&& b@[k].data@ == pieces[k].0
                &&& b@[k].tag@ == pieces[k].1
            },
        final(data)@ == joined(
            Seq::new(b@.len(), |k: int| (final(b@[k].data)@, final(b@[k].tag)@)),
        ),
{
    let ghost h = header@;
    let mut data_rest: &'a mut [u8] = data;
    let mut tag_rest: &'a mut [u8] = tags;
    let mut b: Vec<Chunk<'a>> = Vec::new();
    let mut i: usize = first;
    proof {
        assert(pieces.subrange(0, pieces.len() as int) =~= pieces);
    }
    while i <= last
        invariant
            first <= i <= last + 1,
            last < h.chunk_count <= u32::MAX,
            h == header@,
            h.valid(),
            aads@.len() == last - first + 1,
            pieces.len() == last - first + 1,
            h.sized(first as nat, pieces),
            b@.len() == i - first,
            forall|k: int|
                #![trigger b@[k]]
                0 <= k < b@.len() ==> {
                    &&& b@[k].index == first + k
                    &&& b@[k].aad@ == aads@[k]@
                    &&& b@[k].data@ == pieces[k].0
                    &&& b@[k].tag@ == pieces[k].1
                },
            data_rest@ == joined(pieces.subrange(i - first, pieces.len() as int)),
            tag_rest@ == joined_tags(pieces.subrange(i - first, pieces.len() as int)),
            after_borrow(data)@ =~= joined(
                Seq::new(b@.len(), |k: int| (final(b@[k].data)@, final(b@[k].tag)@)),
            ) + final(data_rest)@,
        decreases last + 1 - i,
    {
        let slot: usize = i - first;
        let ghost left = pieces.subrange(slot as int, pieces.len() as int);
        proof {
            lemma_joined_first(left);
            assert(left.drop_first() =~= pieces.subrange(slot + 1, pieces.len() as int));
            assert(left[0] == pieces[slot as int]);
        }
        let (one, dt) = data_rest.split_at_mut(body_len(header, i));
        let (tag, tt) = tag_rest.split_at_mut(header.tag_len);
        assert(one@ =~= pieces[slot as int].0);
        assert(tag@ =~= pieces[slot as int].1);
        assert(dt@ =~= joined(left.drop_first()));
        assert(tt@ =~= joined_tags(left.drop_first()));
        data_rest = dt;
        tag_rest = tt;
        let ghost b0 = b@;
        b.push(Chunk { index: i as u64, aad: aads[slot].as_slice(), data: one, tag });
        proof {
            let before_f = Seq::new(b0.len(), |k: int| (final(b0[k].data)@, final(b0[k].tag)@));
            let now_f = Seq::new(b@.len(), |k: int| (final(b@[k].data)@, final(b@[k].tag)@));
            assert(now_f.drop_last() =~= before_f);
        }
        i = i + 1;
    }
    proof {
        assert(has_resolved(data_rest));
        assert(data_rest@ =~= Seq::<u8>::empty());
        assert(final(data_rest)@ =~= Seq::<u8>::empty());
    }
    b
}

/// The first piece stands in front of the others.
proof fn lemma_joined_first(pieces: Seq<Piece>)
    requires
        pieces.len() > 0,
    ensures
        joined(pieces) == pieces[0].0 + joined(pieces.drop_first()),
        joined_tags(pieces) == pieces[0].1 + joined_tags(pieces.drop_first()),
    decreases pieces.len(),
{
    if pieces.len() == 1 {
        assert(pieces.drop_last() =~= Seq::<Piece>::empty());
        assert(pieces.drop_first() =~= Seq::<Piece>::empty());
        assert(joined(pieces.drop_last()) =~= Seq::<u8>::empty());
        assert(joined_tags(pieces.drop_last()) =~= Seq::<u8>::empty());
        assert(joined(pieces) =~= pieces[0].0 + joined(pieces.drop_first()));
        assert(joined_tags(pieces) =~= pieces[0].1 + joined_tags(pieces.drop_first()));
    } else {
        lemma_joined_first(pieces.drop_last());
        assert(pieces.drop_first().drop_last() =~= pieces.drop_last().drop_first());
        assert(joined(pieces) =~= pieces[0].0 + joined(pieces.drop_first()));
        assert(joined_tags(pieces) =~= pieces[0].1 + joined_tags(pieces.drop_first()));
    }
}

/// The unsealed chunks of a plaintext fill its container.
pub proof fn lemma_unsealed_len(h: HeaderFields, plain: Seq<u8>)
    requires
        h.valid(),
        h.plaintext_len == plain.len(),
    ensures
        flat(unsealed(plain, h.chunk_count, h.tag_len)).len() == h.plaintext_len + h.chunk_count
            * h.tag_len,
        h.sized(0, unsealed(plain, h.chunk_count, h.tag_len)),
{
    let pieces = unsealed(plain, h.chunk_count, h.tag_len);
    assert forall|k: int| #![trigger pieces[k]] 0 <= k < pieces.len() implies pieces[k].0.len()
        == h.body_len(k as nat) && pieces[k].1.len() == h.tag_len by {
        lemma_chunk_bounds(h, k as nat);
    }
    lemma_flat_len(h, 0, pieces);
}

/// Bytes that pieces of the sizes of chunks `first`, `first + 1`, and so on, take
/// up.
pub proof fn lemma_flat_len(h: HeaderFields, first: nat, pieces: Seq<Piece>)
    requires
        h.valid(),
        first + pieces.len() <= h.chunk_count,
        h.sized(first, pieces),
    ensures
        pieces.len() > 0 ==> flat(pieces).len() == h.span_len(
            first,
            (first + pieces.len() - 1) as nat,
        ),
        first + pieces.len() < h.chunk_count ==> flat(pieces).len() == pieces.len() * h.stride(),
        first == 0 && pieces.len() == h.chunk_count ==> flat(pieces).len() == h.plaintext_len
            + h.chunk_count * h.tag_len,
    decreases pieces.len(),
{
    if pieces.len() > 0 {
        let n = pieces.len() as int;
        let s = h.stride() as int;
        lemma_flat_len(h, first, pieces.drop_last());
        lemma_chunk_bounds(h, (first + n - 1) as nat);
        assert(n * s == (n - 1) * s + s) by (nonlinear_arith);
        let c = h.chunk_count as int;
        let t = h.tag_len as int;
        assert((c - 1) * (CHUNK as int + t) == (c - 1) * CHUNK as int + c * t - t)
            by (nonlinear_arith);
    }
}

/// Bytes that are cut at the same places give the same pieces.
pub proof fn lemma_flat_pieces(h: HeaderFields, first: nat, a: Seq<Piece>, b: Seq<Piece>)
    requires
        a.len() == b.len(),
        h.sized(first, a),
        h.sized(first, b),
        flat(a) == flat(b),
    ensures
        a == b,
    decreases a.len(),
{
    if a.len() > 0 {
        let n = a.len() - 1;
        let x = a.drop_last();
        let y = b.drop_last();
        let wa = a[n].0 + a[n].1;
        let wb = b[n].0 + b[n].1;
        let d = a[n].0.len();
        assert(flat(a) == flat(x) + wa);
        assert(flat(b) == flat(y) + wb);
        let m = flat(x).len();
        assert(wa.len() == wb.len());
        assert(flat(x) =~= flat(a).subrange(0, m as int));
        assert(flat(y) =~= flat(b).subrange(0, m as int));
        assert(wa =~= flat(a).subrange(m as int, flat(a).len() as int));
        assert(wb =~= flat(b).subrange(m as int, flat(b).len() as int));
        assert(a[n].0 =~= wa.subrange(0, d as int));
        assert(b[n].0 =~= wb.subrange(0, d as int));
        assert(a[n].1 =~= wa.subrange(d as int, wa.len() as int));
        assert(b[n].1 =~= wb.subrange(d as int, wb.len() as int));
        lemma_flat_pieces(h, first, x, y);
        assert(a =~= x.push(a[n]));
        assert(b =~= y.push(b[n]));
    } else {
        assert(a =~= b);
    }
}

/// Bytes of the chunks `first`, `first + 1`, and so on, without their tags.
pub proof fn lemma_joined_len(h: HeaderFields, first: nat, pieces: Seq<Piece>)
    requires
        h.valid(),
        first + pieces.len() <= h.chunk_count,
        forall|k: int|
            #![trigger pieces[k]]
            0 <= k < pieces.len() ==> pieces[k].0.len() == h.body_len((first + k) as nat),
    ensures
        first + pieces.len() < h.chunk_count ==> joined(pieces).len() == pieces.len() * CHUNK,
        pieces.len() > 0 && first + pieces.len() == h.chunk_count ==> joined(pieces).len()
            == h.plaintext_len - first * CHUNK,
    decreases pieces.len(),
{
    if pieces.len() > 0 {
        lemma_joined_len(h, first, pieces.drop_last());
        lemma_chunk_bounds(h, (first + pieces.len() - 1) as nat);
    }
}

/// A span that is long enough is cut into pieces of the right sizes.
pub proof fn lemma_cut_sized(h: HeaderFields, first: nat, n: nat, ct: Seq<u8>)
    requires
        h.valid(),
        n > 0,
        first + n <= h.chunk_count,
        ct.len() >= h.span_len(first, (first + n - 1) as nat),
    ensures
        h.sized(first, cut(h, first, n, ct)),
{
    let pieces = cut(h, first, n, ct);
    assert forall|k: int| #![trigger pieces[k]] 0 <= k < pieces.len() implies pieces[k].0.len()
        == h.body_len((first + k) as nat) && pieces[k].1.len() == h.tag_len by {
        lemma_chunk_bounds(h, (first + k) as nat);
        let s = h.stride() as int;
        assert(0 <= k * s <= (n - 1) * s) by (nonlinear_arith)
            requires
                0 <= k <= n - 1,
                s >= 0,
        ;
        assert(k < n - 1 ==> k * s + s <= (n - 1) * s) by (nonlinear_arith)
            requires
                s >= 0,
        ;
    }
}

/// Pieces are laid out one after the other.
pub proof fn lemma_flat_append(a: Seq<Piece>, b: Seq<Piece>)
    ensures
        flat(a + b) == flat(a) + flat(b),
    decreases b.len(),
{
    if b.len() == 0 {
        assert(a + b =~= a);
        assert(flat(a) + flat(b) =~= flat(a));
    } else {
        lemma_flat_append(a, b.drop_last());
        assert((a + b).drop_last() =~= a + b.drop_last());
        assert(flat(a + b) =~= flat(a) + flat(b));
    }
}

/// A span that is cut leaves nothing out.
pub proof fn lemma_flat_of_cut(h: HeaderFields, first: nat, n: nat, ct: Seq<u8>)
    requires
        h.valid(),
        n > 0,
        first + n <= h.chunk_count,
        ct.len() >= h.span_len(first, (first + n - 1) as nat),
    ensures
        flat(cut(h, first, n, ct)) == ct.subrange(
            0,
            h.span_len(first, (first + n - 1) as nat) as int,
        ),
    decreases n,
{
    let pieces = cut(h, first, n, ct);
    let i = (first + n - 1) as nat;
    let s = h.stride() as int;
    lemma_chunk_bounds(h, i);
    assert(pieces.drop_last() =~= cut(h, first, (n - 1) as nat, ct));
    assert(0 <= (n - 1) * s) by (nonlinear_arith)
        requires
            n >= 1,
            s >= 0,
    ;
    if n > 1 {
        lemma_chunk_bounds(h, (i - 1) as nat);
        assert((n - 1) * s == (n - 2) * s + s) by (nonlinear_arith);
        lemma_flat_of_cut(h, first, (n - 1) as nat, ct);
    } else {
        assert(pieces.drop_last() =~= Seq::<Piece>::empty());
        assert((n - 1) * s == 0) by (nonlinear_arith)
            requires
                n == 1,
        ;
        assert(flat(pieces.drop_last()) =~= Seq::<u8>::empty());
    }
    let at = (n - 1) * s;
    assert(flat(pieces.drop_last()) =~= ct.subrange(0, at));
    assert(pieces.last() == piece_at(h, first, ct, (n - 1) as nat));
    assert(h.span_len(first, i) == at + h.body_len(i) + h.tag_len);
    assert(flat(pieces) =~= ct.subrange(0, h.span_len(first, i) as int));
}

/// The chunks of a plan reach from before its range to behind it.
pub proof fn lemma_plan_bounds(h: HeaderFields, plan: ReadPlan)
    requires
        plan.covers(h, (plan.start as int, plan.end as int)),
    ensures
        plan.first * 0x10_0000 <= plan.start,
        plan.end <= plan.last * 0x10_0000 + 0x10_0000,
{
    if plan.start < plan.end {
        lemma_chunk_of(plan.start as int);
        lemma_chunk_of(plan.end - 1);
    }
}

/// A read of one block of the plaintext, whole or what there is of it at the end,
/// fetches the one chunk that holds it: that block and its tag, and nothing that is
/// thrown away.
pub proof fn law_block_read_touches_one_chunk(h: HeaderFields, i: nat, plan: ReadPlan)
    requires
        h.valid(),
        i * CHUNK < h.plaintext_len,
        plan.covers(h, (i * CHUNK, i * CHUNK + h.body_len(i))),
    ensures
        plan.first == i,
        plan.last == i,
        plan.ct_start == h.ct_off(i),
        plan.ct_end - plan.ct_start == (plan.end - plan.start) + h.tag_len,
{
    assert(i * CHUNK / CHUNK as int == i) by (nonlinear_arith)
        requires
            CHUNK > 0,
    ;
    let last = i * CHUNK + h.body_len(i) - 1;
    assert(last / CHUNK as int == i) by (nonlinear_arith)
        requires
            CHUNK > 0,
            i * CHUNK <= last < i * CHUNK + CHUNK,
    ;
    assert((plan.last - plan.first) * h.stride() == 0) by (nonlinear_arith)
        requires
            plan.last == plan.first,
    ;
}

/// The read that a range needs is told by the range alone. It takes the bytes from `start` to
/// `end`, each cut to the end of the plaintext, or all of them where no range is given; it
/// takes nothing where nothing is left, and then opens the last chunk. The chunks that it fetches are the ones that hold
/// those bytes, no more, and they are fetched where they stand behind the header.
pub proof fn law_plan_reads_the_range(
    header: &Header,
    range: Option<ByteRange>,
    plan: ReadPlan,
    start: int,
    end: int,
)
    requires
        header@.valid(),
        call_ensures(plan_read, (header, range), plan),
        range is None ==> start == 0 && end == header.plaintext_len,
        range matches Some(r) ==> {
            &&& start == r.start || start == header.plaintext_len
            &&& start <= r.start && start <= header.plaintext_len
            &&& end == r.end || end == header.plaintext_len
            &&& end <= r.end && end <= header.plaintext_len
        },
    ensures
        if start < end {
            &&& plan.start == start
            &&& plan.end == end
            &&& plan.first * 0x10_0000 <= start < (plan.first + 1) * 0x10_0000
            &&& plan.last * 0x10_0000 < end <= (plan.last + 1) * 0x10_0000
        } else {
            &&& plan.start == plan.end == plan.first * 0x10_0000
            &&& plan.first == plan.last
            &&& plan.last + 1 == header.chunk_count
        },
        plan.first <= plan.last < header.chunk_count,
        plan.ct_start == 32 + header.codec@.len() + plan.first * (0x10_0000 + header.tag_len),
        plan.last + 1 < header.chunk_count ==> plan.ct_end == 32 + header.codec@.len() + (plan.last
            + 1) * (0x10_0000 + header.tag_len),
        plan.last + 1 == header.chunk_count ==> plan.ct_end == 32 + header.codec@.len()
            + header.plaintext_len + header.chunk_count * header.tag_len,
{
    let h = header@;
    let t = header.tag_len as int;
    lemma_chunk_bounds(h, plan.last as nat);
    if start < end {
        lemma_chunk_of(start);
        lemma_chunk_of(end - 1);
    }
    let (a, b) = (plan.first as int, plan.last as int);
    let s = 0x10_0000 + t;
    assert(h.stride() == s);
    assert(a * s + (b - a) * s == b * s) by (nonlinear_arith);
    assert((b + 1) * s == b * s + s) by (nonlinear_arith);
    assert(b * s == b * 0x10_0000 + b * t) by (nonlinear_arith)
        requires
            s == 0x10_0000 + t,
    ;
    assert((b + 1) * t == b * t + t) by (nonlinear_arith);
}

/// A header counts what its container takes up: the fixed part and the codec's bytes, the
/// plaintext, and a tag for each chunk.
pub proof fn law_container_takes_header_plaintext_and_tags(h: HeaderFields)
    ensures
        h.container_len() == 32 + h.codec.len() + h.plaintext_len + h.chunk_count * h.tag_len,
{
}

/// The bytes of a span are parted into chunks and tags wherever they reach to the end of its
/// last tag, and are refused as truncated where they do not. Nothing is lost or added: what
/// comes out has as many bytes as the span.
pub proof fn law_span_is_parted_where_it_is_whole(
    ct: &[u8],
    header: &Header,
    first: usize,
    last: usize,
    r: Result<(Vec<u8>, Vec<u8>), StoreError>,
)
    requires
        header@.valid(),
        first <= last < header.chunk_count,
        call_ensures(split_span, (ct, header, first, last), r),
    ensures
        ({
            let whole = (last - first) * (0x10_0000 + header.tag_len) + header.tag_len + if last + 1
                < header.chunk_count {
                0x10_0000
            } else {
                header.plaintext_len - last * 0x10_0000
            };
            &&& r is Ok <==> ct@.len() >= whole
            &&& r matches Ok((data, tags)) ==> {
                &&& data@.len() + tags@.len() == whole
                &&& tags@.len() == (last - first + 1) * header.tag_len
            }
            &&& r matches Err(e) ==> e.says("wgenc container: truncated"@)
        }),
{
    let h = header@;
    lemma_chunk_bounds(h, last as nat);
    assert(h.stride() == 0x10_0000 + header.tag_len);
    let n = (last - first + 1) as nat;
    if r is Ok {
        let pieces = cut(h, first as nat, n, ct@);
        lemma_cut_sized(h, first as nat, n, ct@);
        lemma_joined_len(h, first as nat, pieces);
        lemma_tags_len(pieces, header.tag_len as nat);
        let t = header.tag_len as int;
        let k = last - first;
        assert(k * (0x10_0000 + t) == k * 0x10_0000 + k * t) by (nonlinear_arith);
        assert((k + 1) * t == k * t + t) by (nonlinear_arith);
    }
}

proof fn lemma_tags_len(pieces: Seq<Piece>, tag_len: nat)
    requires
        forall|k: int|
            #![trigger pieces[k]]
            0 <= k < pieces.len() ==> pieces[k].1.len() == tag_len,
    ensures
        joined_tags(pieces).len() == pieces.len() * tag_len,
    decreases pieces.len(),
{
    let n = pieces.len();
    if n > 0 {
        let front = pieces.drop_last();
        assert forall|k: int| #![trigger front[k]] 0 <= k < front.len() implies front[k].1.len()
            == tag_len by {
            assert(front[k] == pieces[k]);
        }
        lemma_tags_len(front, tag_len);
        assert(pieces[n - 1].1.len() == tag_len);
        assert((n - 1) * tag_len + tag_len == n * tag_len) by (nonlinear_arith);
    } else {
        assert(0 * tag_len == 0) by (nonlinear_arith);
    }
}

/// Chunk `i` holds what there is of the plaintext from where it begins, a whole chunk at most.
pub proof fn law_chunk_holds_its_stretch(header: &Header, i: usize, n: usize)
    requires
        header@.valid(),
        i < header.chunk_count,
        call_ensures(body_len, (header, i), n),
    ensures
        i + 1 < header.chunk_count ==> n == 0x10_0000,
        i + 1 == header.chunk_count ==> i * 0x10_0000 + n == header.plaintext_len,
{
    lemma_chunk_bounds(header@, i as nat);
}

} // verus!
