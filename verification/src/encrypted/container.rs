//! Container v1: a header and fixed-size chunks, so that a plaintext offset maps
//! to a ciphertext offset by arithmetic.
//!
//! ```text
//! header | chunk 0 (CHUNK + tag_len) | chunk 1 | ... | tail (rem + tag_len)
//! ```
//!
//! Header, big-endian, `32 + codec_header_len` bytes:
//!
//! ```text
//! off  len  field
//!   0    8  magic "WGENCv1\0"
//!   8    2  container_version = 1
//!  10    4  chunk_size
//!  14    8  plaintext_len
//!  22    4  chunk_count
//!  26    2  tag_len              bytes the codec appends per chunk
//!  28    4  codec_header_len
//!  32    N  codec_header         opaque to the container: wrapped key, key id, ...
//! ```
//!
//! The header has no authentication of its own. The whole of it is bound into
//! every chunk's associated data instead, so a forged field fails every chunk:
//!
//! ```text
//! "wgenc\x1f" | u16 container_version | u64 chunk_index      | u64 chunk_count
//!             | u64 plaintext_len     | u64 chunk_size       | u64 tag_len
//!             | u64 codec_header_len  | codec_header
//!             | u64 object_key_len    | object_key
//! ```
use vstd::prelude::*;

use crate::number::{
    be, decimal, decimal_text, from_be, get_be, law_be_round_trip, lemma_be_len,
    lemma_byte_ranges, put_be,
};
use crate::store::StoreError;

verus! {

/// Plaintext bytes per chunk.
pub const CHUNK: usize = 1024 * 1024;

pub const CONTAINER_VERSION: u16 = 1;

/// Bytes before `codec_header`.
pub const FIXED_HEADER: usize = 32;

/// `"WGENCv1\0"`.
pub open spec fn magic() -> Seq<u8> {
    seq![0x57u8, 0x47u8, 0x45u8, 0x4eu8, 0x43u8, 0x76u8, 0x31u8, 0x00u8]
}

/// `"wgenc\x1f"`, which opens every chunk's associated data.
pub open spec fn aad_label() -> Seq<u8> {
    seq![0x77u8, 0x67u8, 0x65u8, 0x6eu8, 0x63u8, 0x1fu8]
}

/// The number of chunks that hold `plaintext_len` bytes. An empty object has one
/// chunk, which is empty.
pub open spec fn chunks_for(plaintext_len: nat) -> nat {
    if plaintext_len == 0 {
        1
    } else {
        (plaintext_len + CHUNK as nat - 1) as nat / CHUNK as nat
    }
}

pub fn chunk_count(plaintext_len: usize) -> (n: usize)
    ensures
        n == chunks_for(plaintext_len as nat),
        n >= 1,
        (n - 1) * CHUNK <= plaintext_len <= n * CHUNK,
        n > 1 ==> (n - 1) * CHUNK < plaintext_len,
{
    if plaintext_len == 0 {
        1
    } else {
        (plaintext_len - 1) / CHUNK + 1
    }
}

/// The header fields that the container and every chunk's associated data agree
/// on, as numbers.
#[verifier::ext_equal]
pub struct HeaderFields {
    pub plaintext_len: nat,
    pub chunk_count: nat,
    pub tag_len: nat,
    pub codec: Seq<u8>,
}

impl HeaderFields {
    /// Every field fits its place in the header.
    pub open spec fn fits(self) -> bool {
        &&& self.plaintext_len <= u64::MAX
        &&& self.chunk_count <= u32::MAX
        &&& self.tag_len <= u16::MAX
        &&& self.codec.len() <= u32::MAX
    }

    /// Every field is a number that a machine can hold, as those of every header are.
    pub open spec fn countable(self) -> bool {
        &&& self.plaintext_len <= u64::MAX
        &&& self.chunk_count <= u64::MAX
        &&& self.tag_len <= u64::MAX
        &&& self.codec.len() <= u64::MAX
    }

    /// The header of an object: its fields fit, and it counts the chunks that the
    /// plaintext needs.
    pub open spec fn valid(self) -> bool {
        &&& self.fits()
        &&& self.plaintext_len <= usize::MAX
        &&& self.chunk_count == chunks_for(self.plaintext_len)
    }

    /// Bytes before the first chunk.
    pub open spec fn header_len(self) -> nat {
        FIXED_HEADER as nat + self.codec.len()
    }

    pub open spec fn encoded(self) -> Seq<u8> {
        magic() + be(CONTAINER_VERSION as nat, 2) + be(CHUNK as nat, 4) + be(self.plaintext_len, 8)
            + be(self.chunk_count, 4) + be(self.tag_len, 2) + be(self.codec.len(), 4) + self.codec
    }
}

/// Associated data of chunk `index` of the object named by the bytes `object`.
/// Every variable-length field is preceded by its length.
pub open spec fn aad(object: Seq<u8>, index: nat, h: HeaderFields) -> Seq<u8> {
    aad_label() + be(CONTAINER_VERSION as nat, 2) + be(index, 8) + be(h.chunk_count, 8) + be(
        h.plaintext_len,
        8,
    ) + be(CHUNK as nat, 8) + be(h.tag_len, 8) + be(h.codec.len(), 8) + h.codec + be(
        object.len(),
        8,
    ) + object
}

/// The header of one container.
pub struct Header {
    pub plaintext_len: usize,
    pub chunk_count: usize,
    pub tag_len: usize,
    pub codec: Vec<u8>,
}

impl View for Header {
    type V = HeaderFields;

    open spec fn view(&self) -> HeaderFields {
        HeaderFields {
            plaintext_len: self.plaintext_len as nat,
            chunk_count: self.chunk_count as nat,
            tag_len: self.tag_len as nat,
            codec: self.codec@,
        }
    }
}

/// Copies bytes.
pub fn copy_bytes(b: &[u8]) -> (r: Vec<u8>)
    ensures
        r@ == b@,
{
    let mut r: Vec<u8> = Vec::new();
    r.extend_from_slice(b);
    assert(r@ =~= b@);
    r
}

/// Appends bytes.
pub fn put_bytes(out: &mut Vec<u8>, b: &[u8])
    ensures
        final(out)@ == old(out)@ + b@,
{
    out.extend_from_slice(b);
    assert(out@ =~= old(out)@ + b@);
}

impl Clone for Header {
    fn clone(&self) -> (r: Self)
        ensures
            r@ == self@,
    {
        Header {
            plaintext_len: self.plaintext_len,
            chunk_count: self.chunk_count,
            tag_len: self.tag_len,
            codec: copy_bytes(self.codec.as_slice()),
        }
    }
}

/// What [`Header::encode`] answers: the bytes, or the first field that is too
/// large for its place.
pub open spec fn encode_result(h: HeaderFields) -> Result<Seq<u8>, Seq<char>> {
    if h.chunk_count > u32::MAX {
        Err("wgenc header: chunk_count too large"@)
    } else if h.tag_len > u16::MAX {
        Err("wgenc header: tag_len too large"@)
    } else if h.codec.len() > u32::MAX {
        Err("wgenc header: codec_header_len too large"@)
    } else {
        Ok(h.encoded())
    }
}

impl Header {
    pub fn encode(&self) -> (r: Result<Vec<u8>, StoreError>)
        ensures
            match encode_result(self@) {
                Ok(bytes) => r matches Ok(h) && h@ == bytes,
                Err(message) => r matches Err(e) && e.says(message),
            },
            r matches Ok(h) ==> h@.len() == self@.header_len() && self@.fits(),
    {
        if self.chunk_count as u64 > 0xffff_ffff {
            return Err(StoreError::other("wgenc header: chunk_count too large"));
        }
        if self.tag_len > 0xffff {
            return Err(StoreError::other("wgenc header: tag_len too large"));
        }
        if self.codec.len() as u64 > 0xffff_ffff {
            return Err(StoreError::other("wgenc header: codec_header_len too large"));
        }
        let mut h: Vec<u8> = Vec::new();
        let magic_bytes: [u8; 8] = [0x57, 0x47, 0x45, 0x4e, 0x43, 0x76, 0x31, 0x00];
        put_bytes(&mut h, &magic_bytes);
        assert(h@ =~= magic());
        put_be(&mut h, CONTAINER_VERSION as u64, 2);
        put_be(&mut h, CHUNK as u64, 4);
        put_be(&mut h, self.plaintext_len as u64, 8);
        put_be(&mut h, self.chunk_count as u64, 4);
        put_be(&mut h, self.tag_len as u64, 2);
        put_be(&mut h, self.codec.len() as u64, 4);
        put_bytes(&mut h, self.codec.as_slice());
        proof {
            lemma_encoded_len(self@);
        }
        Ok(h)
    }
}

pub proof fn lemma_encoded_len(h: HeaderFields)
    ensures
        h.encoded().len() == h.header_len(),
{
    lemma_be_len(CONTAINER_VERSION as nat, 2);
    lemma_be_len(CHUNK as nat, 4);
    lemma_be_len(h.plaintext_len, 8);
    lemma_be_len(h.chunk_count, 4);
    lemma_be_len(h.tag_len, 2);
    lemma_be_len(h.codec.len(), 4);
}

/// The fixed part of a header: everything but the codec's own bytes, of which
/// only the length is known yet.
#[derive(Clone, Copy, PartialEq, Eq, Structural, Debug)]
pub struct FixedPart {
    pub plaintext_len: usize,
    pub chunk_count: usize,
    pub tag_len: usize,
    pub codec_len: usize,
}

impl FixedPart {
    /// The part that a decoded header can have.
    pub open spec fn valid(self) -> bool {
        &&& self.chunk_count == chunks_for(self.plaintext_len as nat)
        &&& self.chunk_count <= u32::MAX
        &&& self.tag_len <= u16::MAX
        &&& self.codec_len <= u32::MAX
    }
}

/// The field of `n` bytes at `at`.
pub open spec fn field(b: Seq<u8>, at: int, n: int) -> nat {
    from_be(b.subrange(at, at + n))
}

/// Why the fixed part of a header is refused, or `None` where it is accepted.
/// The fields are read in order, and the first fault decides.
pub open spec fn fixed_fault(b: Seq<u8>) -> Option<Seq<char>> {
    let short = "wgenc container: short header"@;
    if b.len() < 8 {
        Some(short)
    } else if b.subrange(0, 8) != magic() {
        Some("wgenc container: bad magic"@)
    } else if b.len() < 10 {
        Some(short)
    } else if field(b, 8, 2) != CONTAINER_VERSION {
        Some("wgenc container: unsupported version "@ + decimal(field(b, 8, 2)))
    } else if b.len() < 14 {
        Some(short)
    } else if field(b, 10, 4) != CHUNK {
        Some(
            "wgenc container: chunk_size "@ + decimal(field(b, 10, 4)) + " != this build's "@
                + decimal(CHUNK as nat),
        )
    } else if b.len() < 22 {
        Some(short)
    } else if field(b, 14, 8) > usize::MAX {
        Some("wgenc container: plaintext_len exceeds this platform's addressable range"@)
    } else if b.len() < 32 {
        Some(short)
    } else if field(b, 22, 4) != chunks_for(field(b, 14, 8)) {
        Some("wgenc container: chunk_count disagrees with plaintext_len"@)
    } else {
        None
    }
}

fn equal_bytes(b: &[u8], want: &[u8]) -> (r: bool)
    requires
        want@.len() <= b@.len(),
    ensures
        r == (b@.subrange(0, want@.len() as int) == want@),
{
    let n = want.len();
    let mut i: usize = 0;
    while i < n
        invariant
            i <= n,
            n == want@.len(),
            n <= b@.len(),
            forall|j: int| 0 <= j < i ==> b@[j] == want@[j],
        decreases n - i,
    {
        if b[i] != want[i] {
            assert(b@.subrange(0, want@.len() as int)[i as int] != want@[i as int]);
            return false;
        }
        i = i + 1;
    }
    assert(b@.subrange(0, want@.len() as int) =~= want@);
    true
}

impl Header {
    /// Parses the fixed part. `codec_len` tells the caller how much more to read,
    /// so a codec whose wrapped key varies in size needs no probe.
    pub fn decode_fixed(b: &[u8]) -> (r: Result<FixedPart, StoreError>)
        ensures
            match fixed_fault(b@) {
                Some(message) => r matches Err(e) && e.says(message),
                None => r is Ok,
            },
            r matches Ok(p) ==> {
                &&& p.valid()
                &&& p.plaintext_len == field(b@, 14, 8)
                &&& p.chunk_count == field(b@, 22, 4)
                &&& p.tag_len == field(b@, 26, 2)
                &&& p.codec_len == field(b@, 28, 4)
            },
    {
        proof {
            lemma_byte_ranges();
        }
        let len: usize = b.len();
        if len < 8 {
            return Err(StoreError::other("wgenc container: short header"));
        }
        let magic_bytes: [u8; 8] = [0x57, 0x47, 0x45, 0x4e, 0x43, 0x76, 0x31, 0x00];
        assert(magic_bytes@ =~= magic());
        if !equal_bytes(b, &magic_bytes) {
            return Err(StoreError::other("wgenc container: bad magic"));
        }
        if len < 10 {
            return Err(StoreError::other("wgenc container: short header"));
        }
        let version = get_be(b, 8, 2);
        if version != CONTAINER_VERSION as u64 {
            let mut m = String::from_str("wgenc container: unsupported version ");
            m.append(decimal_text(version).as_str());
            return Err(StoreError::Other(m));
        }
        if len < 14 {
            return Err(StoreError::other("wgenc container: short header"));
        }
        let chunk_size = get_be(b, 10, 4);
        if chunk_size != CHUNK as u64 {
            // Another block size would misalign every range read, so refuse
            // rather than serve shifted bytes.
            let mut m = String::from_str("wgenc container: chunk_size ");
            m.append(decimal_text(chunk_size).as_str());
            m.append(" != this build's ");
            m.append(decimal_text(CHUNK as u64).as_str());
            return Err(StoreError::Other(m));
        }
        if len < 22 {
            return Err(StoreError::other("wgenc container: short header"));
        }
        let plaintext_len = get_be(b, 14, 8);
        if plaintext_len > usize::MAX as u64 {
            return Err(
                StoreError::other(
                    "wgenc container: plaintext_len exceeds this platform's addressable range",
                ),
            );
        }
        if len < 32 {
            return Err(StoreError::other("wgenc container: short header"));
        }
        let count = get_be(b, 22, 4);
        let tag_len = get_be(b, 26, 2);
        let codec_len = get_be(b, 28, 4);
        if count != chunk_count(plaintext_len as usize) as u64 {
            return Err(
                StoreError::other("wgenc container: chunk_count disagrees with plaintext_len"),
            );
        }
        Ok(
            FixedPart {
                plaintext_len: plaintext_len as usize,
                chunk_count: count as usize,
                tag_len: tag_len as usize,
                codec_len: codec_len as usize,
            },
        )
    }
}

/// Associated data of chunk `index` of `object`.
pub fn aad_for(object: &str, index: usize, header: &Header) -> (r: Vec<u8>)
    ensures
        r@ == aad(vstd::utf8::encode_utf8(object@), index as nat, header@),
{
    let mut a: Vec<u8> = Vec::new();
    let label: [u8; 6] = [0x77, 0x67, 0x65, 0x6e, 0x63, 0x1f];
    put_bytes(&mut a, &label);
    assert(a@ =~= aad_label());
    put_be(&mut a, CONTAINER_VERSION as u64, 2);
    put_be(&mut a, index as u64, 8);
    put_be(&mut a, header.chunk_count as u64, 8);
    put_be(&mut a, header.plaintext_len as u64, 8);
    put_be(&mut a, CHUNK as u64, 8);
    put_be(&mut a, header.tag_len as u64, 8);
    put_be(&mut a, header.codec.len() as u64, 8);
    put_bytes(&mut a, header.codec.as_slice());
    let name = object.as_bytes();
    put_be(&mut a, name.len() as u64, 8);
    put_bytes(&mut a, name);
    a
}

/// Where the fields of an encoded header stand.
pub proof fn lemma_encoded_fields(h: HeaderFields)
    ensures
        ({
            let e = h.encoded();
            &&& e.len() == h.header_len()
            &&& e.subrange(0, 8) == magic()
            &&& e.subrange(8, 10) == be(CONTAINER_VERSION as nat, 2)
            &&& e.subrange(10, 14) == be(CHUNK as nat, 4)
            &&& e.subrange(14, 22) == be(h.plaintext_len, 8)
            &&& e.subrange(22, 26) == be(h.chunk_count, 4)
            &&& e.subrange(26, 28) == be(h.tag_len, 2)
            &&& e.subrange(28, 32) == be(h.codec.len(), 4)
            &&& e.subrange(32, e.len() as int) == h.codec
        }),
{
    lemma_encoded_len(h);
    lemma_be_len(CONTAINER_VERSION as nat, 2);
    lemma_be_len(CHUNK as nat, 4);
    lemma_be_len(h.plaintext_len, 8);
    lemma_be_len(h.chunk_count, 4);
    lemma_be_len(h.tag_len, 2);
    lemma_be_len(h.codec.len(), 4);
    let e = h.encoded();
    assert(e.subrange(0, 8) =~= magic());
    assert(e.subrange(8, 10) =~= be(CONTAINER_VERSION as nat, 2));
    assert(e.subrange(10, 14) =~= be(CHUNK as nat, 4));
    assert(e.subrange(14, 22) =~= be(h.plaintext_len, 8));
    assert(e.subrange(22, 26) =~= be(h.chunk_count, 4));
    assert(e.subrange(26, 28) =~= be(h.tag_len, 2));
    assert(e.subrange(28, 32) =~= be(h.codec.len(), 4));
    assert(e.subrange(32, e.len() as int) =~= h.codec);
}

/// A header reads back: any bytes that begin with an encoded valid header are
/// accepted, give back its fields, and hold the codec's own bytes right behind
/// the fixed part.
pub proof fn law_header_round_trip(h: HeaderFields, object: Seq<u8>)
    requires
        h.valid(),
        object.len() >= h.header_len(),
        object.subrange(0, h.header_len() as int) == h.encoded(),
    ensures
        fixed_fault(object) is None,
        field(object, 14, 8) == h.plaintext_len,
        field(object, 22, 4) == h.chunk_count,
        field(object, 26, 2) == h.tag_len,
        field(object, 28, 4) == h.codec.len(),
        object.subrange(FIXED_HEADER as int, h.header_len() as int) == h.codec,
{
    lemma_encoded_fields(h);
    lemma_byte_ranges();
    law_be_round_trip(CONTAINER_VERSION as nat, 2);
    law_be_round_trip(CHUNK as nat, 4);
    law_be_round_trip(h.plaintext_len, 8);
    law_be_round_trip(h.chunk_count, 4);
    law_be_round_trip(h.tag_len, 2);
    law_be_round_trip(h.codec.len(), 4);
    let e = h.encoded();
    assert(object.subrange(0, 8) =~= e.subrange(0, 8));
    assert(object.subrange(8, 10) =~= e.subrange(8, 10));
    assert(object.subrange(10, 14) =~= e.subrange(10, 14));
    assert(object.subrange(14, 22) =~= e.subrange(14, 22));
    assert(object.subrange(22, 26) =~= e.subrange(22, 26));
    assert(object.subrange(26, 28) =~= e.subrange(26, 28));
    assert(object.subrange(28, 32) =~= e.subrange(28, 32));
    assert(object.subrange(32, e.len() as int) =~= e.subrange(32, e.len() as int));
}

/// Where the fields of a chunk's associated data stand.
proof fn lemma_aad_fields(object: Seq<u8>, index: nat, h: HeaderFields)
    ensures
        ({
            let a = aad(object, index, h);
            let n = h.codec.len() as int;
            &&& a.len() == 64 + n + object.len()
            &&& a.subrange(8, 16) == be(index, 8)
            &&& a.subrange(16, 24) == be(h.chunk_count, 8)
            &&& a.subrange(24, 32) == be(h.plaintext_len, 8)
            &&& a.subrange(40, 48) == be(h.tag_len, 8)
            &&& a.subrange(48, 56) == be(h.codec.len(), 8)
            &&& a.subrange(56, 56 + n) == h.codec
            &&& a.subrange(64 + n, a.len() as int) == object
        }),
{
    lemma_be_len(CONTAINER_VERSION as nat, 2);
    lemma_be_len(index, 8);
    lemma_be_len(h.chunk_count, 8);
    lemma_be_len(h.plaintext_len, 8);
    lemma_be_len(CHUNK as nat, 8);
    lemma_be_len(h.tag_len, 8);
    lemma_be_len(h.codec.len(), 8);
    lemma_be_len(object.len(), 8);
    let a = aad(object, index, h);
    let n = h.codec.len() as int;
    assert(a.subrange(8, 16) =~= be(index, 8));
    assert(a.subrange(16, 24) =~= be(h.chunk_count, 8));
    assert(a.subrange(24, 32) =~= be(h.plaintext_len, 8));
    assert(a.subrange(40, 48) =~= be(h.tag_len, 8));
    assert(a.subrange(48, 56) =~= be(h.codec.len(), 8));
    assert(a.subrange(56, 56 + n) =~= h.codec);
    assert(a.subrange(64 + n, a.len() as int) =~= object);
}

/// Associated data names one chunk of one object under one header: two chunks
/// have the same associated data only where object, position and every header
/// field are the same. So no chunk can be replayed in another place, and no
/// header field can change under a chunk that was sealed with it.
pub proof fn law_aad_is_injective(
    object1: Seq<u8>,
    index1: nat,
    h1: HeaderFields,
    object2: Seq<u8>,
    index2: nat,
    h2: HeaderFields,
)
    requires
        h1.countable(),
        h2.countable(),
        index1 <= u64::MAX,
        index2 <= u64::MAX,
        aad(object1, index1, h1) == aad(object2, index2, h2),
    ensures
        object1 == object2,
        index1 == index2,
        h1 == h2,
{
    lemma_aad_fields(object1, index1, h1);
    lemma_aad_fields(object2, index2, h2);
    lemma_byte_ranges();
    law_be_round_trip(index1, 8);
    law_be_round_trip(index2, 8);
    law_be_round_trip(h1.chunk_count, 8);
    law_be_round_trip(h2.chunk_count, 8);
    law_be_round_trip(h1.plaintext_len, 8);
    law_be_round_trip(h2.plaintext_len, 8);
    law_be_round_trip(h1.tag_len, 8);
    law_be_round_trip(h2.tag_len, 8);
    law_be_round_trip(h1.codec.len(), 8);
    law_be_round_trip(h2.codec.len(), 8);
    assert(h1 =~= h2);
}

/// A header is written down exactly where each field fits its place, whatever the others
/// are: four bytes for the number of chunks, two for the size of a tag, four for the size of
/// the codec's bytes. The size of the plaintext always fits.
pub proof fn law_header_is_written_where_it_fits(h: HeaderFields)
    ensures
        encode_result(h) is Ok <==> h.chunk_count <= 0xffff_ffff && h.tag_len <= 0xffff
            && h.codec.len() <= 0xffff_ffff,
{
}

/// What is written down of a header says of each field what it is, in the place that the
/// format gives it.
pub proof fn law_header_holds_its_fields(header: &Header, r: Result<Vec<u8>, StoreError>)
    requires
        call_ensures(Header::encode, (header,), r),
    ensures
        r is Ok <==> header.chunk_count <= 0xffff_ffff && header.tag_len <= 0xffff
            && header.codec@.len() <= 0xffff_ffff,
        r matches Ok(b) ==> {
            &&& b@.len() == 32 + header.codec@.len()
            &&& b@.subrange(0, 8) == seq![
                0x57u8,
                0x47u8,
                0x45u8,
                0x4eu8,
                0x43u8,
                0x76u8,
                0x31u8,
                0x00u8,
            ]
            &&& from_be(b@.subrange(8, 10)) == 1
            &&& from_be(b@.subrange(10, 14)) == 0x10_0000
            &&& from_be(b@.subrange(14, 22)) == header.plaintext_len
            &&& from_be(b@.subrange(22, 26)) == header.chunk_count
            &&& from_be(b@.subrange(26, 28)) == header.tag_len
            &&& from_be(b@.subrange(28, 32)) == header.codec@.len()
            &&& b@.subrange(32, b@.len() as int) == header.codec@
        },
        r matches Err(e) ==> e.says(
            if header.chunk_count > 0xffff_ffff {
                "wgenc header: chunk_count too large"@
            } else if header.tag_len > 0xffff {
                "wgenc header: tag_len too large"@
            } else {
                "wgenc header: codec_header_len too large"@
            },
        ),
{
    let h = header@;
    if r is Ok {
        lemma_encoded_fields(h);
        lemma_byte_ranges();
        law_be_round_trip(1, 2);
        law_be_round_trip(0x10_0000, 4);
        law_be_round_trip(h.plaintext_len, 8);
        law_be_round_trip(h.chunk_count, 4);
        law_be_round_trip(h.tag_len, 2);
        law_be_round_trip(h.codec.len(), 4);
        assert(h.codec == header.codec@);
    }
}

/// The chunks of a plaintext are as many as it takes to hold it: one at least, and none that
/// stays empty behind another.
pub proof fn law_chunks_are_as_many_as_needed(plaintext_len: usize, n: usize, m: nat)
    requires
        call_ensures(chunk_count, (plaintext_len,), n),
        m >= 1,
    ensures
        n >= 1,
        n <= m <==> plaintext_len <= m * 0x10_0000,
{
    assert(n <= m ==> n * 0x10_0000 <= m * 0x10_0000) by (nonlinear_arith);
    assert(n > m ==> (n - 1) * 0x10_0000 >= m * 0x10_0000) by (nonlinear_arith);
}

/// The first bytes of an object are taken for a header exactly where they are one of this
/// format: the magic, this version and this chunk size, a plaintext that can be addressed,
/// and as many chunks as it takes to hold it. What is taken from them is what stands there.
pub proof fn law_header_is_accepted_where_it_is_sound(
    b: &[u8],
    r: Result<FixedPart, StoreError>,
    count: nat,
    len: nat,
)
    requires
        call_ensures(Header::decode_fixed, (b,), r),
        b@.len() >= 32,
        len == from_be(b@.subrange(14, 22)),
        count == from_be(b@.subrange(22, 26)),
    ensures
        r is Ok <==> {
            &&& b@.subrange(0, 8) == seq![
                0x57u8,
                0x47u8,
                0x45u8,
                0x4eu8,
                0x43u8,
                0x76u8,
                0x31u8,
                0x00u8,
            ]
            &&& from_be(b@.subrange(8, 10)) == 1
            &&& from_be(b@.subrange(10, 14)) == 0x10_0000
            &&& len <= usize::MAX
            &&& count >= 1
            &&& len <= count * 0x10_0000
            &&& count > 1 ==> (count - 1) * 0x10_0000 < len
        },
        r matches Ok(p) ==> {
            &&& p.plaintext_len == len
            &&& p.chunk_count == count
            &&& p.tag_len == from_be(b@.subrange(26, 28))
            &&& p.codec_len == from_be(b@.subrange(28, 32))
        },
        r matches Err(e) ==> e is Other,
{
    assert(CHUNK == 0x10_0000);
}

/// No part of a header is taken for the whole of it.
pub proof fn law_short_header_is_refused(b: &[u8], r: Result<FixedPart, StoreError>)
    requires
        call_ensures(Header::decode_fixed, (b,), r),
        b@.len() < 32,
    ensures
        r matches Err(e) && e is Other,
{
}

/// Every header that there can be is one that associated data tells apart from all others.
pub proof fn law_every_header_is_countable(header: Header)
    ensures
        header@.countable(),
{
    assert(header.codec@.len() == header.codec.len());
}

/// Associated data is the same for the same chunk of the same object under the same header,
/// and for nothing else.
pub proof fn law_chunks_are_told_apart(
    object1: &str,
    index1: usize,
    h1: &Header,
    a1: Vec<u8>,
    object2: &str,
    index2: usize,
    h2: &Header,
    a2: Vec<u8>,
)
    requires
        call_ensures(aad_for, (object1, index1, h1), a1),
        call_ensures(aad_for, (object2, index2, h2), a2),
    ensures
        a1@ == a2@ <==> object1@ == object2@ && index1 == index2 && h1.plaintext_len
            == h2.plaintext_len && h1.chunk_count == h2.chunk_count && h1.tag_len == h2.tag_len
            && h1.codec@ == h2.codec@,
{
    if a1@ == a2@ {
        law_every_header_is_countable(*h1);
        law_every_header_is_countable(*h2);
        law_aad_is_injective(
            vstd::utf8::encode_utf8(object1@),
            index1 as nat,
            h1@,
            vstd::utf8::encode_utf8(object2@),
            index2 as nat,
            h2@,
        );
        vstd::utf8::encode_utf8_decode_utf8(object1@);
        vstd::utf8::encode_utf8_decode_utf8(object2@);
    } else {
        assert(h1@ == h2@ || !(h1@ =~= h2@));
    }
}

/// A header is one that objects are read by exactly where its fields fit their places, its
/// plaintext can be addressed, and it counts as many chunks as it takes to hold that.
pub proof fn law_header_is_valid_where_it_counts_right(h: HeaderFields)
    ensures
        h.valid() <==> {
            &&& h.plaintext_len <= usize::MAX
            &&& h.tag_len <= 0xffff
            &&& h.codec.len() <= 0xffff_ffff
            &&& 1 <= h.chunk_count <= 0xffff_ffff
            &&& h.plaintext_len <= h.chunk_count * 0x10_0000
            &&& h.chunk_count > 1 ==> (h.chunk_count - 1) * 0x10_0000 < h.plaintext_len
        },
{
    assert(CHUNK == 0x10_0000);
}

/// Associated data tells, one behind the other: the label, the version of the format, the
/// position of the chunk, every field of the header, and the name of the object.
pub proof fn law_associated_data_tells_all(
    object: &str,
    index: usize,
    h: &Header,
    a: Vec<u8>,
)
    requires
        call_ensures(aad_for, (object, index, h), a),
    ensures
        ({
            let name = vstd::utf8::encode_utf8(object@);
            let n = h.codec@.len() as int;
            &&& a@.len() == 64 + n + name.len()
            &&& a@.subrange(0, 6) == seq![0x77u8, 0x67u8, 0x65u8, 0x6eu8, 0x63u8, 0x1fu8]
            &&& from_be(a@.subrange(6, 8)) == 1
            &&& from_be(a@.subrange(8, 16)) == index
            &&& from_be(a@.subrange(16, 24)) == h.chunk_count
            &&& from_be(a@.subrange(24, 32)) == h.plaintext_len
            &&& from_be(a@.subrange(32, 40)) == 0x10_0000
            &&& from_be(a@.subrange(40, 48)) == h.tag_len
            &&& from_be(a@.subrange(48, 56)) == n
            &&& a@.subrange(56, 56 + n) == h.codec@
            &&& name.len() <= u64::MAX ==> from_be(a@.subrange(56 + n, 64 + n)) == name.len()
            &&& a@.subrange(64 + n, a@.len() as int) == name
        }),
{
    let name = vstd::utf8::encode_utf8(object@);
    let n = h.codec@.len() as int;
    lemma_aad_fields(name, index as nat, h@);
    law_every_header_is_countable(*h);
    lemma_byte_ranges();
    lemma_be_len(1, 2);
    lemma_be_len(index as nat, 8);
    lemma_be_len(h@.chunk_count, 8);
    lemma_be_len(h@.plaintext_len, 8);
    lemma_be_len(0x10_0000, 8);
    lemma_be_len(h@.tag_len, 8);
    lemma_be_len(n as nat, 8);
    lemma_be_len(name.len(), 8);
    law_be_round_trip(1, 2);
    law_be_round_trip(0x10_0000, 8);
    law_be_round_trip(index as nat, 8);
    law_be_round_trip(h@.chunk_count, 8);
    law_be_round_trip(h@.plaintext_len, 8);
    law_be_round_trip(h@.tag_len, 8);
    law_be_round_trip(n as nat, 8);
    assert(a@.subrange(0, 6) =~= aad_label());
    assert(a@.subrange(6, 8) =~= be(1, 2));
    assert(a@.subrange(32, 40) =~= be(0x10_0000, 8));
    assert(a@.subrange(56 + n, 64 + n) =~= be(name.len(), 8));
    if name.len() <= u64::MAX {
        law_be_round_trip(name.len(), 8);
    }
}

/// A header that is refused is told by the first of its fields that is not as it should be.
pub proof fn law_first_fault_of_a_header_is_told(b: &[u8], r: Result<FixedPart, StoreError>)
    requires
        call_ensures(Header::decode_fixed, (b,), r),
        b@.len() >= 32,
    ensures
        ({
            let named = b@.subrange(0, 8) == seq![
                0x57u8,
                0x47u8,
                0x45u8,
                0x4eu8,
                0x43u8,
                0x76u8,
                0x31u8,
                0x00u8,
            ];
            let version = from_be(b@.subrange(8, 10));
            let chunk_size = from_be(b@.subrange(10, 14));
            r matches Err(e) ==> e.says(
                if !named {
                    "wgenc container: bad magic"@
                } else if version != 1 {
                    "wgenc container: unsupported version "@ + decimal(version)
                } else if chunk_size != 0x10_0000 {
                    "wgenc container: chunk_size "@ + decimal(chunk_size) + " != this build's "@
                        + decimal(0x10_0000)
                } else if from_be(b@.subrange(14, 22)) > usize::MAX {
                    "wgenc container: plaintext_len exceeds this platform's addressable range"@
                } else {
                    "wgenc container: chunk_count disagrees with plaintext_len"@
                },
            )
        }),
{
}

/// The fixed part of a header counts right wherever a header does.
pub proof fn law_fixed_part_is_that_of_a_header(p: FixedPart)
    ensures
        p.valid() <==> {
            &&& p.tag_len <= 0xffff
            &&& p.codec_len <= 0xffff_ffff
            &&& 1 <= p.chunk_count <= 0xffff_ffff
            &&& p.plaintext_len <= p.chunk_count * 0x10_0000
            &&& p.chunk_count > 1 ==> (p.chunk_count - 1) * 0x10_0000 < p.plaintext_len
        },
{
    assert(CHUNK == 0x10_0000);
}

} // verus!
