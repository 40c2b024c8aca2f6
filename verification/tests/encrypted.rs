use std::cell::Cell;

use walgit_store::encrypted::codec::{Chunk, ChunkCodec};
use walgit_store::encrypted::container::{aad_for, chunk_count, Header, CHUNK, FIXED_HEADER};
use walgit_store::encrypted::layout::{lay_out, plan_read, split_span};
use walgit_store::encrypted::object::{open_range, seal_object};
use walgit_store::encrypted::store::{
    head_answer, probe_options, put_answer, AfterChunks, EncryptedStore, FirstRead, GetStep,
    HeaderStep, ProbeStep, PROBE,
};
use walgit_store::number::{decimal_text, get_be, get_le32, put_be};
use walgit_store::store::{ByteRange, GetOptions, ObjectMeta, StoreError, Version};

/// A cipher that is none: it flips bits, and its tag sums up what it was given.
struct Flip {
    mask: u8,
    tag_len: usize,
    header: Vec<u8>,
    calls: Cell<usize>,
    fails: bool,
}

fn flip() -> Flip {
    Flip { mask: 0x5a, tag_len: 8, header: b"key-1".to_vec(), calls: Cell::new(0), fails: false }
}

fn tag_of(index: u64, aad: &[u8], data: &[u8], n: usize) -> Vec<u8> {
    let mut h: u64 = 0xcbf2_9ce4_8422_2325 ^ index;
    for b in aad.iter().chain(data) {
        h = (h ^ u64::from(*b)).wrapping_mul(0x0100_0000_01b3);
    }
    h.to_be_bytes().iter().cycle().take(n).copied().collect()
}

impl ChunkCodec for Flip {
    fn overhead_per_chunk(&self) -> usize {
        self.tag_len
    }

    fn begin_write(&self, object: &str) -> Result<Vec<u8>, String> {
        if object == "forbidden" {
            return Err("no key for this object".to_string());
        }
        Ok(self.header.clone())
    }

    fn seal(&self, _: &str, _: &[u8], batch: &mut [Chunk<'_>]) -> Result<(), String> {
        self.calls.set(self.calls.get() + 1);
        if self.fails {
            return Err("sealing service is away".to_string());
        }
        for c in batch.iter_mut() {
            for b in c.data.iter_mut() {
                *b ^= self.mask;
            }
            let tag = tag_of(c.index, c.aad, c.data, self.tag_len);
            c.tag.copy_from_slice(&tag);
        }
        Ok(())
    }

    fn open(&self, _: &str, _: &[u8], batch: &mut [Chunk<'_>]) -> Result<(), String> {
        self.calls.set(self.calls.get() + 1);
        for c in batch.iter_mut() {
            if tag_of(c.index, c.aad, c.data, self.tag_len) != c.tag {
                return Err(format!("chunk {} failed authentication", c.index));
            }
            for b in c.data.iter_mut() {
                *b ^= self.mask;
            }
        }
        Ok(())
    }
}

fn message(e: StoreError) -> String {
    match e {
        StoreError::Other(m) => m,
        StoreError::InvalidArgument(m) => format!("invalid: {m}"),
        StoreError::NotFound { key } => format!("missing: {key}"),
        _ => panic!("another failure"),
    }
}

fn refused<T>(r: Result<T, StoreError>) -> String {
    match r {
        Ok(_) => panic!("accepted"),
        Err(e) => message(e),
    }
}

fn header(plaintext_len: usize, tag_len: usize, codec: &[u8]) -> Header {
    Header {
        plaintext_len,
        chunk_count: chunk_count(plaintext_len),
        tag_len,
        codec: codec.to_vec(),
    }
}

fn bytes(n: usize) -> Vec<u8> {
    (0..n).map(|i| (i % 251) as u8).collect()
}

fn version(text: &str) -> Version {
    Version::new(text.to_string())
}

/// Reads a range of a container by the steps of the store.
fn read(store: &mut EncryptedStore<Flip>, out: &[u8], range: Option<ByteRange>) -> Result<Vec<u8>, StoreError> {
    let v = version("1");
    let head = match store.probed("k", &v, true) {
        ProbeStep::Known(h) => h,
        ProbeStep::NotModified => panic!("modified"),
        ProbeStep::ReadBody => {
            let probe = probe_options(&GetOptions::default());
            let r = probe.range.expect("range");
            let body = &out[r.start as usize..out.len().min(r.end as usize)];
            match store.read_header("k", &v, body)? {
                HeaderStep::Ready(h) => h,
                HeaderStep::More { fixed, options } => {
                    let r = options.range.expect("range");
                    assert_eq!(options.if_match.expect("pinned").as_str(), "1");
                    store.read_more("k", &v, fixed, &out[r.start as usize..r.end as usize])
                }
            }
        }
    };
    let step = store.plan_get("k", &head, &v, range);
    assert_eq!(step.meta.size, head.plaintext_len as u64);
    open(store, &head, step, out)
}

/// Opens the chunks that a step asks for.
fn open(store: &EncryptedStore<Flip>, head: &Header, step: GetStep, out: &[u8]) -> Result<Vec<u8>, StoreError> {
    assert_eq!(step.meta.key, "k");
    assert_eq!(step.options.if_match.expect("pinned").as_str(), "1");
    let r = step.options.range.expect("range");
    let end = out.len().min(r.end as usize);
    let span = &out[(r.start as usize).min(end)..end];
    open_range(&store.codec, "k", head, &step.plan, span)
}

fn sealed(store: &EncryptedStore<Flip>, plain: &[u8]) -> Vec<u8> {
    match store.seal("k", plain) {
        Ok(out) => out,
        Err(e) => panic!("{}", message(e)),
    }
}

#[test]
fn an_empty_object_has_one_chunk() {
    assert_eq!(chunk_count(0), 1);
    assert_eq!(chunk_count(1), 1);
    assert_eq!(chunk_count(CHUNK), 1);
    assert_eq!(chunk_count(CHUNK + 1), 2);
    assert_eq!(chunk_count(7 * CHUNK), 7);
}

#[test]
fn numbers_are_written_most_significant_first() {
    let mut out = vec![9];
    put_be(&mut out, 0x0102_0304, 4);
    put_be(&mut out, 0x1_0002, 2);
    assert_eq!(out, [9, 1, 2, 3, 4, 0, 2]);
    assert_eq!(get_be(&out, 1, 4), 0x0102_0304);
    assert_eq!(get_le32(&[0, 1, 2, 3, 4], 1), 0x0403_0201);
    assert_eq!(decimal_text(0), "0");
    assert_eq!(decimal_text(u64::MAX), u64::MAX.to_string());
}

#[test]
fn a_header_is_laid_out_as_documented() {
    let h = header(5, 16, b"ab");
    let out = h.encode().ok().expect("encoded");
    let mut want = b"WGENCv1\0".to_vec();
    want.extend([0, 1]);
    want.extend([0, 0x10, 0, 0]);
    want.extend([0, 0, 0, 0, 0, 0, 0, 5]);
    want.extend([0, 0, 0, 1]);
    want.extend([0, 16]);
    want.extend([0, 0, 0, 2]);
    want.extend(b"ab");
    assert_eq!(out, want);
    let p = Header::decode_fixed(&out).ok().expect("decoded");
    assert_eq!((p.plaintext_len, p.chunk_count, p.tag_len, p.codec_len), (5, 1, 16, 2));
}

#[test]
fn a_field_that_does_not_fit_is_refused() {
    let mut h = header(5, 65536, b"");
    assert_eq!(refused(h.encode()), "wgenc header: tag_len too large");
    h.chunk_count = 1 << 32;
    assert_eq!(refused(h.encode()), "wgenc header: chunk_count too large");
}

#[test]
fn a_damaged_header_is_refused() {
    let good = header(5, 16, b"").encode().ok().expect("encoded");
    for n in 0..FIXED_HEADER {
        assert_eq!(refused(Header::decode_fixed(&good[..n])), "wgenc container: short header");
    }
    let mut b = good.clone();
    b[0] = b'X';
    assert_eq!(refused(Header::decode_fixed(&b)), "wgenc container: bad magic");
    let mut b = good.clone();
    b[9] = 2;
    assert_eq!(refused(Header::decode_fixed(&b)), "wgenc container: unsupported version 2");
    let mut b = good.clone();
    b[13] = 1;
    assert_eq!(
        refused(Header::decode_fixed(&b)),
        "wgenc container: chunk_size 1048577 != this build's 1048576"
    );
    let mut b = good.clone();
    b[25] = 2;
    assert_eq!(
        refused(Header::decode_fixed(&b)),
        "wgenc container: chunk_count disagrees with plaintext_len"
    );
}

#[test]
fn associated_data_tells_name_and_header_apart() {
    let h = header(5, 16, b"bc");
    let a = aad_for("a", 3, &h);
    let mut want = b"wgenc\x1f".to_vec();
    want.extend([0, 1]);
    want.extend(3u64.to_be_bytes());
    want.extend(1u64.to_be_bytes());
    want.extend(5u64.to_be_bytes());
    want.extend((CHUNK as u64).to_be_bytes());
    want.extend(16u64.to_be_bytes());
    want.extend(2u64.to_be_bytes());
    want.extend(b"bc");
    want.extend(1u64.to_be_bytes());
    want.extend(b"a");
    assert_eq!(a, want);
    assert_ne!(aad_for("a", 0, &header(5, 16, b"bc")), aad_for("ab", 0, &header(5, 16, b"c")));
    assert_ne!(aad_for("a", 0, &h), aad_for("a", 1, &h));
}

#[test]
fn a_range_read_gives_back_what_was_written() {
    let plain = bytes(2 * CHUNK + CHUNK / 2);
    let mut store = EncryptedStore::new(flip());
    let out = sealed(&store, &plain);
    assert_eq!(out.len(), FIXED_HEADER + 5 + plain.len() + 3 * 8);
    assert_ne!(out[FIXED_HEADER + 5..FIXED_HEADER + 5 + 64], plain[..64]);
    let n = plain.len() as u64;
    let c = CHUNK as u64;
    let ranges = [
        (0, n),
        (0, 1),
        (n - 1, n),
        (c - 1, c + 1),
        (c, 2 * c),
        (c + 17, n - 3),
        (2 * c, n + 100),
    ];
    for (start, end) in ranges {
        let got = read(&mut store, &out, Some(ByteRange { start, end })).ok().expect("read");
        assert_eq!(got, plain[start as usize..(end as usize).min(plain.len())]);
    }
    assert_eq!(read(&mut store, &out, None).ok().expect("read"), plain);
    for (start, end) in [(5, 5), (9, 2), (n, n + 5), (u64::MAX, u64::MAX)] {
        assert!(read(&mut store, &out, Some(ByteRange { start, end })).ok().expect("read").is_empty());
    }
}

#[test]
fn an_empty_object_round_trips() {
    let mut store = EncryptedStore::new(flip());
    let out = sealed(&store, b"");
    assert_eq!(out.len(), FIXED_HEADER + 5 + 8);
    assert!(read(&mut store, &out, None).ok().expect("read").is_empty());
}

#[test]
fn a_batch_is_one_call_of_the_codec() {
    let plain = bytes(3 * CHUNK);
    let mut store = EncryptedStore::new(flip());
    let out = sealed(&store, &plain);
    assert_eq!(store.codec.calls.get(), 1);
    read(&mut store, &out, None).ok().expect("read");
    assert_eq!(store.codec.calls.get(), 2);
}

#[test]
fn a_long_codec_header_costs_a_second_read() {
    let mut codec = flip();
    codec.header = bytes(600);
    let plain = bytes(1000);
    let mut store = EncryptedStore::new(codec);
    let out = sealed(&store, &plain);
    let v = version("1");
    match store.read_header("k", &v, &out[..PROBE as usize]).ok().expect("header") {
        HeaderStep::More { fixed, options } => {
            assert_eq!(fixed.codec_len, 600);
            let r = options.range.expect("range");
            assert_eq!((r.start, r.end), (32, 632));
        }
        HeaderStep::Ready(_) => panic!("the header is not complete"),
    }
    assert_eq!(read(&mut store, &out, None).ok().expect("read"), plain);
    match store.probed("k", &v, true) {
        ProbeStep::Known(h) => assert_eq!(h.codec, bytes(600)),
        _ => panic!("the header is kept"),
    }
    assert!(matches!(store.probed("k", &version("2"), true), ProbeStep::ReadBody));
    assert!(matches!(store.probed("j", &v, true), ProbeStep::ReadBody));
    assert!(matches!(store.probed("k", &v, false), ProbeStep::NotModified));
}

#[test]
fn a_codec_with_other_tags_is_refused() {
    let store = EncryptedStore::new(flip());
    let out = sealed(&store, b"abc");
    let mut other = flip();
    other.tag_len = 12;
    let mut store = EncryptedStore::new(other);
    assert_eq!(
        refused(store.read_header("k", &version("1"), &out)),
        "wgenc container: tag_len 8 != this codec's 12"
    );
    assert!(matches!(store.probed("k", &version("1"), true), ProbeStep::ReadBody));
}

#[test]
fn a_changed_container_fails_to_open() {
    let plain = bytes(CHUNK + 10);
    let store = EncryptedStore::new(flip());
    let out = sealed(&store, &plain);
    let mut changed = out.clone();
    let last = changed.len() - 9;
    changed[last] ^= 1;
    assert_eq!(
        refused(read(&mut EncryptedStore::new(flip()), &changed, None)),
        "chunk 1 failed authentication"
    );
    // One byte less of plaintext: every chunk was sealed under the other length.
    let mut forged = out.clone();
    forged[21] -= 1;
    assert_eq!(
        refused(read(&mut EncryptedStore::new(flip()), &forged, None)),
        "chunk 0 failed authentication"
    );
    let short = &out[..out.len() - 1];
    assert_eq!(
        refused(read(&mut EncryptedStore::new(flip()), short, None)),
        "wgenc container: truncated"
    );
}

#[test]
fn the_codec_decides_whether_a_write_begins() {
    let store = EncryptedStore::new(flip());
    assert_eq!(refused(store.seal("forbidden", b"x")), "no key for this object");
    let mut codec = flip();
    codec.fails = true;
    let store = EncryptedStore::new(codec);
    assert_eq!(refused(store.seal("k", b"x")), "sealing service is away");
    let mut codec = flip();
    codec.tag_len = 1 << 17;
    assert_eq!(
        refused(seal_object(&codec, "k", b"x", Vec::new())),
        "wgenc header: tag_len too large"
    );
}

#[test]
fn one_block_is_one_chunk() {
    let h = header(3 * CHUNK + 7, 16, b"hdr");
    let c = CHUNK as u64;
    let plan = plan_read(&h, Some(ByteRange { start: c, end: 2 * c }));
    assert_eq!((plan.first, plan.last), (1, 1));
    assert_eq!(plan.ct_start, 35 + c + 16);
    assert_eq!(plan.ct_end - plan.ct_start, c + 16);
    let plan = plan_read(&h, Some(ByteRange { start: 3 * c, end: 4 * c }));
    assert_eq!((plan.first, plan.last, plan.ct_end - plan.ct_start), (3, 3, 7 + 16));
    let plan = plan_read(&h, Some(ByteRange { start: c - 1, end: c + 1 }));
    assert_eq!((plan.first, plan.last), (0, 1));
}

#[test]
fn a_container_is_laid_out_with_room_for_tags() {
    let h = header(3, 2, b"k");
    let out = lay_out(b"abc", &h).ok().expect("laid out");
    assert_eq!(out[FIXED_HEADER..], *b"kabc\0\0");
    let (data, tags) = split_span(&out[FIXED_HEADER + 1..], &h, 0, 0).ok().expect("split");
    assert_eq!((data, tags), (b"abc".to_vec(), vec![0, 0]));
    assert_eq!(refused(split_span(b"abc", &h, 0, 0)), "wgenc container: truncated");
}

#[test]
fn sizes_are_those_of_the_plaintext() {
    let meta = put_answer(
        ObjectMeta { key: "k".to_string(), size: 999, version: version("7") },
        12,
    );
    assert_eq!((meta.key.as_str(), meta.size, meta.version.as_str()), ("k", 12, "7"));
    let found = head_answer("k", Ok((Some(header(12, 8, b"")), version("7"))));
    assert_eq!(found.ok().expect("head").expect("there").size, 12);
    let unread = head_answer("k", Ok((None, version("7"))));
    assert_eq!(unread.ok().expect("head").expect("there").size, 0);
    let missing = head_answer("k", Err(StoreError::not_found("k")));
    assert!(missing.ok().expect("head").is_none());
    assert_eq!(refused(head_answer("k", Err(StoreError::other("down")))), "down");
}

#[test]
fn the_first_read_carries_the_callers_conditions() {
    let opts = GetOptions {
        if_none_match: Some(version("a")),
        if_match: Some(version("b")),
        range: Some(ByteRange { start: 7, end: 9 }),
    };
    let p = probe_options(&opts);
    assert_eq!(p.if_none_match.expect("kept").as_str(), "a");
    assert_eq!(p.if_match.expect("kept").as_str(), "b");
    let r = p.range.expect("range");
    assert_eq!((r.start, r.end), (0, 544));
}

#[test]
fn an_empty_read_opens_a_chunk() {
    let h = header(3 * CHUNK + 7, 16, b"hdr");
    for range in [ByteRange { start: 5, end: 5 }, ByteRange { start: u64::MAX, end: 3 }] {
        let plan = plan_read(&h, Some(range));
        assert_eq!((plan.first, plan.last), (3, 3));
        assert_eq!((plan.start, plan.end), (3 * CHUNK, 3 * CHUNK));
        assert_eq!(plan.ct_end - plan.ct_start, 7 + 16);
    }
    let mut store = EncryptedStore::new(flip());
    let out = sealed(&store, b"");
    let calls = store.codec.calls.get();
    assert!(read(&mut store, &out, None).ok().expect("read").is_empty());
    assert_eq!(store.codec.calls.get(), calls + 1);
}

#[test]
fn a_forged_length_is_refused() {
    let store = EncryptedStore::new(flip());
    let out = sealed(&store, b"secret");
    // The header now says that there is nothing in the object.
    let mut forged = out.clone();
    forged[21] = 0;
    let range = ByteRange { start: 0, end: 0 };
    for range in [None, Some(range)] {
        assert_eq!(
            refused(read(&mut EncryptedStore::new(flip()), &forged, range)),
            "chunk 0 failed authentication"
        );
        let got = read(&mut EncryptedStore::new(flip()), &out, range).ok().expect("read");
        assert_eq!(got.len(), if range.is_some() { 0 } else { 6 });
    }
    // Cut down to what the forged header promises, it is refused as well.
    let cut = &forged[..forged.len() - 6];
    assert_eq!(
        refused(read(&mut EncryptedStore::new(flip()), cut, None)),
        "chunk 0 failed authentication"
    );
}

#[test]
fn a_kept_header_costs_one_round_trip() {
    let plain = bytes(1000);
    let mut store = EncryptedStore::new(flip());
    let out = sealed(&store, &plain);
    let opts = GetOptions::default();
    assert!(matches!(store.first_read("k", &opts), FirstRead::Probe(_)));
    read(&mut store, &out, None).ok().expect("read");
    match store.first_read("k", &opts) {
        FirstRead::Chunks { header, step } => {
            assert_eq!(open(&store, &header, step, &out).ok().expect("read"), plain);
        }
        FirstRead::Probe(_) => panic!("the header is kept"),
    }
    let named = |v: &str| GetOptions { if_match: Some(version(v)), ..GetOptions::default() };
    assert!(matches!(store.first_read("k", &named("1")), FirstRead::Chunks { .. }));
    assert!(matches!(store.first_read("k", &named("2")), FirstRead::Probe(_)));
    let known = GetOptions { if_none_match: Some(version("1")), ..GetOptions::default() };
    assert!(matches!(store.first_read("k", &known), FirstRead::Probe(_)));
    assert!(matches!(store.first_read("j", &opts), FirstRead::Probe(_)));
}

#[test]
fn a_version_that_is_gone_is_read_anew() {
    let gone = || StoreError::PreconditionFailed { key: "k".to_string(), current: None };
    let any = GetOptions::default();
    let named = GetOptions { if_match: Some(version("1")), ..GetOptions::default() };
    let mut store = EncryptedStore::new(flip());
    assert!(matches!(store.chunks_read("k", &version("1"), &any, Ok(())), AfterChunks::Open));
    assert!(matches!(store.chunks_read("k", &version("1"), &any, Err(gone())), AfterChunks::Probe));
    assert!(matches!(
        store.chunks_read("k", &version("1"), &named, Err(gone())),
        AfterChunks::Fail(StoreError::PreconditionFailed { .. })
    ));
    assert!(matches!(
        store.chunks_read("k", &version("1"), &any, Err(StoreError::not_found("k"))),
        AfterChunks::Fail(StoreError::NotFound { .. })
    ));
}

#[test]
fn the_version_seen_last_is_the_one_to_begin_by() {
    let mut store = EncryptedStore::new(flip());
    let out = sealed(&store, b"abc");
    let begins = |store: &EncryptedStore<Flip>| match store.first_read("k", &GetOptions::default()) {
        FirstRead::Chunks { step, .. } => step.meta.version.text,
        FirstRead::Probe(_) => panic!("a header is kept"),
    };
    for v in ["1", "2"] {
        assert!(matches!(store.read_header("k", &version(v), &out), Ok(HeaderStep::Ready(_))));
        assert_eq!(begins(&store), v);
    }
    // The object has its first version again.
    assert!(matches!(store.probed("k", &version("1"), true), ProbeStep::Known(_)));
    assert_eq!(begins(&store), "1");
    assert!(matches!(store.probed("k", &version("2"), false), ProbeStep::NotModified));
    assert_eq!(begins(&store), "2");
    let named = GetOptions { if_match: Some(version("1")), ..GetOptions::default() };
    assert!(matches!(
        store.chunks_read("k", &version("1"), &named, Ok(())),
        AfterChunks::Open
    ));
    assert_eq!(begins(&store), "1");
    // A version without a header changes nothing.
    assert!(matches!(store.probed("k", &version("3"), true), ProbeStep::ReadBody));
    assert_eq!(begins(&store), "1");
    assert!(matches!(store.probed("k", &version("2"), true), ProbeStep::Known(_)));
}
