use std::cell::RefCell;
use std::collections::HashMap;
use std::rc::Rc;
use std::sync::Arc;

use walgit_store::store::{ByteRange, GetOptions, PutMode, StoreError, Version};
use walgit_store::xet::chunk::{chunk_all, chunk_at, file_id, MAX_CHUNK_SIZE, TARGET_CHUNK_SIZE};
use walgit_store::xet::defrag::{Defrag, WINDOW};
use walgit_store::xet::hash::{xorb_key, MerkleHash};
use walgit_store::xet::pack::{store_object, StoreStats};
use walgit_store::xet::repo::{
    range_options, read_answer, shard_key, shard_mode, xorb_written, ShardAnswer, Xet,
    FOOTER_CACHE_ENTRIES,
};
use walgit_store::xet::shard::{shard_fits, xet_err, ChunkEntry, Shard};
use walgit_store::xet::terms::{bind_marker, continues, push_term, Term};
use walgit_store::xet::writes::{next_write, StoreWrite};
use walgit_store::xet::xorb::{
    check_term, footer_step, join_parts, join_reads, pack_xorb, read_footer, read_term, tail_start,
    term_data, term_range, FooterStep, MAX_XORB_BYTES, MAX_XORB_CHUNKS,
};
use xet_core_structures::merklehash::{compute_data_hash, file_hash, xorb_hash, DataHash};
use xet_core_structures::xorb_object::{constants, XorbObject};

const SHARD_KEY: &str = "lfs/xet/shard";

fn message(e: StoreError) -> String {
    match e {
        StoreError::Other(m) => m,
        StoreError::NotFound { key } => format!("missing: {key}"),
        _ => panic!("another failure"),
    }
}

fn refused<T>(r: Result<T, StoreError>) -> String {
    match r {
        Ok(_) => panic!("accepted"),
        Err(e) => message(e),
    }
}

fn good<T>(r: Result<T, StoreError>) -> T {
    match r {
        Ok(v) => v,
        Err(e) => panic!("{}", message(e)),
    }
}

/// A store in memory.
#[derive(Default)]
struct Memory {
    objects: HashMap<String, (u64, Vec<u8>)>,
    writes: u64,
    reads: usize,
    /// Writes that are still taken, where there is a limit.
    takes: Option<usize>,
}

impl Memory {
    fn get(&mut self, key: &str, opts: &GetOptions) -> Result<Option<(Version, Vec<u8>)>, StoreError> {
        self.reads += 1;
        let (v, bytes) = self.objects.get(key).ok_or_else(|| StoreError::not_found(key))?;
        let version = Version::new(v.to_string());
        if let Some(known) = &opts.if_none_match {
            if known.text == version.text {
                return Ok(None);
            }
        }
        let part = match opts.range {
            Some(r) => &bytes[r.start as usize..(r.end as usize).min(bytes.len())],
            None => &bytes[..],
        };
        Ok(Some((version, part.to_vec())))
    }

    fn put(&mut self, key: &str, bytes: Vec<u8>, mode: PutMode) -> Result<Version, StoreError> {
        let stale = || StoreError::PreconditionFailed { key: key.to_string(), current: None };
        match (mode, self.objects.get(key)) {
            (PutMode::Create, Some(_)) => return Err(stale()),
            (PutMode::Update(_), None) => return Err(stale()),
            (PutMode::Update(v), Some((at, _))) if v.text != at.to_string() => return Err(stale()),
            _ => {}
        }
        if let Some(n) = &mut self.takes {
            *n = n.checked_sub(1).ok_or_else(|| StoreError::other("disk full"))?;
        }
        self.writes += 1;
        self.objects.insert(key.to_string(), (self.writes, bytes));
        Ok(Version::new(self.writes.to_string()))
    }
}

/// A repository: the library's decisions, and a store that does what they say.
struct Repo {
    xet: Xet,
    store: Rc<RefCell<Memory>>,
}

impl Repo {
    fn new(store: Rc<RefCell<Memory>>) -> Repo {
        Repo { xet: Xet::new(), store }
    }

    fn shard(&self) -> ShardAnswer {
        match self.store.borrow_mut().get(SHARD_KEY, &self.xet.shard_options()) {
            Ok(Some((version, bytes))) => ShardAnswer::Found { version, bytes },
            Ok(None) => ShardAnswer::Unchanged,
            Err(StoreError::NotFound { .. }) => ShardAnswer::Missing,
            Err(_) => panic!("the store answers"),
        }
    }

    fn store_object(&mut self, data: &[u8]) -> Result<StoreStats, StoreError> {
        let answer = self.shard();
        let (shard, version) = self.xet.take_shard(answer)?;
        let stored = store_object(data, shard)?;
        let mut done = 0;
        while let Some(next) = next_write(&stored, &version, done) {
            match next {
                StoreWrite::Xorb { at, key, mode } => {
                    let packed = &stored.xorbs[at].packed;
                    assert_eq!(key, xorb_key(packed.hash));
                    let put = self.store.borrow_mut().put(&key, packed.bytes.clone(), mode);
                    xorb_written(put.map(|_| ()))?;
                    self.xet.keep_footer(packed.hash, Arc::new(packed.footer.clone()));
                }
                StoreWrite::Shard { key, mode } => {
                    assert_eq!(key, SHARD_KEY);
                    let bytes = stored.shard.write()?;
                    let version = self.store.borrow_mut().put(&key, bytes, mode)?;
                    self.xet.keep_shard(version, stored.shard);
                    return Ok(stored.stats);
                }
            }
            done += 1;
        }
        panic!("the shard is written last")
    }

    fn range(&self, key: &str, range: ByteRange) -> Result<Vec<u8>, StoreError> {
        let got = self.store.borrow_mut().get(key, &range_options(range))?;
        read_answer(got.map(|g| g.1))
    }

    fn footer(&mut self, hash: MerkleHash) -> Result<Arc<XorbObject>, StoreError> {
        if let Some(f) = self.xet.kept_footer(hash) {
            return Ok(f);
        }
        let key = xorb_key(hash);
        let size = match self.store.borrow().objects.get(&key) {
            Some((_, b)) => b.len() as u64,
            None => return Err(StoreError::not_found(&key)),
        };
        let mut tail = self.range(&key, ByteRange { start: tail_start(size), end: size })?;
        if let FooterStep::ReadMore(range) = footer_step(size, &tail)? {
            let head = self.range(&key, range)?;
            tail = join_reads(&head, &tail);
        }
        let footer = Arc::new(read_footer(&tail)?);
        self.xet.keep_footer(hash, Arc::clone(&footer));
        Ok(footer)
    }

    fn load_object(&mut self, file: MerkleHash) -> Result<Option<Vec<u8>>, StoreError> {
        let answer = self.shard();
        let Some(terms) = self.xet.file_terms(answer, file)? else {
            return Ok(None);
        };
        let mut parts = Vec::new();
        for t in &terms {
            let footer = self.footer(t.xorb_hash)?;
            let range = term_range(&footer, t)?;
            let bytes = self.range(&xorb_key(t.xorb_hash), range)?;
            parts.push(term_data(&bytes, t)?);
        }
        Ok(Some(join_parts(&parts)))
    }
}

fn mem() -> Repo {
    Repo::new(Rc::default())
}

fn trajectory(turns: usize, step_bytes: usize) -> Vec<u8> {
    let mut s = String::from("{\"schema_version\":\"1.8\",\"steps\":[");
    for t in 0..turns {
        s.push_str(&format!(
            "{{\"step_id\":{t},\"source\":\"agent\",\"reasoning_content\":\"{}\"}},",
            "reasoning ".repeat(step_bytes / 10)
        ));
    }
    s.push_str("],\"final_metrics\":{}}");
    s.into_bytes()
}

/// Bytes that have no pattern.
fn noise(n: usize, seed: u64) -> Vec<u8> {
    let mut x = seed;
    let mut out = Vec::with_capacity(n + 8);
    while out.len() < n {
        x ^= x << 13;
        x ^= x >> 7;
        x ^= x << 17;
        out.extend(x.to_le_bytes());
    }
    out.truncate(n);
    out
}

#[test]
fn round_trips_an_object() {
    let mut xet = mem();
    let data = trajectory(40, 512);
    let h = good(xet.store_object(&data)).file_hash;
    assert_eq!(good(xet.load_object(h)), Some(data));
}

#[test]
fn missing_object_is_none() {
    let mut xet = mem();
    let h = MerkleHash::from_words(*compute_data_hash(b"absent"));
    assert_eq!(good(xet.load_object(h)), None);
    good(xet.store_object(b"present"));
    assert_eq!(good(xet.load_object(h)), None);
}

#[test]
fn a_fresh_instance_reads_what_another_wrote() {
    let store: Rc<RefCell<Memory>> = Rc::default();
    let data = trajectory(4000, 512);
    let h = good(Repo::new(Rc::clone(&store)).store_object(&data)).file_hash;
    assert_eq!(good(Repo::new(store).load_object(h)), Some(data));
}

#[test]
fn an_appended_turn_stores_only_the_tail() {
    let mut xet = mem();
    let v1 = trajectory(4000, 512);
    let v2 = trajectory(4001, 512);

    let first = good(xet.store_object(&v1));
    assert_eq!(first.novel_bytes, first.logical_bytes, "nothing is shared yet");
    assert_eq!(first.terms, 1);

    let second = good(xet.store_object(&v2));
    assert!(
        second.novel_bytes * 10 < second.logical_bytes,
        "appending one turn to {} bytes stored {} novel across {} chunks",
        second.logical_bytes,
        second.novel_bytes,
        second.chunks
    );
    assert_eq!(second.terms, 2, "the shared prefix, then the new tail");

    assert_eq!(good(xet.load_object(first.file_hash)), Some(v1));
    assert_eq!(good(xet.load_object(second.file_hash)), Some(v2));
}

#[test]
fn a_small_object_dedups_poorly() {
    let mut xet = mem();
    let v1 = trajectory(400, 512);
    let v2 = trajectory(401, 512);
    good(xet.store_object(&v1));
    let second = good(xet.store_object(&v2));
    assert!(second.chunks < 8, "expected a handful of chunks, got {}", second.chunks);
    assert!(
        second.novel_bytes * 2 > second.logical_bytes / 2,
        "a few-chunk file should still store a large fraction"
    );
    assert_eq!(good(xet.load_object(second.file_hash)), Some(v2));
}

#[test]
fn identical_content_adds_no_bytes() {
    let mut xet = mem();
    let data = trajectory(200, 512);
    let first = good(xet.store_object(&data));
    let again = good(xet.store_object(&data));
    assert_eq!(again.file_hash, first.file_hash);
    assert_eq!(again.novel_bytes, 0);
    assert_eq!(again.novel_chunks, 0);
}

#[test]
fn an_empty_object_has_no_terms() {
    let mut xet = mem();
    let stats = good(xet.store_object(b""));
    assert_eq!((stats.chunks, stats.terms, stats.novel_bytes), (0, 0, 0));
    assert_eq!(good(xet.load_object(stats.file_hash)), Some(Vec::new()));
}

#[test]
fn content_without_a_pattern_round_trips() {
    let mut xet = mem();
    let v1 = noise(3 << 20, 7);
    let mut v2 = v1.clone();
    v2.splice(1 << 20..1 << 20, noise(1000, 9));
    let a = good(xet.store_object(&v1));
    assert_eq!(a.novel_bytes, v1.len() as u64);
    let b = good(xet.store_object(&v2));
    assert!(b.novel_bytes < 512 * 1024, "{} novel", b.novel_bytes);
    assert_eq!(b.terms, 3, "the front, what changed, and the rest");
    assert_eq!(good(xet.load_object(a.file_hash)), Some(v1));
    assert_eq!(good(xet.load_object(b.file_hash)), Some(v2));
}

#[test]
fn an_unchanged_shard_is_not_read_again() {
    let mut xet = mem();
    let data = trajectory(40, 512);
    let h = good(xet.store_object(&data)).file_hash;
    assert!(matches!(xet.shard(), ShardAnswer::Unchanged));
    let mut other = Repo::new(Rc::clone(&xet.store));
    assert!(matches!(other.shard(), ShardAnswer::Found { .. }));
    good(other.load_object(h));
    assert!(matches!(other.shard(), ShardAnswer::Unchanged));
    assert_eq!(
        refused(Xet::new().file_terms(ShardAnswer::Unchanged, h)),
        "xet: shard: not-modified with nothing cached"
    );
    assert_eq!(
        refused(Xet::new().take_shard(ShardAnswer::Unchanged)),
        "xet: shard: not-modified with nothing cached"
    );
}

#[test]
fn a_stale_shard_is_not_overwritten() {
    let store: Rc<RefCell<Memory>> = Rc::default();
    let mut a = Repo::new(Rc::clone(&store));
    let mut b = Repo::new(Rc::clone(&store));
    good(a.store_object(b"first"));
    let answer = b.shard();
    let (shard, version) = good(b.xet.take_shard(answer));
    good(a.store_object(b"second"));
    let stored = good(store_object(b"third", shard));
    let bytes = good(stored.shard.write());
    let put = store.borrow_mut().put(SHARD_KEY, bytes, shard_mode(&version));
    assert!(matches!(put, Err(StoreError::PreconditionFailed { .. })));
    assert!(matches!(shard_mode(&None), PutMode::Create));
}

#[test]
fn a_damaged_shard_is_refused() {
    let version = || Version::new("1".to_string());
    let found = |bytes: &[u8]| ShardAnswer::Found { version: version(), bytes: bytes.to_vec() };
    let m = refused(Xet::new().take_shard(found(b"no shard")));
    assert!(m.starts_with("xet: shard read: "), "{m}");
    let mut xet = Xet::new();
    assert!(refused(xet.file_terms(found(b""), MerkleHash::marker())).starts_with("xet: shard read: "));
    assert!(xet.shard.is_none());
}

#[test]
fn sums_that_overflow_are_refused() {
    // A header, the end of the files, and one xorb with two chunks of 2 GiB.
    let mut b = vec![0; 48];
    b.extend([0xff; 48]);
    let mut xorb = vec![1; 32];
    xorb.extend([0, 0, 0, 0, 2, 0, 0, 0, 0, 0, 0, 0, 0, 0, 0, 0]);
    b.extend(&xorb);
    for _ in 0..2 {
        b.extend([2; 32]);
        b.extend([0, 0, 0, 0, 0, 0, 0, 0x80]);
        b.extend([0; 8]);
    }
    b.extend([0xff; 48]);
    assert!(!shard_fits(&b));
    assert_eq!(refused(Shard::read(&b)), "xet: shard read: chunk sizes exceed 32 bits");
    let mut half: Vec<u8> = b[..48 * 4].iter().chain(&[0xff; 48]).copied().collect();
    half[48 * 2 + 36] = 1;
    assert!(shard_fits(&half));
}

#[test]
fn a_shard_is_read_back_as_it_was_written() {
    let mut s = Shard::new();
    let hash = |n: u64| MerkleHash::from_words([n, 2, 3, 4]);
    let chunks: Vec<ChunkEntry> = (0..5)
        .map(|i| ChunkEntry { hash: hash(100 + i), start: 10 * i as u32, len: 10 })
        .collect();
    s.add_xorb(hash(1), &chunks);
    let terms = vec![Term {
        xorb_hash: hash(1),
        xorb_flags: 0,
        unpacked_segment_bytes: 50,
        chunk_index_start: 0,
        chunk_index_end: 5,
    }];
    s.add_file(hash(2), &terms);
    let bytes = good(s.write());
    let back = good(Shard::read(&bytes));
    assert_eq!(back.file(hash(2)), Some(terms));
    assert_eq!(back.file(hash(3)), None);
    let query = vec![hash(101), hash(102), hash(7)];
    let (n, term) = back.find(&query, 0).expect("found");
    assert_eq!(n, 2);
    assert_eq!((term.chunk_index_start, term.chunk_index_end), (1, 3));
    assert_eq!((term.unpacked_segment_bytes, term.xorb_hash, term.xorb_flags), (20, hash(1), 0));
    assert_eq!(back.find(&query, 2), None);
}

#[test]
fn a_long_run_is_found_whole() {
    let mut s = Shard::new();
    let hash = |n: u64| MerkleHash::from_words([n, 0, 0, 1]);
    let chunks: Vec<ChunkEntry> =
        (0..1000).map(|i| ChunkEntry { hash: hash(i), start: i as u32, len: 1 }).collect();
    s.add_xorb(hash(9999), &chunks);
    let query: Vec<MerkleHash> = (0..900).map(hash).chain([hash(5)]).collect();
    let (n, term) = s.find(&query, 0).expect("found");
    assert_eq!((n, term.chunk_index_end), (900, 900));
    let (n, term) = s.find(&query, 897).expect("found");
    assert_eq!((n, term.chunk_index_start), (3, 897));
}

#[test]
fn hashes_are_those_of_the_xet_format() {
    let data = noise(400_000, 3);
    let chunks = chunk_all(&data);
    assert_eq!(chunks.iter().map(|c| c.len).sum::<usize>(), data.len());
    let mut pairs: Vec<(DataHash, u64)> = Vec::new();
    for c in &chunks {
        let want = compute_data_hash(&data[c.start..c.start + c.len]);
        assert_eq!(c.hash.words(), *want);
        assert!(c.len <= MAX_CHUNK_SIZE);
        pairs.push((want, c.len as u64));
    }
    assert_eq!(file_id(&data, &chunks).words(), *file_hash(&pairs));
    let packed = good(pack_xorb(&data, &chunks));
    assert_eq!(packed.hash.words(), *xorb_hash(&pairs));
    let hex = xorb_hash(&pairs).hex();
    assert_eq!(
        xorb_key(packed.hash),
        format!("lfs/xet/xorbs/{}/{}/{hex}", &hex[..2], &hex[2..4])
    );
    assert_eq!(
        xorb_key(MerkleHash::from_words([0x0123_4567_89ab_cdef, 1, 0, 0xff])),
        format!("lfs/xet/xorbs/01/23/0123456789abcdef{:016x}{:016x}{:016x}", 1, 0, 0xff)
    );
}

#[test]
fn chunks_follow_the_target() {
    let data = noise(1 << 20, 5);
    let coarse = chunk_all(&data);
    let fine = chunk_at(&data, 4096);
    assert!(fine.len() > 4 * coarse.len());
    assert_eq!(chunk_at(&data, TARGET_CHUNK_SIZE), coarse);
    let zeros = vec![0; 1 << 20];
    let cut = chunk_all(&zeros);
    assert!(cut.iter().all(|c| c.len == MAX_CHUNK_SIZE && c.hash == cut[0].hash));
}

#[test]
fn every_run_of_a_xorb_reads_back() {
    let data = trajectory(1000, 512);
    let chunks = chunk_all(&data);
    assert!(chunks.len() > 4);
    let x = good(pack_xorb(&data, &chunks));
    for a in 0..chunks.len() {
        for b in a + 1..=chunks.len() {
            let want = &data[chunks[a].start..chunks[b - 1].start + chunks[b - 1].len];
            let term = Term {
                xorb_hash: x.hash,
                xorb_flags: 0,
                unpacked_segment_bytes: want.len() as u32,
                chunk_index_start: a as u32,
                chunk_index_end: b as u32,
            };
            let r = good(term_range(&x.footer, &term));
            let got = good(term_data(&x.bytes[r.start as usize..r.end as usize], &term));
            assert_eq!(got, want);
        }
    }
    let beyond = Term {
        xorb_hash: x.hash,
        xorb_flags: 0,
        unpacked_segment_bytes: 1,
        chunk_index_start: 0,
        chunk_index_end: chunks.len() as u32 + 1,
    };
    assert!(refused(term_range(&x.footer, &beyond)).starts_with("xet: term range: "));
    assert_eq!(
        refused(check_term(vec![1, 2], &beyond)),
        "xet: term: unpacked length differs from the shard"
    );
    assert!(refused(term_data(b"no chunk", &beyond)).starts_with("xet: xorb read: "));
}

#[test]
fn chunks_that_end_early_are_refused() {
    // Headers without bytes behind them, each of a chunk of 16 MiB less one.
    let header = [0u8, 0, 0, 0, 0, 0xff, 0xff, 0xff];
    let bytes: Vec<u8> = header.iter().copied().cycle().take(8 * 300).collect();
    let term = Term {
        xorb_hash: MerkleHash::marker(),
        xorb_flags: 0,
        unpacked_segment_bytes: 0,
        chunk_index_start: 0,
        chunk_index_end: 1,
    };
    let m = refused(term_data(&bytes, &term));
    assert!(m.starts_with("xet: xorb read: "), "{m}");
}

#[test]
fn what_was_stored_stays_as_it_is() {
    let mut repo = mem();
    let first = noise(300_000, 1);
    let stats = good(repo.store_object(&first));
    assert_eq!((stats.novel_bytes, stats.chunks > 0), (300_000, true));
    let before = repo.store.borrow().objects.clone();
    let second = good(repo.store_object(&noise(300_000, 2)));
    assert_ne!(second.file_hash, stats.file_hash);
    // Only the shard is written again, and all of it lies in one place.
    for (key, was) in &before {
        assert_eq!(&repo.store.borrow().objects[key] == was, key != SHARD_KEY, "{key}");
    }
    assert!(repo.store.borrow().objects.keys().all(|k| k.starts_with("lfs/xet/")));
    assert_eq!(good(repo.load_object(stats.file_hash)), Some(first));
}

#[test]
fn an_object_read_again_is_known() {
    let mut repo = mem();
    let data = noise(500_000, 7);
    let id = good(repo.store_object(&data)).file_hash;
    let mut fresh = Repo::new(repo.store.clone());
    let again = good(fresh.load_object(id)).expect("stored");
    let stats = good(fresh.store_object(&again));
    assert_eq!((stats.novel_bytes, stats.novel_chunks, stats.file_hash), (0, 0, id));
}

#[test]
fn a_footer_is_read_in_one_step_or_two() {
    assert_eq!(tail_start(10), 0);
    assert_eq!(tail_start(65536), 0);
    assert_eq!(tail_start(70000), 70000 - 65536);
    assert_eq!(
        refused(footer_step(3, b"abc")),
        "xet: xorb footer: object shorter than its length field"
    );
    let mut tail = vec![0; 65536];
    let n = tail.len();
    tail[n - 4..].copy_from_slice(&65532u32.to_le_bytes());
    assert!(matches!(footer_step(70000, &tail), Ok(FooterStep::Parse)));
    tail[n - 4..].copy_from_slice(&65533u32.to_le_bytes());
    match footer_step(70000, &tail) {
        Ok(FooterStep::ReadMore(r)) => assert_eq!((r.start, r.end), (70000 - 65537, 70000 - 65536)),
        _ => panic!("the footer begins earlier"),
    }
    tail[n - 4..].copy_from_slice(&u32::MAX.to_le_bytes());
    match footer_step(70000, &tail) {
        Ok(FooterStep::ReadMore(r)) => assert_eq!((r.start, r.end), (0, 70000 - 65536)),
        _ => panic!("the footer begins earlier"),
    }
    assert!(refused(read_footer(b"no footer here").map(|_| ())).starts_with("xet: xorb footer: "));
    assert_eq!(join_reads(b"ab", b"cd"), b"abcd");
}

#[test]
fn a_xorb_of_many_chunks_has_a_footer_in_two_reads() {
    let data = noise(6 << 20, 11);
    let chunks = chunk_at(&data, 1024);
    assert!(chunks.len() > 2000 && chunks.len() <= 8192, "{}", chunks.len());
    let x = good(pack_xorb(&data, &chunks));
    let size = x.bytes.len() as u64;
    let from = tail_start(size);
    let tail = &x.bytes[from as usize..];
    match good(footer_step(size, tail)) {
        FooterStep::ReadMore(r) => {
            let head = &x.bytes[r.start as usize..r.end as usize];
            let footer = good(read_footer(&join_reads(head, tail)));
            let last = chunks.len() as u32;
            let term = Term {
                xorb_hash: x.hash,
                xorb_flags: 0,
                unpacked_segment_bytes: data.len() as u32,
                chunk_index_start: 0,
                chunk_index_end: last,
            };
            let r = good(term_range(&footer, &term));
            let got = good(term_data(&x.bytes[r.start as usize..r.end as usize], &term));
            assert_eq!(got, data);
        }
        FooterStep::Parse => panic!("the footer is longer than one read"),
    }
}

fn term(xorb: u64, bytes: u32, from: u32, to: u32) -> Term {
    Term {
        xorb_hash: MerkleHash::from_words([xorb; 4]),
        xorb_flags: 0,
        unpacked_segment_bytes: bytes,
        chunk_index_start: from,
        chunk_index_end: to,
    }
}

#[test]
fn runs_that_continue_are_merged() {
    let mut terms = Vec::new();
    assert!(!push_term(&mut terms, term(1, 10, 0, 2)));
    assert!(continues(&term(1, 10, 0, 2), &term(1, 5, 2, 3)));
    assert!(!continues(&term(1, 10, 0, 2), &term(1, 5, 3, 4)));
    assert!(!continues(&term(1, 10, 0, 2), &term(2, 5, 2, 3)));
    assert!(push_term(&mut terms, term(1, 5, 2, 3)));
    assert_eq!(terms, [term(1, 15, 0, 3)]);
    assert!(!push_term(&mut terms, term(1, 5, 4, 5)));
    assert_eq!(terms.len(), 2);
}

#[test]
fn open_runs_are_bound_to_the_xorb() {
    let mut terms = vec![term(u64::MAX, 1, 0, 1), term(3, 1, 0, 1), term(u64::MAX, 1, 1, 2)];
    bind_marker(&mut terms, MerkleHash::from_words([7; 4]));
    assert_eq!(terms, [term(7, 1, 0, 1), term(3, 1, 0, 1), term(7, 1, 1, 2)]);
}

#[test]
fn a_scattered_file_stores_short_runs_again() {
    let mut d = Defrag::new();
    for _ in 0..WINDOW - 1 {
        assert!(d.allow(1));
        d.record(3, false);
    }
    assert!(d.allow(1), "the window is not full yet");
    d.record(3, false);
    // A mean of three is below four, so shorter runs are turned down.
    assert!(!d.allow(2));
    assert!(d.allow(3));
    // Strict now: a mean of seven is still below eight.
    for _ in 0..WINDOW {
        d.record(7, false);
    }
    assert!(!d.allow(6));
    assert!(d.allow(7));
    for _ in 0..WINDOW {
        d.record(8, false);
    }
    assert!(d.allow(1));
    // Not strict any more: a mean of seven will do.
    for _ in 0..WINDOW {
        d.record(7, false);
    }
    assert!(d.allow(1));
    // What is merged counts for the last term.
    let mut d = Defrag::new();
    for _ in 0..WINDOW {
        d.record(3, false);
    }
    d.record(128, true);
    assert!(d.allow(1), "a mean of four");
}

#[test]
fn an_identical_xorb_is_no_conflict() {
    assert!(xorb_written(Ok(())).is_ok());
    let raced = StoreError::PreconditionFailed { key: "k".to_string(), current: None };
    assert!(xorb_written(Err(raced)).is_ok());
    assert_eq!(refused(xorb_written(Err(StoreError::other("down")))), "down");
    assert_eq!(refused(read_answer(None)), "xet: read: unconditional GET returned not-modified");
    assert_eq!(good(read_answer(Some(vec![1]))), [1]);
    assert_eq!(message(xet_err("what", "why")), "xet: what: why");
    assert_eq!(shard_key(), SHARD_KEY);
}

#[test]
fn footers_are_kept() {
    let mut xet = Xet::new();
    let data = b"some bytes".to_vec();
    let x = good(pack_xorb(&data, &chunk_all(&data)));
    assert!(xet.kept_footer(x.hash).is_none());
    let bytes = x.bytes.clone();
    xet.keep_footer(x.hash, Arc::new(x.footer));
    let kept = xet.kept_footer(x.hash).expect("kept");
    assert!(*kept == good(read_footer(&bytes)));
}

#[test]
fn limits_are_those_of_the_format() {
    assert_eq!(TARGET_CHUNK_SIZE, *constants::TARGET_CHUNK_SIZE);
    assert_eq!(MAX_CHUNK_SIZE, *constants::MAX_CHUNK_SIZE);
    assert_eq!(MAX_XORB_BYTES, *constants::MAX_XORB_BYTES);
    assert_eq!(MAX_XORB_CHUNKS, *constants::MAX_XORB_CHUNKS);
}

#[test]
fn a_run_is_read_with_a_limit_on_its_chunks() {
    let data = noise(400_000, 3);
    let chunks = chunk_all(&data);
    let x = good(pack_xorb(&data, &chunks));
    let mut run = term(1, 400_000, 0, chunks.len() as u32);
    let r = good(term_range(&x.footer, &run));
    let bytes = &x.bytes[r.start as usize..r.end as usize];
    let (read, limit) = read_term(bytes, &run);
    assert_eq!((good(read), limit), (data, MAX_CHUNK_SIZE));
    run.unpacked_segment_bytes -= 1;
    assert_eq!(
        refused(read_term(bytes, &run).0),
        "xet: term: unpacked length differs from the shard"
    );
    // The header of a stored chunk that claims one byte more than the limit.
    let mut large = vec![0, 1, 0, 0, 0];
    large.extend(&(MAX_CHUNK_SIZE as u32 + 1).to_le_bytes()[..3]);
    large.push(7);
    let (read, limit) = read_term(&large, &run);
    assert!(refused(read).contains("uncompressed length too large"));
    assert_eq!(limit, MAX_CHUNK_SIZE);
}

#[test]
fn footers_are_kept_up_to_the_limit() {
    let data = noise(1000, 1);
    let x = good(pack_xorb(&data, &chunk_all(&data)));
    let mut xet = Xet::new();
    let hash = |n: u64| MerkleHash::from_words([n, 1, 2, 3]);
    for n in 0..FOOTER_CACHE_ENTRIES {
        assert!(xet.kept_footer(hash(n)).is_none());
        xet.keep_footer(hash(n), Arc::new(x.footer.clone()));
        xet.keep_footer(hash(n), Arc::new(x.footer.clone()));
        assert!(xet.kept_footer(hash(n)).is_some());
    }
    assert!((0..FOOTER_CACHE_ENTRIES).all(|n| xet.kept_footer(hash(n)).is_some()));
}

#[test]
fn a_store_that_fails_records_nothing() {
    let mut repo = mem();
    let first = noise(200_000, 1);
    let id = good(repo.store_object(&first)).file_hash;
    let shard = repo.store.borrow().objects[SHARD_KEY].clone();
    let second = noise(200_000, 2);
    for takes in 0..2 {
        repo.store.borrow_mut().takes = Some(takes);
        assert_eq!(refused(repo.store_object(&second)), "disk full");
        assert_eq!(repo.store.borrow().objects[SHARD_KEY], shard);
        repo.store.borrow_mut().takes = None;
        let file = file_id(&second, &chunk_all(&second));
        let mut fresh = Repo::new(repo.store.clone());
        assert_eq!(good(fresh.load_object(file)), None);
        assert_eq!(good(fresh.load_object(id)), Some(first.clone()));
    }
    // The xorb that is there already is no obstacle.
    let again = good(repo.store_object(&second));
    assert_eq!(good(repo.load_object(again.file_hash)), Some(second));
}

#[test]
fn objects_load_whatever_was_stored_since() {
    let mut repo = mem();
    let mut stored = Vec::new();
    for seed in 0..6 {
        let mut data = noise(150_000, 1 + seed % 4);
        data.extend(noise(90_000, 100 + seed));
        // Every other object is stored by one who reads the shard anew.
        let mut other = Repo::new(repo.store.clone());
        let by = if seed % 2 == 0 { &mut repo } else { &mut other };
        stored.push((good(by.store_object(&data)).file_hash, data));
        for (id, data) in &stored {
            assert_eq!(good(repo.load_object(*id)).as_ref(), Some(data));
        }
    }
}

#[test]
fn xorbs_have_keys_of_their_own() {
    let a = MerkleHash::from_words([1, 2, 3, 4]);
    let b = MerkleHash::from_words([1, 2, 3, 5]);
    assert_ne!(xorb_key(a), xorb_key(b));
}
