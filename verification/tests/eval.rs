use rand::{Rng, SeedableRng};
use rand_chacha::ChaCha8Rng;
use sha2::{Digest, Sha256};

use walgit_store::eval::corpus::corpus;
use walgit_store::eval::cost::{history, novel, Baseline, Tally};
use walgit_store::eval::draws::Generator;
use walgit_store::eval::series::{
    atif_series, csv_row, document, draw_amount, pick, revision_series, revision_sizes, row_id, step,
    Draw, Revision, Table, Turn,
};
use walgit_store::eval::set::ChunkSet;
use walgit_store::eval::shapes::{
    conversation, jsonl_row, overwritten, random, repeated, shared_head, text, tiled, zeros, MOTIF,
};
use walgit_store::xet::chunk::{chunk_all, chunk_at, ChunkRef, TARGET_CHUNK_SIZE};
use walgit_store::xet::hash::MerkleHash;

fn rng(seed: u64) -> Generator {
    Generator::new(seed)
}

fn hash(n: u64) -> MerkleHash {
    // The first word is shared, so that the hashes meet in one place.
    MerkleHash::from_words([1, n, 0, 0])
}

fn chunks(list: &[(u64, usize)]) -> Vec<ChunkRef> {
    let mut start = 0;
    list.iter()
        .map(|&(h, len)| {
            let c = ChunkRef { hash: hash(h), start, len };
            start += len;
            c
        })
        .collect()
}

#[test]
fn a_set_holds_what_was_put_in() {
    let mut s = ChunkSet::new();
    assert!(!s.contains(hash(1)));
    assert!(s.insert(hash(1)));
    assert!(!s.insert(hash(1)));
    assert!(s.insert(hash(2)));
    assert!(s.contains(hash(1)) && s.contains(hash(2)) && !s.contains(hash(3)));
    assert!(!s.contains(MerkleHash::from_words([2, 1, 0, 0])));
}

#[test]
fn only_new_chunks_cost() {
    let list = chunks(&[(1, 10), (2, 20), (1, 10), (3, 5)]);
    let mut seen = ChunkSet::new();
    assert_eq!(novel(&list, &seen), 35);
    seen.insert(hash(2));
    assert_eq!(novel(&list, &seen), 15);
    seen.insert(hash(1));
    seen.insert(hash(3));
    assert_eq!(novel(&list, &seen), 0);
    assert_eq!(novel(&Vec::new(), &seen), 0);
}

#[test]
fn a_history_stores_each_chunk_once() {
    let mut t = Tally::new();
    t.add(&[0; 35], &chunks(&[(1, 10), (2, 20), (3, 5)]));
    assert_eq!((t.whole, t.xet, t.distinct), (35, 35, 3));
    t.add(&[0; 37], &chunks(&[(1, 10), (2, 20), (4, 7)]));
    assert_eq!((t.whole, t.xet, t.distinct), (72, 42, 4));
    t.add(&[0; 35], &chunks(&[(1, 10), (2, 20), (3, 5)]));
    assert_eq!((t.whole, t.xet, t.distinct), (107, 42, 4));
    assert_eq!(t.metadata_bytes(), 4 * 48);
}

#[test]
fn a_series_is_counted_version_by_version() {
    let a = random(&mut rng(1), 400_000);
    let mut b = a.clone();
    b.extend(random(&mut rng(2), 1000));
    let rows = history(&vec![a.clone(), b.clone(), a.clone()], TARGET_CHUNK_SIZE);
    assert_eq!(rows.iter().map(|r| r.size).collect::<Vec<_>>(), [400_000, 401_000, 400_000]);
    assert_eq!(rows.iter().map(|r| r.whole).collect::<Vec<_>>(), [400_000, 801_000, 1_201_000]);
    assert_eq!(rows[0].xet, 400_000);
    assert!(rows[1].xet > rows[0].xet && rows[1].xet < rows[0].xet + 140_000);
    assert_eq!(rows[2].xet, rows[1].xet);
}

#[test]
fn the_same_bytes_cost_nothing_twice() {
    let v1 = random(&mut rng(1), 300_000);
    let base = Baseline::new(&v1, TARGET_CHUNK_SIZE);
    assert_eq!(base.oid, Sha256::digest(&v1).to_vec());
    assert_eq!(base.chunks, chunk_all(&v1).len());
    assert_eq!(base.stored, 300_000);
    let same = base.upload(&v1, TARGET_CHUNK_SIZE);
    assert_eq!((same.whole, same.xet), (0, 0));
    let edited = overwritten(&v1, 150_000, &random(&mut rng(2), 1024));
    let cost = base.upload(&edited, TARGET_CHUNK_SIZE);
    assert_eq!(cost.whole, 300_000);
    assert!(cost.xet > 0 && cost.xet < 300_000);
    let flat = Baseline::new(&zeros(1 << 20), TARGET_CHUNK_SIZE);
    assert_eq!((flat.chunks, flat.stored), (8, 128 * 1024));
    let by_hand = base.cost(&v1, &vec![1, 2], &chunk_all(&v1));
    assert_eq!((by_hand.whole, by_hand.xet), (300_000, 0));
}

#[test]
fn shapes_have_the_size_that_was_asked_for() {
    assert_eq!(zeros(3), [0, 0, 0]);
    assert_eq!(tiled(&b"abc".to_vec(), 8), b"abcabcab");
    assert_eq!(tiled(&b"a".to_vec(), 3), b"aaa");
    assert!(tiled(&b"abc".to_vec(), 0).is_empty());
    let r = repeated(&mut rng(1), MOTIF + 5);
    assert_eq!(r.len(), MOTIF + 5);
    assert_eq!(r[..5], r[MOTIF..]);
    let noise = random(&mut rng(1), 64);
    assert_eq!(noise.len(), 64);
    assert_eq!(noise, random(&mut rng(1), 64));
    assert_ne!(noise, random(&mut rng(2), 64));
    assert_eq!(overwritten(&b"abcdef".to_vec(), 2, &b"XY".to_vec()), b"abXYef");
}

#[test]
fn prose_is_made_of_words() {
    let s = text(&mut rng(5), 200);
    assert_eq!(s.len(), 200);
    let words = [
        "the", "model", "returns", "a", "tool", "call", "with", "arguments", "then", "observes",
        "output", "and", "continues", "reasoning", "until", "done",
    ];
    let parts: Vec<&str> = s.split(' ').collect();
    let whole = &parts[..parts.len() - 1];
    assert!(whole.iter().all(|w| words.contains(w)));
    assert!(words.iter().any(|w| w.starts_with(parts[parts.len() - 1])));
    assert_eq!(text(&mut rng(5), 0), "");
}

#[test]
fn conversations_share_their_head() {
    let head = shared_head(64);
    assert!(head.starts_with("{\"schema\":\"trajectory-v1\",\"system\":\""));
    assert!(head.ends_with("\",\"steps\":["));
    assert_eq!(head, shared_head(64));
    let a = conversation(&head, 1000, 2, 10);
    let b = conversation(&head, 1001, 2, 10);
    assert!(a.starts_with(&head) && b.starts_with(&head));
    assert!(a[head.len()..].starts_with("{\"i\":0,\"role\":\"assistant\",\"content\":\""));
    assert!(a.contains("\"},{\"i\":1,\"role\":"));
    assert!(a.ends_with("\"},]}"));
    assert_ne!(a, b);
    assert_eq!(conversation("h", 1, 0, 10), "h]}");
}

#[test]
fn rows_are_written_as_documented() {
    assert_eq!(
        jsonl_row(18, "0.500000"),
        "{\"id\":18,\"score\":0.500000,\"label\":\"class_1\"}\n"
    );
    let draw = Draw { amount: 4242, score: "0.1250".to_string(), flag: true };
    assert_eq!(csv_row(24, &draw), "24,4242,0.1250,true,class_1\n");
    let draw = Draw { amount: 1000, score: "0.0000".to_string(), flag: false };
    assert_eq!(csv_row(0, &draw), "0,1000,0.0000,false,class_0\n");
    let amount = draw_amount(&mut rng(3));
    assert!((1000..99999).contains(&amount));
}

#[test]
fn a_row_starts_with_its_id() {
    for (row, id) in [
        ("7,rest", 7),
        ("18446744073709551615,x", u64::MAX),
        ("18446744073709551616,x", 0),
        ("+5,x", 5),
        ("+,x", 0),
        ("", 0),
        (",7", 0),
        ("12", 12),
        ("1x,2", 0),
        ("007,x", 7),
    ] {
        assert_eq!(row_id(row), id, "{row}");
        let parsed: u64 = row.split(',').next().and_then(|s| s.parse().ok()).unwrap_or(0);
        assert_eq!(parsed, id, "{row}");
    }
}

#[test]
fn a_table_keeps_its_numbers() {
    let draw = |amount| Draw { amount, score: "0.5".to_string(), flag: true };
    let mut t = Table::new();
    for i in 0..30 {
        t.append(&draw(1000 + i));
    }
    t.edit(4, &draw(2000));
    let text = t.text();
    let rows: Vec<&str> = text.lines().collect();
    assert_eq!(rows.len(), 30);
    assert_eq!(rows[4], "4,2000,0.5,true,class_4");
    assert_eq!(rows[29], "29,1029,0.5,true,class_6");
    assert!(pick(&mut rng(1), 30) < 30);
}

#[test]
fn a_trajectory_is_rewritten_in_full() {
    let turn = Turn { reasoning: "abc".to_string(), command: 1234, input: 100, output: 50 };
    let first = step(61, 192, &turn);
    assert_eq!(
        first,
        "    {\"step_id\":61,\"timestamp\":\"2026-09-10T00:01:01Z\",\"source\":\"agent\",\
\"message\":\"step output step output \",\"reasoning_content\":\"abc\",\
\"tool_calls\":[{\"name\":\"bash\",\"arguments\":{\"command\":\"1234\"}}],\
\"metrics\":{\"input_tokens\":100,\"output_tokens\":50}}"
    );
    assert_eq!(
        document(&vec!["A".to_string(), "B".to_string()]),
        "{\n  \"schema_version\":\"1.8\",\n  \"session_id\":\"sess-abc\",\n  \
\"trajectory_id\":\"traj-001\",\n  \"agent\":{\"name\":\"operator\",\"model_name\":\"m\"},\n  \
\"steps\":[\nA,\nB\n  ],\n  \"final_metrics\":{\"steps\":2,\"total_tokens\":2468}\n}\n"
    );
    let docs = atif_series(3, 960);
    assert_eq!(docs.len(), 3);
    for (i, d) in docs.iter().enumerate() {
        assert_eq!(d.matches("\"step_id\":").count(), i + 1);
        assert!(d.contains(&format!("\"final_metrics\":{{\"steps\":{},", i + 1)));
        assert_eq!(d.matches("step output ").count(), 10 * (i + 1));
    }
    let shared = docs[0].find("\n  ]").expect("end of the steps");
    assert!(docs[2].starts_with(&docs[0][..shared]));
}

#[test]
fn a_seed_decides_what_is_drawn() {
    let mut outside = ChaCha8Rng::seed_from_u64(7);
    let bytes: Vec<u8> = (0..100).map(|_| outside.gen()).collect();
    let mut r = rng(7);
    assert_eq!(random(&mut r, 60), bytes[..60]);
    assert_eq!(random(&mut r, 40), bytes[60..]);
    assert_eq!(draw_amount(&mut r), outside.gen_range(1000..99999));
    // What is drawn from a generator that is lent counts too.
    assert_eq!(r.lend().gen::<f32>(), outside.gen::<f32>());
    assert_eq!(random(&mut r, 1), [outside.gen::<u8>()]);
    let motif = random(&mut rng(3), MOTIF);
    assert_eq!(repeated(&mut rng(3), MOTIF + 9), [&motif[..], &motif[..9]].concat());
}

#[test]
fn words_are_picked_by_the_generator() {
    let words = [
        "the ", "model ", "returns ", "a ", "tool ", "call ", "with ", "arguments ", "then ",
        "observes ", "output ", "and ", "continues ", "reasoning ", "until ", "done ",
    ];
    let prose = |r: &mut ChaCha8Rng, n: usize| {
        let mut s = String::new();
        while s.len() < n {
            s.push_str(words[r.gen_range(0..words.len())]);
        }
        s.truncate(n);
        s
    };
    assert_eq!(text(&mut rng(5), 333), prose(&mut ChaCha8Rng::seed_from_u64(5), 333));
    let mut r = ChaCha8Rng::seed_from_u64(1);
    let (system, tools) = (prose(&mut r, 40), prose(&mut r, 40));
    let head = shared_head(80);
    assert!(head.contains(&system) && head.contains(&tools));
    let mut r = ChaCha8Rng::seed_from_u64(1003);
    let turns: Vec<String> = (0..3)
        .map(|i| {
            format!("{{\"i\":{i},\"role\":\"assistant\",\"content\":\"{}\"}},", prose(&mut r, 20))
        })
        .collect();
    assert_eq!(conversation("h", 1003, 3, 20), format!("h{}]}}", turns.concat()));
}

#[test]
fn a_trajectory_is_drawn_from_one_seed() {
    let mut r = ChaCha8Rng::seed_from_u64(31337);
    let steps: Vec<String> = (1..=2)
        .map(|i| {
            let reasoning = (0..120).map(|_| (b'a' + r.gen_range(0..26u8)) as char).collect();
            let command = r.gen_range(1000..9999);
            let input = r.gen_range(100..900);
            let output = r.gen_range(50..500);
            step(i, 960, &Turn { reasoning, command, input, output })
        })
        .collect();
    assert_eq!(atif_series(2, 960)[1], document(&steps));
}

#[test]
fn a_corpus_is_tallied_conversation_by_conversation() {
    let head = shared_head(8 * 1024);
    let c = corpus(&head, 4, 3, 2048, 1024).expect("few bytes");
    let mut t = Tally::new();
    let mut count = 0;
    let mut last = 0;
    for seed in 1000..1004 {
        let data = conversation(&head, seed, 3, 2048).into_bytes();
        let list = chunk_at(&data, 1024);
        t.add(&data, &list);
        count += list.len();
        last = data.len();
    }
    assert_eq!((c.tally.whole, c.tally.xet, c.tally.distinct), (t.whole, t.xet, t.distinct));
    assert_eq!((c.chunks, c.one), (count, last));
    assert!(c.tally.xet < c.tally.whole);
    let none = corpus(&head, 0, 3, 2048, 1024).expect("no bytes");
    assert_eq!((none.tally.whole, none.chunks, none.one), (0, 0, 0));
}

#[test]
fn revisions_grow_by_a_share_of_the_rows() {
    // 30 rows, 33 and 36: a tenth of them is appended, and a fifth of all is edited.
    assert_eq!(revision_sizes(30, 3, 10, 20), Some(vec![(3, 6), (3, 7), (3, 7)]));
    assert_eq!(revision_sizes(9, 2, 10, 0), Some(vec![(0, 0), (0, 0)]));
    assert_eq!(revision_sizes(9, 0, usize::MAX, 0), Some(Vec::new()));
    assert_eq!(revision_sizes(9, 1, usize::MAX, 0), None);
    assert_eq!(revision_sizes(usize::MAX, 1, 1, 0), None);
    assert_eq!(revision_sizes(9, 1, 0, usize::MAX), None);
    assert!(pick(&mut rng(7), 1000) != pick(&mut rng(8), 1000));
}

#[test]
fn a_table_is_revised_in_order() {
    let draw = |amount| Draw { amount, score: "0.5".to_string(), flag: false };
    let first = vec![draw(1000), draw(1001)];
    let revisions = vec![
        Revision { appended: vec![draw(1002)], edited: vec![(2, draw(2000)), (0, draw(2001))] },
        Revision { appended: Vec::new(), edited: vec![(1, draw(3000)), (1, draw(3001))] },
    ];
    let row = |id: u64, amount| csv_row(id, &draw(amount));
    assert_eq!(
        revision_series(&first, &revisions),
        [
            [row(0, 1000), row(1, 1001)].concat(),
            [row(0, 2001), row(1, 1001), row(2, 2000)].concat(),
            [row(0, 2001), row(1, 3001), row(2, 2000)].concat(),
        ]
    );
    assert_eq!(revision_series(&Vec::new(), &Vec::new()), [""]);
}
