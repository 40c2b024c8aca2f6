//! Payloads to measure with: the shapes that files in a repository have.
use vstd::prelude::*;

use crate::eval::draws::{byte_drawn, draw_byte, draw_place, Generator, Stream};
use crate::number::{decimal, decimal_text};

verus! {

/// The first `n` bytes that a generator gives, and the generator after them.
pub open spec fn noise(s: Stream, n: nat) -> (Seq<u8>, Stream)
    decreases n,
{
    if n == 0 {
        (Seq::empty(), s)
    } else {
        let (v, t) = noise(s, (n - 1) as nat);
        (v.push(t.byte()), t.after_byte())
    }
}

/// Bytes that do not compress: encrypted archives, compressed media.
pub fn random(r: &mut Generator, n: usize) -> (v: Vec<u8>)
    ensures
        v@.len() == n,
        match old(r)@ {
            Some(s) => v@ == noise(s, n as nat).0 && final(r)@ == Some(noise(s, n as nat).1),
            None => final(r)@ is None,
        },
{
    let mut v: Vec<u8> = Vec::new();
    let ghost begin = r@;
    while v.len() < n
        invariant
            v@.len() <= n,
            match begin {
                Some(s) => v@ == noise(s, v@.len()).0 && r@ == Some(noise(s, v@.len()).1),
                None => r@ is None,
            },
        decreases n - v@.len(),
    {
        v.push(draw_byte(r));
    }
    v
}

/// Nothing but zeros: no content boundary ever fires.
pub fn zeros(n: usize) -> (v: Vec<u8>)
    ensures
        v@ == Seq::new(n as nat, |i: int| 0u8),
{
    let mut v: Vec<u8> = Vec::new();
    while v.len() < n
        invariant
            v@.len() <= n,
            forall|i: int| 0 <= i < v@.len() ==> v@[i] == 0u8,
        decreases n - v@.len(),
    {
        v.push(0);
    }
    assert(v@ =~= Seq::new(n as nat, |i: int| 0u8));
    v
}

/// `n` bytes of a motif, over and over.
pub open spec fn tiles(motif: Seq<u8>, n: nat) -> Seq<u8> {
    Seq::new(n, |i: int| motif[i % (motif.len() as int)])
}

/// A motif over and over, cut off at `n` bytes.
pub fn tiled(motif: &Vec<u8>, n: usize) -> (v: Vec<u8>)
    requires
        motif@.len() > 0,
    ensures
        v@ == tiles(motif@, n as nat),
{
    let mut v: Vec<u8> = Vec::new();
    let mut at: usize = 0;
    while v.len() < n
        invariant
            motif@.len() > 0,
            v@.len() <= n,
            at < motif@.len(),
            at == v@.len() % motif@.len(),
            v@ =~= tiles(motif@, v@.len()),
        decreases n - v@.len(),
    {
        let ghost len = v@.len() as int;
        let ghost m = motif@.len() as int;
        proof {
            vstd::arithmetic::div_mod::lemma_add_mod_noop(len, 1, m);
            vstd::arithmetic::div_mod::lemma_mod_self_0(m);
            if m > 1 {
                vstd::arithmetic::div_mod::lemma_small_mod(1, m as nat);
                if at + 1 < m {
                    vstd::arithmetic::div_mod::lemma_small_mod((at + 1) as nat, m as nat);
                }
            } else {
                assert((len + 1) % 1 == 0);
            }
        }
        v.push(motif[at]);
        at = if at < motif.len() - 1 {
            at + 1
        } else {
            0
        };
    }
    v
}

/// How long the motif of [`repeated`] is.
pub const MOTIF: usize = 4 * 1024 * 1024;

/// A motif repeated to fill the file: redundancy that whole-object storage cannot
/// see.
pub fn repeated(r: &mut Generator, n: usize) -> (v: Vec<u8>)
    ensures
        match old(r)@ {
            Some(s) => v@ == tiles(noise(s, MOTIF as nat).0, n as nat) && final(r)@ == Some(
                noise(s, MOTIF as nat).1,
            ),
            None => final(r)@ is None && exists|motif: Seq<u8>|
                motif.len() == MOTIF && v@ == #[trigger] tiles(motif, n as nat),
        },
{
    let motif = random(r, MOTIF);
    tiled(&motif, n)
}

/// The bytes of `data` with `patch` over those at `at`.
pub fn overwritten(data: &Vec<u8>, at: usize, patch: &Vec<u8>) -> (v: Vec<u8>)
    requires
        at + patch@.len() <= data@.len(),
    ensures
        v@ == data@.subrange(0, at as int) + patch@ + data@.subrange(
            at + patch@.len(),
            data@.len() as int,
        ),
{
    let mut v: Vec<u8> = Vec::new();
    let n: usize = data.len();
    let m: usize = patch.len();
    while v.len() < n
        invariant
            n == data@.len(),
            m == patch@.len(),
            at + m <= n,
            v@.len() <= n,
            forall|i: int|
                0 <= i < v@.len() ==> #[trigger] v@[i] == if at <= i < at + m {
                    patch@[i - at]
                } else {
                    data@[i]
                },
        decreases n - v@.len(),
    {
        let i: usize = v.len();
        if at <= i && i - at < m {
            v.push(patch[i - at]);
        } else {
            v.push(data[i]);
        }
    }
    assert(v@ =~= data@.subrange(0, at as int) + patch@ + data@.subrange(
        at + patch@.len(),
        data@.len() as int,
    ));
    v
}

/// A row of a text data set.
pub open spec fn jsonl_row_of(id: nat, score: Seq<char>) -> Seq<char> {
    "{\"id\":"@ + decimal(id) + ",\"score\":"@ + score + ",\"label\":\"class_"@ + decimal(id % 17)
        + "\"}\n"@
}

/// A row of a text data set, with its score in decimals.
pub fn jsonl_row(id: u64, score: &str) -> (r: String)
    ensures
        r@ == jsonl_row_of(id as nat, score@),
{
    let mut s = String::from_str("{\"id\":");
    s.append(decimal_text(id).as_str());
    s.append(",\"score\":");
    s.append(score);
    s.append(",\"label\":\"class_");
    s.append(decimal_text(id % 17).as_str());
    s.append("\"}\n");
    s
}

/// How many words [`text`] draws from.
pub const WORDS: usize = 16;

/// Word `i` of those that [`text`] draws from, and the space behind it.
pub open spec fn word(i: nat) -> Seq<char> {
    if i == 0 {
        "the "@
    } else if i == 1 {
        "model "@
    } else if i == 2 {
        "returns "@
    } else if i == 3 {
        "a "@
    } else if i == 4 {
        "tool "@
    } else if i == 5 {
        "call "@
    } else if i == 6 {
        "with "@
    } else if i == 7 {
        "arguments "@
    } else if i == 8 {
        "then "@
    } else if i == 9 {
        "observes "@
    } else if i == 10 {
        "output "@
    } else if i == 11 {
        "and "@
    } else if i == 12 {
        "continues "@
    } else if i == 13 {
        "reasoning "@
    } else if i == 14 {
        "until "@
    } else {
        "done "@
    }
}

/// No word is empty, and none longer than this.
pub proof fn lemma_word_len(i: nat)
    ensures
        0 < word(i).len() <= 16,
{
    reveal_strlit("the ");
    reveal_strlit("model ");
    reveal_strlit("returns ");
    reveal_strlit("a ");
    reveal_strlit("tool ");
    reveal_strlit("call ");
    reveal_strlit("with ");
    reveal_strlit("arguments ");
    reveal_strlit("then ");
    reveal_strlit("observes ");
    reveal_strlit("output ");
    reveal_strlit("and ");
    reveal_strlit("continues ");
    reveal_strlit("reasoning ");
    reveal_strlit("until ");
    reveal_strlit("done ");
}

fn word_text(i: usize) -> (r: &'static str)
    requires
        i < WORDS,
    ensures
        r@ == word(i as nat),
        r@.len() > 0,
        r@.len() <= 16,
{
    proof {
        lemma_word_len(i as nat);
    }
    match i {
        0 => "the ",
        1 => "model ",
        2 => "returns ",
        3 => "a ",
        4 => "tool ",
        5 => "call ",
        6 => "with ",
        7 => "arguments ",
        8 => "then ",
        9 => "observes ",
        10 => "output ",
        11 => "and ",
        12 => "continues ",
        13 => "reasoning ",
        14 => "until ",
        _ => "done ",
    }
}

/// The words that were picked, one behind the other.
pub open spec fn words_of(picks: Seq<usize>) -> Seq<char>
    decreases picks.len(),
{
    if picks.len() == 0 {
        Seq::empty()
    } else {
        words_of(picks.drop_last()) + word(picks.last() as nat)
    }
}

/// `s` is prose of `n` characters: words picked from the list until there are
/// enough, cut off at `n`.
pub open spec fn is_prose(s: Seq<char>, n: nat) -> bool {
    exists|picks: Seq<usize>|
        {
            &&& n <= (#[trigger] words_of(picks)).len()
            &&& forall|i: int| 0 <= i < picks.len() ==> #[trigger] picks[i] < WORDS
            &&& s == words_of(picks).subrange(0, n as int)
        }
}

/// The words that a generator picks, behind `so_far`, until there are `n` characters,
/// and the generator after them.
pub open spec fn worded(s: Stream, so_far: Seq<char>, n: nat) -> (Seq<char>, Stream)
    decreases
            (if so_far.len() < n {
                n - so_far.len()
            } else {
                0
            }),
{
    if so_far.len() >= n {
        (so_far, s)
    } else {
        proof {
            lemma_word_len(s.place(WORDS as nat));
        }
        worded(s.after_place(WORDS as nat), so_far + word(s.place(WORDS as nat)), n)
    }
}

/// The prose of `n` characters that a generator gives, and the generator after it.
pub open spec fn prose(s: Stream, n: nat) -> (Seq<char>, Stream) {
    let (words, t) = worded(s, Seq::empty(), n);
    (words.subrange(0, n as int), t)
}

/// Prose of `n` characters.
pub fn text(r: &mut Generator, n: usize) -> (s: String)
    requires
        n <= usize::MAX - 16,
    ensures
        s@.len() == n,
        is_prose(s@, n as nat),
        match old(r)@ {
            Some(g) => s@ == prose(g, n as nat).0 && final(r)@ == Some(prose(g, n as nat).1),
            None => final(r)@ is None,
        },
{
    let mut s = String::from_str("");
    let mut len: usize = 0;
    let ghost mut picks: Seq<usize> = Seq::empty();
    let ghost begin = r@;
    proof {
        reveal_strlit("");
        assert(s@ =~= words_of(picks));
        assert(s@ =~= Seq::<char>::empty());
    }
    while len < n
        invariant
            n <= usize::MAX - 16,
            len == s@.len(),
            len <= n + 16,
            s@ == words_of(picks),
            forall|i: int| 0 <= i < picks.len() ==> #[trigger] picks[i] < WORDS,
            match begin {
                Some(g) => r@ is Some && worded(g, Seq::empty(), n as nat) == worded(
                    r@->Some_0,
                    s@,
                    n as nat,
                ),
                None => r@ is None,
            },
        decreases n + 16 - len,
    {
        let at = draw_place(r, WORDS);
        let w = word_text(at);
        s.append(w);
        len = len + w.unicode_len();
        proof {
            assert(picks.push(at).drop_last() =~= picks);
            picks = picks.push(at);
        }
    }
    let cut = s.as_str().substring_char(0, n);
    String::from_str(cut)
}

/// The head of a conversation that has this system prompt and these tools.
pub open spec fn head_of(system: Seq<char>, tools: Seq<char>) -> Seq<char> {
    "{\"schema\":\"trajectory-v1\",\"system\":\""@ + system + "\",\"tools\":\""@ + tools
        + "\",\"steps\":["@
}

/// The head that every conversation in a corpus shares, `bytes` of prose in it.
pub fn shared_head(bytes: usize) -> (s: String)
    ensures
        ({
            let (system, after) = prose(Stream::start(1), (bytes / 2) as nat);
            let (tools, _) = prose(after, (bytes / 2) as nat);
            s@ == head_of(system, tools)
        }),
{
    let mut r = Generator::new(1);
    let system = text(&mut r, bytes / 2);
    let tools = text(&mut r, bytes / 2);
    let mut s = String::from_str("{\"schema\":\"trajectory-v1\",\"system\":\"");
    s.append(system.as_str());
    s.append("\",\"tools\":\"");
    s.append(tools.as_str());
    s.append("\",\"steps\":[");
    assert(s@ == head_of(system@, tools@));
    s
}

/// A turn of a conversation.
pub open spec fn turn_of(t: nat, content: Seq<char>) -> Seq<char> {
    "{\"i\":"@ + decimal(t) + ",\"role\":\"assistant\",\"content\":\""@ + content + "\"},"@
}

/// The turns with these contents, one behind the other.
pub open spec fn turns_of(contents: Seq<Seq<char>>) -> Seq<char>
    decreases contents.len(),
{
    if contents.len() == 0 {
        Seq::empty()
    } else {
        turns_of(contents.drop_last()) + turn_of(
            (contents.len() - 1) as nat,
            contents.last(),
        )
    }
}

/// The contents of `turns` turns of `n` characters that a generator gives, and the
/// generator after them.
pub open spec fn contents_drawn(s: Stream, turns: nat, n: nat) -> (Seq<Seq<char>>, Stream)
    decreases turns,
{
    if turns == 0 {
        (Seq::empty(), s)
    } else {
        let (contents, t) = contents_drawn(s, (turns - 1) as nat, n);
        (contents.push(prose(t, n).0), prose(t, n).1)
    }
}

/// The conversation that a seed gives.
pub open spec fn conversation_of(
    head: Seq<char>,
    seed: u64,
    turns: nat,
    turn_bytes: nat,
) -> Seq<char> {
    head + turns_of(contents_drawn(Stream::start(seed), turns, turn_bytes).0) + "]}"@
}

/// A conversation: the shared head, and as many turns of its own.
pub fn conversation(head: &str, seed: u64, turns: usize, turn_bytes: usize) -> (s: String)
    requires
        turn_bytes <= usize::MAX - 16,
    ensures
        s@ == conversation_of(head@, seed, turns as nat, turn_bytes as nat),
{
    let mut r = Generator::new(seed);
    let mut s = String::from_str(head);
    let ghost begin = Stream::start(seed);
    let mut t: usize = 0;
    assert(s@ =~= head@ + turns_of(contents_drawn(begin, 0, turn_bytes as nat).0));
    while t < turns
        invariant
            t <= turns,
            turn_bytes <= usize::MAX - 16,
            contents_drawn(begin, t as nat, turn_bytes as nat).0.len() == t,
            r@ == Some(contents_drawn(begin, t as nat, turn_bytes as nat).1),
            s@ == head@ + turns_of(contents_drawn(begin, t as nat, turn_bytes as nat).0),
        decreases turns - t,
    {
        let ghost contents = contents_drawn(begin, t as nat, turn_bytes as nat).0;
        let content = text(&mut r, turn_bytes);
        s.append("{\"i\":");
        s.append(decimal_text(t as u64).as_str());
        s.append(",\"role\":\"assistant\",\"content\":\"");
        s.append(content.as_str());
        s.append("\"},");
        proof {
            let next = contents.push(content@);
            assert(next == contents_drawn(begin, (t + 1) as nat, turn_bytes as nat).0);
            assert(next.drop_last() =~= contents);
            assert(s@ =~= head@ + (turns_of(contents) + turn_of(t as nat, content@)));
        }
        t = t + 1;
    }
    s.append("]}");
    s
}

/// A motif that is repeated begins the file, and comes again after its length, as often as the
/// file has room.
pub proof fn law_motif_comes_again(motif: &Vec<u8>, n: usize, v: Vec<u8>, i: int)
    requires
        motif@.len() > 0,
        call_ensures(tiled, (motif, n), v),
        0 <= i < n,
    ensures
        v@.len() == n,
        i < motif@.len() ==> v@[i] == motif@[i],
        i >= motif@.len() ==> v@[i] == v@[i - motif@.len()],
{
    let m = motif@.len() as int;
    if i < m {
        vstd::arithmetic::div_mod::lemma_small_mod(i as nat, m as nat);
    } else {
        vstd::arithmetic::div_mod::lemma_mod_add_multiples_vanish(i - m, m);
    }
}

/// Zeros are zeros, and bytes that are written over others replace those and no more.
pub proof fn law_patch_replaces_only_what_it_covers(
    n: usize,
    z: Vec<u8>,
    data: &Vec<u8>,
    at: usize,
    patch: &Vec<u8>,
    v: Vec<u8>,
    i: int,
)
    requires
        call_ensures(zeros, (n,), z),
        at + patch@.len() <= data@.len(),
        call_ensures(overwritten, (data, at, patch), v),
    ensures
        z@.len() == n,
        0 <= i < n ==> z@[i] == 0,
        v@.len() == data@.len(),
        at <= i < at + patch@.len() ==> v@[i] == patch@[i - at],
        0 <= i < at || at + patch@.len() <= i < data@.len() ==> v@[i] == data@[i],
{
}

/// It does not matter in how many goes bytes are drawn: what comes second is what a generator
/// gives that the first was drawn from.
pub proof fn law_draws_go_on_where_they_stopped(s: Stream, a: nat, b: nat)
    ensures
        noise(s, a + b).0 == noise(s, a).0 + noise(noise(s, a).1, b).0,
        noise(s, a + b).1 == noise(noise(s, a).1, b).1,
        noise(s, a).0.len() == a,
        noise(s, 1).0 == seq![byte_drawn(s.seed, s.asked)],
    decreases b,
{
    lemma_noise_len(s, a);
    if b == 0 {
        assert(noise(s, a).0 + noise(noise(s, a).1, 0).0 =~= noise(s, a).0);
    } else {
        law_draws_go_on_where_they_stopped(s, a, (b - 1) as nat);
        assert((a + b - 1) as nat == a + (b - 1) as nat);
        assert(noise(s, a + b).0 =~= noise(s, a).0 + noise(noise(s, a).1, b).0);
    }
    assert(noise(s, 0).0 =~= Seq::<u8>::empty());
    assert(noise(s, 0).1 == s);
    assert(noise(s, 1).0 =~= seq![byte_drawn(s.seed, s.asked)]);
}

proof fn lemma_noise_len(s: Stream, n: nat)
    ensures
        noise(s, n).0.len() == n,
    decreases n,
{
    if n > 0 {
        lemma_noise_len(s, (n - 1) as nat);
    }
}

proof fn lemma_worded_goes_on(s: Stream, so_far: Seq<char>, n: nat, m: nat)
    requires
        n <= m,
    ensures
        worded(s, so_far, n).0.len() >= n,
        worded(s, so_far, m).0.len() >= worded(s, so_far, n).0.len(),
        worded(s, so_far, m).0.subrange(0, worded(s, so_far, n).0.len() as int) == worded(
            s,
            so_far,
            n,
        ).0,
        worded(s, so_far, m).0.len() >= so_far.len(),
        worded(s, so_far, m).0.subrange(0, so_far.len() as int) == so_far,
    decreases
            (if so_far.len() < m {
                m - so_far.len()
            } else {
                0
            }),
{
    if so_far.len() >= m {
        assert(so_far.subrange(0, so_far.len() as int) =~= so_far);
    } else {
        let w = word(s.place(WORDS as nat));
        lemma_word_len(s.place(WORDS as nat));
        let next = so_far + w;
        lemma_worded_goes_on(s.after_place(WORDS as nat), next, n, m);
        let all = worded(s, so_far, m).0;
        assert(all.subrange(0, so_far.len() as int) =~= all.subrange(
            0,
            next.len() as int,
        ).subrange(0, so_far.len() as int));
        assert(next.subrange(0, so_far.len() as int) =~= so_far);
    }
}

/// Prose has as many characters as were asked for, and shorter prose is the beginning of the
/// longer that the same generator gives.
pub proof fn law_shorter_prose_begins_the_longer(s: Stream, n: nat, m: nat)
    requires
        n <= m,
    ensures
        prose(s, n).0.len() == n,
        prose(s, m).0.subrange(0, n as int) == prose(s, n).0,
{
    lemma_worded_goes_on(s, Seq::empty(), n, m);
    lemma_worded_goes_on(s, Seq::empty(), m, m);
    let long = worded(s, Seq::empty(), m).0;
    let short = worded(s, Seq::empty(), n).0;
    assert(prose(s, m).0.subrange(0, n as int) =~= long.subrange(
        0,
        short.len() as int,
    ).subrange(0, n as int));
}

/// Conversations share their head. One with more turns begins with all of the turns of one
/// with fewer, and each turn is told by its number, beginning with zero.
pub proof fn law_longer_conversation_begins_with_the_shorter(
    head: Seq<char>,
    seed: u64,
    turns: nat,
    n: nat,
)
    ensures
        ({
            let short = conversation_of(head, seed, turns, n);
            let long = conversation_of(head, seed, turns + 1, n);
            let content = prose(contents_drawn(Stream::start(seed), turns, n).1, n).0;
            &&& short.len() >= head.len() + 2
            &&& short.subrange(0, head.len() as int) == head
            &&& short.subrange(short.len() - 2, short.len() as int) == "]}"@
            &&& long == short.subrange(0, short.len() - 2) + "{\"i\":"@ + decimal(turns)
                + ",\"role\":\"assistant\",\"content\":\""@ + content + "\"},"@ + "]}"@
            &&& content.len() == n
        }),
        conversation_of(head, seed, 0, n) == head + "]}"@,
{
    reveal_strlit("]}");
    let start = Stream::start(seed);
    lemma_contents_len(start, turns, n);
    let contents = contents_drawn(start, turns, n).0;
    let after = contents_drawn(start, turns, n).1;
    let short = conversation_of(head, seed, turns, n);
    let long = conversation_of(head, seed, turns + 1, n);
    let next = contents_drawn(start, turns + 1, n).0;
    assert(next == contents.push(prose(after, n).0));
    assert(next.drop_last() =~= contents);
    assert(short.subrange(0, head.len() as int) =~= head);
    assert(short.subrange(short.len() - 2, short.len() as int) =~= "]}"@);
    assert(short.subrange(0, short.len() - 2) =~= head + turns_of(contents));
    assert(long =~= short.subrange(0, short.len() - 2) + "{\"i\":"@ + decimal(turns)
        + ",\"role\":\"assistant\",\"content\":\""@ + prose(after, n).0 + "\"},"@ + "]}"@);
    law_shorter_prose_begins_the_longer(after, n, n);
    assert(conversation_of(head, seed, 0, n) =~= head + "]}"@);
}

proof fn lemma_contents_len(s: Stream, turns: nat, n: nat)
    ensures
        contents_drawn(s, turns, n).0.len() == turns,
    decreases turns,
{
    if turns > 0 {
        lemma_contents_len(s, (turns - 1) as nat, n);
    }
}

/// The head that conversations share holds as much prose of the prompt as of the tools, and
/// the second is drawn where the first stopped.
pub proof fn law_head_holds_prompt_and_tools(bytes: usize, s: String, system: Seq<char>)
    requires
        call_ensures(shared_head, (bytes,), s),
        system == prose(Stream::start(1), (bytes / 2) as nat).0,
    ensures
        ({
            let open = "{\"schema\":\"trajectory-v1\",\"system\":\""@;
            let mid = "\",\"tools\":\""@;
            let close = "\",\"steps\":["@;
            let half = (bytes / 2) as int;
            &&& s@.len() == open.len() + half + mid.len() + half + close.len()
            &&& s@.subrange(0, open.len() as int) == open
            &&& s@.subrange(open.len() as int, open.len() + half) == system
            &&& s@.subrange(s@.len() - close.len(), s@.len() as int) == close
        }),
{
    let open = "{\"schema\":\"trajectory-v1\",\"system\":\""@;
    let close = "\",\"steps\":["@;
    let half = (bytes / 2) as nat;
    let after = prose(Stream::start(1), half).1;
    law_shorter_prose_begins_the_longer(Stream::start(1), half, half);
    law_shorter_prose_begins_the_longer(after, half, half);
    assert(s@.subrange(0, open.len() as int) =~= open);
    assert(s@.subrange(open.len() as int, open.len() + half as int) =~= system);
    assert(s@.subrange(s@.len() - close.len(), s@.len() as int) =~= close);
}

/// A row of a text data set tells its id first, its score behind that, and its class last: one
/// of seventeen, told by the id.
pub proof fn law_text_row_tells_id_score_and_class(id: u64, score: &str, r: String)
    requires
        call_ensures(jsonl_row, (id, score), r),
    ensures
        ({
            let front = "{\"id\":"@ + decimal(id as nat) + ",\"score\":"@;
            let back = ",\"label\":\"class_"@ + decimal(id as nat % 17) + "\"}\n"@;
            &&& r@.len() == front.len() + score@.len() + back.len()
            &&& r@.subrange(0, front.len() as int) == front
            &&& r@.subrange(front.len() as int, front.len() as int + score@.len()) == score@
            &&& r@.subrange(r@.len() - back.len(), r@.len() as int) == back
        }),
{
    let front = "{\"id\":"@ + decimal(id as nat) + ",\"score\":"@;
    let back = ",\"label\":\"class_"@ + decimal(id as nat % 17) + "\"}\n"@;
    assert(r@.subrange(0, front.len() as int) =~= front);
    assert(r@.subrange(front.len() as int, front.len() as int + score@.len()) =~= score@);
    assert(r@.subrange(r@.len() - back.len(), r@.len() as int) =~= back);
}

/// Random bytes are as many as were asked for and those that the generator gives; a repeated
/// motif is drawn as 4 MiB of them. Prose has as many characters as were asked for, words all
/// of it.
pub proof fn law_payloads_are_drawn_as_asked_for(n: usize)
    ensures
        forall|g: &mut Generator, v: Vec<u8>| #[trigger]
            call_ensures(random, (g, n), v) ==> v@.len() == n && ((*g)@ matches Some(s) ==> v@
                == noise(s, n as nat).0),
        forall|g: &mut Generator, v: Vec<u8>| #[trigger]
            call_ensures(repeated, (g, n), v) ==> v@.len() == n && ((*g)@ matches Some(s)
                ==> forall|i: int|
                0 <= i < n ==> #[trigger] v@[i] == noise(s, 0x40_0000).0[i % 0x40_0000]),
        forall|g: &mut Generator, t: String| #[trigger]
            call_ensures(text, (g, n), t) && n <= usize::MAX - 16 ==> t@.len() == n && ((*g)@
                matches Some(s) ==> t@ == prose(s, n as nat).0),
{
    assert forall|g: &mut Generator, v: Vec<u8>| #[trigger]
        call_ensures(repeated, (g, n), v) implies v@.len() == n && ((*g)@ matches Some(s)
        ==> forall|i: int|
        0 <= i < n ==> #[trigger] v@[i] == noise(s, 0x40_0000).0[i % 0x40_0000]) by {
        if let Some(s) = (*g)@ {
            lemma_noise_len(s, 0x40_0000);
        }
    }
}

/// A word ends with its only space, and prose goes on with the word that is drawn next.
pub proof fn law_prose_goes_on_by_words(s: Stream, so_far: Seq<char>, n: nat, i: nat)
    ensures
        so_far.len() < n ==> worded(s, so_far, n) == worded(
            s.after_place(16),
            so_far + word(s.place(16)),
            n,
        ),
        so_far.len() >= n ==> worded(s, so_far, n).0 == so_far,
        word(i).len() >= 2,
        word(i).last() == ' ',
        forall|j: int| 0 <= j < word(i).len() - 1 ==> 'a' <= #[trigger] word(i)[j] <= 'z',
{
    reveal_strlit("the ");
    reveal_strlit("model ");
    reveal_strlit("returns ");
    reveal_strlit("a ");
    reveal_strlit("tool ");
    reveal_strlit("call ");
    reveal_strlit("with ");
    reveal_strlit("arguments ");
    reveal_strlit("then ");
    reveal_strlit("observes ");
    reveal_strlit("output ");
    reveal_strlit("and ");
    reveal_strlit("continues ");
    reveal_strlit("reasoning ");
    reveal_strlit("until ");
    reveal_strlit("done ");
}

/// A conversation is the head, its turns and its end, drawn from its seed.
pub proof fn law_conversation_is_drawn_from_its_seed(
    head: &str,
    seed: u64,
    turns: usize,
    turn_bytes: usize,
    s: String,
)
    requires
        turn_bytes <= usize::MAX - 16,
        call_ensures(conversation, (head, seed, turns, turn_bytes), s),
    ensures
        s@ == conversation_of(head@, seed, turns as nat, turn_bytes as nat),
        s@.subrange(0, head@.len() as int) == head@,
        turns == 0 ==> s@ == head@ + "]}"@,
{
    law_longer_conversation_begins_with_the_shorter(
        head@,
        seed,
        turns as nat,
        turn_bytes as nat,
    );
}

/// Words are put one behind the other, as they are picked, and prose is made of nothing else.
pub proof fn law_words_are_put_in_order(picks: Seq<usize>, i: usize, s: Seq<char>, n: nat)
    ensures
        words_of(picks.push(i)) == words_of(picks) + word(i as nat),
        words_of(Seq::empty()).len() == 0,
        is_prose(s, n) ==> s.len() == n,
        n <= words_of(picks).len() && (forall|k: int|
            0 <= k < picks.len() ==> #[trigger] picks[k] < 16) ==> is_prose(
            words_of(picks).subrange(0, n as int),
            n,
        ),
{
    assert(picks.push(i).drop_last() =~= picks);
}

} // verus!
