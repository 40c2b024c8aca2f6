//! Numbers that look drawn by chance, and are drawn the same every time: a seed, and
//! what was asked for before, decide what comes.
use vstd::prelude::*;

use rand::{Rng, SeedableRng};
use rand_chacha::ChaCha8Rng;

verus! {

/// `ChaCha8Rng`: a stream of numbers that a seed starts.
#[verifier::external_type_specification]
#[verifier::external_body]
pub struct ExChaCha8Rng(ChaCha8Rng);

/// The byte that a generator with this seed gives once it was asked for these numbers:
/// each by the bits of its type, the least that may come, and the least above it that
/// may not.
pub uninterp spec fn byte_drawn(seed: u64, asked: Seq<(nat, nat, nat)>) -> u8;

/// The number of a type with so many bits, from `low` to below `high`, that it gives.
pub uninterp spec fn number_drawn(
    seed: u64,
    asked: Seq<(nat, nat, nat)>,
    bits: nat,
    low: nat,
    high: nat,
) -> nat;

/// A generator, as far as what it gives is known.
#[verifier::ext_equal]
pub struct Stream {
    pub seed: u64,
    pub asked: Seq<(nat, nat, nat)>,
}

impl Stream {
    /// A generator that was asked for nothing yet.
    pub open spec fn start(seed: u64) -> Stream {
        Stream { seed, asked: Seq::empty() }
    }

    /// After it was asked for a number.
    pub open spec fn asking(self, bits: nat, low: nat, high: nat) -> Stream {
        Stream { seed: self.seed, asked: self.asked.push((bits, low, high)) }
    }

    pub open spec fn byte(self) -> u8 {
        byte_drawn(self.seed, self.asked)
    }

    pub open spec fn after_byte(self) -> Stream {
        self.asking(8, 0, 256)
    }

    pub open spec fn number(self, bits: nat, low: nat, high: nat) -> nat {
        number_drawn(self.seed, self.asked, bits, low, high)
    }

    /// A place below `n`. What comes depends on how many bits a place has.
    pub open spec fn place(self, n: nat) -> nat {
        self.number(usize::BITS as nat, 0, n)
    }

    pub open spec fn after_place(self, n: nat) -> Stream {
        self.asking(usize::BITS as nat, 0, n)
    }
}

/// A generator, with a record of its seed and of what it was asked for. Nothing is known
/// of one that was lent out.
pub struct Generator {
    rng: ChaCha8Rng,
    stream: Ghost<Option<Stream>>,
}

impl View for Generator {
    type V = Option<Stream>;

    closed spec fn view(&self) -> Option<Stream> {
        self.stream@
    }
}

/// Calls `SeedableRng::seed_from_u64`: a generator that the seed alone decides on.
#[verifier::external_body]
fn seeded(seed: u64) -> (r: Generator)
    ensures
        r@ == Some(Stream::start(seed)),
{
    Generator { rng: ChaCha8Rng::seed_from_u64(seed), stream: Ghost(Some(Stream::start(seed))) }
}

/// Calls `Rng::gen` for a byte, which the seed and what was asked for before decide on.
#[verifier::external_body]
pub(crate) fn draw_byte(g: &mut Generator) -> (b: u8)
    ensures
        match old(g)@ {
            Some(s) => b == byte_drawn(s.seed, s.asked) && final(g)@ == Some(s.after_byte()),
            None => final(g)@ is None,
        },
{
    g.rng.gen()
}

/// Calls `Rng::gen_range` for a place below `n`, which must not be 0. The seed, what was
/// asked for before, `n` and the bits of a place decide on it.
#[verifier::external_body]
pub(crate) fn draw_place(g: &mut Generator, n: usize) -> (at: usize)
    requires
        n > 0,
    ensures
        at < n,
        match old(g)@ {
            Some(s) => at == number_drawn(s.seed, s.asked, usize::BITS as nat, 0, n as nat)
                && final(g)@ == Some(s.after_place(n as nat)),
            None => final(g)@ is None,
        },
{
    g.rng.gen_range(0..n)
}

/// Calls `Rng::gen_range` for a byte below `n`, which must not be 0. The seed, what was
/// asked for before and `n` decide on it.
#[verifier::external_body]
pub(crate) fn draw_small(g: &mut Generator, n: u8) -> (at: u8)
    requires
        n > 0,
    ensures
        at < n,
        match old(g)@ {
            Some(s) => at == number_drawn(s.seed, s.asked, 8, 0, n as nat) && final(g)@ == Some(
                s.asking(8, 0, n as nat),
            ),
            None => final(g)@ is None,
        },
{
    g.rng.gen_range(0..n)
}

/// Calls `Rng::gen_range` for a number from `low` to below `high`, between which
/// there must be one. The seed, what was asked for before and the two bounds decide on
/// it.
#[verifier::external_body]
pub(crate) fn draw_between(g: &mut Generator, low: u32, high: u32) -> (v: u32)
    requires
        low < high,
    ensures
        low <= v < high,
        match old(g)@ {
            Some(s) => v == number_drawn(s.seed, s.asked, 32, low as nat, high as nat)
                && final(g)@ == Some(s.asking(32, low as nat, high as nat)),
            None => final(g)@ is None,
        },
{
    g.rng.gen_range(low..high)
}

impl Generator {
    pub fn new(seed: u64) -> (r: Generator)
        ensures
            r@ == Some(Stream::start(seed)),
    {
        seeded(seed)
    }

    /// Lends the generator out, to be asked for what this library has no numbers for.
    /// What it gives afterwards is no longer known.
    pub fn lend(&mut self) -> (r: &mut ChaCha8Rng)
        ensures
            final(self)@ is None,
    {
        self.stream = Ghost(None);
        &mut self.rng
    }
}

} // verus!
