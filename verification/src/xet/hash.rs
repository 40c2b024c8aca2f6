//! Hashes as numbers, and the keys that are made of them.
use vstd::prelude::*;
use vstd::string::*;

use xet_core_structures::merklehash::DataHash;

verus! {

/// A 256-bit hash: of a chunk, of a xorb, or of a whole file. A word is eight of its 32
/// bytes, the first of them the least significant.
#[derive(Clone, Copy, PartialEq, Eq, Structural, Debug, Hash)]
pub struct MerkleHash {
    pub w0: u64,
    pub w1: u64,
    pub w2: u64,
    pub w3: u64,
}

impl MerkleHash {
    /// All ones. Stands for the xorb that is still being filled.
    pub open spec fn marks(self) -> bool {
        self == MerkleHash { w0: u64::MAX, w1: u64::MAX, w2: u64::MAX, w3: u64::MAX }
    }

    pub fn marker() -> (r: MerkleHash)
        ensures
            r.marks(),
    {
        MerkleHash { w0: u64::MAX, w1: u64::MAX, w2: u64::MAX, w3: u64::MAX }
    }

    /// The hash as four words.
    pub fn words(self) -> (r: [u64; 4])
        ensures
            r@ == seq![self.w0, self.w1, self.w2, self.w3],
    {
        [self.w0, self.w1, self.w2, self.w3]
    }

    pub fn from_words(w: [u64; 4]) -> (r: MerkleHash)
        ensures
            r == (MerkleHash { w0: w@[0], w1: w@[1], w2: w@[2], w3: w@[3] }),
    {
        MerkleHash { w0: w[0], w1: w[1], w2: w[2], w3: w[3] }
    }
}

/// The lowercase hexadecimal digit of a number below sixteen.
pub open spec fn hex_digit(d: nat) -> char {
    if d < 10 {
        (('0' as u32) + d) as char
    } else {
        (('a' as u32) + (d - 10)) as char
    }
}

/// The last `n` hexadecimal digits of `v`.
pub open spec fn hex_digits(v: nat, n: nat) -> Seq<char>
    decreases n,
{
    if n == 0 {
        Seq::empty()
    } else {
        hex_digits(v / 16, (n - 1) as nat).push(hex_digit(v % 16))
    }
}

/// A hash in hexadecimal: its words, sixteen digits each.
pub open spec fn hex_text(h: MerkleHash) -> Seq<char> {
    hex_digits(h.w0 as nat, 16) + hex_digits(h.w1 as nat, 16) + hex_digits(h.w2 as nat, 16)
        + hex_digits(h.w3 as nat, 16)
}

/// Calls `DataHash::hex`, which prints the four words of a hash one after the
/// other, each with sixteen lowercase hexadecimal digits and leading zeros. Its words are
/// little-endian in memory; they are the words of this library on every machine.
#[verifier::external_body]
fn hex(hash: MerkleHash) -> (r: String)
    ensures
        r@ == hex_text(hash),
{
    DataHash::from(hash.words().map(u64::to_le)).hex()
}

proof fn lemma_hex_digits(v: nat, n: nat)
    ensures
        hex_digits(v, n).len() == n,
        forall|i: int| 0 <= i < n ==> (#[trigger] hex_digits(v, n)[i]) as u32 <= 127,
    decreases n,
{
    if n > 0 {
        lemma_hex_digits(v / 16, (n - 1) as nat);
    }
}

/// Where a xorb is stored: under the first two pairs of its digits, so that no
/// directory holds them all.
pub open spec fn xorb_path(h: MerkleHash) -> Seq<char> {
    "lfs/xet/xorbs/"@ + hex_text(h).subrange(0, 2) + "/"@ + hex_text(h).subrange(2, 4) + "/"@
        + hex_text(h)
}

spec fn sixteen_to(n: nat) -> nat
    decreases n,
{
    if n == 0 {
        1
    } else {
        16 * sixteen_to((n - 1) as nat)
    }
}

/// Different numbers have different digits.
proof fn lemma_digits_differ(a: nat, b: nat, n: nat)
    requires
        a < sixteen_to(n),
        b < sixteen_to(n),
        hex_digits(a, n) == hex_digits(b, n),
    ensures
        a == b,
    decreases n,
{
    if n > 0 {
        let x = hex_digits(a, n);
        let y = hex_digits(b, n);
        lemma_hex_digits(a / 16, (n - 1) as nat);
        lemma_hex_digits(b / 16, (n - 1) as nat);
        assert(x.drop_last() =~= hex_digits(a / 16, (n - 1) as nat));
        assert(y.drop_last() =~= hex_digits(b / 16, (n - 1) as nat));
        assert(x.last() == hex_digit(a % 16) && y.last() == hex_digit(b % 16));
        assert(a % 16 == b % 16);
        lemma_digits_differ(a / 16, b / 16, (n - 1) as nat);
    }
}

proof fn lemma_words_differ(a: u64, b: u64)
    requires
        hex_digits(a as nat, 16) == hex_digits(b as nat, 16),
    ensures
        a == b,
{
    reveal_with_fuel(sixteen_to, 17);
    lemma_digits_differ(a as nat, b as nat, 16);
}

/// No two xorbs are stored under one key.
pub proof fn law_keys_differ(a: MerkleHash, b: MerkleHash)
    ensures
        xorb_path(a) == xorb_path(b) ==> a == b,
{
    if xorb_path(a) == xorb_path(b) {
        lemma_hex_digits(a.w0 as nat, 16);
        lemma_hex_digits(a.w1 as nat, 16);
        lemma_hex_digits(a.w2 as nat, 16);
        lemma_hex_digits(a.w3 as nat, 16);
        lemma_hex_digits(b.w0 as nat, 16);
        lemma_hex_digits(b.w1 as nat, 16);
        lemma_hex_digits(b.w2 as nat, 16);
        lemma_hex_digits(b.w3 as nat, 16);
        let (x, y) = (xorb_path(a), xorb_path(b));
        let n = x.len() as int;
        assert(x.subrange(n - 64, n) =~= hex_text(a));
        assert(y.subrange(n - 64, n) =~= hex_text(b));
        assert(hex_text(a).subrange(0, 16) =~= hex_digits(a.w0 as nat, 16));
        assert(hex_text(b).subrange(0, 16) =~= hex_digits(b.w0 as nat, 16));
        assert(hex_text(a).subrange(16, 32) =~= hex_digits(a.w1 as nat, 16));
        assert(hex_text(b).subrange(16, 32) =~= hex_digits(b.w1 as nat, 16));
        assert(hex_text(a).subrange(32, 48) =~= hex_digits(a.w2 as nat, 16));
        assert(hex_text(b).subrange(32, 48) =~= hex_digits(b.w2 as nat, 16));
        assert(hex_text(a).subrange(48, 64) =~= hex_digits(a.w3 as nat, 16));
        assert(hex_text(b).subrange(48, 64) =~= hex_digits(b.w3 as nat, 16));
        lemma_words_differ(a.w0, b.w0);
        lemma_words_differ(a.w1, b.w1);
        lemma_words_differ(a.w2, b.w2);
        lemma_words_differ(a.w3, b.w3);
    }
}

pub fn xorb_key(hash: MerkleHash) -> (r: String)
    ensures
        r@ == xorb_path(hash),
{
    let text = hex(hash);
    proof {
        lemma_hex_digits(hash.w0 as nat, 16);
        lemma_hex_digits(hash.w1 as nat, 16);
        lemma_hex_digits(hash.w2 as nat, 16);
        lemma_hex_digits(hash.w3 as nat, 16);
    }
    let mut r = String::from_str("lfs/xet/xorbs/");
    r.append(text.as_str().substring_char(0, 2));
    r.append("/");
    r.append(text.as_str().substring_char(2, 4));
    r.append("/");
    r.append(text.as_str());
    r
}

/// A xorb is stored under its digits: all of them at the end of the key, the first two pairs
/// as directories before that, and one key for each hash.
pub proof fn law_key_is_made_of_the_digits(
    a: MerkleHash,
    key: String,
    b: MerkleHash,
    other: String,
)
    requires
        call_ensures(xorb_key, (a,), key),
        call_ensures(xorb_key, (b,), other),
    ensures
        key@.len() == 84,
        key@.subrange(0, 14) == "lfs/xet/xorbs/"@,
        key@[16] == '/' && key@[19] == '/',
        key@.subrange(14, 16) == key@.subrange(20, 22),
        key@.subrange(17, 19) == key@.subrange(22, 24),
        key@.subrange(20, 36) == hex_digits(a.w0 as nat, 16),
        key@.subrange(36, 52) == hex_digits(a.w1 as nat, 16),
        key@.subrange(52, 68) == hex_digits(a.w2 as nat, 16),
        key@.subrange(68, 84) == hex_digits(a.w3 as nat, 16),
        key@ == other@ <==> a == b,
{
    reveal_strlit("lfs/xet/xorbs/");
    reveal_strlit("/");
    lemma_hex_digits(a.w0 as nat, 16);
    lemma_hex_digits(a.w1 as nat, 16);
    lemma_hex_digits(a.w2 as nat, 16);
    lemma_hex_digits(a.w3 as nat, 16);
    law_keys_differ(a, b);
    let k = key@;
    assert(k.subrange(0, 14) =~= "lfs/xet/xorbs/"@);
    assert(k.subrange(14, 16) =~= hex_text(a).subrange(0, 2));
    assert(k.subrange(17, 19) =~= hex_text(a).subrange(2, 4));
    assert(k.subrange(20, 22) =~= hex_text(a).subrange(0, 2));
    assert(k.subrange(22, 24) =~= hex_text(a).subrange(2, 4));
    assert(k.subrange(20, 36) =~= hex_digits(a.w0 as nat, 16));
    assert(k.subrange(36, 52) =~= hex_digits(a.w1 as nat, 16));
    assert(k.subrange(52, 68) =~= hex_digits(a.w2 as nat, 16));
    assert(k.subrange(68, 84) =~= hex_digits(a.w3 as nat, 16));
}

/// Another hexadecimal digit behind a number makes it sixteen times as much, and the digit
/// more.
pub proof fn law_hex_digits_count_by_sixteens(v: nat, d: nat, n: nat)
    requires
        d < 16,
    ensures
        hex_digits(16 * v + d, n + 1) == hex_digits(v, n).push(
            "0123456789abcdef"@[d as int],
        ),
        hex_digits(v, 0).len() == 0,
{
    reveal_strlit("0123456789abcdef");
    let w = 16 * v + d;
    assert(w / 16 == v && w % 16 == d);
    assert("0123456789abcdef"@[d as int] == hex_digit(d));
}

/// A hash is its four words, in their order; the reserved one has all bits set.
pub proof fn law_hash_is_its_words(h: MerkleHash, w: [u64; 4], back: MerkleHash, m: MerkleHash)
    requires
        call_ensures(MerkleHash::words, (h,), w),
        call_ensures(MerkleHash::from_words, (w,), back),
        call_ensures(MerkleHash::marker, (), m),
    ensures
        back == h,
        w@[0] == h.w0 && w@[1] == h.w1 && w@[2] == h.w2 && w@[3] == h.w3,
        m.w0 == 0xffff_ffff_ffff_ffff && m.w1 == m.w0 && m.w2 == m.w0 && m.w3 == m.w0,
        h.marks() <==> h == m,
{
}

} // verus!
