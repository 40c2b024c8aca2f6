//! Numbers as bytes and as text: big-endian fields of a fixed width, and
//! decimal digits for messages.
use vstd::prelude::*;

verus! {

/// `256` to the power `n`: one more than the largest value that `n` bytes hold.
pub open spec fn byte_range(n: nat) -> nat
    decreases n,
{
    if n == 0 {
        1
    } else {
        256 * byte_range((n - 1) as nat)
    }
}

/// The low `n` bytes of `v`, most significant first.
pub open spec fn be(v: nat, n: nat) -> Seq<u8>
    decreases n,
{
    if n == 0 {
        Seq::empty()
    } else {
        be(v / 256, (n - 1) as nat).push((v % 256) as u8)
    }
}

/// The number that a sequence of bytes denotes, most significant first.
pub open spec fn from_be(s: Seq<u8>) -> nat
    decreases s.len(),
{
    if s.len() == 0 {
        0
    } else {
        from_be(s.drop_last()) * 256 + s.last() as nat
    }
}

pub proof fn lemma_be_len(v: nat, n: nat)
    ensures
        be(v, n).len() == n,
    decreases n,
{
    if n > 0 {
        lemma_be_len(v / 256, (n - 1) as nat);
    }
}

/// Reading a field back gives the value that was written into it.
pub proof fn law_be_round_trip(v: nat, n: nat)
    requires
        v < byte_range(n),
    ensures
        be(v, n).len() == n,
        from_be(be(v, n)) == v,
    decreases n,
{
    lemma_be_len(v, n);
    if n > 0 {
        law_be_round_trip(v / 256, (n - 1) as nat);
        assert(be(v, n).drop_last() =~= be(v / 256, (n - 1) as nat));
        assert(be(v, n).last() == (v % 256) as u8);
    }
}

pub proof fn lemma_from_be_bound(s: Seq<u8>)
    ensures
        from_be(s) < byte_range(s.len()),
    decreases s.len(),
{
    if s.len() > 0 {
        lemma_from_be_bound(s.drop_last());
    }
}

pub proof fn lemma_byte_ranges()
    ensures
        byte_range(0) == 1,
        byte_range(2) == 0x1_0000,
        byte_range(4) == 0x1_0000_0000,
        byte_range(8) == 0x1_0000_0000_0000_0000,
{
    reveal_with_fuel(byte_range, 9);
}

pub proof fn lemma_byte_range_grows(a: nat, b: nat)
    requires
        a <= b,
    ensures
        byte_range(a) <= byte_range(b),
    decreases b - a,
{
    if a < b {
        lemma_byte_range_grows(a, (b - 1) as nat);
    }
}

/// Appends `v` as a big-endian field of `n` bytes.
pub fn put_be(out: &mut Vec<u8>, v: u64, n: usize)
    ensures
        final(out)@ == old(out)@ + be(v as nat, n as nat),
    decreases n,
{
    if n > 0 {
        put_be(out, v / 256, n - 1);
        out.push((v % 256) as u8);
        assert(out@ =~= old(out)@ + be(v as nat, n as nat));
    } else {
        assert(out@ =~= old(out)@ + be(v as nat, 0));
    }
}

/// Reads the big-endian field of `n` bytes that starts at `at`.
pub fn get_be(b: &[u8], at: usize, n: usize) -> (v: u64)
    requires
        n <= 8,
        at + n <= b.len(),
    ensures
        v as nat == from_be(b@.subrange(at as int, at + n)),
        v < byte_range(n as nat),
{
    let mut v: u64 = 0;
    let mut i: usize = 0;
    assert(b@.subrange(at as int, at as int) =~= Seq::<u8>::empty());
    while i < n
        invariant
            i <= n <= 8,
            at + n <= b.len(),
            v as nat == from_be(b@.subrange(at as int, at + i)),
        decreases n - i,
    {
        proof {
            let read = b@.subrange(at as int, at + i);
            let next = b@.subrange(at as int, at + i + 1);
            lemma_from_be_bound(read);
            lemma_byte_ranges();
            lemma_byte_range_grows((i + 1) as nat, 8);
            assert(next.drop_last() =~= read);
            assert(next.last() == b@[at + i]);
            lemma_from_be_bound(next);
        }
        v = v * 256 + b[at + i] as u64;
        i = i + 1;
    }
    proof {
        lemma_from_be_bound(b@.subrange(at as int, at + n));
    }
    v
}

/// One decimal digit.
pub open spec fn digit(d: nat) -> Seq<char> {
    if d == 0 {
        "0"@
    } else if d == 1 {
        "1"@
    } else if d == 2 {
        "2"@
    } else if d == 3 {
        "3"@
    } else if d == 4 {
        "4"@
    } else if d == 5 {
        "5"@
    } else if d == 6 {
        "6"@
    } else if d == 7 {
        "7"@
    } else if d == 8 {
        "8"@
    } else {
        "9"@
    }
}

/// `v` in decimal, without leading zeros.
pub open spec fn decimal(v: nat) -> Seq<char>
    decreases v,
{
    if v < 10 {
        digit(v)
    } else {
        decimal(v / 10) + digit(v % 10)
    }
}

fn digit_text(d: u64) -> (r: &'static str)
    requires
        d < 10,
    ensures
        r@ == digit(d as nat),
{
    match d {
        0 => "0",
        1 => "1",
        2 => "2",
        3 => "3",
        4 => "4",
        5 => "5",
        6 => "6",
        7 => "7",
        8 => "8",
        _ => "9",
    }
}

/// `v` in decimal, without leading zeros.
pub fn decimal_text(v: u64) -> (r: String)
    ensures
        r@ == decimal(v as nat),
    decreases v,
{
    if v < 10 {
        String::from_str(digit_text(v))
    } else {
        let mut r = decimal_text(v / 10);
        r.append(digit_text(v % 10));
        r
    }
}

/// The little-endian number in four bytes at `at`.
pub open spec fn le32(b: Seq<u8>, at: int) -> nat {
    (b[at] + 0x100 * b[at + 1] + 0x1_0000 * b[at + 2] + 0x100_0000 * b[at + 3]) as nat
}

/// Reads the little-endian number in four bytes at `at`.
pub fn get_le32(b: &[u8], at: usize) -> (v: u32)
    requires
        at + 4 <= b.len(),
    ensures
        v as nat == le32(b@, at as int),
{
    b[at] as u32 + 0x100 * (b[at + 1] as u32) + 0x1_0000 * (b[at + 2] as u32) + 0x100_0000 * (
    b[at + 3] as u32)
}

/// A field of one byte is that byte, and the bytes in front of others count for as much more
/// as the others can tell apart.
pub proof fn law_bytes_in_front_count_for_more(a: Seq<u8>, b: Seq<u8>, x: u8)
    ensures
        from_be(seq![x]) == x,
        from_be(a + seq![x]) == from_be(a) * 0x100 + x,
        from_be(seq![x] + b) == x * byte_range(b.len()) + from_be(b),
    decreases b.len(),
{
    let one = seq![x];
    assert(one.drop_last() =~= Seq::<u8>::empty());
    assert(from_be(one.drop_last()) == 0);
    assert((a + one).drop_last() =~= a);
    if b.len() == 0 {
        assert(one + b =~= one);
        let q = byte_range(b.len());
        assert(x * q == x) by (nonlinear_arith)
            requires
                q == 1,
        ;
    } else {
        let front = b.drop_last();
        law_bytes_in_front_count_for_more(a, front, x);
        assert((one + b).drop_last() =~= one + front);
        let p = byte_range(front.len());
        let q = byte_range(b.len());
        assert(x * q == x * (256 * p)) by (nonlinear_arith)
            requires
                q == 256 * p,
        ;
        let f = from_be(front);
        assert((one + b).last() == b.last());
        assert(from_be(b) == f * 256 + b.last());
        assert(from_be(one + b) == (x * p + f) * 256 + b.last());
        assert((x * p + f) * 256 == x * (256 * p) + f * 256) by (nonlinear_arith);
    }
}

/// Another digit behind a number makes it ten times as much, and the digit more. A number
/// below ten is its digit alone.
pub proof fn law_digits_count_by_tens(v: nat, d: nat)
    requires
        d < 10,
    ensures
        decimal(d) == seq![(('0' as u32) + d) as char],
        v > 0 ==> decimal(10 * v + d) == decimal(v).push((('0' as u32) + d) as char),
{
    reveal_strlit("0");
    reveal_strlit("1");
    reveal_strlit("2");
    reveal_strlit("3");
    reveal_strlit("4");
    reveal_strlit("5");
    reveal_strlit("6");
    reveal_strlit("7");
    reveal_strlit("8");
    reveal_strlit("9");
    assert(decimal(d) =~= seq![(('0' as u32) + d) as char]);
    if v > 0 {
        let w = 10 * v + d;
        assert(w / 10 == v && w % 10 == d);
        assert(decimal(w) =~= decimal(v).push((('0' as u32) + d) as char));
    }
}

/// A little-endian number has its first byte as its lowest, and each that follows counts 256
/// times as much as the one before.
pub proof fn law_little_endian_begins_with_the_lowest(b: &[u8], at: usize, v: u32)
    requires
        at + 4 <= b@.len(),
        call_ensures(get_le32, (b, at), v),
    ensures
        v % 0x100 == b@[at as int],
        (v / 0x100) % 0x100 == b@[at + 1],
        (v / 0x1_0000) % 0x100 == b@[at + 2],
        v / 0x100_0000 == b@[at + 3],
{
}

/// A field reads back as the number that was put there, for every width of up to eight bytes
/// that holds it, and the text of a number is its decimal digits.
pub proof fn law_field_reads_back(b: &[u8], at: usize, n: usize, v: u64, w: u64, text: String)
    requires
        n <= 8,
        at + n <= b@.len(),
        w < byte_range(n as nat),
        b@.subrange(at as int, at + n) == be(w as nat, n as nat),
        call_ensures(get_be, (b, at, n), v),
        call_ensures(decimal_text, (w,), text),
    ensures
        v == w,
        text@ == decimal(w as nat),
        forall|out: &mut Vec<u8>, r: ()| #[trigger]
            call_ensures(put_be, (out, w, n), r) ==> (*final(out))@ == (*out)@ + be(
                w as nat,
                n as nat,
            ),
{
    law_be_round_trip(w as nat, n as nat);
}

} // verus!
