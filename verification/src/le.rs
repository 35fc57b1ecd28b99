//! Little-endian byte encodings of unsigned integers.

use vstd::prelude::*;

verus! {

/// `256^n`.
pub open spec fn pow256(n: nat) -> nat
    decreases n,
{
    if n == 0 { 1 } else { 256 * pow256((n - 1) as nat) }
}

/// The value of a little-endian byte string.
pub open spec fn le_nat(s: Seq<u8>) -> nat
    decreases s.len(),
{
    if s.len() == 0 { 0 } else { s[0] as nat + 256 * le_nat(s.drop_first()) }
}

/// The `n` low-order bytes of `x`, least significant first.
pub open spec fn le_bytes(x: nat, n: nat) -> Seq<u8>
    decreases n,
{
    if n == 0 { Seq::empty() } else { seq![(x % 256) as u8].add(le_bytes(x / 256, (n - 1) as nat)) }
}

pub proof fn lemma_pow256_positive(n: nat)
    ensures pow256(n) >= 1,
    decreases n,
{
    if n > 0 { lemma_pow256_positive((n - 1) as nat); }
}

pub proof fn lemma_le_bytes_len(x: nat, n: nat)
    ensures le_bytes(x, n).len() == n,
    decreases n,
{
    if n > 0 { lemma_le_bytes_len(x / 256, (n - 1) as nat); }
}

/// Decoding an encoding gives the value back.
pub proof fn lemma_le_nat_of_le_bytes(x: nat, n: nat)
    requires x < pow256(n),
    ensures le_nat(le_bytes(x, n)) == x,
    decreases n,
{
    if n > 0 {
        lemma_le_bytes_len(x / 256, (n - 1) as nat);
        assert(x / 256 < pow256((n - 1) as nat)) by (nonlinear_arith)
            requires x < 256 * pow256((n - 1) as nat);
        lemma_le_nat_of_le_bytes(x / 256, (n - 1) as nat);
        let s = le_bytes(x, n);
        assert(s.drop_first() =~= le_bytes(x / 256, (n - 1) as nat));
        assert(x == x % 256 + 256 * (x / 256)) by (nonlinear_arith);
    }
}

/// Encoding a decoded byte string gives the byte string back.
pub proof fn lemma_le_bytes_of_le_nat(s: Seq<u8>)
    ensures le_bytes(le_nat(s), s.len()) == s, le_nat(s) < pow256(s.len()),
    decreases s.len(),
{
    if s.len() > 0 {
        let t = s.drop_first();
        lemma_le_bytes_of_le_nat(t);
        let v = le_nat(s);
        let r = le_nat(t);
        assert(v % 256 == s[0] as nat && v / 256 == r) by (nonlinear_arith)
            requires v == s[0] as nat + 256 * r, s[0] < 256;
        assert(le_bytes(v, s.len()) =~= s);
        assert(v < 256 * pow256(t.len())) by (nonlinear_arith)
            requires v == s[0] as nat + 256 * r, s[0] < 256, r < pow256(t.len());
    }
}

/// Little-endian encoding of `value`, as `u32::to_le_bytes` gives it.
pub fn u32_le(value: u32) -> (out: [u8; 4])
    ensures out@ == le_bytes(value as nat, 4),
{
    let out = [(value % 256) as u8, ((value / 256) % 256) as u8, ((value / 65536) % 256) as u8, (value / 16777216) as u8];
    proof {
        let x = value as nat;
        assert(x / 256 / 256 == x / 65536) by (nonlinear_arith);
        assert(x / 65536 / 256 == x / 16777216) by (nonlinear_arith);
        assert(x / 16777216 < 256) by (nonlinear_arith) requires x < 0x1_0000_0000;
        assert(x / 16777216 / 256 == 0) by (nonlinear_arith) requires x < 0x1_0000_0000;
        reveal_with_fuel(le_bytes, 5);
        assert(out@ =~= le_bytes(x, 4));
    }
    out
}

/// The `width` low-order bytes of `x`, least significant first.
pub fn le_encode(x: u128, width: usize) -> (out: Vec<u8>)
    ensures out@ == le_bytes(x as nat, width as nat),
{
    let mut out: Vec<u8> = Vec::with_capacity(width);
    let mut cur = x;
    let mut i: usize = 0;
    while i < width
        invariant
            i <= width,
            out@ + le_bytes(cur as nat, (width - i) as nat) == le_bytes(x as nat, width as nat),
        decreases width - i,
    {
        let ghost before = out@;
        assert(le_bytes(cur as nat, (width - i) as nat) == seq![(cur as nat % 256) as u8] + le_bytes(cur as nat / 256, (width - i - 1) as nat));
        out.push((cur % 256) as u8);
        cur = cur / 256;
        i = i + 1;
        assert(out@ + le_bytes(cur as nat, (width - i) as nat) =~= before + (seq![(out@.last())] + le_bytes(cur as nat, (width - i) as nat)));
    }
    assert(le_bytes(cur as nat, 0) =~= Seq::<u8>::empty());
    assert(out@ + Seq::<u8>::empty() =~= out@);
    out
}

pub proof fn lemma_pow256_16()
    ensures pow256(16) == 0x1_0000_0000_0000_0000_0000_0000_0000_0000,
{
    reveal_with_fuel(pow256, 17);
}

pub proof fn lemma_pow256_monotone(a: nat, b: nat)
    requires a <= b,
    ensures pow256(a) <= pow256(b),
    decreases b,
{
    if a < b {
        lemma_pow256_monotone(a, (b - 1) as nat);
        lemma_pow256_positive((b - 1) as nat);
    }
}

/// The value of a little-endian byte string of at most 16 bytes.
pub fn le_decode(s: &[u8]) -> (x: u128)
    requires s@.len() <= 16,
    ensures x == le_nat(s@),
{
    let n = s.len();
    let mut acc: u128 = 0;
    let mut i: usize = n;
    assert(s@.subrange(n as int, n as int) =~= Seq::<u8>::empty());
    while i > 0
        invariant
            i <= n == s@.len() <= 16,
            acc as nat == le_nat(s@.subrange(i as int, n as int)),
        decreases i,
    {
        let ghost tail = s@.subrange(i as int, n as int);
        let ghost t2 = s@.subrange(i - 1, n as int);
        assert(t2.drop_first() =~= tail);
        proof {
            lemma_le_bytes_of_le_nat(tail);
            lemma_pow256_monotone(tail.len(), 15);
            lemma_pow256_16();
            assert(pow256(16) == 256 * pow256(15));
            assert(acc * 256 + 255 < 0x1_0000_0000_0000_0000_0000_0000_0000_0000) by (nonlinear_arith)
                requires acc < pow256(15), 256 * pow256(15) == 0x1_0000_0000_0000_0000_0000_0000_0000_0000nat;
        }
        acc = acc * 256 + s[i - 1] as u128;
        i = i - 1;
    }
    assert(s@.subrange(0, n as int) =~= s@);
    acc
}

} // verus!
