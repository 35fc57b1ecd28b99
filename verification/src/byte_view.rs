//! Fixed-width unsigned integers as little-endian byte strings.

use vstd::prelude::*;
use crate::le::{le_bytes, le_decode, le_encode, le_nat, pow256, lemma_le_bytes_len, lemma_le_bytes_of_le_nat, lemma_le_nat_of_le_bytes};

verus! {

/// An unsigned integer type with a fixed little-endian byte layout.
pub trait ByteView: Sized {
    /// The number of bytes of the layout.
    spec fn spec_width() -> nat;

    /// The value as a natural number.
    spec fn spec_value(&self) -> nat;

    /// The number of bytes of the layout.
    fn byte_width() -> (w: usize)
        ensures w == Self::spec_width(), w <= 16;

    /// Reads a value from exactly `spec_width()` bytes.
    fn from_bytes(v: Vec<u8>) -> (r: Self)
        requires v@.len() == Self::spec_width(),
        ensures r.spec_value() == le_nat(v@);

    /// The little-endian bytes of the value.
    fn to_bytes(&self) -> (r: Vec<u8>)
        ensures r@ == le_bytes(self.spec_value(), Self::spec_width());

    /// The largest value.
    fn maximum() -> (r: Self)
        ensures r.spec_value() + 1 == pow256(Self::spec_width());

    /// The value zero.
    fn zero() -> (r: Self)
        ensures r.spec_value() == 0;
}

/// `b` emptied and then with its first `v` bytes drained: only `v == 0` is
/// possible, and it gives an empty vector.
pub fn shrink_back(b: Vec<u8>, v: usize) -> (r: Vec<u8>)
    requires v == 0,
    ensures r@ == Seq::<u8>::empty(),
{
    let mut vec = b;
    vec.clear();
    vec
}

proof fn lemma_le_nat_bound(s: Seq<u8>)
    ensures le_nat(s) < pow256(s.len()),
{
    lemma_le_bytes_of_le_nat(s);
}

proof fn lemma_pow256_values()
    ensures
        pow256(1) == 0x100,
        pow256(2) == 0x1_0000,
        pow256(4) == 0x1_0000_0000,
        pow256(8) == 0x1_0000_0000_0000_0000,
        pow256(16) == 0x1_0000_0000_0000_0000_0000_0000_0000_0000,
{
    reveal_with_fuel(pow256, 17);
}

impl ByteView for u8 {
    open spec fn spec_width() -> nat { 1 }
    open spec fn spec_value(&self) -> nat { *self as nat }

    fn byte_width() -> (w: usize) { 1 }

    fn from_bytes(v: Vec<u8>) -> (r: u8) {
        proof { lemma_le_nat_bound(v@); lemma_pow256_values(); }
        le_decode(v.as_slice()) as u8
    }

    fn to_bytes(&self) -> (r: Vec<u8>) {
        le_encode(*self as u128, 1)
    }

    fn maximum() -> (r: u8) {
        proof { lemma_pow256_values(); }
        u8::MAX
    }

    fn zero() -> (r: u8) { 0 }
}

impl ByteView for u16 {
    open spec fn spec_width() -> nat { 2 }
    open spec fn spec_value(&self) -> nat { *self as nat }

    fn byte_width() -> (w: usize) { 2 }

    fn from_bytes(v: Vec<u8>) -> (r: u16) {
        proof { lemma_le_nat_bound(v@); lemma_pow256_values(); }
        le_decode(v.as_slice()) as u16
    }

    fn to_bytes(&self) -> (r: Vec<u8>) {
        le_encode(*self as u128, 2)
    }

    fn maximum() -> (r: u16) {
        proof { lemma_pow256_values(); }
        u16::MAX
    }

    fn zero() -> (r: u16) { 0 }
}

impl ByteView for u32 {
    open spec fn spec_width() -> nat { 4 }
    open spec fn spec_value(&self) -> nat { *self as nat }

    fn byte_width() -> (w: usize) { 4 }

    fn from_bytes(v: Vec<u8>) -> (r: u32) {
        proof { lemma_le_nat_bound(v@); lemma_pow256_values(); }
        le_decode(v.as_slice()) as u32
    }

    fn to_bytes(&self) -> (r: Vec<u8>) {
        le_encode(*self as u128, 4)
    }

    fn maximum() -> (r: u32) {
        proof { lemma_pow256_values(); }
        u32::MAX
    }

    fn zero() -> (r: u32) { 0 }
}

impl ByteView for u64 {
    open spec fn spec_width() -> nat { 8 }
    open spec fn spec_value(&self) -> nat { *self as nat }

    fn byte_width() -> (w: usize) { 8 }

    fn from_bytes(v: Vec<u8>) -> (r: u64) {
        proof { lemma_le_nat_bound(v@); lemma_pow256_values(); }
        le_decode(v.as_slice()) as u64
    }

    fn to_bytes(&self) -> (r: Vec<u8>) {
        le_encode(*self as u128, 8)
    }

    fn maximum() -> (r: u64) {
        proof { lemma_pow256_values(); }
        u64::MAX
    }

    fn zero() -> (r: u64) { 0 }
}

impl ByteView for u128 {
    open spec fn spec_width() -> nat { 16 }
    open spec fn spec_value(&self) -> nat { *self as nat }

    fn byte_width() -> (w: usize) { 16 }

    fn from_bytes(v: Vec<u8>) -> (r: u128) {
        le_decode(v.as_slice())
    }

    fn to_bytes(&self) -> (r: Vec<u8>) {
        le_encode(*self, 16)
    }

    fn maximum() -> (r: u128) {
        proof { lemma_pow256_values(); }
        u128::MAX
    }

    fn zero() -> (r: u128) { 0 }
}

impl ByteView for usize {
    open spec fn spec_width() -> nat { (usize::BITS / 8) as nat }
    open spec fn spec_value(&self) -> nat { *self as nat }

    fn byte_width() -> (w: usize) {
        (usize::BITS / 8) as usize
    }

    fn from_bytes(v: Vec<u8>) -> (r: usize) {
        proof {
            lemma_le_nat_bound(v@);
            lemma_pow256_values();
            assert(usize::BITS == 32 || usize::BITS == 64);
        }
        le_decode(v.as_slice()) as usize
    }

    fn to_bytes(&self) -> (r: Vec<u8>) {
        le_encode(*self as u128, (usize::BITS / 8) as usize)
    }

    fn maximum() -> (r: usize) {
        proof {
            lemma_pow256_values();
            assert(usize::BITS == 32 || usize::BITS == 64);
        }
        usize::MAX
    }

    fn zero() -> (r: usize) { 0 }
}

/// Reading the bytes of a value gives the value back.
pub proof fn lemma_from_to_bytes<T: ByteView>(x: T)
    requires x.spec_value() < pow256(T::spec_width()),
    ensures
        le_bytes(x.spec_value(), T::spec_width()).len() == T::spec_width(),
        le_nat(le_bytes(x.spec_value(), T::spec_width())) == x.spec_value(),
{
    lemma_le_bytes_len(x.spec_value(), T::spec_width());
    lemma_le_nat_of_le_bytes(x.spec_value(), T::spec_width());
}

} // verus!
