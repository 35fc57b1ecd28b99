//! A read cursor over an owned byte buffer, and the little-endian and
//! compact-size readers built on it.

use vstd::prelude::*;
use crate::byte_view::ByteView;
use crate::bytes::sub_bytes;
use crate::le::le_nat;

verus! {

/// Why a read from a cursor failed.
#[derive(Debug, PartialEq, Eq)]
pub enum CursorError {
    /// Fewer bytes remain than the read needs.
    UnexpectedEof,
}

/// A position in a byte buffer; the position may lie past the end.
pub struct ByteCursor {
    data: Vec<u8>,
    position: u64,
}

impl ByteCursor {
    /// A cursor at the start of `data`.
    pub fn new(data: Vec<u8>) -> (c: Self)
        ensures c.data() == data@, c.position() == 0,
    {
        ByteCursor { data, position: 0 }
    }

    /// The buffer.
    pub closed spec fn data(&self) -> Seq<u8> {
        self.data@
    }

    /// The position.
    pub closed spec fn position(&self) -> u64 {
        self.position
    }

    /// The current position.
    pub fn get_position(&self) -> (p: u64)
        ensures p == self.position(),
    {
        self.position
    }

    /// Moves the cursor to `position`.
    pub fn set_position(&mut self, position: u64)
        ensures final(self).data() == old(self).data(), final(self).position() == position,
    {
        self.position = position;
    }

    /// The buffer.
    pub fn get_ref(&self) -> (d: &Vec<u8>)
        ensures d@ == self.data(),
    {
        &self.data
    }
}

/// The bytes left to read.
pub open spec fn remaining(c: &ByteCursor) -> Seq<u8> {
    c.data().subrange(c.position() as int, c.data().len() as int)
}

/// Whether the cursor is at or past the end of its buffer.
pub fn is_empty(cursor: &mut ByteCursor) -> (r: bool)
    ensures
        r == (old(cursor).position() >= old(cursor).data().len()),
        *final(cursor) == *old(cursor),
{
    cursor.position >= cursor.data.len() as u64
}

/// The bytes from the position to the end.
pub fn remaining_slice(cursor: &mut ByteCursor) -> (r: &[u8])
    requires old(cursor).position() <= old(cursor).data().len(),
    ensures
        r@ == remaining(old(cursor)),
        *final(cursor) == *old(cursor),
{
    let c: &ByteCursor = cursor;
    let start = c.position as usize;
    vstd::slice::slice_subrange(c.data.as_slice(), start, c.data.len())
}

/// Reads exactly `n` bytes. When fewer remain, the read fails and the
/// cursor is left at the end of its buffer.
pub fn consume_exact(cursor: &mut ByteCursor, n: usize) -> (r: Result<Vec<u8>, CursorError>)
    ensures
        final(cursor).data() == old(cursor).data(),
        r is Ok <==> old(cursor).position() + n <= old(cursor).data().len(),
        r matches Ok(v) ==> v@ == old(cursor).data().subrange(old(cursor).position() as int, old(cursor).position() + n)
            && final(cursor).position() == old(cursor).position() + n,
        r is Err ==> r == Err::<Vec<u8>, CursorError>(CursorError::UnexpectedEof)
            && final(cursor).position() == old(cursor).data().len(),
{
    let len = cursor.data.len();
    if cursor.position > len as u64 || (len as u64) - cursor.position < n as u64 {
        cursor.position = len as u64;
        return Err(CursorError::UnexpectedEof);
    }
    let start = cursor.position as usize;
    let out = sub_bytes(cursor.data.as_slice(), start, start + n);
    cursor.position = cursor.position + n as u64;
    Ok(out)
}

/// Reads the rest of the buffer; an exhausted cursor gives nothing and
/// stays where it is.
pub fn consume_to_end(cursor: &mut ByteCursor) -> (r: Result<Vec<u8>, CursorError>)
    ensures
        r is Ok,
        final(cursor).data() == old(cursor).data(),
        old(cursor).position() >= old(cursor).data().len() ==> (r matches Ok(v) && v@ == Seq::<u8>::empty()
            && final(cursor).position() == old(cursor).position()),
        old(cursor).position() < old(cursor).data().len() ==> (r matches Ok(v) && v@ == remaining(old(cursor))
            && final(cursor).position() == old(cursor).data().len()),
{
    if is_empty(cursor) {
        return Ok(Vec::new());
    }
    let len = cursor.data.len();
    let start = cursor.position as usize;
    let out = sub_bytes(cursor.data.as_slice(), start, len);
    cursor.position = len as u64;
    Ok(out)
}

/// Reads a little-endian integer of type `T`.
pub fn consume_sized_int<T: ByteView>(cursor: &mut ByteCursor) -> (r: Result<T, CursorError>)
    ensures
        final(cursor).data() == old(cursor).data(),
        r is Ok <==> old(cursor).position() + T::spec_width() <= old(cursor).data().len(),
        r matches Ok(x) ==> x.spec_value() == le_nat(old(cursor).data().subrange(old(cursor).position() as int, old(cursor).position() + T::spec_width()))
            && final(cursor).position() == old(cursor).position() + T::spec_width(),
        r is Err ==> r == Err::<T, CursorError>(CursorError::UnexpectedEof)
            && final(cursor).position() == old(cursor).data().len(),
{
    let buffer = consume_exact(cursor, T::byte_width())?;
    Ok(T::from_bytes(buffer))
}

/// Reads a little-endian `u128`.
pub fn consume_u128(cursor: &mut ByteCursor) -> (r: Result<u128, CursorError>)
    ensures
        final(cursor).data() == old(cursor).data(),
        r is Ok <==> old(cursor).position() + 16 <= old(cursor).data().len(),
        r matches Ok(x) ==> x as nat == le_nat(old(cursor).data().subrange(old(cursor).position() as int, old(cursor).position() + 16))
            && final(cursor).position() == old(cursor).position() + 16,
        r is Err ==> final(cursor).position() == old(cursor).data().len(),
{
    consume_sized_int::<u128>(cursor)
}

/// The value of a compact-size integer whose first byte is `tag`, followed
/// by `rest`.
pub open spec fn varint_value(tag: u8, rest: Seq<u8>) -> nat {
    if tag == 0xff || tag == 0xfe || tag == 0xfd { le_nat(rest) } else { tag as nat }
}

/// The number of bytes after the first byte of a compact-size integer.
pub open spec fn varint_rest_len(tag: u8) -> nat {
    if tag == 0xff { 8 } else if tag == 0xfe { 4 } else if tag == 0xfd { 2 } else { 0 }
}

/// Reads a compact-size integer: one byte, or `0xfd`, `0xfe` or `0xff`
/// followed by a little-endian `u16`, `u32` or `u64`.
pub fn consume_varint(cursor: &mut ByteCursor) -> (r: Result<u64, CursorError>)
    ensures
        final(cursor).data() == old(cursor).data(),
        ({
            let d = old(cursor).data();
            let p = old(cursor).position();
            if p + 1 > d.len() {
                r is Err && final(cursor).position() == d.len()
            } else {
                let tag = d[p as int];
                let w = varint_rest_len(tag);
                if p + 1 + w > d.len() {
                    r is Err && final(cursor).position() == d.len()
                } else {
                    r matches Ok(x) && x as nat == varint_value(tag, d.subrange(p + 1, p + 1 + w))
                        && final(cursor).position() == p + 1 + w
                }
            }
        }),
{
    let ghost d = cursor.data();
    let ghost p = cursor.position();
    let tag = consume_sized_int::<u8>(cursor)?;
    proof {
        let one = d.subrange(p as int, p + 1);
        reveal_with_fuel(le_nat, 2);
        assert(one.drop_first() =~= Seq::<u8>::empty());
        assert(tag as nat == d[p as int] as nat);
    }
    if tag == 0xff {
        let v = consume_sized_int::<u64>(cursor)?;
        Ok(v)
    } else if tag == 0xfe {
        let v = consume_sized_int::<u32>(cursor)?;
        Ok(v as u64)
    } else if tag == 0xfd {
        let v = consume_sized_int::<u16>(cursor)?;
        Ok(v as u64)
    } else {
        Ok(tag as u64)
    }
}

} // verus!
