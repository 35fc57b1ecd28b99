//! Readable text for a key: the key is split at each `/`, and each
//! non-empty piece is shown after a `/`, as it is when it is ASCII and in
//! hex otherwise.

use vstd::prelude::*;
use vstd::utf8::*;
use crate::bytes::append_bytes;
use crate::codec::string_from_utf8;
use crate::hashing::{hex_encode, hex_text};

verus! {

/// Every byte is ASCII.
pub open spec fn all_ascii(s: Seq<u8>) -> bool {
    forall|i: int| 0 <= i < s.len() ==> #[trigger] s[i] < 128
}

/// The pieces of `v[start..]` split at each `/` from position `i` on,
/// where `v[start..i]` holds no `/`.
pub open spec fn segments_from(v: Seq<u8>, start: int, i: int) -> Seq<Seq<u8>>
    decreases v.len() - i,
{
    if i >= v.len() {
        seq![v.subrange(start, v.len() as int)]
    } else if v[i] == 47 {
        seq![v.subrange(start, i)] + segments_from(v, i + 1, i + 1)
    } else {
        segments_from(v, start, i + 1)
    }
}

/// The pieces of `v` split at each `/` (empty pieces included).
pub open spec fn slash_segments(v: Seq<u8>) -> Seq<Seq<u8>> {
    segments_from(v, 0, 0)
}

/// How one piece is shown: nothing when it is empty, else a `/` and the
/// piece itself when it is ASCII or its hex text otherwise.
pub open spec fn render_segment(seg: Seq<u8>) -> Seq<u8> {
    if seg.len() == 0 {
        Seq::empty()
    } else if all_ascii(seg) {
        seq![47u8] + seg
    } else {
        seq![47u8] + hex_text(seg)
    }
}

/// The pieces shown one after the other.
pub open spec fn render_all(segs: Seq<Seq<u8>>) -> Seq<u8>
    decreases segs.len(),
{
    if segs.len() == 0 { Seq::empty() } else { render_segment(segs[0]) + render_all(segs.drop_first()) }
}

/// The text of a key.
pub open spec fn formatted_key(v: Seq<u8>) -> Seq<u8> {
    render_all(slash_segments(v))
}

proof fn lemma_render_cons(a: Seq<u8>, rest: Seq<Seq<u8>>)
    ensures render_all(seq![a] + rest) == render_segment(a) + render_all(rest),
{
    assert((seq![a] + rest).drop_first() =~= rest);
    assert((seq![a] + rest)[0] == a);
}

proof fn lemma_render_ascii(segs: Seq<Seq<u8>>)
    ensures all_ascii(render_all(segs)),
    decreases segs.len(),
{
    if segs.len() > 0 {
        lemma_render_ascii(segs.drop_first());
        let seg = segs[0];
        let r = render_segment(seg);
        assert(all_ascii(r)) by {
            if seg.len() > 0 && !all_ascii(seg) {
                assert forall|i: int| 0 <= i < hex_text(seg).len() implies #[trigger] hex_text(seg)[i] < 128 by {
                    let b = seg[i / 2] as int;
                    assert(0 <= b / 16 < 16 && 0 <= b % 16 < 16);
                };
                assert forall|i: int| 0 <= i < r.len() implies #[trigger] r[i] < 128 by {
                    if i > 0 {
                        assert(r[i] == hex_text(seg)[i - 1]);
                    }
                };
            } else if seg.len() > 0 {
                assert forall|i: int| 0 <= i < r.len() implies #[trigger] r[i] < 128 by {
                    if i > 0 {
                        assert(r[i] == seg[i - 1]);
                    }
                };
            }
        };
        let all = render_all(segs);
        let tail = render_all(segs.drop_first());
        assert(all == r + tail);
        assert forall|i: int| 0 <= i < all.len() implies #[trigger] all[i] < 128 by {
            if i < r.len() {
                assert(all[i] == r[i]);
            } else {
                assert(all[i] == tail[i - r.len()]);
            }
        };
    }
}

pub proof fn lemma_ascii_valid_utf8(b: Seq<u8>)
    requires all_ascii(b),
    ensures valid_utf8(b),
    decreases b.len(),
{
    if b.len() > 0 {
        let rest = b.subrange(1, b.len() as int);
        assert forall|i: int| 0 <= i < rest.len() implies #[trigger] rest[i] < 128 by {
            assert(rest[i] == b[i + 1]);
        };
        lemma_ascii_valid_utf8(rest);
        let x = b[0];
        assert(x < 128);
        assert((x & 0x7F) as u32 <= 0x7F) by (bit_vector);
        assert(pop_first_scalar(b) =~= rest);
    }
}

/// Whether every byte of `s` is ASCII.
fn is_ascii_bytes(s: &[u8]) -> (r: bool)
    ensures r == all_ascii(s@),
{
    let mut i: usize = 0;
    while i < s.len()
        invariant
            i <= s@.len(),
            forall|j: int| 0 <= j < i ==> #[trigger] s@[j] < 128,
        decreases s@.len() - i,
    {
        if s[i] >= 128 {
            return false;
        }
        i = i + 1;
    }
    true
}

/// Appends how the piece `v[start..end]` is shown.
fn push_segment(out: &mut Vec<u8>, v: &[u8], start: usize, end: usize)
    requires start <= end <= v@.len(),
    ensures final(out)@ == old(out)@ + render_segment(v@.subrange(start as int, end as int)),
{
    let ghost seg = v@.subrange(start as int, end as int);
    if start == end {
        assert(old(out)@ + render_segment(seg) =~= old(out)@);
        return;
    }
    let piece = crate::bytes::sub_bytes(v, start, end);
    out.push(47u8);
    if is_ascii_bytes(piece.as_slice()) {
        append_bytes(out, piece.as_slice());
    } else {
        let hex = hex_encode(piece.as_slice());
        append_bytes(out, hex.as_slice());
    }
    assert(final(out)@ =~= old(out)@ + render_segment(seg));
}

/// The text of a key as bytes.
pub fn format_key_bytes(v: &Vec<u8>) -> (out: Vec<u8>)
    ensures out@ == formatted_key(v@),
{
    let mut out: Vec<u8> = Vec::new();
    let mut start: usize = 0;
    let mut i: usize = 0;
    while i < v.len()
        invariant
            start <= i <= v@.len(),
            out@ + render_all(segments_from(v@, start as int, i as int)) == formatted_key(v@),
        decreases v@.len() - i,
    {
        if v[i] == 47 {
            let ghost before = out@;
            proof {
                lemma_render_cons(v@.subrange(start as int, i as int), segments_from(v@, i + 1, i + 1));
            }
            push_segment(&mut out, v.as_slice(), start, i);
            assert(out@ + render_all(segments_from(v@, i + 1, i + 1)) =~= before + render_all(segments_from(v@, start as int, i as int)));
            start = i + 1;
        }
        i = i + 1;
    }
    let ghost before = out@;
    proof {
        lemma_render_cons(v@.subrange(start as int, v@.len() as int), Seq::empty());
        assert(seq![v@.subrange(start as int, v@.len() as int)] + Seq::<Seq<u8>>::empty() =~= seq![v@.subrange(start as int, v@.len() as int)]);
    }
    push_segment(&mut out, v.as_slice(), start, v.len());
    assert(out@ =~= before + render_all(segments_from(v@, start as int, i as int)));
    out
}

/// The text of a key.
pub fn format_key(v: &Vec<u8>) -> (s: String)
    ensures valid_utf8(formatted_key(v@)), s@ == decode_utf8(formatted_key(v@)),
{
    let bytes = format_key_bytes(v);
    proof {
        lemma_render_ascii(slash_segments(v@));
        lemma_ascii_valid_utf8(bytes@);
    }
    match string_from_utf8(bytes) {
        Some(s) => s,
        None => String::new(),
    }
}

} // verus!
