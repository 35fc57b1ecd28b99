//! The flush message a guest hands to the host: a list of byte strings
//! (keys and values alternating) in protocol buffer wire form, each item a
//! field 1 record: the tag byte 10, the item's length as a base-128 varint,
//! then the item.

use vstd::prelude::*;
use crate::byte_map::entry_views;
use crate::bytes::{append_bytes, copy_bytes, sub_bytes, vec_views};
use crate::codec::{encode_bytes, length_prefixed};

verus! {

/// The base-128 varint of `x`, least significant group first.
pub open spec fn varint(x: nat) -> Seq<u8>
    decreases x,
{
    if x < 128 { seq![x as u8] } else { seq![(x % 128 + 128) as u8] + varint(x / 128) }
}

/// The record of one item.
pub open spec fn item_record(item: Seq<u8>) -> Seq<u8> {
    seq![10u8] + varint(item.len()) + item
}

/// The wire form of a list of items.
pub open spec fn flush_form(list: Seq<Seq<u8>>) -> Seq<u8>
    decreases list.len(),
{
    if list.len() == 0 { Seq::empty() } else { flush_form(list.drop_last()) + item_record(list.last()) }
}

/// The varint read from `data` at `i`, at most `budget` more bytes: its
/// value and the position after it.
pub open spec fn varint_at(data: Seq<u8>, i: int, budget: nat) -> Option<(nat, int)>
    decreases budget,
{
    if budget == 0 || i < 0 || i >= data.len() {
        None
    } else if data[i] < 128 {
        Some((data[i] as nat, i + 1))
    } else {
        match varint_at(data, i + 1, (budget - 1) as nat) {
            Some((v, j)) => Some((((data[i] - 128) as nat) + 128 * v, j)),
            None => None,
        }
    }
}

/// A varint of at most ten bytes whose value fits in 64 bits.
pub open spec fn read_varint(data: Seq<u8>, i: int) -> Option<(nat, int)> {
    match varint_at(data, i, 10) {
        Some((v, j)) => if v <= u64::MAX { Some((v, j)) } else { None },
        None => None,
    }
}

/// The items of the message read from `data` from `i` on: field 1 records
/// are items; other fields of varint, 64-bit, length-delimited or 32-bit
/// wire type are skipped; anything else is malformed.
pub open spec fn parse_flush_from(data: Seq<u8>, i: int) -> Option<Seq<Seq<u8>>>
    decreases data.len() - i,
{
    if i < 0 || i > data.len() {
        None
    } else if i == data.len() {
        Some(Seq::empty())
    } else {
        match read_varint(data, i) {
            None => None,
            Some((tag, j)) => {
                let field = tag / 8;
                let wire = tag % 8;
                if tag > u32::MAX || field == 0 || (field == 1 && wire != 2) || j <= i {
                    None
                } else if wire == 0 {
                    match read_varint(data, j) {
                        Some((_, k)) => if k > j && k <= data.len() { parse_flush_from(data, k) } else { None },
                        None => None,
                    }
                } else if wire == 1 {
                    if j + 8 <= data.len() { parse_flush_from(data, j + 8) } else { None }
                } else if wire == 5 {
                    if j + 4 <= data.len() { parse_flush_from(data, j + 4) } else { None }
                } else if wire == 2 {
                    match read_varint(data, j) {
                        Some((n, k)) => if k > j && k + n <= data.len() {
                            match parse_flush_from(data, k + n) {
                                Some(rest) => if field == 1 {
                                    Some(seq![data.subrange(k, k + n)] + rest)
                                } else {
                                    Some(rest)
                                },
                                None => None,
                            }
                        } else {
                            None
                        },
                        None => None,
                    }
                } else {
                    None
                }
            },
        }
    }
}

/// Appends the varint of `x`.
fn push_varint(out: &mut Vec<u8>, x: u64)
    ensures final(out)@ == old(out)@ + varint(x as nat),
    decreases x,
{
    if x < 128 {
        out.push(x as u8);
        assert(final(out)@ =~= old(out)@ + varint(x as nat));
    } else {
        out.push((x % 128 + 128) as u8);
        let ghost mid = out@;
        push_varint(out, x / 128);
        assert(final(out)@ =~= old(out)@ + varint(x as nat));
    }
}

/// The wire form of the list.
pub fn encode_flush(list: &Vec<Vec<u8>>) -> (out: Vec<u8>)
    ensures out@ == flush_form(vec_views(list@)),
{
    let mut out: Vec<u8> = Vec::new();
    let mut i: usize = 0;
    while i < list.len()
        invariant
            i <= list@.len(),
            out@ == flush_form(vec_views(list@).subrange(0, i as int)),
        decreases list@.len() - i,
    {
        let ghost s = vec_views(list@).subrange(0, i + 1);
        assert(s.drop_last() =~= vec_views(list@).subrange(0, i as int));
        out.push(10);
        push_varint(&mut out, list[i].len() as u64);
        append_bytes(&mut out, &list[i]);
        assert(out@ =~= flush_form(s));
        i = i + 1;
    }
    assert(vec_views(list@).subrange(0, i as int) =~= vec_views(list@));
    out
}

/// A partly read varint: `acc` from the groups read so far, `scale` the
/// weight of the next group.
pub open spec fn shifted(o: Option<(nat, int)>, acc: nat, scale: nat) -> Option<(nat, int)> {
    match o {
        Some((v, j)) => Some((acc + scale * v, j)),
        None => None,
    }
}

proof fn lemma_shifted_compose(o: Option<(nat, int)>, a1: nat, s1: nat, a2: nat, s2: nat)
    ensures shifted(shifted(o, a1, s1), a2, s2) == shifted(o, a2 + s2 * a1, s2 * s1),
{
    if let Some((v, j)) = o {
        assert(a2 + s2 * (a1 + s1 * v) == a2 + s2 * a1 + (s2 * s1) * v) by (nonlinear_arith);
    }
}

/// Reads a varint of at most ten bytes whose value fits in 64 bits.
fn take_varint(data: &[u8], i: usize) -> (r: Option<(u64, usize)>)
    ensures
        r matches Some((v, j)) ==> read_varint(data@, i as int) == Some((v as nat, j as int)) && i < j <= data@.len(),
        r is None ==> read_varint(data@, i as int) is None,
{
    let mut acc: u128 = 0;
    let mut scale: u128 = 1;
    let mut k: usize = 0;
    proof {
        assert(shifted(varint_at(data@, i as int, 10), 0, 1) == varint_at(data@, i as int, 10));
    }
    while k < 10
        invariant
            k <= 10,
            scale as nat == pow128(k as nat),
            acc < scale,
            varint_at(data@, i as int, 10) == shifted(varint_at(data@, i + k, (10 - k) as nat), acc as nat, scale as nat),
        decreases 10 - k,
    {
        if i >= data.len() || data.len() - i <= k {
            return None;
        }
        let b = data[i + k];
        proof { lemma_pow128_bound(k as nat); }
        if b < 128 {
            assert(scale * (b as u128) < scale * 128) by (nonlinear_arith)
                requires b < 128, scale >= 1;
            let v = acc + scale * (b as u128);
            if v > 18446744073709551615 {
                return None;
            }
            return Some((v as u64, i + k + 1));
        }
        proof {
            let inner = varint_at(data@, i + k + 1, (10 - k - 1) as nat);
            assert(varint_at(data@, i + k, (10 - k) as nat) == shifted(inner, (b - 128) as nat, 128));
            lemma_shifted_compose(inner, (b - 128) as nat, 128, acc as nat, scale as nat);
            let d: int = b - 128;
            assert(acc + scale * d < scale * 128) by (nonlinear_arith)
                requires acc < scale, 0 <= d < 128;
        }
        acc = acc + scale * ((b - 128) as u128);
        scale = scale * 128;
        k = k + 1;
    }
    None
}

/// `128^k`.
pub open spec fn pow128(k: nat) -> nat
    decreases k,
{
    if k == 0 { 1 } else { 128 * pow128((k - 1) as nat) }
}

proof fn lemma_pow128_bound(k: nat)
    requires k < 10,
    ensures pow128(k) * 128 <= pow128(10), pow128(10) == 0x4000_0000_0000_0000_00u128,
    decreases k,
{
    reveal_with_fuel(pow128, 11);
    if k > 0 {
        lemma_pow128_bound((k - 1) as nat);
    }
}

/// The items of a flush message, or `None` when it is malformed.
pub fn decode_flush(data: &[u8]) -> (r: Option<Vec<Vec<u8>>>)
    ensures
        r is Some <==> parse_flush_from(data@, 0) is Some,
        r matches Some(items) ==> parse_flush_from(data@, 0) == Some(vec_views(items@)),
{
    let mut items: Vec<Vec<u8>> = Vec::new();
    let mut i: usize = 0;
    loop
        invariant_except_break
            i <= data@.len(),
            parse_flush_from(data@, 0) == match parse_flush_from(data@, i as int) {
                Some(rest) => Some(vec_views(items@) + rest),
                None => None::<Seq<Seq<u8>>>,
            },
        ensures
            r_is(parse_flush_from(data@, 0), items@, i == data@.len()),
        decreases data@.len() - i,
    {
        if i == data.len() {
            assert(vec_views(items@) + Seq::<Seq<u8>>::empty() =~= vec_views(items@));
            break;
        }
        let (tag, j) = match take_varint(data, i) {
            Some(t) => t,
            None => break,
        };
        let field = tag / 8;
        let wire = tag % 8;
        if tag > 4294967295 || field == 0 || (field == 1 && wire != 2) {
            break;
        }
        if wire == 0 {
            match take_varint(data, j) {
                Some((_, k)) => { i = k; },
                None => break,
            }
        } else if wire == 1 {
            if data.len() - j < 8 {
                break;
            }
            i = j + 8;
        } else if wire == 5 {
            if data.len() - j < 4 {
                break;
            }
            i = j + 4;
        } else if wire == 2 {
            let (n, k) = match take_varint(data, j) {
                Some(t) => t,
                None => break,
            };
            let avail: u64 = (data.len() - k) as u64;
            if avail < n {
                break;
            }
            let end = k + n as usize;
            if field == 1 {
                let item = sub_bytes(data, k, end);
                let ghost before = vec_views(items@);
                items.push(item);
                proof {
                    assert(vec_views(items@) =~= before.push(data@.subrange(k as int, end as int)));
                    match parse_flush_from(data@, end as int) {
                        Some(rest) => {
                            assert(vec_views(items@) + rest =~= before + (seq![data@.subrange(k as int, end as int)] + rest));
                        },
                        None => {},
                    }
                }
            }
            i = end;
        } else {
            break;
        }
    }
    if i == data.len() { Some(items) } else { None }
}

/// Whether the loop of [`decode_flush`] ended well: at the end of the data
/// with the parse giving exactly the items, or short of it with the parse
/// failing.
pub open spec fn r_is(parsed: Option<Seq<Seq<u8>>>, items: Seq<Vec<u8>>, at_end: bool) -> bool {
    if at_end { parsed == Some(vec_views(items)) } else { parsed is None }
}

/// Reading the wire form of a list gives the list back.
pub proof fn lemma_decode_encode_flush(list: Seq<Seq<u8>>)
    requires forall|i: int| 0 <= i < list.len() ==> (#[trigger] list[i]).len() <= u64::MAX,
    ensures parse_flush_from(flush_form(list), 0) == Some(list),
{
    lemma_parse_form_at(Seq::empty(), list);
    assert(Seq::<u8>::empty() + flush_form(list) =~= flush_form(list));
}

proof fn lemma_flush_form_first(list: Seq<Seq<u8>>)
    requires list.len() > 0,
    ensures flush_form(list) == item_record(list[0]) + flush_form(list.drop_first()),
    decreases list.len(),
{
    if list.len() == 1 {
        assert(list.drop_first() =~= Seq::<Seq<u8>>::empty());
        assert(list.drop_last() =~= Seq::<Seq<u8>>::empty());
        assert(flush_form(list) =~= item_record(list[0]) + flush_form(list.drop_first()));
    } else {
        lemma_flush_form_first(list.drop_last());
        assert(list.drop_last().drop_first() =~= list.drop_first().drop_last());
        assert(list.drop_first().last() == list.last());
        assert(flush_form(list) =~= item_record(list[0]) + flush_form(list.drop_first()));
    }
}

proof fn lemma_varint_read(pre: Seq<u8>, x: nat, post: Seq<u8>, budget: nat)
    requires varint(x).len() <= budget,
    ensures varint_at(pre + varint(x) + post, pre.len() as int, budget) == Some((x, (pre.len() + varint(x).len()) as int)),
    decreases x,
{
    let data = pre + varint(x) + post;
    if x < 128 {
        assert(data[pre.len() as int] == x as u8);
    } else {
        let head = seq![(x % 128 + 128) as u8];
        assert(varint(x) == head + varint(x / 128));
        lemma_varint_read(pre + head, x / 128, post, (budget - 1) as nat);
        assert(pre + head + varint(x / 128) + post =~= data);
        assert(data[pre.len() as int] == (x % 128 + 128) as u8);
    }
}

proof fn lemma_varint_len(x: nat)
    requires x <= u64::MAX,
    ensures varint(x).len() <= 10, varint(x).len() >= 1,
{
    assert(pow128(10) > u64::MAX) by { reveal_with_fuel(pow128, 11); }
    lemma_varint_len_bound(x, 10);
}

proof fn lemma_varint_len_bound(x: nat, k: nat)
    requires x < pow128(k),
    ensures varint(x).len() <= if k == 0 { 1 } else { k }, varint(x).len() >= 1,
    decreases x,
{
    if x >= 128 {
        assert(k >= 2) by {
            if k < 2 {
                reveal_with_fuel(pow128, 3);
            }
        };
        assert(x / 128 < pow128((k - 1) as nat)) by (nonlinear_arith)
            requires x < 128 * pow128((k - 1) as nat);
        lemma_varint_len_bound(x / 128, (k - 1) as nat);
    }
}

#[verifier::spinoff_prover]
#[verifier::rlimit(50)]
proof fn lemma_parse_form_at(pre: Seq<u8>, list: Seq<Seq<u8>>)
    requires forall|i: int| 0 <= i < list.len() ==> (#[trigger] list[i]).len() <= u64::MAX,
    ensures parse_flush_from(pre + flush_form(list), pre.len() as int) == Some(list),
    decreases list.len(),
{
    if list.len() == 0 {
        assert(pre + flush_form(list) =~= pre);
    } else {
        let item = list[0];
        let rest = list.drop_first();
        lemma_flush_form_first(list);
        let rec = item_record(item);
        assert forall|i: int| 0 <= i < rest.len() implies (#[trigger] rest[i]).len() <= u64::MAX by {
            assert(rest[i] == list[i + 1]);
        };
        lemma_parse_form_at(pre + rec, rest);
        let data = pre + flush_form(list);
        assert(data =~= (pre + rec) + flush_form(rest));
        let i = pre.len() as int;
        assert(list[0].len() <= u64::MAX);
        lemma_varint_len(item.len());
        lemma_varint_read(pre, 10, varint(item.len()) + item + flush_form(rest), 10);
        assert(pre + varint(10) + (varint(item.len()) + item + flush_form(rest)) =~= data);
        lemma_varint_read(pre + seq![10u8], item.len(), item + flush_form(rest), 10);
        assert(pre + seq![10u8] + varint(item.len()) + (item + flush_form(rest)) =~= data);
        let k = i + 1 + varint(item.len()).len();
        assert(data.subrange(k, k + item.len()) =~= item);
        assert((pre + rec).len() == k + item.len());
    }
}

/// The keys and values of a list of pairs, alternating.
pub open spec fn pair_list(pairs: Seq<(Seq<u8>, Seq<u8>)>) -> Seq<Seq<u8>>
    decreases pairs.len(),
{
    if pairs.len() == 0 { Seq::empty() } else { pair_list(pairs.drop_last()).push(pairs.last().0).push(pairs.last().1) }
}

/// The keys and values of the pairs, alternating, as a flush lists them.
pub fn flush_list(pairs: &[(Vec<u8>, Vec<u8>)]) -> (list: Vec<Vec<u8>>)
    ensures vec_views(list@) == pair_list(entry_views(pairs@)),
{
    let ghost ps = entry_views(pairs@);
    let mut list: Vec<Vec<u8>> = Vec::new();
    let mut i: usize = 0;
    while i < pairs.len()
        invariant
            i <= pairs@.len(),
            ps == entry_views(pairs@),
            vec_views(list@) == pair_list(ps.subrange(0, i as int)),
        decreases pairs@.len() - i,
    {
        let ghost before = vec_views(list@);
        list.push(copy_bytes(&pairs[i].0));
        list.push(copy_bytes(&pairs[i].1));
        assert(ps.subrange(0, i + 1).drop_last() =~= ps.subrange(0, i as int));
        assert(vec_views(list@) =~= before.push(ps[i as int].0).push(ps[i as int].1));
        i = i + 1;
    }
    assert(ps.subrange(0, i as int) =~= ps);
    list
}

/// The buffer a guest hands to the host to flush the pairs: the flush
/// message preceded by its length.
pub fn flush_buffer(pairs: &[(Vec<u8>, Vec<u8>)]) -> (buf: Vec<u8>)
    ensures buf@ == length_prefixed(flush_form(pair_list(entry_views(pairs@)))),
{
    let list = flush_list(pairs);
    let message = encode_flush(&list);
    encode_bytes(&message)
}

} // verus!
