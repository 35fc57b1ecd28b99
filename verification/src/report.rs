//! The text reports of a comparison of two indexers: the keys only one of
//! them holds and the keys whose values differ, with keys and values in
//! hex.

use vstd::prelude::*;
use vstd::utf8::*;
use vstd::string::StringExecFns;
use crate::bytes::vec_views;
use crate::diff::triple_views;
use crate::codec::{decimal, push_decimal_u64, string_from_utf8};
use crate::hashing::{hex_encode, hex_text};
use crate::key_format::{all_ascii, lemma_ascii_valid_utf8};

verus! {

/// ASCII bytes read as characters.
pub open spec fn chars_of(b: Seq<u8>) -> Seq<char> {
    b.map_values(|x: u8| x as char)
}

/// The hex text of `b`.
pub open spec fn hex_chars(b: Seq<u8>) -> Seq<char> {
    chars_of(hex_text(b))
}

/// `n` in decimal.
pub open spec fn dec_chars(n: nat) -> Seq<char> {
    chars_of(decimal(n))
}

/// One line per key: two spaces and the key in hex.
pub open spec fn key_lines(keys: Seq<Seq<u8>>) -> Seq<char>
    decreases keys.len(),
{
    if keys.len() == 0 {
        Seq::empty()
    } else {
        key_lines(keys.drop_last()) + "  "@ + hex_chars(keys.last()) + "\n"@
    }
}

/// Three lines per differing key: the key, then its value on each side
/// after the given labels.
pub open spec fn value_lines(diffs: Seq<(Seq<u8>, Seq<u8>, Seq<u8>)>, primary_label: Seq<char>, compare_label: Seq<char>) -> Seq<char>
    decreases diffs.len(),
{
    if diffs.len() == 0 {
        Seq::empty()
    } else {
        let (k, p, c) = diffs.last();
        value_lines(diffs.drop_last(), primary_label, compare_label)
            + "  Key: "@ + hex_chars(k) + "\n"@
            + primary_label + hex_chars(p) + "\n"@
            + compare_label + hex_chars(c) + "\n"@
    }
}

/// A list of keys under a heading that counts them; nothing when the list
/// is empty.
pub open spec fn key_section(heading: Seq<char>, keys: Seq<Seq<u8>>) -> Seq<char> {
    if keys.len() == 0 { Seq::empty() } else { heading + dec_chars(keys.len()) + "):\n"@ + key_lines(keys) }
}

/// The differing values under a heading that counts them; nothing when
/// there are none.
pub open spec fn value_section(heading: Seq<char>, diffs: Seq<(Seq<u8>, Seq<u8>, Seq<u8>)>) -> Seq<char> {
    if diffs.len() == 0 {
        Seq::empty()
    } else {
        heading + dec_chars(diffs.len()) + "):\n"@ + value_lines(diffs, "    Primary value: "@, "    Compare value: "@)
    }
}

/// The report of the differences found at a block.
pub open spec fn block_diff_report(height: u32, primary_only: Seq<Seq<u8>>, compare_only: Seq<Seq<u8>>,
    value_diffs: Seq<(Seq<u8>, Seq<u8>, Seq<u8>)>) -> Seq<char>
{
    let head = "=== DIFF REPORT FOR BLOCK "@ + dec_chars(height as nat) + " ===\n"@;
    if primary_only.len() == 0 && compare_only.len() == 0 && value_diffs.len() == 0 {
        head + "No differences found.\n"@
    } else {
        head
            + key_section("Keys in primary but not in compare ("@, primary_only)
            + key_section("Keys in compare but not in primary ("@, compare_only)
            + value_section("Keys with different values ("@, value_diffs)
            + "=== END DIFF REPORT ===\n"@
    }
}

/// The first twenty items, or all of them when there are fewer.
pub open spec fn first_twenty<T>(s: Seq<T>) -> Seq<T> {
    if s.len() > 20 { s.take(20) } else { s }
}

/// How many entries are listed past the first twenty.
pub open spec fn more_line(n: nat) -> Seq<char> {
    if n > 20 { "  ... and "@ + dec_chars((n - 20) as nat) + " more\n"@ } else { Seq::empty() }
}

/// A list of keys under a heading that counts them, showing the first
/// twenty; nothing when the list is empty.
pub open spec fn limited_key_section(heading: Seq<char>, keys: Seq<Seq<u8>>) -> Seq<char> {
    if keys.len() == 0 {
        Seq::empty()
    } else {
        heading + dec_chars(keys.len()) + "):\n"@ + key_lines(first_twenty(keys)) + more_line(keys.len())
    }
}

/// The differing values under a heading that counts them, showing the
/// first twenty; nothing when there are none.
pub open spec fn limited_value_section(heading: Seq<char>, diffs: Seq<(Seq<u8>, Seq<u8>, Seq<u8>)>) -> Seq<char> {
    if diffs.len() == 0 {
        Seq::empty()
    } else {
        heading + dec_chars(diffs.len()) + "):\n"@ + value_lines(first_twenty(diffs), "    Primary:   "@, "    Compare:   "@)
            + more_line(diffs.len())
    }
}

/// The report of the differences between two databases, stamped with
/// `timestamp`; each list shows its first twenty entries.
pub open spec fn database_diff_report(timestamp: u64, primary_only: Seq<Seq<u8>>, compare_only: Seq<Seq<u8>>,
    value_diffs: Seq<(Seq<u8>, Seq<u8>, Seq<u8>)>) -> Seq<char>
{
    let head = "=== DIFF REPORT (Timestamp: "@ + dec_chars(timestamp as nat) + ") ===\n"@;
    if primary_only.len() == 0 && compare_only.len() == 0 && value_diffs.len() == 0 {
        head + "No differences found.\n"@
    } else {
        head
            + limited_key_section("\nKeys in primary but not in compare ("@, primary_only)
            + limited_key_section("\nKeys in compare but not in primary ("@, compare_only)
            + limited_value_section("\nKeys with different values ("@, value_diffs)
            + "\n=== END DIFF REPORT ===\n"@
    }
}

proof fn lemma_ascii_decode(b: Seq<u8>)
    requires all_ascii(b),
    ensures valid_utf8(b), decode_utf8(b) == chars_of(b),
    decreases b.len(),
{
    lemma_ascii_valid_utf8(b);
    if b.len() > 0 {
        let rest = b.subrange(1, b.len() as int);
        assert forall|i: int| 0 <= i < rest.len() implies #[trigger] rest[i] < 128 by {
            assert(rest[i] == b[i + 1]);
        };
        lemma_ascii_decode(rest);
        let x = b[0];
        assert(x < 128);
        assert((x & 0x7F) as u32 == x as u32) by (bit_vector)
            requires x < 128;
        assert(pop_first_scalar(b) =~= rest);
        assert(decode_utf8(b) =~= chars_of(b));
    }
}

proof fn lemma_decimal_ascii(n: nat)
    ensures all_ascii(decimal(n)),
    decreases n,
{
    if n >= 10 {
        lemma_decimal_ascii(n / 10);
        let d = decimal(n);
        let a = decimal(n / 10);
        assert forall|i: int| 0 <= i < d.len() implies #[trigger] d[i] < 128 by {
            if i < a.len() {
                assert(d[i] == a[i]);
            }
        };
    }
}

proof fn lemma_hex_ascii(b: Seq<u8>)
    ensures all_ascii(hex_text(b)),
{
    assert forall|i: int| 0 <= i < hex_text(b).len() implies #[trigger] hex_text(b)[i] < 128 by {
        let x = b[i / 2] as int;
        assert(0 <= x / 16 < 16 && 0 <= x % 16 < 16);
    };
}

/// Appends the hex text of `b`.
fn push_hex(s: &mut String, b: &[u8])
    ensures final(s)@ == old(s)@ + hex_chars(b@),
{
    let hex = hex_encode(b);
    proof {
        lemma_hex_ascii(b@);
        lemma_ascii_decode(hex@);
    }
    match string_from_utf8(hex) {
        Some(t) => s.append(t.as_str()),
        None => {},
    }
}

/// Appends `n` in decimal.
fn push_dec(s: &mut String, n: u64)
    ensures final(s)@ == old(s)@ + dec_chars(n as nat),
{
    let mut digits: Vec<u8> = Vec::new();
    push_decimal_u64(&mut digits, n);
    proof {
        assert(digits@ =~= decimal(n as nat));
        lemma_decimal_ascii(n as nat);
        lemma_ascii_decode(digits@);
    }
    match string_from_utf8(digits) {
        Some(t) => s.append(t.as_str()),
        None => {},
    }
}

/// Appends a line for each of the first `limit` keys.
fn push_key_lines(s: &mut String, keys: &[Vec<u8>], limit: usize)
    requires limit <= keys@.len(),
    ensures final(s)@ == old(s)@ + key_lines(vec_views(keys@).take(limit as int)),
{
    let ghost ks = vec_views(keys@);
    let mut i: usize = 0;
    while i < limit
        invariant
            i <= limit <= keys@.len(),
            ks == vec_views(keys@),
            s@ == old(s)@ + key_lines(ks.take(i as int)),
        decreases limit - i,
    {
        s.append("  ");
        push_hex(s, keys[i].as_slice());
        s.append("\n");
        assert(ks.take(i + 1).drop_last() =~= ks.take(i as int));
        assert(ks.take(i + 1).last() == keys@[i as int]@);
        assert(s@ =~= old(s)@ + key_lines(ks.take(i + 1)));
        i = i + 1;
    }
}

/// Appends the lines of the first `limit` differing keys.
fn push_value_lines(s: &mut String, diffs: &[(Vec<u8>, Vec<u8>, Vec<u8>)], limit: usize, primary_label: &str, compare_label: &str)
    requires limit <= diffs@.len(),
    ensures final(s)@ == old(s)@ + value_lines(triple_views(diffs@).take(limit as int), primary_label@, compare_label@),
{
    let ghost ds = triple_views(diffs@);
    let mut i: usize = 0;
    while i < limit
        invariant
            i <= limit <= diffs@.len(),
            ds == triple_views(diffs@),
            s@ == old(s)@ + value_lines(ds.take(i as int), primary_label@, compare_label@),
        decreases limit - i,
    {
        s.append("  Key: ");
        push_hex(s, diffs[i].0.as_slice());
        s.append("\n");
        s.append(primary_label);
        push_hex(s, diffs[i].1.as_slice());
        s.append("\n");
        s.append(compare_label);
        push_hex(s, diffs[i].2.as_slice());
        s.append("\n");
        assert(ds.take(i + 1).drop_last() =~= ds.take(i as int));
        assert(ds.take(i + 1).last() == (diffs@[i as int].0@, diffs@[i as int].1@, diffs@[i as int].2@));
        assert(s@ =~= old(s)@ + value_lines(ds.take(i + 1), primary_label@, compare_label@));
        i = i + 1;
    }
}

/// Appends a section of keys (see [`key_section`]), showing the first
/// twenty when `limited`.
fn push_key_section(s: &mut String, heading: &str, keys: &[Vec<u8>], limited: bool)
    ensures
        limited ==> final(s)@ == old(s)@ + limited_key_section(heading@, vec_views(keys@)),
        !limited ==> final(s)@ == old(s)@ + key_section(heading@, vec_views(keys@)),
{
    let ghost ks = vec_views(keys@);
    if keys.len() == 0 {
        assert(old(s)@ + key_section(heading@, ks) =~= old(s)@);
        assert(old(s)@ + limited_key_section(heading@, ks) =~= old(s)@);
        return;
    }
    s.append(heading);
    push_dec(s, keys.len() as u64);
    s.append("):\n");
    if limited {
        let shown = if keys.len() > 20 { 20 } else { keys.len() };
        push_key_lines(s, keys, shown);
        assert(ks.take(shown as int) =~= first_twenty(ks));
        push_more_line(s, keys.len());
    } else {
        push_key_lines(s, keys, keys.len());
        assert(ks.take(ks.len() as int) =~= ks);
    }
}

/// Appends a section of differing values (see [`value_section`]), showing
/// the first twenty when `limited`.
fn push_value_section(s: &mut String, heading: &str, diffs: &[(Vec<u8>, Vec<u8>, Vec<u8>)], limited: bool)
    ensures
        limited ==> final(s)@ == old(s)@ + limited_value_section(heading@, triple_views(diffs@)),
        !limited ==> final(s)@ == old(s)@ + value_section(heading@, triple_views(diffs@)),
{
    let ghost ds = triple_views(diffs@);
    if diffs.len() == 0 {
        assert(old(s)@ + value_section(heading@, ds) =~= old(s)@);
        assert(old(s)@ + limited_value_section(heading@, ds) =~= old(s)@);
        return;
    }
    s.append(heading);
    push_dec(s, diffs.len() as u64);
    s.append("):\n");
    if limited {
        let shown = if diffs.len() > 20 { 20 } else { diffs.len() };
        push_value_lines(s, diffs, shown, "    Primary:   ", "    Compare:   ");
        assert(ds.take(shown as int) =~= first_twenty(ds));
        push_more_line(s, diffs.len());
    } else {
        push_value_lines(s, diffs, diffs.len(), "    Primary value: ", "    Compare value: ");
        assert(ds.take(ds.len() as int) =~= ds);
    }
}

/// Appends the line that counts the entries past the first twenty.
fn push_more_line(s: &mut String, n: usize)
    ensures final(s)@ == old(s)@ + more_line(n as nat),
{
    if n > 20 {
        s.append("  ... and ");
        push_dec(s, (n - 20) as u64);
        s.append(" more\n");
    } else {
        assert(old(s)@ + more_line(n as nat) =~= old(s)@);
    }
}

/// The report of the differences found at a block: the keys only the
/// primary indexer wrote, those only the compared one wrote, and the keys
/// whose values differ.
pub fn generate_diff_report(
    height: u32,
    primary_only_keys: &[Vec<u8>],
    compare_only_keys: &[Vec<u8>],
    value_diffs: &[(Vec<u8>, Vec<u8>, Vec<u8>)],
) -> (report: String)
    ensures report@ == block_diff_report(height, vec_views(primary_only_keys@), vec_views(compare_only_keys@), triple_views(value_diffs@)),
{
    let mut report = String::new();
    report.append("=== DIFF REPORT FOR BLOCK ");
    push_dec(&mut report, height as u64);
    report.append(" ===\n");
    if primary_only_keys.len() == 0 && compare_only_keys.len() == 0 && value_diffs.len() == 0 {
        report.append("No differences found.\n");
        return report;
    }
    push_key_section(&mut report, "Keys in primary but not in compare (", primary_only_keys, false);
    push_key_section(&mut report, "Keys in compare but not in primary (", compare_only_keys, false);
    push_value_section(&mut report, "Keys with different values (", value_diffs, false);
    report.append("=== END DIFF REPORT ===\n");
    report
}

/// The report of the differences between two databases, stamped with
/// `timestamp` (seconds since the Unix epoch); each list shows its first
/// twenty entries and counts the rest.
pub fn generate_database_diff_report(
    timestamp: u64,
    primary_only: &[Vec<u8>],
    compare_only: &[Vec<u8>],
    value_diffs: &[(Vec<u8>, Vec<u8>, Vec<u8>)],
) -> (report: String)
    ensures report@ == database_diff_report(timestamp, vec_views(primary_only@), vec_views(compare_only@), triple_views(value_diffs@)),
{
    let mut report = String::new();
    report.append("=== DIFF REPORT (Timestamp: ");
    push_dec(&mut report, timestamp);
    report.append(") ===\n");
    if primary_only.len() == 0 && compare_only.len() == 0 && value_diffs.len() == 0 {
        report.append("No differences found.\n");
        return report;
    }
    push_key_section(&mut report, "\nKeys in primary but not in compare (", primary_only, true);
    push_key_section(&mut report, "\nKeys in compare but not in primary (", compare_only, true);
    push_value_section(&mut report, "\nKeys with different values (", value_diffs, true);
    report.append("\n=== END DIFF REPORT ===\n");
    report
}

/// One line per block: `  Block ` and its height.
pub open spec fn block_lines(blocks: Seq<u32>) -> Seq<char>
    decreases blocks.len(),
{
    if blocks.len() == 0 {
        Seq::empty()
    } else {
        block_lines(blocks.drop_last()) + "  Block "@ + dec_chars(blocks.last() as nat) + "\n"@
    }
}

/// The summary of a comparison run: how many differences were found, at
/// which blocks, and the range of blocks looked at.
pub open spec fn summary_report(diffs_found: usize, diff_blocks: Seq<u32>, start_block: u32, current_height: u32) -> Seq<char> {
    "=== DIFF ANALYSIS SUMMARY ===\n"@
        + "Total diffs found: "@ + dec_chars(diffs_found as nat) + "\n"@
        + (if diff_blocks.len() == 0 {
            "No differences found in any blocks.\n"@
        } else {
            "Blocks with differences:\n"@ + block_lines(diff_blocks)
        })
        + "Analyzed blocks from "@ + dec_chars(start_block as nat) + " to "@ + dec_chars(current_height as nat) + "\n"@
        + "=== END SUMMARY ===\n"@
}

/// The summary of a comparison run.
pub fn generate_summary_report(diffs_found: usize, diff_blocks: &[u32], start_block: u32, current_height: u32) -> (report: String)
    ensures report@ == summary_report(diffs_found, diff_blocks@, start_block, current_height),
{
    let mut report = String::new();
    report.append("=== DIFF ANALYSIS SUMMARY ===\n");
    report.append("Total diffs found: ");
    push_dec(&mut report, diffs_found as u64);
    report.append("\n");
    let ghost head = report@;
    if diff_blocks.len() > 0 {
        report.append("Blocks with differences:\n");
        let ghost start = report@;
        let mut i: usize = 0;
        while i < diff_blocks.len()
            invariant
                i <= diff_blocks@.len(),
                report@ == start + block_lines(diff_blocks@.take(i as int)),
            decreases diff_blocks@.len() - i,
        {
            report.append("  Block ");
            push_dec(&mut report, diff_blocks[i] as u64);
            report.append("\n");
            assert(diff_blocks@.take(i + 1).drop_last() =~= diff_blocks@.take(i as int));
            assert(report@ =~= start + block_lines(diff_blocks@.take(i + 1)));
            i = i + 1;
        }
        assert(diff_blocks@.take(i as int) =~= diff_blocks@);
    } else {
        report.append("No differences found in any blocks.\n");
    }
    let ghost mid = report@;
    report.append("Analyzed blocks from ");
    push_dec(&mut report, start_block as u64);
    report.append(" to ");
    push_dec(&mut report, current_height as u64);
    report.append("\n");
    report.append("=== END SUMMARY ===\n");
    assert(report@ =~= summary_report(diffs_found, diff_blocks@, start_block, current_height));
    report
}

} // verus!
