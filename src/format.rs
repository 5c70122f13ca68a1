//! The byte layout of a log image: an eight-byte first index, then the entries.

use vstd::prelude::*;
use crate::codec::{le_bytes, le_value, pow256, lemma_le_bytes_len, lemma_le_round_trip, lemma_le_bytes_of_value, lemma_le_value_bound, lemma_pow256_facts};

verus! {

/// One entry as it lies in an image: its payload and the checksum stored after it.
pub type Record = (Seq<u8>, u32);

/// `[length: u64 LE][payload][checksum: u32 LE]`.
pub open spec fn entry_bytes(r: Record) -> Seq<u8> {
    le_bytes(r.0.len(), 8) + r.0 + le_bytes(r.1 as nat, 4)
}

/// The entries laid end to end.
pub open spec fn entries_bytes(rs: Seq<Record>) -> Seq<u8>
    decreases rs.len(),
{
    if rs.len() == 0 {
        Seq::empty()
    } else {
        entry_bytes(rs[0]) + entries_bytes(rs.drop_first())
    }
}

/// A whole image: the first index, then the entries.
pub open spec fn log_image(first: u64, rs: Seq<Record>) -> Seq<u8> {
    le_bytes(first as nat, 8) + entries_bytes(rs)
}

/// Every payload length fits the eight-byte length field.
pub open spec fn valid_records(rs: Seq<Record>) -> bool {
    forall|i: int| 0 <= i < rs.len() ==> (#[trigger] rs[i]).0.len() < pow256(8)
}

/// The length field at the start of `s`.
pub open spec fn length_field(s: Seq<u8>) -> nat {
    le_value(s.subrange(0, 8))
}

/// `s` starts with a whole entry: more than eight bytes, and room for the
/// payload and checksum that its length field announces.
pub open spec fn entry_complete(s: Seq<u8>) -> bool {
    s.len() > 8 && s.len() - 8 >= length_field(s) + 4
}

/// The entry at the start of `s`, where `entry_complete(s)`.
pub open spec fn first_record(s: Seq<u8>) -> Record {
    let n = length_field(s) as int;
    (s.subrange(8, 8 + n), le_value(s.subrange(8 + n, 12 + n)) as u32)
}

/// The complete entries at the start of `s`, read one after the other until
/// the rest is too short to hold the next one.
pub open spec fn scan(s: Seq<u8>) -> Seq<Record>
    decreases s.len(),
{
    if entry_complete(s) {
        seq![first_record(s)] + scan(s.subrange(12 + length_field(s) as int, s.len() as int))
    } else {
        Seq::empty()
    }
}

/// Size in bytes of the first `k` entries.
pub open spec fn offset(rs: Seq<Record>, k: int) -> nat {
    entries_bytes(rs.take(k)).len()
}

pub proof fn lemma_entry_bytes_len(r: Record)
    ensures
        entry_bytes(r).len() == r.0.len() + 12,
{
    lemma_le_bytes_len(r.0.len(), 8);
    lemma_le_bytes_len(r.1 as nat, 4);
}

pub proof fn lemma_entries_append(a: Seq<Record>, b: Seq<Record>)
    ensures
        entries_bytes(a + b) == entries_bytes(a) + entries_bytes(b),
    decreases a.len(),
{
    if a.len() == 0 {
        assert(a + b =~= b);
        assert(entries_bytes(a) + entries_bytes(b) =~= entries_bytes(b));
    } else {
        assert((a + b).drop_first() =~= a.drop_first() + b);
        lemma_entries_append(a.drop_first(), b);
        assert(entries_bytes(a + b) =~= entries_bytes(a) + entries_bytes(b));
    }
}

pub proof fn lemma_entries_single(r: Record)
    ensures
        entries_bytes(seq![r]) == entry_bytes(r),
{
    assert(seq![r].drop_first() =~= Seq::<Record>::empty());
    assert(seq![r][0] == r);
    assert(entries_bytes(Seq::<Record>::empty()) == Seq::<u8>::empty());
    assert(entries_bytes(seq![r]) =~= entry_bytes(r));
}

pub proof fn lemma_entries_push(rs: Seq<Record>, r: Record)
    ensures
        entries_bytes(rs.push(r)) == entries_bytes(rs) + entry_bytes(r),
{
    lemma_entries_append(rs, seq![r]);
    assert(rs + seq![r] =~= rs.push(r));
    lemma_entries_single(r);
}

/// Entry `k` lies at `offset(rs, k)` in the entries' bytes.
pub proof fn lemma_entry_at(rs: Seq<Record>, k: int)
    requires
        0 <= k < rs.len(),
    ensures
        offset(rs, k + 1) == offset(rs, k) + rs[k].0.len() + 12,
        entries_bytes(rs).subrange(offset(rs, k) as int, offset(rs, k + 1) as int) == entry_bytes(
            rs[k],
        ),
        offset(rs, k + 1) <= entries_bytes(rs).len(),
{
    lemma_entries_push(rs.take(k), rs[k]);
    assert(rs.take(k).push(rs[k]) =~= rs.take(k + 1));
    lemma_entries_append(rs.take(k + 1), rs.skip(k + 1));
    assert(rs.take(k + 1) + rs.skip(k + 1) =~= rs);
    lemma_entry_bytes_len(rs[k]);
    let e = entries_bytes(rs);
    assert(e.subrange(offset(rs, k) as int, offset(rs, k + 1) as int) =~= entry_bytes(rs[k]));
}

/// The entries from `k` on are the bytes of the image's entries after `offset(rs, k)`.
pub proof fn lemma_entries_skip(rs: Seq<Record>, k: int)
    requires
        0 <= k <= rs.len(),
    ensures
        offset(rs, k) <= entries_bytes(rs).len(),
        entries_bytes(rs).subrange(offset(rs, k) as int, entries_bytes(rs).len() as int)
            == entries_bytes(rs.skip(k)),
{
    lemma_entries_append(rs.take(k), rs.skip(k));
    assert(rs.take(k) + rs.skip(k) =~= rs);
    let e = entries_bytes(rs);
    assert(e.subrange(offset(rs, k) as int, e.len() as int) =~= entries_bytes(rs.skip(k)));
}

/// The split of a complete entry at the start of `s`.
pub proof fn lemma_first_record(s: Seq<u8>)
    requires
        entry_complete(s),
    ensures
        first_record(s).0.len() == length_field(s),
        first_record(s).0.len() < pow256(8),
        s.subrange(0, 12 + length_field(s) as int) == entry_bytes(first_record(s)),
{
    let n = length_field(s) as int;
    let r = first_record(s);
    lemma_le_value_bound(s.subrange(0, 8));
    lemma_le_bytes_of_value(s.subrange(0, 8));
    lemma_le_value_bound(s.subrange(8 + n, 12 + n));
    lemma_le_bytes_of_value(s.subrange(8 + n, 12 + n));
    lemma_pow256_facts();
    assert(s.subrange(0, 12 + n) =~= entry_bytes(r));
}

/// Scanning an entry followed by anything reads that entry, then scans the rest.
pub proof fn lemma_scan_entry(r: Record, t: Seq<u8>)
    requires
        r.0.len() < pow256(8),
    ensures
        scan(entry_bytes(r) + t) == seq![r] + scan(t),
{
    let s = entry_bytes(r) + t;
    let n = r.0.len() as int;
    lemma_le_bytes_len(r.0.len(), 8);
    lemma_le_bytes_len(r.1 as nat, 4);
    assert(s.subrange(0, 8) =~= le_bytes(r.0.len(), 8));
    lemma_le_round_trip(r.0.len(), 8);
    lemma_pow256_facts();
    lemma_le_round_trip(r.1 as nat, 4);
    assert(s.subrange(8, 8 + n) =~= r.0);
    assert(s.subrange(8 + n, 12 + n) =~= le_bytes(r.1 as nat, 4));
    assert(first_record(s) == r);
    assert(s.subrange(12 + n, s.len() as int) =~= t);
}

/// Scanning whole entries followed by anything reads those entries, then scans the rest.
pub proof fn lemma_scan_entries(rs: Seq<Record>, t: Seq<u8>)
    requires
        valid_records(rs),
    ensures
        scan(entries_bytes(rs) + t) == rs + scan(t),
    decreases rs.len(),
{
    if rs.len() == 0 {
        assert(entries_bytes(rs) + t =~= t);
        assert(rs + scan(t) =~= scan(t));
    } else {
        let rest = rs.drop_first();
        assert(valid_records(rest)) by {
            assert forall|i: int| 0 <= i < rest.len() implies (#[trigger] rest[i]).0.len() < pow256(
                8,
            ) by {
                assert(rest[i] == rs[i + 1]);
            }
        }
        lemma_scan_entries(rest, t);
        assert(entries_bytes(rs) + t =~= entry_bytes(rs[0]) + (entries_bytes(rest) + t));
        assert(rs[0].0.len() < pow256(8));
        lemma_scan_entry(rs[0], entries_bytes(rest) + t);
        assert(rs =~= seq![rs[0]] + rest);
        assert(seq![rs[0]] + (rest + scan(t)) =~= rs + scan(t));
    }
}

} // verus!
