//! What holds of the log across several operations.

use vstd::prelude::*;
use crate::checksum::crc32_of;
use crate::codec::{lemma_le_bytes_len, lemma_le_round_trip, pow256};
use crate::format::{
    entries_bytes, entry_bytes, entry_complete, lemma_entries_append, lemma_entries_single,
    lemma_scan_entries, offset, scan,
    valid_records,
};
use crate::log::{appended_all, compacted, empty_log, recoverable, recovered, LogState};

verus! {

/// The entries that appending each of `ps` adds: each payload with its checksum.
pub open spec fn records_of(ps: Seq<Seq<u8>>) -> Seq<(Seq<u8>, u32)> {
    ps.map_values(|p: Seq<u8>| (p, crc32_of(p)))
}

/// Appending payloads adds them, each with its checksum, after the entries
/// already there, and leaves the first index alone.
pub proof fn lemma_appended_all(s: LogState, ps: Seq<Seq<u8>>)
    ensures
        appended_all(s, ps).first == s.first,
        appended_all(s, ps).records == s.records + records_of(ps),
    decreases ps.len(),
{
    if ps.len() == 0 {
        assert(s.records + records_of(ps) =~= s.records);
    } else {
        lemma_appended_all(s, ps.drop_last());
        assert(s.records + records_of(ps) =~= (s.records + records_of(ps.drop_last())).push(
            (ps.last(), crc32_of(ps.last())),
        ));
    }
}

/// Reading back the image of a valid log gives the same log.
pub proof fn lemma_reopen(s: LogState)
    requires
        s.valid(),
    ensures
        recoverable(s.image()),
        recovered(s.image()) == s,
{
    let img = s.image();
    lemma_le_bytes_len(s.first as nat, 8);
    assert(img.subrange(0, 8) =~= crate::codec::le_bytes(s.first as nat, 8));
    crate::codec::lemma_pow256_facts();
    lemma_le_round_trip(s.first as nat, 8);
    assert(img.subrange(8, img.len() as int) =~= entries_bytes(s.records) + Seq::<u8>::empty());
    lemma_scan_entries(s.records, Seq::<u8>::empty());
    assert(!entry_complete(Seq::<u8>::empty()));
    assert(scan(Seq::<u8>::empty()) == Seq::<(Seq<u8>, u32)>::empty());
    assert(s.records + Seq::<(Seq<u8>, u32)>::empty() =~= s.records);
}

/// Payloads written in order to an empty log starting at `k` are read back,
/// after the log is reopened from its image, in the same order, each with a
/// matching checksum.
pub proof fn lemma_round_trip(k: u64, ps: Seq<Seq<u8>>)
    requires
        k + ps.len() <= u64::MAX,
        forall|i: int| 0 <= i < ps.len() ==> (#[trigger] ps[i]).len() < pow256(8),
    ensures
        recoverable(appended_all(empty_log(k), ps).image()),
        recovered(appended_all(empty_log(k), ps).image()).first == k,
        recovered(appended_all(empty_log(k), ps).image()).len() == ps.len(),
        forall|i: int|
            0 <= i < ps.len() ==> recovered(appended_all(empty_log(k), ps).image()).payload(k + i)
                == #[trigger] ps[i] && recovered(appended_all(empty_log(k), ps).image()).intact(
                k + i,
            ),
{
    let s = appended_all(empty_log(k), ps);
    lemma_appended_all(empty_log(k), ps);
    assert(s.records =~= records_of(ps));
    assert(valid_records(s.records)) by {
        assert forall|i: int| 0 <= i < s.records.len() implies (#[trigger] s.records[i]).0.len()
            < pow256(8) by {
            assert(s.records[i] == (ps[i], crc32_of(ps[i])));
        }
    }
    lemma_reopen(s);
    assert forall|i: int| 0 <= i < ps.len() implies recovered(s.image()).payload(k + i)
        == #[trigger] ps[i] && recovered(s.image()).intact(k + i) by {
        assert(s.records[i] == (ps[i], crc32_of(ps[i])));
    }
}

/// Writing `n` entries to an empty log starting at `k` leaves `k` as the first
/// index, `n` entries, and `k + n - 1` as the last index.
pub proof fn lemma_index_continuity(k: u64, ps: Seq<Seq<u8>>)
    ensures
        appended_all(empty_log(k), ps).first == k,
        appended_all(empty_log(k), ps).len() == ps.len(),
        appended_all(empty_log(k), ps).end() - 1 == k + ps.len() - 1,
{
    lemma_appended_all(empty_log(k), ps);
}

/// Bytes after the last complete entry that do not make a complete entry
/// themselves (an interrupted write) are ignored on reopening: the log read
/// back is the one written, whose image ends where its last entry ends.
pub proof fn lemma_crash_truncation(s: LogState, extra: Seq<u8>)
    requires
        s.valid(),
        !entry_complete(extra),
    ensures
        recoverable(s.image() + extra),
        recovered(s.image() + extra) == s,
{
    let img = s.image() + extra;
    lemma_le_bytes_len(s.first as nat, 8);
    assert(img.subrange(0, 8) =~= crate::codec::le_bytes(s.first as nat, 8));
    crate::codec::lemma_pow256_facts();
    lemma_le_round_trip(s.first as nat, 8);
    assert(img.subrange(8, img.len() as int) =~= entries_bytes(s.records) + extra);
    lemma_scan_entries(s.records, extra);
    assert(scan(extra) == Seq::<(Seq<u8>, u32)>::empty());
    assert(s.records + Seq::<(Seq<u8>, u32)>::empty() =~= s.records);
}

/// Compacting at `k` keeps every entry from `k` on under its index, drops
/// those before it, and makes `k` the first index.
pub proof fn lemma_compaction_keeps_suffix(s: LogState, k: u64)
    requires
        s.valid(),
        s.first <= k <= s.end(),
    ensures
        compacted(s, k).first == k,
        compacted(s, k).end() == s.end(),
        compacted(s, k).valid(),
        forall|i: int| k <= i < s.end() ==> #[trigger] compacted(s, k).record(i) == s.record(i),
        forall|i: int| i < k ==> !#[trigger] compacted(s, k).contains(i),
{
    let c = compacted(s, k);
    assert forall|i: int| k <= i < s.end() implies #[trigger] c.record(i) == s.record(i) by {
        assert(c.records[i - k] == s.records[(i - k) + (k - s.first)]);
    }
    assert(valid_records(c.records)) by {
        assert forall|i: int| 0 <= i < c.records.len() implies (#[trigger] c.records[i]).0.len()
            < pow256(8) by {
            assert(c.records[i] == s.records[i + (k - s.first)]);
        }
    }
}

/// A restarted log reads back, after reopening, as empty from the index given.
pub proof fn lemma_restart_persists(m: u64)
    ensures
        recoverable(empty_log(m).image()),
        recovered(empty_log(m).image()) == empty_log(m),
        recovered(empty_log(m).image()).len() == 0,
{
    lemma_reopen(empty_log(m));
}

/// The byte of the image that holds byte `j` of entry `i`'s payload.
pub open spec fn payload_byte_pos(s: LogState, i: int, j: int) -> int {
    8 + offset(s.records, i - s.first) + 8 + j
}

/// The log with byte `j` of entry `i`'s payload set to `b`, its stored
/// checksum unchanged.
pub open spec fn with_payload_byte(s: LogState, i: int, j: int, b: u8) -> LogState {
    LogState {
        first: s.first,
        records: s.records.update(i - s.first, (s.payload(i).update(j, b), s.record(i).1)),
    }
}

/// Changing one byte inside a payload of the image, and reopening it, gives
/// the same log with only that payload changed: its stored checksum, and every
/// other entry, stay as they were. Reading that entry then fails exactly where
/// the checksum of the changed payload differs from the stored one (see
/// `LogEntry::read_to_next`).
pub proof fn lemma_payload_byte_change(s: LogState, i: int, j: int, b: u8)
    requires
        s.valid(),
        s.contains(i),
        0 <= j < s.payload(i).len(),
    ensures
        0 <= payload_byte_pos(s, i, j) < s.image().len(),
        recoverable(s.image().update(payload_byte_pos(s, i, j), b)),
        recovered(s.image().update(payload_byte_pos(s, i, j), b)) == with_payload_byte(s, i, j, b),
        with_payload_byte(s, i, j, b).record(i).1 == s.record(i).1,
        forall|x: int|
            s.contains(x) && x != i ==> #[trigger] with_payload_byte(s, i, j, b).record(x)
                == s.record(x),
{
    let k = i - s.first;
    let rs = s.records;
    let r = rs[k];
    let r2 = (r.0.update(j, b), r.1);
    let rs2 = rs.update(k, r2);
    let t = with_payload_byte(s, i, j, b);
    let front = rs.take(k);
    let back = rs.skip(k + 1);
    assert(rs =~= front + (seq![r] + back));
    assert(rs2 =~= front + (seq![r2] + back));
    lemma_entries_append(front, seq![r] + back);
    lemma_entries_append(front, seq![r2] + back);
    lemma_entries_append(seq![r], back);
    lemma_entries_append(seq![r2], back);
    lemma_entries_single(r);
    lemma_entries_single(r2);
    lemma_le_bytes_len(s.first as nat, 8);
    lemma_le_bytes_len(r.0.len(), 8);
    lemma_le_bytes_len(r.1 as nat, 4);
    assert(entry_bytes(r2) =~= entry_bytes(r).update(8 + j, b));
    assert(t.image() =~= s.image().update(payload_byte_pos(s, i, j), b));
    assert(valid_records(rs2)) by {
        assert forall|x: int| 0 <= x < rs2.len() implies (#[trigger] rs2[x]).0.len() < pow256(8) by {
            if x != k {
                assert(rs2[x] == rs[x]);
            }
        }
    }
    lemma_reopen(t);
}

} // verus!
