//! The log engine over the byte image of its file: recovery, append, cursors,
//! range iteration, compaction and restart.

use vstd::prelude::*;
use crate::checksum::{checksum, crc32_of};
use crate::codec::{
    le_bytes, le_value, lemma_le_bytes_len, lemma_le_bytes_of_value, lemma_le_round_trip,
    lemma_pow256_facts, pow256, push_le, read_le,
};
use crate::error::LogError;
use crate::format::{
    entries_bytes, entry_bytes, entry_complete, first_record, lemma_entries_push, lemma_entries_skip,
    lemma_entry_at, lemma_first_record, log_image, offset, scan, valid_records, Record,
};

verus! {

/// What a log holds: the index of its first entry and its entries in order.
pub struct LogState {
    pub first: u64,
    pub records: Seq<Record>,
}

impl LogState {
    pub open spec fn len(self) -> nat {
        self.records.len()
    }

    /// One past the index of the last entry.
    pub open spec fn end(self) -> int {
        self.first + self.records.len()
    }

    /// Payload lengths fit their field, and every index up to `end` fits a `u64`.
    pub open spec fn valid(self) -> bool {
        valid_records(self.records) && self.end() <= u64::MAX
    }

    pub open spec fn image(self) -> Seq<u8> {
        log_image(self.first, self.records)
    }

    pub open spec fn contains(self, i: int) -> bool {
        self.first <= i < self.end()
    }

    pub open spec fn record(self, i: int) -> Record {
        self.records[i - self.first]
    }

    pub open spec fn payload(self, i: int) -> Seq<u8> {
        self.record(i).0
    }

    /// The checksum stored with entry `i` is that of its payload.
    pub open spec fn intact(self, i: int) -> bool {
        crc32_of(self.record(i).0) == self.record(i).1
    }
}

/// A log with no entries whose next entry gets index `first`.
pub open spec fn empty_log(first: u64) -> LogState {
    LogState { first, records: Seq::empty() }
}

/// The log after `payload` is appended with its checksum.
pub open spec fn appended(s: LogState, payload: Seq<u8>) -> LogState {
    LogState { first: s.first, records: s.records.push((payload, crc32_of(payload))) }
}

/// The log after each of `ps` is appended in order.
pub open spec fn appended_all(s: LogState, ps: Seq<Seq<u8>>) -> LogState
    decreases ps.len(),
{
    if ps.len() == 0 {
        s
    } else {
        appended(appended_all(s, ps.drop_last()), ps.last())
    }
}

/// The log after the entries below `k` are dropped.
pub open spec fn compacted(s: LogState, k: u64) -> LogState {
    LogState { first: k, records: s.records.skip(k - s.first) }
}

/// The first index that recovery reads from the bytes of a file.
pub open spec fn recovered_first(data: Seq<u8>) -> u64 {
    if data.len() >= 8 {
        le_value(data.subrange(0, 8)) as u64
    } else {
        0
    }
}

/// The entries that recovery finds in the bytes of a file: the complete ones
/// after the header, up to the first that is cut short.
pub open spec fn recovered_records(data: Seq<u8>) -> Seq<Record> {
    if data.len() >= 8 {
        scan(data.subrange(8, data.len() as int))
    } else {
        Seq::empty()
    }
}

/// Every entry that recovery finds has an index that fits a `u64`.
pub open spec fn recoverable(data: Seq<u8>) -> bool {
    recovered_first(data) + recovered_records(data).len() <= u64::MAX
}

/// The state that recovery makes of the bytes of a file.
pub open spec fn recovered(data: Seq<u8>) -> LogState {
    LogState { first: recovered_first(data), records: recovered_records(data) }
}

/// Where entry `k` lies in an image, and what its fields hold.
proof fn lemma_entry_in_image(first: u64, rs: Seq<Record>, k: int)
    requires
        valid_records(rs),
        0 <= k < rs.len(),
    ensures
        ({
            let img = log_image(first, rs);
            let p = 8 + offset(rs, k) as int;
            let n = rs[k].0.len() as int;
            &&& p + 12 + n == 8 + offset(rs, k + 1) <= img.len()
            &&& le_value(img.subrange(p, p + 8)) == n
            &&& img.subrange(p + 8, p + 8 + n) == rs[k].0
            &&& le_value(img.subrange(p + 8 + n, p + 12 + n)) == rs[k].1 as nat
        }),
{
    let img = log_image(first, rs);
    let e = entries_bytes(rs);
    let p = 8 + offset(rs, k) as int;
    let n = rs[k].0.len() as int;
    lemma_entry_at(rs, k);
    lemma_le_bytes_len(first as nat, 8);
    lemma_le_bytes_len(rs[k].0.len(), 8);
    lemma_le_bytes_len(rs[k].1 as nat, 4);
    assert(img.subrange(p, p + 12 + n) =~= e.subrange(offset(rs, k) as int, offset(rs, k + 1) as int));
    let eb = entry_bytes(rs[k]);
    assert(img.subrange(p, p + 8) =~= eb.subrange(0, 8));
    assert(eb.subrange(0, 8) =~= le_bytes(rs[k].0.len(), 8));
    assert(img.subrange(p + 8, p + 8 + n) =~= eb.subrange(8, 8 + n));
    assert(eb.subrange(8, 8 + n) =~= rs[k].0);
    assert(img.subrange(p + 8 + n, p + 12 + n) =~= eb.subrange(8 + n, 12 + n));
    assert(eb.subrange(8 + n, 12 + n) =~= le_bytes(rs[k].1 as nat, 4));
    assert(rs[k].0.len() < pow256(8));
    lemma_le_round_trip(rs[k].0.len(), 8);
    lemma_pow256_facts();
    lemma_le_round_trip(rs[k].1 as nat, 4);
}

/// Appends `data[a..b]` to `out`.
fn append_range(out: &mut Vec<u8>, data: &[u8], a: usize, b: usize)
    requires
        a <= b <= data@.len(),
    ensures
        final(out)@ == old(out)@ + data@.subrange(a as int, b as int),
{
    let ghost start = out@;
    let mut i: usize = a;
    while i < b
        invariant
            a <= i <= b <= data@.len(),
            out@ == start + data@.subrange(a as int, i as int),
        decreases b - i,
    {
        out.push(data[i]);
        i = i + 1;
        assert(out@ =~= start + data@.subrange(a as int, i as int));
    }
}

/// The bytes of one entry holding `payload` and its checksum.
pub fn encode_entry(payload: &[u8]) -> (r: Vec<u8>)
    ensures
        r@ == entry_bytes((payload@, crc32_of(payload@))),
{
    let mut out: Vec<u8> = Vec::new();
    push_le(&mut out, payload.len() as u64, 8);
    append_range(&mut out, payload, 0, payload.len());
    let crc = checksum(payload, 0, payload.len());
    push_le(&mut out, crc as u64, 4);
    assert(payload@.subrange(0, payload@.len() as int) =~= payload@);
    assert(out@ =~= entry_bytes((payload@, crc32_of(payload@))));
    out
}

/// A write-ahead log, held as the byte image of its file.
pub struct LogFile {
    data: Vec<u8>,
    first_index: u64,
    len: u64,
    records: Ghost<Seq<Record>>,
}

impl View for LogFile {
    type V = LogState;

    closed spec fn view(&self) -> LogState {
        LogState { first: self.first_index, records: self.records@ }
    }
}

impl LogFile {
    /// The image is that of the state, and the state is valid.
    pub closed spec fn wf(&self) -> bool {
        &&& self.data@ == log_image(self.first_index, self.records@)
        &&& self.len as nat == self.records@.len()
        &&& self@.valid()
    }

    pub proof fn lemma_valid(&self)
        requires
            self.wf(),
        ensures
            self@.valid(),
    {
    }

    /// Recovers a log from the bytes of its file. Bytes shorter than a header
    /// make a new empty log at index 0; otherwise the header gives the first
    /// index, the complete entries that follow are kept, and whatever follows
    /// the last of them (an interrupted write) is dropped. Checksums are not
    /// checked here. Fails with `OutOfBounds` where the entries found run past
    /// the largest index.
    pub fn recover(bytes: Vec<u8>) -> (r: Result<LogFile, LogError>)
        ensures
            r is Ok <==> recoverable(bytes@),
            match r {
                Ok(log) => log.wf() && log@ == recovered(bytes@),
                Err(e) => e is OutOfBounds,
            },
    {
        let mut data = bytes;
        let total = data.len();
        if total < 8 {
            let mut image: Vec<u8> = Vec::new();
            push_le(&mut image, 0, 8);
            proof {
                assert(entries_bytes(Seq::<Record>::empty()) == Seq::<u8>::empty());
                assert(image@ =~= log_image(0, Seq::empty()));
            }
            return Ok(LogFile { data: image, first_index: 0, len: 0, records: Ghost(Seq::empty()) });
        }
        let ghost input = data@;
        let first = read_le(data.as_slice(), 0, 8);
        let mut pos: usize = 8;
        let mut count: u64 = 0;
        let mut done = false;
        let ghost mut rs: Seq<Record> = Seq::empty();
        proof {
            assert(data@.subrange(8, 8) =~= Seq::<u8>::empty());
            assert(entries_bytes(rs) == Seq::<u8>::empty());
            assert(rs + scan(data@.subrange(8, total as int)) =~= scan(
                data@.subrange(8, total as int),
            ));
        }
        while !done && total - pos > 8
            invariant
                input == data@,
                input == bytes@,
                8 <= pos <= total == data@.len(),
                first as nat == le_value(data@.subrange(0, 8)),
                data@.subrange(8, pos as int) == entries_bytes(rs),
                count as nat == rs.len(),
                valid_records(rs),
                first + count <= u64::MAX,
                scan(data@.subrange(8, total as int)) == rs + scan(
                    data@.subrange(pos as int, total as int),
                ),
                done ==> !entry_complete(data@.subrange(pos as int, total as int)),
            decreases total - pos + (if done { 0int } else { 1int }),
        {
            let ghost s = data@.subrange(pos as int, total as int);
            let n = read_le(data.as_slice(), pos, 8);
            proof {
                assert(s.subrange(0, 8) =~= data@.subrange(pos as int, pos + 8));
            }
            let room = (total - pos - 8) as u64;
            if room < 4 || n > room - 4 {
                done = true;
            } else {
                let ghost rec = first_record(s);
                let ghost rest = data@.subrange(pos + 12 + n, total as int);
                proof {
                    lemma_first_record(s);
                    assert(s.subrange(12 + n, s.len() as int) =~= rest);
                }
                if count >= u64::MAX - first {
                    proof {
                        assert(entry_complete(s));
                        assert(scan(s) == seq![rec] + scan(rest));
                        assert(recovered_records(data@) == rs + (seq![rec] + scan(rest)));
                        assert(recovered_records(data@).len() >= rs.len() + 1);
                        assert(recovered_first(data@) == first);
                        assert(!recoverable(data@));
                    }
                    return Err(LogError::OutOfBounds);
                }
                let next = pos + 12 + n as usize;
                proof {
                    lemma_entries_push(rs, rec);
                    assert(data@.subrange(8, next as int) =~= data@.subrange(8, pos as int) + s.subrange(
                        0,
                        12 + n,
                    ));
                    assert(rs.push(rec) + scan(rest) =~= rs + (seq![rec] + scan(rest)));
                    assert(valid_records(rs.push(rec))) by {
                        assert forall|i: int| 0 <= i < rs.push(rec).len() implies (#[trigger] rs.push(
                            rec,
                        )[i]).0.len() < pow256(8) by {
                            if i < rs.len() {
                                assert(rs.push(rec)[i] == rs[i]);
                            }
                        }
                    }
                    rs = rs.push(rec);
                }
                pos = next;
                count = count + 1;
            }
        }
        proof {
            let s = data@.subrange(pos as int, total as int);
            assert(!entry_complete(s));
            assert(scan(s) == Seq::<Record>::empty());
            assert(rs + scan(s) =~= rs);
            lemma_le_bytes_of_value(data@.subrange(0, 8));
            assert(recovered_records(input) == rs);
        }
        data.truncate(pos);
        proof {
            assert(data@ =~= le_bytes(first as nat, 8) + entries_bytes(rs));
        }
        Ok(LogFile { data, first_index: first, len: count, records: Ghost(rs) })
    }

    /// The bytes of the log's file.
    pub fn image(&self) -> (r: &[u8])
        requires
            self.wf(),
        ensures
            r@ == self@.image(),
    {
        self.data.as_slice()
    }

    /// The index of the first entry (of the next one, where the log is empty).
    pub fn first_index(&self) -> (r: u64)
        ensures
            r == self@.first,
    {
        self.first_index
    }

    /// The index of the last entry.
    pub fn last_index(&self) -> (r: u64)
        requires
            self.wf(),
            self@.end() >= 1,
        ensures
            r == self@.end() - 1,
    {
        self.first_index + self.len - 1
    }

    /// The number of entries.
    pub fn len(&self) -> (r: u64)
        requires
            self.wf(),
        ensures
            r == self@.len(),
    {
        self.len
    }

    /// Appends `entry` with its checksum. Fails with `OutOfBounds` where no
    /// index is left for it or the image would outgrow the address space.
    pub fn write(&mut self, entry: &[u8]) -> (r: Result<(), LogError>)
        requires
            old(self).wf(),
        ensures
            final(self).wf(),
            r is Err <==> (old(self)@.end() >= u64::MAX || old(self)@.image().len() + entry@.len()
                + 12 > usize::MAX),
            match r {
                Ok(()) => final(self)@ == appended(old(self)@, entry@),
                Err(e) => e is OutOfBounds && final(self)@ == old(self)@,
            },
    {
        if self.len >= u64::MAX - self.first_index {
            return Err(LogError::OutOfBounds);
        }
        if self.data.len() > usize::MAX - 12 || entry.len() > usize::MAX - 12 - self.data.len() {
            return Err(LogError::OutOfBounds);
        }
        let bytes = encode_entry(entry);
        let ghost old_records = self.records@;
        let ghost rec: Record = (entry@, crc32_of(entry@));
        append_range(&mut self.data, bytes.as_slice(), 0, bytes.len());
        proof {
            assert(bytes@.subrange(0, bytes@.len() as int) =~= bytes@);
            lemma_entries_push(old_records, rec);
            assert(self.data@ =~= log_image(self.first_index, old_records.push(rec)));
            assert(valid_records(old_records.push(rec))) by {
                assert forall|i: int| 0 <= i < old_records.push(rec).len() implies (
                #[trigger] old_records.push(rec)[i]).0.len() < pow256(8) by {
                    if i < old_records.len() {
                        assert(old_records.push(rec)[i] == old_records[i]);
                    } else {
                        lemma_pow256_facts();
                    }
                }
            }
        }
        self.records = Ghost(old_records.push(rec));
        self.len = self.len + 1;
        Ok(())
    }

    /// A cursor at the first entry's place.
    fn start(&self) -> (r: LogEntry<'_>)
        requires
            self.wf(),
        ensures
            r.wf(),
            r.log_state() == self@,
            r.spec_index() == self@.first,
    {
        proof {
            assert(self.records@.take(0) =~= Seq::<Record>::empty());
            assert(entries_bytes(Seq::<Record>::empty()) == Seq::<u8>::empty());
        }
        LogEntry { log: self, index: self.first_index, pos: 8 }
    }

    /// A cursor at the first entry. Fails with `OutOfBounds` on an empty log.
    pub fn first_entry(&self) -> (r: Result<LogEntry<'_>, LogError>)
        requires
            self.wf(),
        ensures
            r is Err <==> self@.len() == 0,
            match r {
                Ok(e) => e.wf() && e.log_state() == self@ && e.spec_index() == self@.first,
                Err(e) => e is OutOfBounds,
            },
    {
        if self.len == 0 {
            return Err(LogError::OutOfBounds);
        }
        Ok(self.start())
    }

    /// A cursor at entry `to_index`, or at the place after the last entry.
    /// Fails with `OutOfBounds` outside `[first_index, first_index + len]`.
    pub fn seek(&self, to_index: u64) -> (r: Result<LogEntry<'_>, LogError>)
        requires
            self.wf(),
        ensures
            r is Err <==> (to_index < self@.first || to_index > self@.end()),
            match r {
                Ok(e) => e.wf() && e.log_state() == self@ && e.spec_index() == to_index,
                Err(e) => e is OutOfBounds,
            },
    {
        self.start().seek(to_index)
    }

    /// Drops the entries below `new_start_index`: the image becomes a header
    /// with that index followed by the bytes of the entries kept, unchanged.
    /// Fails with `OutOfBounds` outside `[first_index, first_index + len]`.
    pub fn compact(&mut self, new_start_index: u64) -> (r: Result<(), LogError>)
        requires
            old(self).wf(),
        ensures
            final(self).wf(),
            r is Err <==> (new_start_index < old(self)@.first || new_start_index > old(self)@.end()),
            match r {
                Ok(()) => final(self)@ == compacted(old(self)@, new_start_index),
                Err(e) => e is OutOfBounds && final(self)@ == old(self)@,
            },
    {
        let pos = match self.seek(new_start_index) {
            Ok(entry) => entry.pos,
            Err(e) => return Err(e),
        };
        let ghost rs = self.records@;
        let ghost k = new_start_index - self.first_index;
        proof {
            lemma_entries_skip(rs, k);
            lemma_le_bytes_len(self.first_index as nat, 8);
        }
        let mut image: Vec<u8> = Vec::new();
        push_le(&mut image, new_start_index, 8);
        append_range(&mut image, self.data.as_slice(), pos, self.data.len());
        proof {
            lemma_entries_skip(rs, k);
            lemma_le_bytes_len(self.first_index as nat, 8);
            let e = entries_bytes(rs);
            assert(self.data@.subrange(pos as int, self.data@.len() as int) =~= e.subrange(
                offset(rs, k) as int,
                e.len() as int,
            ));
            assert(image@ =~= log_image(new_start_index, rs.skip(k)));
            assert(valid_records(rs.skip(k))) by {
                assert forall|i: int| 0 <= i < rs.skip(k).len() implies (#[trigger] rs.skip(
                    k,
                )[i]).0.len() < pow256(8) by {
                    assert(rs.skip(k)[i] == rs[i + k]);
                }
            }
        }
        self.data = image;
        self.records = Ghost(rs.skip(k));
        self.len = self.len - (new_start_index - self.first_index);
        self.first_index = new_start_index;
        Ok(())
    }

    /// Drops every entry; the next one written gets `starting_index`.
    pub fn restart(&mut self, starting_index: u64)
        requires
            old(self).wf(),
        ensures
            final(self).wf(),
            final(self)@ == empty_log(starting_index),
    {
        let mut image: Vec<u8> = Vec::new();
        push_le(&mut image, starting_index, 8);
        proof {
            assert(entries_bytes(Seq::<Record>::empty()) == Seq::<u8>::empty());
            assert(image@ =~= log_image(starting_index, Seq::empty()));
        }
        self.data = image;
        self.first_index = starting_index;
        self.len = 0;
        self.records = Ghost(Seq::empty());
    }
}

/// A cursor: a place in a log, at the start of the entry with its index, or
/// just after the last entry. It borrows the log, which cannot change while
/// the cursor lives, and it only moves forward.
pub struct LogEntry<'l> {
    log: &'l LogFile,
    index: u64,
    pos: usize,
}

impl<'l> LogEntry<'l> {
    pub closed spec fn wf(&self) -> bool {
        &&& self.log.wf()
        &&& self.log.first_index <= self.index
        &&& self.index - self.log.first_index <= self.log.len
        &&& self.pos as int == 8 + offset(self.log.records@, self.index - self.log.first_index)
    }

    /// The state of the log that the cursor reads.
    pub closed spec fn log_state(&self) -> LogState {
        self.log@
    }

    pub closed spec fn spec_index(&self) -> u64 {
        self.index
    }

    /// The index of the entry at the cursor.
    pub fn index(&self) -> (r: u64)
        ensures
            r == self.spec_index(),
    {
        self.index
    }

    /// Moves forward to `to_index`, skipping entries by their length fields.
    /// Fails with `OutOfBounds` where `to_index` lies behind the cursor or past
    /// the place after the last entry.
    pub fn seek(self, to_index: u64) -> (r: Result<LogEntry<'l>, LogError>)
        requires
            self.wf(),
        ensures
            r is Err <==> (to_index < self.spec_index() || to_index > self.log_state().end()),
            match r {
                Ok(e) => e.wf() && e.log_state() == self.log_state() && e.spec_index() == to_index,
                Err(e) => e is OutOfBounds,
            },
    {
        let LogEntry { log, index, pos } = self;
        if to_index < index || to_index - log.first_index > log.len {
            return Err(LogError::OutOfBounds);
        }
        let ghost rs = log.records@;
        let total = log.data.len();
        let mut i: u64 = index;
        let mut p: usize = pos;
        while i < to_index
            invariant
                log.wf(),
                total == log.data@.len(),
                rs == log.records@,
                log.first_index <= index <= i <= to_index,
                to_index - log.first_index <= log.len,
                p as int == 8 + offset(rs, i - log.first_index),
            decreases to_index - i,
        {
            let ghost k = i - log.first_index;
            proof {
                lemma_entry_in_image(log.first_index, rs, k);
            }
            let n = read_le(log.data.as_slice(), p, 8);
            p = p + 12 + n as usize;
            i = i + 1;
        }
        Ok(LogEntry { log, index: to_index, pos: p })
    }

    /// Reads the entry at the cursor: checks its payload against the stored
    /// checksum and appends the payload to `write`. Returns the cursor at the
    /// next entry, or `None` after the last one. Fails with `BadChecksum` where
    /// the checksum does not match, and with `OutOfBounds` where the cursor
    /// stands after the last entry; `write` is then left as it was.
    pub fn read_to_next(self, write: &mut Vec<u8>) -> (r: Result<Option<LogEntry<'l>>, LogError>)
        requires
            self.wf(),
        ensures
            ({
                let s = self.log_state();
                let i = self.spec_index() as int;
                match r {
                    Ok(next) => {
                        &&& s.contains(i)
                        &&& s.intact(i)
                        &&& final(write)@ == old(write)@ + s.payload(i)
                        &&& (next is Some <==> i + 1 < s.end())
                        &&& match next {
                            Some(e) => e.wf() && e.log_state() == s && e.spec_index() == i + 1,
                            None => true,
                        }
                    },
                    Err(e) => {
                        &&& final(write)@ == old(write)@
                        &&& (i == s.end() && e is OutOfBounds) || (s.contains(i) && !s.intact(i)
                            && e is BadChecksum)
                    },
                }
            }),
    {
        let LogEntry { log, index, pos } = self;
        if index - log.first_index >= log.len {
            return Err(LogError::OutOfBounds);
        }
        let ghost rs = log.records@;
        let ghost k = index - log.first_index;
        proof {
            lemma_entry_in_image(log.first_index, rs, k);
        }
        let total = log.data.len();
        let n = read_le(log.data.as_slice(), pos, 8);
        let start = pos + 8;
        let stop = start + n as usize;
        let crc = checksum(log.data.as_slice(), start, stop);
        let stored = read_le(log.data.as_slice(), stop, 4);
        if stored != crc as u64 {
            return Err(LogError::BadChecksum);
        }
        append_range(write, log.data.as_slice(), start, stop);
        let next_index = index + 1;
        if next_index - log.first_index < log.len {
            Ok(Some(LogEntry { log, index: next_index, pos: stop + 4 }))
        } else {
            Ok(None)
        }
    }
}

/// One end of a range of indices.
#[derive(Clone, Copy, Debug, PartialEq, Eq)]
pub enum IndexBound {
    Included(u64),
    Excluded(u64),
    Unbounded,
}

/// The last index that a range with end `b` reads from `s`, or `None` where
/// the end lies past the log's last index (an end at the last index itself
/// counts as past it).
pub open spec fn range_last(s: LogState, b: IndexBound) -> Option<int> {
    match b {
        IndexBound::Unbounded => Some(s.end() - 1),
        IndexBound::Included(x) => if x < s.end() - 1 {
            Some(x as int)
        } else {
            None
        },
        IndexBound::Excluded(x) => if x < s.end() {
            Some(x - 1)
        } else {
            None
        },
    }
}

/// The first index that a range with start `b` reads from `s`, or `None`
/// where no cursor can stand there.
pub open spec fn range_first(s: LogState, b: IndexBound) -> Option<int> {
    let lo = match b {
        IndexBound::Unbounded => s.first as int,
        IndexBound::Included(x) => x as int,
        IndexBound::Excluded(x) => x + 1,
    };
    if s.first <= lo <= s.end() {
        Some(lo)
    } else {
        None
    }
}

/// Reads the payloads of a range of entries in order, one per call of `next`.
pub struct LogIterator<'l> {
    next: Option<LogEntry<'l>>,
    last_index: u64,
    state: Ghost<LogState>,
}

impl<'l> LogIterator<'l> {
    pub closed spec fn wf(&self) -> bool {
        match self.next {
            Some(e) => {
                &&& e.wf()
                &&& e.log_state() == self.state@
                &&& self.last_index < self.state@.end()
            },
            None => true,
        }
    }

    /// The state of the log that the iterator reads.
    pub closed spec fn log_state(&self) -> LogState {
        self.state@
    }

    /// The indices still to be read: from the first to the second, inclusive.
    pub closed spec fn span(&self) -> (int, int) {
        match self.next {
            Some(e) => (e.spec_index() as int, self.last_index as int),
            None => (1, 0),
        }
    }

    pub open spec fn exhausted(&self) -> bool {
        self.span().0 > self.span().1
    }

    /// The iterator reads the indices from `lo` to `hi`, inclusive.
    pub open spec fn covers(&self, lo: int, hi: int) -> bool {
        if lo > hi {
            self.exhausted()
        } else {
            self.span() == (lo, hi)
        }
    }

    /// Reads the next entry of the range. After the range's end, after the
    /// log's end, or after an error, returns `None`.
    pub fn next(&mut self) -> (r: Option<Result<Vec<u8>, LogError>>)
        requires
            old(self).wf(),
        ensures
            final(self).wf(),
            final(self).log_state() == old(self).log_state(),
            ({
                let s = old(self).log_state();
                let lo = old(self).span().0;
                let hi = old(self).span().1;
                if lo > hi {
                    r is None && final(self).exhausted()
                } else {
                    match r {
                        Some(Ok(v)) => s.intact(lo) && v@ == s.payload(lo) && final(self).covers(
                            lo + 1,
                            hi,
                        ),
                        Some(Err(e)) => !s.intact(lo) && e is BadChecksum && final(self).exhausted(),
                        None => false,
                    }
                }
            }),
    {
        let entry = match self.next.take() {
            Some(entry) => entry,
            None => return None,
        };
        if entry.index > self.last_index {
            return None;
        }
        let mut content: Vec<u8> = Vec::new();
        match entry.read_to_next(&mut content) {
            Ok(next) => {
                self.next = next;
                assert(content@ =~= Seq::<u8>::empty() + self.state@.payload(entry.index as int));
                Some(Ok(content))
            },
            Err(err) => Some(Err(err)),
        }
    }
}

impl LogFile {
    /// An iterator over the entries from `start` to `end`. On an empty log it
    /// reads nothing, whatever the bounds. Otherwise fails with `OutOfBounds`
    /// where `end` reaches the last index or beyond (but for `Unbounded`), or
    /// where `start` lies outside `[first_index, first_index + len]`.
    pub fn iter(&self, start: IndexBound, end: IndexBound) -> (r: Result<LogIterator<'_>, LogError>)
        requires
            self.wf(),
        ensures
            match r {
                Ok(it) => {
                    &&& it.wf()
                    &&& it.log_state() == self@
                    &&& if self@.len() == 0 {
                        it.exhausted()
                    } else {
                        &&& range_first(self@, start) is Some
                        &&& range_last(self@, end) is Some
                        &&& it.covers(
                            range_first(self@, start).unwrap(),
                            range_last(self@, end).unwrap(),
                        )
                    }
                },
                Err(e) => {
                    &&& e is OutOfBounds
                    &&& self@.len() > 0
                    &&& (range_first(self@, start) is None || range_last(self@, end) is None)
                },
            },
    {
        if self.len == 0 {
            return Ok(LogIterator { next: None, last_index: self.first_index, state: Ghost(self@) });
        }
        let last = self.first_index + self.len - 1;
        // `None` stands for the index before 0.
        let hi: Option<u64> = match end {
            IndexBound::Unbounded => Some(last),
            IndexBound::Included(x) => if x < last {
                Some(x)
            } else {
                return Err(LogError::OutOfBounds);
            },
            IndexBound::Excluded(x) => if x <= last {
                if x == 0 {
                    None
                } else {
                    Some(x - 1)
                }
            } else {
                return Err(LogError::OutOfBounds);
            },
        };
        let cursor = match start {
            IndexBound::Unbounded => self.start(),
            IndexBound::Included(x) => match self.seek(x) {
                Ok(e) => e,
                Err(e) => return Err(e),
            },
            IndexBound::Excluded(x) => {
                if x == u64::MAX {
                    return Err(LogError::OutOfBounds);
                }
                match self.seek(x + 1) {
                    Ok(e) => e,
                    Err(e) => return Err(e),
                }
            },
        };
        match hi {
            Some(h) => Ok(LogIterator { next: Some(cursor), last_index: h, state: Ghost(self@) }),
            None => Ok(LogIterator { next: None, last_index: self.first_index, state: Ghost(self@) }),
        }
    }
}

} // verus!
