//! Append-only record log.
use crate::bytes::{get_u16, get_u32, get_u64, has_magic, u32_at, u64_at, window};
use crate::error::{unexpected_eof, ErrorView, StoreError};
use crate::format::record_log::{DEFAULT_SYNC_INTERVAL, MAGIC, MAX_PAYLOAD_SIZE, VERSION};
use crate::records::codec::{fits, layout, read_record, record_at, record_bytes, record_round_trip, record_survives_append, write_record};
use crate::records::meta::{decode_meta, encode_meta, meta_bytes, meta_max_id};
use crate::types::{BranchId, Record, RecordId, RecordInput, RecordView, Sequence, Timestamp};
use vstd::prelude::*;

verus! {

/// What scanning a log from `pos` gives as the largest record id, `max` being the
/// largest so far. The scan goes by the length fields alone. It stops at bytes that
/// are no record of this version, at a payload beyond the limit, and where a record is cut
/// short.
pub open spec fn scan_max_id(b: Seq<u8>, pos: int, max: u64) -> u64
    decreases b.len() - pos,
{
    let l = layout(b, pos);
    let id = u64_at(b, pos + 6);
    let seen = if id > max { id } else { max };
    if pos < 0 || b.len() < pos + 14 || window(b, pos, 4) != MAGIC@ || b[pos + 4] != VERSION {
        max
    } else if b.len() < pos + 40 || b.len() < l.type_end + 5 || u32_at(b, l.type_end + 1)
        > MAX_PAYLOAD_SIZE || b.len() < l.payload_end + 2 || b.len() < l.caused_end + 2 || b.len()
        < l.linked_end + 4 {
        seen
    } else {
        scan_max_id(b, l.linked_end + 4, seen)
    }
}

/// What iterating over the records from `off` yields: each record with its offset, and
/// an error as the last item where one does not read.
pub open spec fn records_from(b: Seq<u8>, off: int) -> Seq<Result<(u64, RecordView), ErrorView>>
    decreases b.len() - off,
{
    if off < 0 || off >= b.len() {
        Seq::empty()
    } else {
        match record_at(b, off) {
            Ok((r, end)) => if end > off {
                seq![Ok((off as u64, r))] + records_from(b, end)
            } else {
                Seq::empty()
            },
            Err(e) => seq![Err(e)],
        }
    }
}

/// Whether the bytes from `off` on are whole records up to the very end.
pub open spec fn whole_from(b: Seq<u8>, off: int) -> bool
    decreases b.len() - off,
{
    0 <= off && (off == b.len() || (off < b.len() && match record_at(b, off) {
        Ok((_, end)) => off < end && whole_from(b, end),
        Err(_) => false,
    }))
}

/// The id that the next record gets after `max`.
pub open spec fn id_after(max: u64) -> u64 {
    if max < u64::MAX {
        (max + 1) as u64
    } else {
        u64::MAX
    }
}

/// The next id of a log with these bytes, where `meta` is the content of its metadata
/// file: the metadata is believed if it belongs to a log of this size, else the log is
/// scanned.
pub open spec fn next_id_of(b: Seq<u8>, meta: Option<Seq<u8>>) -> u64 {
    match meta {
        Some(m) if meta_max_id(m, b.len() as u64) is Some => id_after(
            meta_max_id(m, b.len() as u64)->0,
        ),
        _ => id_after(scan_max_id(b, 0, 0)),
    }
}

/// Append-only record log: the bytes of its file, and what it takes to extend them.
pub struct RecordLog {
    bytes: Vec<u8>,
    next_id: u64,
    unsynced: u64,
    sync_interval: u64,
    last: Timestamp,
}

/// The log as a mathematical value.
pub struct RecordLogView {
    /// The bytes of the log file.
    pub bytes: Seq<u8>,
    /// The id that the next record gets.
    pub next_id: u64,
    /// Number of writes since the last sync.
    pub unsynced: u64,
    /// A sync is due after this many writes.
    pub sync_interval: u64,
    /// The timestamp of the last record that was written since the log was opened; the epoch
    /// before there is one.
    pub last: Timestamp,
}

impl View for RecordLog {
    type V = RecordLogView;

    closed spec fn view(&self) -> RecordLogView {
        RecordLogView {
            bytes: self.bytes@,
            next_id: self.next_id,
            unsynced: self.unsynced,
            sync_interval: self.sync_interval,
            last: self.last,
        }
    }
}

impl RecordLogView {
    /// A log always syncs before it has collected a full interval of writes.
    pub open spec fn wf(self) -> bool {
        self.unsynced < self.sync_interval && self.bytes.len() <= usize::MAX
    }

    /// The log after writing `r`.
    pub open spec fn appended(self, r: RecordView) -> RecordLogView {
        RecordLogView {
            bytes: self.bytes + record_bytes(r),
            next_id: (self.next_id + 1) as u64,
            unsynced: if self.unsynced + 1 >= self.sync_interval {
                0
            } else {
                (self.unsynced + 1) as u64
            },
            last: r.timestamp,
            ..self
        }
    }
}

fn find_max_id(b: &[u8]) -> (max: u64)
    ensures
        max == scan_max_id(b@, 0, 0),
{
    let len: usize = b.len();
    let mut pos: usize = 0;
    let mut max: u64 = 0;
    loop
        invariant
            len == b@.len(),
            pos <= len,
            scan_max_id(b@, 0, 0) == scan_max_id(b@, pos as int, max),
        decreases len - pos,
    {
        if len - pos < 14 || !has_magic(b, pos, MAGIC) || b[pos + 4] != VERSION {
            return max;
        }
        let id: u64 = get_u64(b, pos + 6);
        let seen: u64 = if id > max {
            id
        } else {
            max
        };
        if len - pos < 40 {
            return seen;
        }
        let type_len: usize = get_u16(b, pos + 38) as usize;
        if len - pos - 40 < type_len || len - pos - 40 - type_len < 5 {
            return seen;
        }
        let type_end: usize = pos + 40 + type_len;
        let payload_len: u32 = get_u32(b, type_end + 1);
        if payload_len > MAX_PAYLOAD_SIZE {
            return seen;
        }
        if len - type_end - 5 < payload_len as usize || len - type_end - 5 - (payload_len as usize)
            < 2 {
            return seen;
        }
        let payload_end: usize = type_end + 5 + payload_len as usize;
        let caused_len: usize = get_u16(b, payload_end) as usize;
        if len - payload_end - 2 < 8 * caused_len || len - payload_end - 2 - 8 * caused_len < 2 {
            return seen;
        }
        let caused_end: usize = payload_end + 2 + 8 * caused_len;
        let linked_len: usize = get_u16(b, caused_end) as usize;
        if len - caused_end - 2 < 8 * linked_len || len - caused_end - 2 - 8 * linked_len < 4 {
            return seen;
        }
        pos = caused_end + 2 + 8 * linked_len + 4;
        max = seen;
    }
}

impl RecordLog {
    /// Opens a log with the default sync interval: an empty one has no bytes.
    pub fn open(bytes: Vec<u8>, meta: Option<Vec<u8>>) -> (r: Result<Self, StoreError>)
        ensures
            r matches Ok(log) && log@ == (RecordLogView {
                bytes: bytes@,
                next_id: next_id_of(bytes@, opt_bytes(meta)),
                unsynced: 0,
                sync_interval: DEFAULT_SYNC_INTERVAL,
                last: Timestamp(0),
            }) && log@.wf(),
    {
        RecordLog::open_with_sync_interval(bytes, meta, DEFAULT_SYNC_INTERVAL)
    }

    /// Opens a log that syncs after every `sync_interval` writes; zero means after
    /// every write.
    pub fn open_with_sync_interval(
        bytes: Vec<u8>,
        meta: Option<Vec<u8>>,
        sync_interval: u64,
    ) -> (r: Result<Self, StoreError>)
        ensures
            r matches Ok(log) && log@ == (RecordLogView {
                bytes: bytes@,
                next_id: next_id_of(bytes@, opt_bytes(meta)),
                unsynced: 0,
                sync_interval: if sync_interval == 0 {
                    1
                } else {
                    sync_interval
                },
                last: Timestamp(0),
            }) && log@.wf(),
    {
        let known: Option<u64> = match &meta {
            Some(m) => decode_meta(m.as_slice(), bytes.len() as u64),
            None => None,
        };
        let max: u64 = match known {
            Some(max) => max,
            None => find_max_id(bytes.as_slice()),
        };
        assert(bytes.len() == bytes@.len());
        Ok(
            RecordLog {
                bytes,
                next_id: max.saturating_add(1),
                unsynced: 0,
                sync_interval: if sync_interval == 0 {
                    1
                } else {
                    sync_interval
                },
                last: Timestamp(0),
            },
        )
    }

    /// Appends a record that was created at `timestamp`. Returns the record and the
    /// offset where it was written.
    pub fn append_at(
        &mut self,
        input: RecordInput,
        branch: BranchId,
        sequence: Sequence,
        timestamp: Timestamp,
    ) -> (r: (Record, u64))
        requires
            old(self)@.wf(),
            old(self)@.next_id < u64::MAX,
        ensures
            final(self)@.wf(),
            r.1 == old(self)@.bytes.len(),
            r.0@ == input@.record(RecordId(old(self)@.next_id), sequence, branch, timestamp),
            final(self)@ == old(self)@.appended(r.0@),
    {
        let record = Record {
            id: RecordId(self.next_id),
            sequence,
            branch,
            timestamp,
            record_type: input.record_type,
            payload: input.payload,
            encoding: input.encoding,
            caused_by: input.caused_by,
            linked_to: input.linked_to,
        };
        let offset: u64 = self.bytes.len() as u64;
        write_record(&mut self.bytes, &record);
        self.next_id = self.next_id + 1;
        self.unsynced = self.unsynced + 1;
        if self.unsynced >= self.sync_interval {
            self.unsynced = 0;
        }
        self.last = timestamp;
        assert(self.bytes.len() == self.bytes@.len());
        (record, offset)
    }

    /// Appends a record that is created now, or when the last one was where the clock has
    /// gone back behind that. Returns the record and the offset where it was written.
    pub fn append(
        &mut self,
        input: RecordInput,
        branch: BranchId,
        sequence: Sequence,
    ) -> (r: (Record, u64))
        requires
            old(self)@.wf(),
            old(self)@.next_id < u64::MAX,
        ensures
            final(self)@.wf(),
            r.1 == old(self)@.bytes.len(),
            r.0@ == input@.record(
                RecordId(old(self)@.next_id),
                sequence,
                branch,
                r.0.timestamp,
            ),
            r.0.timestamp.0 >= old(self)@.last.0,
            final(self)@ == old(self)@.appended(r.0@),
    {
        let now = Timestamp::now_after(self.last);
        self.append_at(input, branch, sequence, now)
    }

    /// The timestamp of the last record that was written since the log was opened; the epoch
    /// before there is one.
    pub fn last_timestamp(&self) -> (t: Timestamp)
        ensures
            t == self@.last,
    {
        self.last
    }

    /// Marks all writes as synced.
    pub fn sync(&mut self)
        requires
            old(self)@.wf(),
        ensures
            final(self)@.wf(),
            final(self)@ == (RecordLogView { unsynced: 0, ..old(self)@ }),
    {
        self.unsynced = 0;
    }

    /// Whether writes are waiting for a sync.
    pub fn needs_sync(&self) -> (r: bool)
        ensures
            r == (self@.unsynced > 0),
    {
        self.unsynced > 0
    }

    /// Reads the record at an offset.
    pub fn read_at(&self, offset: u64) -> (r: Result<Record, StoreError>)
        ensures
            match r {
                Ok(record) => record_at(self@.bytes, offset as int) matches Ok((v, _)) && v
                    == record@,
                Err(e) => record_at(self@.bytes, offset as int) == Err::<(RecordView, int), ErrorView>(
                    e@,
                ),
            },
    {
        match self.read_at_with_end(offset) {
            Ok((record, _)) => Ok(record),
            Err(e) => Err(e),
        }
    }

    /// Reads the record at an offset together with the offset behind it.
    pub fn read_at_with_end(&self, offset: u64) -> (r: Result<(Record, u64), StoreError>)
        ensures
            match r {
                Ok((record, end)) => record_at(self@.bytes, offset as int) == Ok::<
                    (RecordView, int),
                    ErrorView,
                >((record@, end as int)) && offset < end <= self@.bytes.len(),
                Err(e) => record_at(self@.bytes, offset as int) == Err::<(RecordView, int), ErrorView>(
                    e@,
                ),
            },
    {
        if offset >= self.bytes.len() as u64 {
            return Err(unexpected_eof());
        }
        match read_record(self.bytes.as_slice(), offset as usize) {
            Ok((record, end)) => Ok((record, end as u64)),
            Err(e) => Err(e),
        }
    }

    /// Iterates over all records from the beginning.
    pub fn iter(&self) -> (it: RecordIterator<'_>)
        ensures
            it.log() == self@,
            it.offset() == 0,
            it.end() == self@.bytes.len(),
    {
        self.iter_from(0)
    }

    /// Iterates over all records from a given offset.
    pub fn iter_from(&self, offset: u64) -> (it: RecordIterator<'_>)
        ensures
            it.log() == self@,
            it.offset() == offset,
            it.end() == self@.bytes.len(),
    {
        RecordIterator { log: self, offset, end: self.bytes.len() as u64 }
    }

    /// Current file size.
    pub fn size(&self) -> (n: u64)
        ensures
            n == self@.bytes.len(),
    {
        self.bytes.len() as u64
    }

    /// The id that the next record gets.
    pub fn next_id(&self) -> (n: u64)
        ensures
            n == self@.next_id,
    {
        self.next_id
    }

    /// The bytes of the log file.
    pub fn bytes(&self) -> (b: &[u8])
        ensures
            b@ == self@.bytes,
    {
        self.bytes.as_slice()
    }

    /// The metadata file that belongs to the log as it is.
    pub fn meta(&self) -> (m: Vec<u8>)
        ensures
            m@ == meta_bytes(
                (if self@.next_id > 0 { self@.next_id - 1 } else { 0 }) as u64,
                self@.bytes.len() as u64,
            ),
    {
        encode_meta(self.next_id.saturating_sub(1), self.bytes.len() as u64)
    }
}

/// The bytes of an optional file.
pub open spec fn opt_bytes(b: Option<Vec<u8>>) -> Option<Seq<u8>> {
    match b {
        Some(v) => Some(v@),
        None => None,
    }
}

/// Iterator over records in the log.
pub struct RecordIterator<'a> {
    log: &'a RecordLog,
    offset: u64,
    end: u64,
}

impl<'a> RecordIterator<'a> {
    /// The log that is read.
    pub closed spec fn log(self) -> RecordLogView {
        self.log@
    }

    /// Where the next record is read.
    pub closed spec fn offset(self) -> u64 {
        self.offset
    }

    /// Where the iteration ends.
    pub closed spec fn end(self) -> u64 {
        self.end
    }

    /// The next record with its offset; an error ends the iteration.
    pub fn next(&mut self) -> (r: Option<Result<(u64, Record), StoreError>>)
        ensures
            final(self).log() == old(self).log(),
            final(self).end() == old(self).end(),
            match r {
                None => old(self).offset() >= old(self).end() && final(self).offset() == old(
                    self,
                ).offset(),
                Some(Ok((at, record))) => {
                    &&& old(self).offset() < old(self).end()
                    &&& at == old(self).offset()
                    &&& record_at(old(self).log().bytes, at as int) == Ok::<
                        (RecordView, int),
                        ErrorView,
                    >((record@, final(self).offset() as int))
                    &&& at < final(self).offset()
                },
                Some(Err(e)) => {
                    &&& old(self).offset() < old(self).end()
                    &&& record_at(old(self).log().bytes, old(self).offset() as int) == Err::<
                        (RecordView, int),
                        ErrorView,
                    >(e@)
                    &&& final(self).offset() == old(self).end()
                },
            },
    {
        if self.offset >= self.end {
            return None;
        }
        let current: u64 = self.offset;
        match self.log.read_at_with_end(current) {
            Ok((record, end)) => {
                self.offset = end;
                Some(Ok((current, record)))
            },
            Err(e) => {
                self.offset = self.end;
                Some(Err(e))
            },
        }
    }
}

/// The largest of `max` and the ids of the records from `off` on.
pub open spec fn largest_id(b: Seq<u8>, off: int, max: u64) -> u64
    decreases b.len() - off,
{
    match record_at(b, off) {
        Ok((r, end)) if 0 <= off < end <= b.len() => largest_id(
            b,
            end,
            if r.id.0 > max {
                r.id.0
            } else {
                max
            },
        ),
        _ => max,
    }
}

/// Scanning a log of whole records finds the largest record id.
pub proof fn scan_finds_largest_id(b: Seq<u8>, off: int, max: u64)
    requires
        whole_from(b, off),
    ensures
        scan_max_id(b, off, max) == largest_id(b, off, max),
    decreases b.len() - off,
{
    if off < b.len() {
        let (r, end) = record_at(b, off)->Ok_0;
        scan_finds_largest_id(
            b,
            end,
            if r.id.0 > max {
                r.id.0
            } else {
                max
            },
        );
    }
}

proof fn lemma_whole_append(b: Seq<u8>, r: RecordView, off: int, max: u64)
    requires
        whole_from(b, off),
        fits(r),
    ensures
        whole_from(b + record_bytes(r), off),
        records_from(b + record_bytes(r), off) == records_from(b, off).push(
            Ok((b.len() as u64, r)),
        ),
        largest_id(b + record_bytes(r), off, max) == (if r.id.0 > largest_id(b, off, max) {
            r.id.0
        } else {
            largest_id(b, off, max)
        }),
    decreases b.len() - off,
{
    let c = b + record_bytes(r);
    if off == b.len() {
        record_round_trip(b, r, Seq::empty());
        assert(b + record_bytes(r) + Seq::<u8>::empty() =~= c);
        assert(record_at(c, off) == Ok::<(RecordView, int), ErrorView>((r, c.len() as int)));
        assert(record_at(b, off) is Err);
        assert(whole_from(c, c.len() as int));
        assert(records_from(c, c.len() as int) =~= Seq::empty());
        assert(records_from(c, off) =~= records_from(b, off).push(Ok((b.len() as u64, r))));
        assert(largest_id(
            c,
            c.len() as int,
            if r.id.0 > max {
                r.id.0
            } else {
                max
            },
        ) == (if r.id.0 > max {
            r.id.0
        } else {
            max
        })) by {
            assert(record_at(c, c.len() as int) is Err);
        }
    } else {
        record_survives_append(b, record_bytes(r), off);
        let (first, end) = record_at(b, off)->Ok_0;
        lemma_whole_append(
            b,
            r,
            end,
            if first.id.0 > max {
                first.id.0
            } else {
                max
            },
        );
        assert(records_from(c, off) =~= records_from(b, off).push(Ok((b.len() as u64, r))));
    }
}

/// A log of whole records stays one when a record is written, the records it yields are
/// those before and the new one at the old end, every record keeps its place, and a
/// scan gives the next id that the log itself counts with.
pub proof fn append_extends_log(b: Seq<u8>, r: RecordView)
    requires
        whole_from(b, 0),
        fits(r),
    ensures
        whole_from(b + record_bytes(r), 0),
        records_from(b + record_bytes(r), 0) == records_from(b, 0).push(Ok((b.len() as u64, r))),
        record_at(b + record_bytes(r), b.len() as int) == Ok::<(RecordView, int), ErrorView>(
            (r, (b.len() + record_bytes(r).len()) as int),
        ),
        forall|off: int|
            #![trigger record_at(b + record_bytes(r), off)]
            0 <= off && record_at(b, off) is Ok ==> record_at(b + record_bytes(r), off)
                == record_at(b, off),
        scan_max_id(b, 0, 0) < r.id.0 ==> scan_max_id(b + record_bytes(r), 0, 0) == r.id.0,
{
    let c = b + record_bytes(r);
    lemma_whole_append(b, r, 0, 0);
    scan_finds_largest_id(b, 0, 0);
    scan_finds_largest_id(c, 0, 0);
    record_round_trip(b, r, Seq::empty());
    assert(b + record_bytes(r) + Seq::<u8>::empty() =~= c);
    assert forall|off: int|
        #![trigger record_at(c, off)]
        0 <= off && record_at(b, off) is Ok implies record_at(c, off) == record_at(b, off) by {
        record_survives_append(b, record_bytes(r), off);
    }
}

/// A record that is cut short ends the scan and nothing else: the ids of the whole records
/// before it are found.
pub proof fn cut_record_ends_scan(b: Seq<u8>, off: int, max: u64, cut: Seq<u8>)
    requires
        whole_from(b, off),
    ensures
        scan_max_id(b + cut, off, max) >= largest_id(b, off, max),
        largest_id(b, off, max) >= max,
        cut.len() < 14 ==> scan_max_id(b + cut, off, max) == largest_id(b, off, max),
    decreases b.len() - off,
{
    if off < b.len() {
        let (r, end) = record_at(b, off)->Ok_0;
        let seen = if r.id.0 > max {
            r.id.0
        } else {
            max
        };
        cut_record_ends_scan(b, end, seen, cut);
        record_survives_append(b, cut, off);
    } else {
        assert(record_at(b, off) is Err);
        let c = b + cut;
        lemma_scan_grows(c, off, max);
    }
}

proof fn lemma_scan_grows(b: Seq<u8>, pos: int, max: u64)
    ensures
        scan_max_id(b, pos, max) >= max,
    decreases b.len() - pos,
{
    let l = layout(b, pos);
    let id = u64_at(b, pos + 6);
    let seen = if id > max { id } else { max };
    if !(pos < 0 || b.len() < pos + 40 || b.len() < l.linked_end + 4) {
        lemma_scan_grows(b, l.linked_end + 4, seen);
    }
}

/// A log reopened from its bytes, with its metadata file or without, goes on with the
/// id it would have given next.
pub proof fn reopened_log_continues(log: RecordLogView)
    requires
        log.next_id > 0,
        log.bytes.len() <= u64::MAX,
        scan_max_id(log.bytes, 0, 0) == log.next_id - 1,
    ensures
        next_id_of(log.bytes, None) == log.next_id,
        next_id_of(
            log.bytes,
            Some(meta_bytes((log.next_id - 1) as u64, log.bytes.len() as u64)),
        ) == log.next_id,
{
    crate::records::meta::meta_round_trip((log.next_id - 1) as u64, log.bytes.len() as u64, 0);
}

} // verus!
