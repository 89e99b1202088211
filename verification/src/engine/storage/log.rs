//! The write-ahead log as a byte string: how records follow one another, how they
//! are read back, and what is left of a log whose end was torn off by a crash.
use crate::engine::codec;
use crate::engine::error::{ReplayFault, StorageError, WalFault};
use crate::engine::storage::wal;
use crate::engine::storage::wal::WalRecord;
use vstd::prelude::*;

verus! {

/// The log of some records.
pub open spec fn log_bytes(records: Seq<wal::WalRecordView>) -> Seq<u8>
    decreases records.len(),
{
    if records.len() == 0 {
        Seq::empty()
    } else {
        log_bytes(records.drop_last()) + wal::record_bytes(records.last())
    }
}

/// What stands at an offset of a log.
pub enum Frame {
    /// Fewer bytes than a length prefix: the log ends here.
    End,
    /// A record, and the offset behind it.
    Record(wal::WalRecordView, int),
    /// Bytes that are no record.
    Fault(ReplayFault),
}

/// What stands at `at`.
pub open spec fn frame_at(image: Seq<u8>, at: int) -> Frame {
    if image.len() < at + 4 {
        Frame::End
    } else {
        let length = codec::u32_at(image, at);
        let end = at + 8 + length;
        if length == 0 || length > wal::MAX_RECORD_LENGTH {
            Frame::Fault(ReplayFault::InvalidLength(length))
        } else if image.len() < end {
            Frame::Fault(ReplayFault::Truncated)
        } else {
            match wal::decoded(image.subrange(at + 4, end)) {
                Ok(record) => Frame::Record(record, end),
                Err(e) => Frame::Fault(ReplayFault::Undecodable(e)),
            }
        }
    }
}

/// What reading a log gives: its records up to the first fault, the length of the
/// bytes that hold them, and the fault.
#[verifier::ext_equal]
pub struct LogView {
    pub records: Seq<wal::WalRecordView>,
    pub valid: int,
    pub fault: Option<ReplayFault>,
}

/// Reads the log from `at` on.
pub open spec fn scan(image: Seq<u8>, at: int) -> LogView
    decreases image.len() - at,
{
    match frame_at(image, at) {
        Frame::End => LogView { records: Seq::empty(), valid: at, fault: None },
        Frame::Fault(fault) => LogView { records: Seq::empty(), valid: at, fault: Some(fault) },
        Frame::Record(record, end) => {
            let rest = scan(image, end);
            LogView { records: seq![record] + rest.records, ..rest }
        },
    }
}

/// The views of some records.
pub open spec fn record_views(records: Seq<WalRecord>) -> Seq<wal::WalRecordView> {
    Seq::new(records.len(), |i: int| records[i]@)
}

/// The bytes that a batch of records adds to the log.
pub fn encode_batch(records: &Vec<WalRecord>) -> (r: Vec<u8>)
    ensures
        r@ == log_bytes(record_views(records@)),
{
    let ghost all = record_views(records@);
    let mut out: Vec<u8> = Vec::new();
    let mut i: usize = 0;
    assert(out@ =~= log_bytes(all.take(0)));
    while i < records.len()
        invariant
            i <= records@.len(),
            all == record_views(records@),
            out@ == log_bytes(all.take(i as int)),
        decreases records@.len() - i,
    {
        let encoded = records[i].encode();
        codec::put_bytes(&mut out, encoded.as_slice());
        proof {
            assert(all.take(i + 1).drop_last() =~= all.take(i as int));
        }
        i = i + 1;
    }
    assert(all.take(i as int) =~= all);
    out
}

/// Reads the records of a log one after the other.
pub struct WalIterator {
    data: Vec<u8>,
    /// Where the next bytes are read.
    position: usize,
    /// The end of the last record that was read.
    offset: usize,
}

impl WalIterator {
    /// The log that is read.
    pub closed spec fn image(&self) -> Seq<u8> {
        self.data@
    }

    /// Where the next bytes are read.
    pub closed spec fn next_at(&self) -> int {
        self.position as int
    }

    /// The end of the last record that was read, which faults are reported at.
    pub closed spec fn valid_end(&self) -> int {
        self.offset as int
    }

    /// Both offsets lie in the log.
    pub open spec fn inv(&self) -> bool {
        0 <= self.valid_end() <= self.next_at() <= self.image().len()
    }

    /// Starts at the beginning of a log.
    pub fn new(data: Vec<u8>) -> (r: Self)
        ensures
            r.inv(),
            r.image() == data@,
            r.next_at() == 0,
            r.valid_end() == 0,
    {
        WalIterator { data, position: 0, offset: 0 }
    }

    /// Reads the next record. A fault is reported at the end of the last record,
    /// and the bytes that showed it are passed over.
    pub fn read_next(&mut self) -> (r: Result<Option<WalRecord>, StorageError>)
        requires
            old(self).inv(),
        ensures
            final(self).inv(),
            final(self).image() == old(self).image(),
            match frame_at(old(self).image(), old(self).next_at()) {
                Frame::End => {
                    &&& r == Ok::<Option<WalRecord>, StorageError>(None)
                    &&& final(self).next_at() == old(self).image().len()
                    &&& final(self).valid_end() == old(self).valid_end()
                },
                Frame::Record(record, end) => {
                    &&& r matches Ok(Some(got)) && got@ == record
                    &&& final(self).next_at() == end
                    &&& final(self).valid_end() == old(self).valid_end() + (end
                        - old(self).next_at())
                },
                Frame::Fault(fault) => {
                    &&& r == Err::<Option<WalRecord>, StorageError>(
                        StorageError::WalReplay { offset: old(self).valid_end() as u64, fault },
                    )
                    &&& final(self).next_at() == match fault {
                        ReplayFault::InvalidLength(_) => old(self).next_at() + 4,
                        ReplayFault::Truncated => old(self).image().len() as int,
                        ReplayFault::Undecodable(_) => old(self).next_at() + 8 + codec::u32_at(
                            old(self).image(),
                            old(self).next_at(),
                        ),
                    }
                    &&& final(self).valid_end() == old(self).valid_end()
                },
            },
    {
        let total: usize = self.data.len();
        let at: usize = self.position;
        if total - at < 4 {
            self.position = total;
            return Ok(None);
        }
        let length: u32 = codec::get_u32(self.data.as_slice(), at);
        if length == 0 || length > wal::MAX_RECORD_LENGTH {
            self.position = at + 4;
            return Err(
                StorageError::WalReplay {
                    offset: self.offset as u64,
                    fault: ReplayFault::InvalidLength(length),
                },
            );
        }
        if total - at < 8 || total - at - 8 < length as usize {
            self.position = total;
            return Err(
                StorageError::WalReplay {
                    offset: self.offset as u64,
                    fault: ReplayFault::Truncated,
                },
            );
        }
        let end: usize = at + 8 + length as usize;
        let decoded = WalRecord::decode(
            vstd::slice::slice_subrange(self.data.as_slice(), at + 4, end),
        );
        self.position = end;
        match decoded {
            Ok(record) => {
                self.offset = self.offset + (end - at);
                Ok(Some(record))
            },
            Err(e) => Err(
                StorageError::WalReplay {
                    offset: self.offset as u64,
                    fault: ReplayFault::Undecodable(e),
                },
            ),
        }
    }
}

/// The records of a log up to the first fault.
pub struct LogScan {
    pub records: Vec<WalRecord>,
    /// The length of the bytes that hold the records; what follows is to be cut
    /// off before anything is appended.
    pub valid: usize,
    /// Why reading stopped before the end.
    pub fault: Option<StorageError>,
}

impl View for LogScan {
    type V = LogView;

    open spec fn view(&self) -> LogView {
        LogView {
            records: record_views(self.records@),
            valid: self.valid as int,
            fault: match self.fault {
                Some(StorageError::WalReplay { fault, .. }) => Some(fault),
                _ => None,
            },
        }
    }
}

/// Reads a whole log.
#[verifier::loop_isolation(false)]
pub fn read_log(data: Vec<u8>) -> (r: LogScan)
    ensures
        r@ == scan(data@, 0),
        r.valid <= data@.len(),
        r.fault matches Some(e) ==> e == (StorageError::WalReplay {
            offset: r.valid as u64,
            fault: r@.fault->Some_0,
        }),
{
    let ghost image = data@;
    let mut iter = WalIterator::new(data);
    let mut records: Vec<WalRecord> = Vec::new();
    assert(record_views(records@) + scan(image, 0).records =~= scan(image, 0).records);
    loop
        invariant
            iter.inv(),
            iter.image() == image,
            iter.next_at() == iter.valid_end(),
            scan(image, 0).records == record_views(records@) + scan(
                image,
                iter.next_at(),
            ).records,
            scan(image, 0).valid == scan(image, iter.next_at()).valid,
            scan(image, 0).fault == scan(image, iter.next_at()).fault,
        decreases image.len() - iter.next_at(),
    {
        let ghost at = iter.next_at();
        let ghost before = record_views(records@);
        match iter.read_next() {
            Ok(Some(record)) => {
                records.push(record);
                proof {
                    let rest = scan(image, iter.next_at());
                    assert(record_views(records@) =~= before + seq![record@]);
                    assert(before + (seq![record@] + rest.records) =~= record_views(records@)
                        + rest.records);
                }
            },
            Ok(None) => {
                let valid: usize = iter.offset;
                let r = LogScan { records, valid, fault: None };
                assert(r@ =~= scan(image, 0));
                return r;
            },
            Err(e) => {
                let valid: usize = iter.offset;
                let r = LogScan { records, valid, fault: Some(e) };
                assert(r@ =~= scan(image, 0));
                return r;
            },
        }
    }
}

/// Whether a record can be written to the log and read back.
pub open spec fn loggable(r: wal::WalRecordView) -> bool {
    wal::fits(r) && wal::inner_bytes(r).len() <= wal::MAX_RECORD_LENGTH
}

/// Whether all records can be written to the log and read back.
pub open spec fn all_loggable(records: Seq<wal::WalRecordView>) -> bool {
    forall|i: int| 0 <= i < records.len() ==> loggable(#[trigger] records[i])
}

/// The records that are read back of `records`.
pub open spec fn canonicals(records: Seq<wal::WalRecordView>) -> Seq<wal::WalRecordView> {
    Seq::new(records.len(), |i: int| wal::canonical(records[i]))
}

/// Two views of a log: the first continues with the second.
spec fn continues(whole: LogView, first: Seq<wal::WalRecordView>, rest: LogView) -> bool {
    &&& whole.records == first + rest.records
    &&& whole.valid == rest.valid
    &&& whole.fault == rest.fault
}

/// A record stands where its bytes stand.
proof fn lemma_frame(image: Seq<u8>, at: int, r: wal::WalRecordView)
    requires
        0 <= at,
        at + wal::record_bytes(r).len() <= image.len(),
        image.subrange(at, at + wal::record_bytes(r).len()) == wal::record_bytes(r),
        loggable(r),
    ensures
        frame_at(image, at) == Frame::Record(
            wal::canonical(r),
            at + wal::record_bytes(r).len(),
        ),
{
    let b = wal::record_bytes(r);
    let end = at + b.len();
    wal::lemma_inner_len(r);
    wal::lemma_framed(wal::inner_bytes(r));
    assert(image.subrange(at, at + 4) =~= b.subrange(0, 4));
    codec::lemma_u32_at(image, at, wal::inner_bytes(r).len() as u32);
    assert(image.subrange(at + 4, end) =~= b.skip(4));
    wal::law_record_roundtrip(r);
}

/// Reading a log passes over the records that stand in it.
proof fn lemma_scan_records(image: Seq<u8>, at: int, records: Seq<wal::WalRecordView>)
    requires
        0 <= at,
        at + log_bytes(records).len() <= image.len(),
        image.subrange(at, at + log_bytes(records).len()) == log_bytes(records),
        all_loggable(records),
    ensures
        continues(
            scan(image, at),
            canonicals(records),
            scan(image, at + log_bytes(records).len()),
        ),
    decreases records.len(),
{
    if records.len() == 0 {
        assert(canonicals(records) + scan(image, at).records =~= scan(image, at).records);
    } else {
        let init = records.drop_last();
        let last = records.last();
        let all = log_bytes(records);
        let mid = at + log_bytes(init).len();
        let end = at + all.len();
        assert forall|i: int| 0 <= i < init.len() implies loggable(#[trigger] init[i]) by {
            assert(init[i] == records[i]);
        }
        codec::lemma_two_pieces(image, at, log_bytes(init), wal::record_bytes(last));
        lemma_scan_records(image, at, init);
        assert(loggable(records[records.len() - 1]));
        lemma_frame(image, mid, last);
        let rest = scan(image, end);
        assert(canonicals(records) =~= canonicals(init) + seq![wal::canonical(last)]);
        assert(canonicals(init) + (seq![wal::canonical(last)] + rest.records) =~= canonicals(
            records,
        ) + rest.records);
    }
}

/// A log reads back as the records it was written from, in their order, with no
/// fault and nothing left over.
pub proof fn law_log_roundtrip(records: Seq<wal::WalRecordView>)
    requires
        all_loggable(records),
    ensures
        scan(log_bytes(records), 0) == (LogView {
            records: canonicals(records),
            valid: log_bytes(records).len() as int,
            fault: None,
        }),
{
    let image = log_bytes(records);
    assert(image.subrange(0, image.len() as int) =~= image);
    lemma_scan_records(image, 0, records);
    let end = scan(image, image.len() as int);
    assert(end.records =~= Seq::empty());
    assert(canonicals(records) + end.records =~= canonicals(records));
}

/// A log in which one byte of a record, behind its length, was changed reads back as
/// the records before that one, and the change is reported.
pub proof fn law_changed_log_is_refused(
    records: Seq<wal::WalRecordView>,
    changed: wal::WalRecordView,
    after: Seq<u8>,
    at: int,
    byte: u8,
)
    requires
        all_loggable(records),
        loggable(changed),
        4 <= at < wal::record_bytes(changed).len(),
        byte != wal::record_bytes(changed)[at],
    ensures
        ({
            let image = log_bytes(records) + wal::record_bytes(changed).update(at, byte) + after;
            let log = scan(image, 0);
            &&& log.records == canonicals(records)
            &&& log.valid == log_bytes(records).len()
            &&& log.fault matches Some(
                ReplayFault::Undecodable(WalFault::ChecksumMismatch { .. }),
            )
        }),
{
    let b = wal::record_bytes(changed);
    let c = b.update(at, byte);
    let image = log_bytes(records) + c + after;
    let from = log_bytes(records).len() as int;
    assert(image.subrange(0, from) =~= log_bytes(records));
    lemma_scan_records(image, 0, records);
    wal::lemma_inner_len(changed);
    wal::lemma_framed(wal::inner_bytes(changed));
    assert(image.subrange(from, from + 4) =~= b.subrange(0, 4));
    codec::lemma_u32_at(image, from, wal::inner_bytes(changed).len() as u32);
    assert(image.subrange(from + 4, from + b.len()) =~= c.skip(4));
    wal::law_changed_record_is_refused(changed, at, byte);
    let rest = scan(image, from);
    assert(rest.records =~= Seq::empty());
    assert(canonicals(records) + rest.records =~= canonicals(records));
}

/// A log torn inside its last record, at whatever byte, reads back as the records
/// before that one, and its valid length is theirs. The tear is reported unless
/// less than a length prefix is left of the torn record.
pub proof fn law_torn_tail(records: Seq<wal::WalRecordView>, torn: wal::WalRecordView, n: int)
    requires
        all_loggable(records),
        loggable(torn),
        0 <= n < wal::record_bytes(torn).len(),
    ensures
        scan(log_bytes(records) + wal::record_bytes(torn).take(n), 0) == (LogView {
            records: canonicals(records),
            valid: log_bytes(records).len() as int,
            fault: if n < 4 {
                None
            } else {
                Some(ReplayFault::Truncated)
            },
        }),
{
    let b = wal::record_bytes(torn);
    let image = log_bytes(records) + b.take(n);
    let at = log_bytes(records).len() as int;
    assert(image.subrange(0, at) =~= log_bytes(records));
    lemma_scan_records(image, 0, records);
    if n >= 4 {
        wal::lemma_inner_len(torn);
        wal::lemma_framed(wal::inner_bytes(torn));
        assert(image.subrange(at, at + 4) =~= b.subrange(0, 4));
        codec::lemma_u32_at(image, at, wal::inner_bytes(torn).len() as u32);
    }
    let rest = scan(image, at);
    assert(rest.records =~= Seq::empty());
    assert(canonicals(records) + rest.records =~= canonicals(records));
}

/// The valid length lies behind every record that was read.
proof fn lemma_valid_bounds(image: Seq<u8>, at: int)
    requires
        0 <= at <= image.len(),
    ensures
        at <= scan(image, at).valid <= image.len(),
    decreases image.len() - at,
{
    if let Frame::Record(_, end) = frame_at(image, at) {
        lemma_valid_bounds(image, end);
    }
}

/// Cutting a log at its valid length keeps what is read before it.
proof fn lemma_scan_cut(image: Seq<u8>, at: int)
    requires
        0 <= at <= image.len(),
    ensures
        scan(image.take(scan(image, at).valid), at) == (LogView {
            fault: None,
            ..scan(image, at)
        }),
    decreases image.len() - at,
{
    lemma_valid_bounds(image, at);
    let cut = scan(image, at).valid;
    let short = image.take(cut);
    match frame_at(image, at) {
        Frame::Record(record, end) => {
            lemma_valid_bounds(image, end);
            lemma_scan_cut(image, end);
            assert(short.subrange(at + 4, end) =~= image.subrange(at + 4, end));
            assert(codec::u32_at(short, at) == codec::u32_at(image, at));
            assert(frame_at(short, at) == Frame::Record(record, end));
        },
        _ => {},
    }
}

/// Cut at its valid length, a log reads back as the same records, with no fault.
pub proof fn law_cut_log(image: Seq<u8>)
    ensures
        scan(image.take(scan(image, 0).valid), 0) == (LogView { fault: None, ..scan(image, 0) }),
{
    lemma_scan_cut(image, 0);
}

/// What is appended does not change what is read before it.
proof fn lemma_scan_appended(image: Seq<u8>, more: Seq<u8>, at: int)
    requires
        0 <= at <= image.len(),
        scan(image, at).valid == image.len(),
        scan(image, at).fault is None,
    ensures
        continues(
            scan(image + more, at),
            scan(image, at).records,
            scan(image + more, image.len() as int),
        ),
    decreases image.len() - at,
{
    let long = image + more;
    match frame_at(image, at) {
        Frame::Record(record, end) => {
            lemma_scan_appended(image, more, end);
            assert(long.subrange(at + 4, end) =~= image.subrange(at + 4, end));
            assert(codec::u32_at(long, at) == codec::u32_at(image, at));
            assert(frame_at(long, at) == Frame::Record(record, end));
            let rest = scan(long, image.len() as int);
            assert(seq![record] + (scan(image, end).records + rest.records) =~= (seq![record]
                + scan(image, end).records) + rest.records);
        },
        _ => {
            let rest = scan(long, at);
            assert(scan(image, at).records + rest.records =~= rest.records);
        },
    }
}

/// Records appended to a log that was cut at its valid length read back behind
/// those that were already there.
pub proof fn law_append_after_cut(image: Seq<u8>, records: Seq<wal::WalRecordView>)
    requires
        all_loggable(records),
    ensures
        scan(image.take(scan(image, 0).valid) + log_bytes(records), 0) == (LogView {
            records: scan(image, 0).records + canonicals(records),
            valid: scan(image, 0).valid + log_bytes(records).len(),
            fault: None,
        }),
{
    lemma_valid_bounds(image, 0);
    law_cut_log(image);
    let short = image.take(scan(image, 0).valid);
    let long = short + log_bytes(records);
    let at = short.len() as int;
    lemma_scan_appended(short, log_bytes(records), 0);
    assert(long.subrange(at, at + log_bytes(records).len()) =~= log_bytes(records));
    lemma_scan_records(long, at, records);
    let end = scan(long, long.len() as int);
    assert(end.records =~= Seq::empty());
    assert(canonicals(records) + end.records =~= canonicals(records));
}

/// What stands at an offset of a log: nothing behind the last length, a fault where the
/// length is 0 or above 100 MiB or the bytes end too early, and else the record that is
/// read of the bytes, or why none is.
pub proof fn law_frame(image: Seq<u8>, at: int)
    requires
        0 <= at,
    ensures
        image.len() < at + 4 <==> frame_at(image, at) is End,
        image.len() >= at + 4 ==> {
            let length = codec::u32_at(image, at);
            let end = at + 8 + length;
            &&& length == 0 || length > 104857600 ==> frame_at(image, at) == Frame::Fault(
                ReplayFault::InvalidLength(length),
            )
            &&& 0 < length <= 104857600 && image.len() < end ==> frame_at(image, at)
                == Frame::Fault(ReplayFault::Truncated)
            &&& 0 < length <= 104857600 && image.len() >= end ==> match wal::decoded(
                image.subrange(at + 4, end),
            ) {
                Ok(record) => frame_at(image, at) == Frame::Record(record, end),
                Err(e) => frame_at(image, at) == Frame::Fault(ReplayFault::Undecodable(e)),
            }
        },
{
}

/// What records say is what each of them says, in their order.
pub proof fn law_record_views(records: Seq<WalRecord>, i: int)
    requires
        0 <= i < records.len(),
    ensures
        record_views(records).len() == records.len(),
        record_views(records)[i] == records[i]@,
{
}

/// The bytes of records in the log are those of each, one behind the other.
pub proof fn law_log_bytes(records: Seq<wal::WalRecordView>, record: wal::WalRecordView)
    ensures
        log_bytes(Seq::<wal::WalRecordView>::empty()).len() == 0,
        log_bytes(records.push(record)) == log_bytes(records) + wal::record_bytes(record),
{
    assert(records.push(record).drop_last() =~= records);
}

} // verus!
