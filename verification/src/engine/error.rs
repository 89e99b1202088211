//! What can go wrong in the storage engine.
use crate::engine::text;
use vstd::prelude::*;
use vstd::string::StringExecFns;

verus! {

/// Why the bytes of a log record are not a record.
#[derive(Clone, Copy, PartialEq, Eq, Structural, Debug)]
pub enum WalFault {
    TooShort,
    ChecksumMismatch { expected: u32, actual: u32 },
    InvalidType(u8),
    KeyTruncated,
    ValueTruncated,
    EmbeddingLengthTruncated,
    EmbeddingTruncated,
    TimestampTruncated,
    TagCountTruncated,
    TagLengthTruncated,
    TagTruncated,
    EdgeSourceLengthTruncated,
    EdgeSourceTruncated,
    EdgeTargetLengthTruncated,
    EdgeTargetTruncated,
    EdgeTypeLengthTruncated,
    EdgeTypeTruncated,
    EdgeWeightTruncated,
}

impl WalFault {
    /// The wording of the fault.
    pub open spec fn wording(self) -> Seq<char> {
        match self {
            WalFault::TooShort => "WAL record too short"@,
            WalFault::ChecksumMismatch { expected, actual } => "Checksum mismatch: expected 0x"@
                + text::hexadecimal(expected as nat) + ", got 0x"@ + text::hexadecimal(
                actual as nat,
            ),
            WalFault::InvalidType(tag) => "Invalid WAL record type: "@ + text::decimal(tag as nat),
            WalFault::KeyTruncated => "WAL record key truncated"@,
            WalFault::ValueTruncated => "WAL record value truncated"@,
            WalFault::EmbeddingLengthTruncated => "WAL record embedding length truncated"@,
            WalFault::EmbeddingTruncated => "WAL record embedding data truncated"@,
            WalFault::TimestampTruncated => "WAL record ts_timestamp truncated"@,
            WalFault::TagCountTruncated => "WAL record tags count truncated"@,
            WalFault::TagLengthTruncated => "WAL record tag length truncated"@,
            WalFault::TagTruncated => "WAL record tag data truncated"@,
            WalFault::EdgeSourceLengthTruncated => "WAL edge source length truncated"@,
            WalFault::EdgeSourceTruncated => "WAL edge source truncated"@,
            WalFault::EdgeTargetLengthTruncated => "WAL edge target length truncated"@,
            WalFault::EdgeTargetTruncated => "WAL edge target truncated"@,
            WalFault::EdgeTypeLengthTruncated => "WAL edge type length truncated"@,
            WalFault::EdgeTypeTruncated => "WAL edge type truncated"@,
            WalFault::EdgeWeightTruncated => "WAL edge weight truncated"@,
        }
    }

    /// The wording of the fault.
    pub fn message(&self) -> (r: String)
        ensures
            r@ == self.wording(),
    {
        let plain = match self {
            WalFault::ChecksumMismatch { expected, actual } => {
                let mut out = String::new();
                out.append("Checksum mismatch: expected 0x");
                text::push_hexadecimal(&mut out, *expected as u64);
                out.append(", got 0x");
                text::push_hexadecimal(&mut out, *actual as u64);
                assert(out@ =~= self.wording());
                return out;
            },
            WalFault::InvalidType(tag) => {
                let mut out = String::new();
                out.append("Invalid WAL record type: ");
                text::push_number(&mut out, *tag as u64);
                assert(out@ =~= self.wording());
                return out;
            },
            WalFault::TooShort => "WAL record too short",
            WalFault::KeyTruncated => "WAL record key truncated",
            WalFault::ValueTruncated => "WAL record value truncated",
            WalFault::EmbeddingLengthTruncated => "WAL record embedding length truncated",
            WalFault::EmbeddingTruncated => "WAL record embedding data truncated",
            WalFault::TimestampTruncated => "WAL record ts_timestamp truncated",
            WalFault::TagCountTruncated => "WAL record tags count truncated",
            WalFault::TagLengthTruncated => "WAL record tag length truncated",
            WalFault::TagTruncated => "WAL record tag data truncated",
            WalFault::EdgeSourceLengthTruncated => "WAL edge source length truncated",
            WalFault::EdgeSourceTruncated => "WAL edge source truncated",
            WalFault::EdgeTargetLengthTruncated => "WAL edge target length truncated",
            WalFault::EdgeTargetTruncated => "WAL edge target truncated",
            WalFault::EdgeTypeLengthTruncated => "WAL edge type length truncated",
            WalFault::EdgeTypeTruncated => "WAL edge type truncated",
            WalFault::EdgeWeightTruncated => "WAL edge weight truncated",
        };
        plain.to_owned()
    }
}

/// Why reading a log stopped before its end.
#[derive(Clone, Copy, PartialEq, Eq, Structural, Debug)]
pub enum ReplayFault {
    /// A length prefix of zero or beyond the limit.
    InvalidLength(u32),
    /// The log ends inside a record.
    Truncated,
    /// The record's bytes are not a record.
    Undecodable(WalFault),
}

impl ReplayFault {
    /// The wording of the fault.
    pub open spec fn wording(self) -> Seq<char> {
        match self {
            ReplayFault::InvalidLength(n) => "Invalid record length: "@ + text::decimal(n as nat),
            ReplayFault::Truncated => "Truncated record at end of WAL"@,
            ReplayFault::Undecodable(fault) => "Failed to decode record: "@ + fault.wording(),
        }
    }

    /// The wording of the fault.
    pub fn message(&self) -> (r: String)
        ensures
            r@ == self.wording(),
    {
        match self {
            ReplayFault::InvalidLength(n) => {
                let mut out = String::new();
                out.append("Invalid record length: ");
                text::push_number(&mut out, *n as u64);
                assert(out@ =~= self.wording());
                out
            },
            ReplayFault::Truncated => "Truncated record at end of WAL".to_owned(),
            ReplayFault::Undecodable(fault) => {
                let inner = fault.message();
                let mut out = String::new();
                out.append("Failed to decode record: ");
                out.append(inner.as_str());
                assert(out@ =~= self.wording());
                out
            },
        }
    }
}

/// Why a file is not a sorted string table.
#[derive(Clone, Copy, PartialEq, Eq, Structural, Debug)]
pub enum FormatFault {
    TooSmall,
    InvalidHeader,
    InvalidBloomFilter,
    /// A section that the footer or the index points to does not lie in the file.
    SectionOutOfRange,
}

impl FormatFault {
    /// The wording of the fault.
    pub open spec fn wording(self) -> Seq<char> {
        match self {
            FormatFault::TooSmall => "File too small to be a valid SSTable"@,
            FormatFault::InvalidHeader => "Invalid SSTable header"@,
            FormatFault::InvalidBloomFilter => "Invalid bloom filter"@,
            FormatFault::SectionOutOfRange => "Section out of range"@,
        }
    }

    /// The wording of the fault.
    pub fn message(&self) -> (r: &'static str)
        ensures
            r@ == self.wording(),
    {
        match self {
            FormatFault::TooSmall => "File too small to be a valid SSTable",
            FormatFault::InvalidHeader => "Invalid SSTable header",
            FormatFault::InvalidBloomFilter => "Invalid bloom filter",
            FormatFault::SectionOutOfRange => "Section out of range",
        }
    }
}

/// An index that a request needs and that is not there.
#[derive(Clone, Copy, PartialEq, Eq, Structural, Debug)]
pub enum Disabled {
    Vector,
    Graph,
    TimeSeries,
    Tag,
}

impl Disabled {
    /// The wording of the error.
    pub open spec fn wording(self) -> Seq<char> {
        match self {
            Disabled::Vector => "Vector search is not enabled"@,
            Disabled::Graph => "Graph index is not enabled"@,
            Disabled::TimeSeries => "Time-series index is not enabled"@,
            Disabled::Tag => "Tag index is not enabled"@,
        }
    }

    /// The wording of the error.
    pub fn message(&self) -> (r: &'static str)
        ensures
            r@ == self.wording(),
    {
        match self {
            Disabled::Vector => "Vector search is not enabled",
            Disabled::Graph => "Graph index is not enabled",
            Disabled::TimeSeries => "Time-series index is not enabled",
            Disabled::Tag => "Tag index is not enabled",
        }
    }
}

/// An error of the storage engine.
#[derive(Clone, Copy, PartialEq, Eq, Structural, Debug)]
pub enum StorageError {
    /// The log is damaged at `offset`.
    WalReplay { offset: u64, fault: ReplayFault },
    /// An entry does not fit into the memtable.
    MemTableFull { current: usize, max: usize },
    /// A file does not have the layout of a sorted string table.
    InvalidFormat(FormatFault),
    /// A file's checksum is not that of its contents.
    ChecksumMismatch { expected: u32, actual: u32 },
    /// An index entry of a table cannot be read.
    CorruptIndex,
    /// A block or an index could not be compressed.
    Compression,
    /// A block or an index could not be decompressed.
    Decompression,
    /// The last level cannot be compacted.
    Compaction { level: usize, max: usize },
    /// Too many full memtables wait to be written out.
    FlushBacklog { pending: usize, max: usize },
    /// A request needs an index that is not enabled.
    InvalidArgument(Disabled),
}

/// A number between two texts.
fn with_number(before: &str, n: u64, behind: &str) -> (r: String)
    ensures
        r@ == before@ + text::decimal(n as nat) + behind@,
{
    let mut out = String::new();
    out.append(before);
    text::push_number(&mut out, n);
    out.append(behind);
    assert(out@ =~= before@ + text::decimal(n as nat) + behind@);
    out
}

/// Two numbers between texts.
fn with_numbers(before: &str, n: u64, between: &str, m: u64, behind: &str) -> (r: String)
    ensures
        r@ == before@ + text::decimal(n as nat) + between@ + text::decimal(m as nat) + behind@,
{
    let mut out = with_number(before, n, between);
    text::push_number(&mut out, m);
    out.append(behind);
    assert(out@ =~= before@ + text::decimal(n as nat) + between@ + text::decimal(m as nat)
        + behind@);
    out
}

impl StorageError {
    /// The wording of the error.
    pub open spec fn wording(self) -> Seq<char> {
        match self {
            StorageError::WalReplay { offset, fault } => "log damaged at offset "@ + text::decimal(
                offset as nat,
            ) + ": "@ + fault.wording(),
            StorageError::MemTableFull { current, max } => "memtable full: "@ + text::decimal(
                current as nat,
            ) + " of "@ + text::decimal(max as nat) + " bytes"@,
            StorageError::InvalidFormat(fault) => "invalid table file: "@ + fault.wording(),
            StorageError::ChecksumMismatch { expected, actual } => "checksum mismatch: expected "@
                + text::decimal(expected as nat) + ", found "@ + text::decimal(actual as nat)
                + ""@,
            StorageError::CorruptIndex => "Failed to decode index entry"@,
            StorageError::Compression => "compression failed"@,
            StorageError::Decompression => "decompression failed"@,
            StorageError::Compaction { level, max } => "Cannot compact level "@ + text::decimal(
                level as nat,
            ) + " (max is "@ + text::decimal(max as nat) + ")"@,
            StorageError::FlushBacklog { max, .. } => "too many pending memtable flushes ("@
                + text::decimal(max as nat)
                + " queued); rejecting write until the flush backlog drains (disk full or flush stalled?)"@,
            StorageError::InvalidArgument(d) => d.wording(),
        }
    }

    /// The wording of the error.
    pub fn message(&self) -> (r: String)
        ensures
            r@ == self.wording(),
    {
        match self {
            StorageError::WalReplay { offset, fault } => {
                let why = fault.message();
                let mut out = with_number("log damaged at offset ", *offset, ": ");
                out.append(why.as_str());
                out
            },
            StorageError::MemTableFull { current, max } => with_numbers(
                "memtable full: ",
                *current as u64,
                " of ",
                *max as u64,
                " bytes",
            ),
            StorageError::InvalidFormat(fault) => {
                let mut out = String::new();
                out.append("invalid table file: ");
                out.append(fault.message());
                assert(out@ =~= self.wording());
                out
            },
            StorageError::ChecksumMismatch { expected, actual } => with_numbers(
                "checksum mismatch: expected ",
                *expected as u64,
                ", found ",
                *actual as u64,
                "",
            ),
            StorageError::CorruptIndex => "Failed to decode index entry".to_owned(),
            StorageError::Compression => "compression failed".to_owned(),
            StorageError::Decompression => "decompression failed".to_owned(),
            StorageError::Compaction { level, max } => with_numbers(
                "Cannot compact level ",
                *level as u64,
                " (max is ",
                *max as u64,
                ")",
            ),
            StorageError::FlushBacklog { max, .. } => with_number(
                "too many pending memtable flushes (",
                *max as u64,
                " queued); rejecting write until the flush backlog drains (disk full or flush stalled?)",
            ),
            StorageError::InvalidArgument(d) => d.message().to_owned(),
        }
    }
}

} // verus!
