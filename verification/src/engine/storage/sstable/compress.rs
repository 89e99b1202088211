//! Compression of the sections of a table.
use crate::engine::error::StorageError;
use crate::engine::storage::sstable::layout::Compression;
use vstd::prelude::*;

verus! {

/// The level at which sections are compressed.
pub const ZSTD_LEVEL: i32 = 3;

/// An `std::io::Error`.
#[verifier::external_type_specification]
#[verifier::external_body]
pub struct ExIoError(std::io::Error);

/// What `zstd::encode_all` makes of some bytes at a level, where it succeeds.
pub uninterp spec fn zstd_packed(data: Seq<u8>, level: i32) -> Option<Seq<u8>>;

/// What `zstd::decode_all` makes of some bytes, where it succeeds.
pub uninterp spec fn zstd_unpacked(data: Seq<u8>) -> Option<Seq<u8>>;

/// Calls `zstd::encode_all`: the result depends on the bytes and the level alone,
/// and `zstd::decode_all` gives the bytes back.
#[verifier::external_body]
fn zstd_encode(data: &[u8], level: i32) -> (r: Result<Vec<u8>, std::io::Error>)
    ensures
        match r {
            Ok(packed) => zstd_packed(data@, level) == Some(packed@) && zstd_unpacked(packed@)
                == Some(data@),
            Err(_) => zstd_packed(data@, level) is None,
        },
{
    zstd::encode_all(data, level)
}

/// Calls `zstd::decode_all`: the result depends on the bytes alone.
#[verifier::external_body]
fn zstd_decode(data: &[u8]) -> (r: Result<Vec<u8>, std::io::Error>)
    ensures
        match r {
            Ok(plain) => zstd_unpacked(data@) == Some(plain@),
            Err(_) => zstd_unpacked(data@) is None,
        },
{
    zstd::decode_all(data)
}

/// The bytes that stand in a file for a section.
pub open spec fn packed(data: Seq<u8>, compression: Compression) -> Option<Seq<u8>> {
    match compression {
        Compression::Plain => Some(data),
        Compression::Zstd => zstd_packed(data, ZSTD_LEVEL),
    }
}

/// The section that bytes in a file stand for.
pub open spec fn unpacked(data: Seq<u8>, compression: Compression) -> Option<Seq<u8>> {
    match compression {
        Compression::Plain => Some(data),
        Compression::Zstd => zstd_unpacked(data),
    }
}

/// Compresses a section; what comes out stands for what went in.
pub fn compress_data(data: &[u8], compression: Compression) -> (r: Result<Vec<u8>, StorageError>)
    ensures
        match r {
            Ok(p) => packed(data@, compression) == Some(p@) && unpacked(p@, compression) == Some(
                data@,
            ),
            Err(e) => packed(data@, compression) is None && e == StorageError::Compression,
        },
{
    match compression {
        Compression::Plain => Ok(vstd::slice::slice_to_vec(data)),
        Compression::Zstd => match zstd_encode(data, ZSTD_LEVEL) {
            Ok(p) => Ok(p),
            Err(_) => Err(StorageError::Compression),
        },
    }
}

/// Decompresses a section.
pub fn decompress_data(data: &[u8], compression: Compression) -> (r: Result<Vec<u8>, StorageError>)
    ensures
        match r {
            Ok(p) => unpacked(data@, compression) == Some(p@),
            Err(e) => unpacked(data@, compression) is None && e == StorageError::Decompression,
        },
{
    match compression {
        Compression::Plain => Ok(vstd::slice::slice_to_vec(data)),
        Compression::Zstd => match zstd_decode(data) {
            Ok(p) => Ok(p),
            Err(_) => Err(StorageError::Decompression),
        },
    }
}

/// A section that is not compressed stands in a file as it is; a compressed one as what
/// Zstandard makes of it at level 3, and what that gives back of it is the section.
pub proof fn law_packed(data: Seq<u8>)
    ensures
        packed(data, Compression::Plain) == Some(data),
        unpacked(data, Compression::Plain) == Some(data),
        packed(data, Compression::Zstd) == zstd_packed(data, 3),
        unpacked(data, Compression::Zstd) == zstd_unpacked(data),
{
}

} // verus!
