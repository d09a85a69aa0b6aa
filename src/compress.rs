//! The compression transform applied to stored payloads.
use crate::types::PatchError;
use vstd::prelude::*;

verus! {

/// The frame that zstd produces for `data` at `level`.
pub uninterp spec fn zstd_encoded(data: Seq<u8>, level: i32) -> Seq<u8>;

/// What zstd recovers from `data`, or `None` where `data` is no valid frame sequence.
pub uninterp spec fn zstd_decoded(data: Seq<u8>) -> Option<Seq<u8>>;

#[verifier::external_type_specification]
#[verifier::external_body]
pub struct ExIoError(std::io::Error);

/// Relies on `zstd::encode_all`: reading from a slice into a `Vec` it fails only
/// when zstd cannot allocate a context (levels out of range are clamped), its
/// output depends on the bytes and the level alone, and it is a frame that
/// decodes back to the input.
#[verifier::external_body]
pub(crate) fn zstd_encode(data: &[u8], level: i32) -> (r: Result<Vec<u8>, std::io::Error>)
    ensures
        r is Ok,
        r is Ok ==> r->Ok_0@ == zstd_encoded(data@, level),
        r is Ok ==> zstd_decoded(r->Ok_0@) == Some(data@),
{
    zstd::encode_all(data, level)
}

/// Relies on `zstd::decode_all`: it succeeds exactly on valid frames, and what
/// it returns depends on the bytes alone.
#[verifier::external_body]
pub(crate) fn zstd_decode(data: &[u8]) -> (r: Result<Vec<u8>, std::io::Error>)
    ensures
        (r is Ok) == (zstd_decoded(data@) is Some),
        r is Ok ==> zstd_decoded(data@) == Some(r->Ok_0@),
{
    zstd::decode_all(data)
}

/// The bytes stored for `data` at `level`: raw below zero, a zstd frame otherwise.
pub open spec fn stored_form(data: Seq<u8>, level: i32) -> Seq<u8> {
    if level < 0 {
        data
    } else {
        zstd_encoded(data, level)
    }
}

fn copy_bytes(data: &[u8]) -> (r: Vec<u8>)
    ensures
        r@ == data@,
{
    let mut out: Vec<u8> = Vec::new();
    let mut i: usize = 0;
    while i < data.len()
        invariant
            i <= data@.len(),
            out@ =~= data@.subrange(0, i as int),
        decreases data@.len() - i,
    {
        out.push(data[i]);
        i = i + 1;
    }
    out
}

/// Compresses `data` at `level`; a negative level returns the bytes unchanged.
pub fn compress(data: &[u8], level: i32) -> (r: Result<Vec<u8>, PatchError>)
    ensures
        r is Ok,
        r is Ok ==> r->Ok_0@ == stored_form(data@, level),
        r is Ok && level >= 0 ==> zstd_decoded(r->Ok_0@) == Some(data@),
{
    if level < 0 {
        return Ok(copy_bytes(data));
    }
    match zstd_encode(data, level) {
        Ok(v) => Ok(v),
        Err(_) => Err(PatchError::Compression(String::from_str("compression failed"))),
    }
}

/// Decompresses a zstd frame sequence.
pub fn decompress(data: &[u8]) -> (r: Result<Vec<u8>, PatchError>)
    ensures
        (r is Ok) == (zstd_decoded(data@) is Some),
        r is Ok ==> zstd_decoded(data@) == Some(r->Ok_0@),
        r is Err ==> r->Err_0 is Compression,
{
    match zstd_decode(data) {
        Ok(v) => Ok(v),
        Err(_) => Err(PatchError::Compression(String::from_str("decompression failed"))),
    }
}

} // verus!
