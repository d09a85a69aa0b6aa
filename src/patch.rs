//! The patch container: header, manifest text and data section of framed blobs.
use crate::compress::{zstd_decode, zstd_decoded, zstd_encode, zstd_encoded};
use crate::types::{
    be32, be64, from_be32, from_be64, magic_spec, BlobHeader, Patch, PatchError, PatchHeader,
    BLOB_HEADER_SIZE, FORMAT_VERSION, PATCH_HEADER_SIZE,
};
use vstd::prelude::*;

verus! {

/// A decoded big-endian value is the value that was encoded.
pub proof fn lemma_be_round_trip(a: u32, b: u64)
    ensures
        from_be32(be32(a)) == a,
        from_be64(be64(b)) == b,
{
    let a0 = a / 0x1000000;
    let a1 = (a / 0x10000) % 0x100;
    let a2 = (a / 0x100) % 0x100;
    let a3 = a % 0x100;
    assert(a0 * 0x1000000 + a1 * 0x10000 + a2 * 0x100 + a3 == a && a0 < 0x100) by (bit_vector)
        requires
            a0 == a / 0x1000000,
            a1 == (a / 0x10000) % 0x100,
            a2 == (a / 0x100) % 0x100,
            a3 == a % 0x100,
    ;
    let b0 = b / 0x100000000000000;
    let b1 = (b / 0x1000000000000) % 0x100;
    let b2 = (b / 0x10000000000) % 0x100;
    let b3 = (b / 0x100000000) % 0x100;
    let b4 = (b / 0x1000000) % 0x100;
    let b5 = (b / 0x10000) % 0x100;
    let b6 = (b / 0x100) % 0x100;
    let b7 = b % 0x100;
    assert(b0 * 0x100000000000000 + b1 * 0x1000000000000 + b2 * 0x10000000000 + b3 * 0x100000000
        + b4 * 0x1000000 + b5 * 0x10000 + b6 * 0x100 + b7 == b && b0 < 0x100) by (bit_vector)
        requires
            b0 == b / 0x100000000000000,
            b1 == (b / 0x1000000000000) % 0x100,
            b2 == (b / 0x10000000000) % 0x100,
            b3 == (b / 0x100000000) % 0x100,
            b4 == (b / 0x1000000) % 0x100,
            b5 == (b / 0x10000) % 0x100,
            b6 == (b / 0x100) % 0x100,
            b7 == b % 0x100,
    ;
}

/// The bytes of a container holding `manifest` and `data`.
pub open spec fn container_bytes(manifest: Seq<u8>, data: Seq<u8>) -> Seq<u8> {
    magic_spec() + be32(FORMAT_VERSION) + be64(manifest.len() as u64) + manifest + data
}

/// Reading a container back gives the magic, the version, the manifest length,
/// the manifest and the data section that were written.
pub proof fn lemma_container_round_trip(manifest: Seq<u8>, data: Seq<u8>)
    requires
        manifest.len() <= u64::MAX,
    ensures
        container_bytes(manifest, data).len() >= PATCH_HEADER_SIZE,
        container_bytes(manifest, data).subrange(0, 8) == magic_spec(),
        from_be32(container_bytes(manifest, data).subrange(8, 12)) == FORMAT_VERSION,
        declared_manifest_len(container_bytes(manifest, data)) == manifest.len(),
        container_bytes(manifest, data).subrange(20, 20 + manifest.len() as int) == manifest,
        container_bytes(manifest, data).subrange(
            20 + manifest.len() as int,
            container_bytes(manifest, data).len() as int,
        ) == data,
{
    let b = container_bytes(manifest, data);
    lemma_be_round_trip(FORMAT_VERSION, manifest.len() as u64);
    assert(b.subrange(0, 8) =~= magic_spec());
    assert(b.subrange(8, 12) =~= be32(FORMAT_VERSION));
    assert(b.subrange(12, 20) =~= be64(manifest.len() as u64));
    assert(b.subrange(20, 20 + manifest.len() as int) =~= manifest);
    assert(b.subrange(20 + manifest.len() as int, b.len() as int) =~= data);
}

/// The declared manifest length of a container that is long enough to hold a header.
pub open spec fn declared_manifest_len(b: Seq<u8>) -> int {
    from_be64(b.subrange(12, 20)) as int
}

/// The quality field stored for a payload: zero when uncompressed, else the
/// level's 32-bit two's complement pattern.
pub open spec fn quality_field(compressed: bool, level: i32) -> u32 {
    if !compressed {
        0
    } else if level >= 0 {
        level as u32
    } else {
        (level + 0x1_0000_0000) as u32
    }
}

/// The flag and stored bytes of the blob framed at `off` in `data`, where its
/// header and payload lie inside `data`.
pub open spec fn blob_at(data: Seq<u8>, off: int) -> Option<(bool, Seq<u8>)> {
    if off < 0 || off >= data.len() || data.len() - off < BLOB_HEADER_SIZE {
        None
    } else {
        let n = from_be64(data.subrange(off + 5, off + 13)) as int;
        if n > data.len() - off - BLOB_HEADER_SIZE {
            None
        } else {
            Some((data[off] != 0, data.subrange(off + 13, off + 13 + n)))
        }
    }
}

/// The bytes that the blob framed at `off` stands for.
pub open spec fn blob_content(data: Seq<u8>, off: int) -> Option<Seq<u8>> {
    match blob_at(data, off) {
        None => None,
        Some((compressed, stored)) => if compressed {
            zstd_decoded(stored)
        } else {
            Some(stored)
        },
    }
}

pub(crate) fn append_bytes(buf: &mut Vec<u8>, more: &[u8])
    requires
        old(buf)@.len() + more@.len() <= usize::MAX,
    ensures
        final(buf)@ == old(buf)@ + more@,
{
    let mut i: usize = 0;
    while i < more.len()
        invariant
            i <= more@.len(),
            buf@ =~= old(buf)@ + more@.subrange(0, i as int),
        decreases more@.len() - i,
    {
        buf.push(more[i]);
        i = i + 1;
    }
}

/// Frames a manifest text and a data section as a container.
pub fn write_patch(manifest: &[u8], data: &[u8]) -> (r: Vec<u8>)
    requires
        PATCH_HEADER_SIZE + manifest@.len() + data@.len() <= usize::MAX,
    ensures
        r@ == container_bytes(manifest@, data@),
{
    let header = PatchHeader::new(manifest.len() as u64);
    let mut out = header.to_bytes();
    append_bytes(&mut out, manifest);
    append_bytes(&mut out, data);
    assert(out@ =~= container_bytes(manifest@, data@));
    out
}

/// Splits a container into its manifest text and its data section.
pub fn read_patch(bytes: &[u8]) -> (r: Result<(Vec<u8>, Vec<u8>), PatchError>)
    ensures
        bytes@.len() < PATCH_HEADER_SIZE ==> r is Err && r->Err_0 is Format,
        bytes@.len() >= PATCH_HEADER_SIZE && bytes@.subrange(0, 8) != magic_spec()
            ==> r is Err && r->Err_0 is Format,
        bytes@.len() >= PATCH_HEADER_SIZE && bytes@.subrange(0, 8) == magic_spec() && from_be32(
            bytes@.subrange(8, 12),
        ) != FORMAT_VERSION ==> r is Err && r->Err_0 is Unsupported,
        bytes@.len() >= PATCH_HEADER_SIZE && bytes@.subrange(0, 8) == magic_spec() && from_be32(
            bytes@.subrange(8, 12),
        ) == FORMAT_VERSION ==> {
            &&& declared_manifest_len(bytes@) > bytes@.len() - PATCH_HEADER_SIZE ==> r is Err
                && r->Err_0 is Format
            &&& declared_manifest_len(bytes@) <= bytes@.len() - PATCH_HEADER_SIZE ==> r is Ok
        },
        r is Ok ==> ({
            let m = declared_manifest_len(bytes@);
            &&& r->Ok_0.0@ == bytes@.subrange(20, 20 + m)
            &&& r->Ok_0.1@ == bytes@.subrange(20 + m, bytes@.len() as int)
        }),
{
    let (header, start) = match PatchHeader::from_bytes(bytes) {
        Ok(h) => h,
        Err(e) => {
            return Err(e);
        },
    };
    if header.version != FORMAT_VERSION {
        return Err(PatchError::Unsupported(String::from_str("unknown format version")));
    }
    let avail = bytes.len() - start;
    if header.manifest_len > avail as u64 {
        return Err(PatchError::Format(String::from_str("manifest length exceeds the stream")));
    }
    let m = header.manifest_len as usize;
    let manifest = vstd::slice::slice_to_vec(vstd::slice::slice_subrange(bytes, start, start + m));
    let data = vstd::slice::slice_to_vec(
        vstd::slice::slice_subrange(bytes, start + m, bytes.len()),
    );
    Ok((manifest, data))
}

/// Appends a framed payload to the data section and returns its offset.
pub fn append_add_blob(patch: &mut Patch, payload: &[u8], compressed: bool, zstd_level: i32) -> (r:
    Result<u64, PatchError>)
    requires
        old(patch).data@.len() + BLOB_HEADER_SIZE + payload@.len() <= usize::MAX,
    ensures
        r == Ok::<u64, PatchError>(old(patch).data@.len() as u64),
        final(patch).manifest == old(patch).manifest,
        final(patch).data@ == old(patch).data@ + (BlobHeader {
            compressed,
            zstd_level: quality_field(compressed, zstd_level),
            payload_len: payload@.len() as u64,
        }).spec_bytes() + payload@,
        blob_at(final(patch).data@, old(patch).data@.len() as int) == Some((compressed, payload@)),
{
    let offset = patch.data.len() as u64;
    let level: u32 = if !compressed {
        0
    } else if zstd_level >= 0 {
        zstd_level as u32
    } else {
        (zstd_level as i64 + 0x1_0000_0000i64) as u32
    };
    let header = BlobHeader { compressed, zstd_level: level, payload_len: payload.len() as u64 };
    let hb = header.to_bytes();
    append_bytes(&mut patch.data, hb.as_slice());
    append_bytes(&mut patch.data, payload);
    proof {
        let d = patch.data@;
        let off = old(patch).data@.len() as int;
        lemma_be_round_trip(level, payload@.len() as u64);
        assert(d.subrange(off + 5, off + 13) =~= be64(payload@.len() as u64));
        assert(d.subrange(off + 13, off + 13 + payload@.len()) =~= payload@);
    }
    Ok(offset)
}

/// Reads back the payload framed at `offset`, decompressing it when flagged.
pub fn read_add_blob(patch: &Patch, offset: u64) -> (r: Result<Vec<u8>, PatchError>)
    ensures
        (r is Ok) == (blob_content(patch.data@, offset as int) is Some),
        r is Ok ==> blob_content(patch.data@, offset as int) == Some(r->Ok_0@),
        blob_at(patch.data@, offset as int) is None ==> r is Err && r->Err_0 is Format,
        blob_at(patch.data@, offset as int) is Some && r is Err ==> r->Err_0 is Compression,
{
    let len = patch.data.len();
    if offset >= len as u64 {
        return Err(PatchError::Format(String::from_str("blob offset out of range")));
    }
    let off = offset as usize;
    let rest = vstd::slice::slice_subrange(patch.data.as_slice(), off, len);
    let (header, hsize) = match BlobHeader::from_bytes(rest) {
        Ok(h) => h,
        Err(e) => {
            return Err(e);
        },
    };
    proof {
        assert(rest@.subrange(5, 13) =~= patch.data@.subrange(off + 5, off + 13));
    }
    if header.payload_len > (len - off - hsize) as u64 {
        return Err(PatchError::Format(String::from_str("blob payload out of range")));
    }
    let start = off + hsize;
    let end = start + header.payload_len as usize;
    let stored = vstd::slice::slice_subrange(patch.data.as_slice(), start, end);
    if header.compressed {
        decompress_blob(stored)
    } else {
        Ok(vstd::slice::slice_to_vec(stored))
    }
}

/// Compresses a payload with zstd at `level`.
pub fn compress_blob(data: &[u8], level: i32) -> (r: Result<Vec<u8>, PatchError>)
    ensures
        r is Ok,
        r is Ok ==> r->Ok_0@ == zstd_encoded(data@, level),
        r is Ok ==> zstd_decoded(r->Ok_0@) == Some(data@),
{
    match zstd_encode(data, level) {
        Ok(v) => Ok(v),
        Err(_) => Err(PatchError::Compression(String::from_str("zstd compression failed"))),
    }
}

/// Decompresses a zstd payload.
pub fn decompress_blob(data: &[u8]) -> (r: Result<Vec<u8>, PatchError>)
    ensures
        (r is Ok) == (zstd_decoded(data@) is Some),
        r is Ok ==> zstd_decoded(data@) == Some(r->Ok_0@),
        r is Err ==> r->Err_0 is Compression,
{
    match zstd_decode(data) {
        Ok(v) => Ok(v),
        Err(_) => Err(PatchError::Compression(String::from_str("zstd decompression failed"))),
    }
}

} // verus!
