//! Data model of a patch and the fixed binary headers of its container.
use vstd::prelude::*;

verus! {

/// Failures of the patch engine.
#[derive(Debug, Clone, PartialEq, Eq)]
pub enum PatchError {
    Io(String),
    Json(String),
    Compression(String),
    Format(String),
    Verification(String),
    Unsupported(String),
}

/// Byte length of the container header.
pub const PATCH_HEADER_SIZE: usize = 20;

/// Byte length of the header in front of every stored payload.
pub const BLOB_HEADER_SIZE: usize = 13;

/// Version of the container format written by this library.
pub const FORMAT_VERSION: u32 = 1;

/// The eight magic bytes "PATCHFG1".
pub open spec fn magic_spec() -> Seq<u8> {
    seq![80u8, 65u8, 84u8, 67u8, 72u8, 70u8, 71u8, 49u8]
}

/// Big-endian bytes of a 32-bit value.
pub open spec fn be32(v: u32) -> Seq<u8> {
    seq![
        (v / 0x1000000) as u8,
        ((v / 0x10000) % 0x100) as u8,
        ((v / 0x100) % 0x100) as u8,
        (v % 0x100) as u8,
    ]
}

/// Big-endian bytes of a 64-bit value.
pub open spec fn be64(v: u64) -> Seq<u8> {
    seq![
        (v / 0x100000000000000) as u8,
        ((v / 0x1000000000000) % 0x100) as u8,
        ((v / 0x10000000000) % 0x100) as u8,
        ((v / 0x100000000) % 0x100) as u8,
        ((v / 0x1000000) % 0x100) as u8,
        ((v / 0x10000) % 0x100) as u8,
        ((v / 0x100) % 0x100) as u8,
        (v % 0x100) as u8,
    ]
}

/// The value of four big-endian bytes.
pub open spec fn from_be32(b: Seq<u8>) -> u32 {
    (b[0] * 0x1000000 + b[1] * 0x10000 + b[2] * 0x100 + b[3]) as u32
}

/// The value of eight big-endian bytes.
pub open spec fn from_be64(b: Seq<u8>) -> u64 {
    (b[0] * 0x100000000000000 + b[1] * 0x1000000000000 + b[2] * 0x10000000000
        + b[3] * 0x100000000 + b[4] * 0x1000000 + b[5] * 0x10000 + b[6] * 0x100
        + b[7]) as u64
}

fn push_be32(buf: &mut Vec<u8>, v: u32)
    ensures
        final(buf)@ == old(buf)@ + be32(v),
{
    buf.push((v / 0x1000000) as u8);
    buf.push(((v / 0x10000) % 0x100) as u8);
    buf.push(((v / 0x100) % 0x100) as u8);
    buf.push((v % 0x100) as u8);
    assert(buf@ =~= old(buf)@ + be32(v));
}

fn push_be64(buf: &mut Vec<u8>, v: u64)
    ensures
        final(buf)@ == old(buf)@ + be64(v),
{
    buf.push((v / 0x100000000000000) as u8);
    buf.push(((v / 0x1000000000000) % 0x100) as u8);
    buf.push(((v / 0x10000000000) % 0x100) as u8);
    buf.push(((v / 0x100000000) % 0x100) as u8);
    buf.push(((v / 0x1000000) % 0x100) as u8);
    buf.push(((v / 0x10000) % 0x100) as u8);
    buf.push(((v / 0x100) % 0x100) as u8);
    buf.push((v % 0x100) as u8);
    assert(buf@ =~= old(buf)@ + be64(v));
}

fn read_be32(buf: &[u8], at: usize) -> (r: u32)
    requires
        at + 4 <= buf@.len(),
    ensures
        r == from_be32(buf@.subrange(at as int, at + 4)),
{
    (buf[at] as u32) * 0x1000000 + (buf[at + 1] as u32) * 0x10000 + (buf[at + 2] as u32) * 0x100
        + (buf[at + 3] as u32)
}

fn read_be64(buf: &[u8], at: usize) -> (r: u64)
    requires
        at + 8 <= buf@.len(),
    ensures
        r == from_be64(buf@.subrange(at as int, at + 8)),
{
    (buf[at] as u64) * 0x100000000000000 + (buf[at + 1] as u64) * 0x1000000000000
        + (buf[at + 2] as u64) * 0x10000000000 + (buf[at + 3] as u64) * 0x100000000
        + (buf[at + 4] as u64) * 0x1000000 + (buf[at + 5] as u64) * 0x10000
        + (buf[at + 6] as u64) * 0x100 + (buf[at + 7] as u64)
}

/// Options for building a patch.
#[derive(Debug, Clone)]
pub struct MakePatchOptions {
    /// Nominal block size in bytes.
    pub block_size: usize,
    /// Compression quality: negative stores payloads raw, 0 to 22 compresses.
    pub zstd_level: i32,
    /// Record each file's whole-file digest in its entry, for apply to check.
    pub verify_checksums: bool,
}

impl Default for MakePatchOptions {
    fn default() -> (r: Self)
        ensures
            r.block_size == 4096,
            r.zstd_level == 3,
            r.verify_checksums,
    {
        MakePatchOptions { block_size: 4096, zstd_level: 3, verify_checksums: true }
    }
}

/// Options for applying a patch.
#[derive(Debug, Clone)]
pub struct ApplyPatchOptions {
    /// Compare each rebuilt file with the whole-file digest that its entry carries.
    pub verify_checksums: bool,
    /// Publish each file through a scratch file and a rename.
    pub atomic: bool,
    /// Block size the patch was built with; `Copy` offsets are multiples of it.
    pub block_size: usize,
}

impl Default for ApplyPatchOptions {
    fn default() -> (r: Self)
        ensures
            r.verify_checksums,
            r.atomic,
            r.block_size == 4096,
    {
        ApplyPatchOptions { verify_checksums: true, atomic: true, block_size: 4096 }
    }
}

/// One step in the reconstruction of a file.
#[derive(Debug, Clone)]
pub enum PatchOp {
    /// Take `len` bytes at `block_index * block_size` of file `src` in the tree being patched.
    Copy { src: String, block_index: u64, len: usize },
    /// Decode the framed payload at `data_offset` of the patch's data section.
    Add {
        data_offset: u64,
        data_length: u64,
        compressed: bool,
        compression: Option<String>,
        zstd_level: Option<i32>,
    },
}

/// Kind of a reconstructed filesystem object.
#[derive(Debug, Clone, Copy, PartialEq, Eq)]
pub enum EntryKind {
    File,
    Dir,
}

/// One file or directory of the destination tree.
#[derive(Debug, Clone)]
pub struct ManifestEntry {
    pub path: String,
    pub entry_type: EntryKind,
    pub mode: u32,
    pub mtime: u64,
    pub sha256: Option<String>,
    pub ops: Vec<PatchOp>,
}

/// The ordered description of a destination tree.
#[derive(Debug, Clone)]
pub struct Manifest {
    pub version: u32,
    pub entries: Vec<ManifestEntry>,
}

impl Manifest {
    pub fn new() -> (r: Self)
        ensures
            r.version == FORMAT_VERSION,
            r.entries@.len() == 0,
    {
        Manifest { version: FORMAT_VERSION, entries: Vec::new() }
    }
}

/// A manifest together with the data section its `Add` operations point into.
#[derive(Debug)]
pub struct Patch {
    pub manifest: Manifest,
    pub data: Vec<u8>,
}

impl Patch {
    pub fn new() -> (r: Self)
        ensures
            r.manifest.version == FORMAT_VERSION,
            r.manifest.entries@.len() == 0,
            r.data@.len() == 0,
    {
        Patch { manifest: Manifest::new(), data: Vec::new() }
    }
}

/// Digest and provenance of one block of a scanned file.
#[derive(Debug, Clone)]
pub struct BlockHash {
    pub sha256: String,
    pub file_path: String,
    pub block_index: u64,
    pub len: usize,
}

/// A block's bytes with its digest and byte offset in its file.
#[derive(Debug, Clone)]
pub struct FileBlock {
    pub data: Vec<u8>,
    pub sha256: String,
    pub offset: u64,
}

/// The fixed header at the start of a patch container.
#[derive(Debug)]
pub struct PatchHeader {
    pub magic: [u8; 8],
    pub version: u32,
    pub manifest_len: u64,
}

impl PatchHeader {
    /// The bytes of a header.
    pub open spec fn spec_bytes(self) -> Seq<u8> {
        self.magic@ + be32(self.version) + be64(self.manifest_len)
    }

    pub fn new(manifest_len: u64) -> (r: Self)
        ensures
            r.magic@ == magic_spec(),
            r.version == FORMAT_VERSION,
            r.manifest_len == manifest_len,
    {
        let magic: [u8; 8] = [80u8, 65u8, 84u8, 67u8, 72u8, 70u8, 71u8, 49u8];
        assert(magic@ =~= magic_spec());
        PatchHeader { magic, version: FORMAT_VERSION, manifest_len }
    }

    pub fn to_bytes(&self) -> (r: Vec<u8>)
        ensures
            r@ == self.spec_bytes(),
            r@.len() == PATCH_HEADER_SIZE,
    {
        let mut buf: Vec<u8> = Vec::new();
        let mut i: usize = 0;
        while i < 8
            invariant
                i <= 8,
                buf@ =~= self.magic@.subrange(0, i as int),
            decreases 8 - i,
        {
            buf.push(self.magic[i]);
            i = i + 1;
        }
        push_be32(&mut buf, self.version);
        push_be64(&mut buf, self.manifest_len);
        buf
    }

    /// Parses a header at the start of `buf`; the magic must match exactly.
    pub fn from_bytes(buf: &[u8]) -> (r: Result<(Self, usize), PatchError>)
        ensures
            buf@.len() < PATCH_HEADER_SIZE ==> r is Err && r->Err_0 is Format,
            buf@.len() >= PATCH_HEADER_SIZE && buf@.subrange(0, 8) != magic_spec()
                ==> r is Err && r->Err_0 is Format,
            buf@.len() >= PATCH_HEADER_SIZE && buf@.subrange(0, 8) == magic_spec() ==> r is Ok,
            r is Ok ==> ({
                let (h, n) = r->Ok_0;
                &&& n == PATCH_HEADER_SIZE
                &&& h.magic@ == magic_spec()
                &&& h.version == from_be32(buf@.subrange(8, 12))
                &&& h.manifest_len == from_be64(buf@.subrange(12, 20))
            }),
    {
        if buf.len() < PATCH_HEADER_SIZE {
            return Err(PatchError::Format(String::from_str("header too short")));
        }
        let magic: [u8; 8] = [buf[0], buf[1], buf[2], buf[3], buf[4], buf[5], buf[6], buf[7]];
        let expected = PatchHeader::new(0);
        let mut i: usize = 0;
        while i < 8
            invariant
                i <= 8,
                buf@.len() >= PATCH_HEADER_SIZE,
                magic@ =~= buf@.subrange(0, 8),
                expected.magic@ == magic_spec(),
                forall|j: int| 0 <= j < i ==> magic@[j] == magic_spec()[j],
            decreases 8 - i,
        {
            if magic[i] != expected.magic[i] {
                return Err(PatchError::Format(String::from_str("invalid magic")));
            }
            i = i + 1;
        }
        assert(magic@ =~= magic_spec());
        let version = read_be32(buf, 8);
        let manifest_len = read_be64(buf, 12);
        Ok((PatchHeader { magic, version, manifest_len }, PATCH_HEADER_SIZE))
    }
}

/// The fixed header in front of each payload of the data section.
#[derive(Debug)]
pub struct BlobHeader {
    pub compressed: bool,
    pub zstd_level: u32,
    pub payload_len: u64,
}

impl BlobHeader {
    /// The bytes of a blob header.
    pub open spec fn spec_bytes(self) -> Seq<u8> {
        seq![if self.compressed { 1u8 } else { 0u8 }] + be32(self.zstd_level) + be64(
            self.payload_len,
        )
    }

    pub fn to_bytes(&self) -> (r: Vec<u8>)
        ensures
            r@ == self.spec_bytes(),
            r@.len() == BLOB_HEADER_SIZE,
    {
        let mut buf: Vec<u8> = Vec::new();
        buf.push(if self.compressed { 1u8 } else { 0u8 });
        push_be32(&mut buf, self.zstd_level);
        push_be64(&mut buf, self.payload_len);
        assert(buf@ =~= self.spec_bytes());
        buf
    }

    /// Parses a blob header at the start of `buf`; any nonzero flag byte means compressed.
    pub fn from_bytes(buf: &[u8]) -> (r: Result<(Self, usize), PatchError>)
        ensures
            buf@.len() < BLOB_HEADER_SIZE <==> r is Err,
            r is Err ==> r->Err_0 is Format,
            r is Ok ==> ({
                let (h, n) = r->Ok_0;
                &&& n == BLOB_HEADER_SIZE
                &&& h.compressed == (buf@[0] != 0)
                &&& h.zstd_level == from_be32(buf@.subrange(1, 5))
                &&& h.payload_len == from_be64(buf@.subrange(5, 13))
            }),
    {
        if buf.len() < BLOB_HEADER_SIZE {
            return Err(PatchError::Format(String::from_str("blob header too short")));
        }
        let compressed = buf[0] != 0;
        let zstd_level = read_be32(buf, 1);
        let payload_len = read_be64(buf, 5);
        Ok((BlobHeader { compressed, zstd_level, payload_len }, BLOB_HEADER_SIZE))
    }
}

} // verus!
