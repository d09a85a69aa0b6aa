//! Building a patch: the manifest, with every pending `Add` payload framed
//! into the data section.
use crate::compress::{compress, stored_form};
use crate::diff::{
    ascending_files, ascending_paths,
    block_bytes, generate_manifest, is_first_match, lemma_block_start, num_blocks,
    planned_dir_entry, planned_file_entry, planned_op, tree_refs, BlockRef, TreeFile, FILE_MODE,
};
use crate::patch::{append_add_blob, blob_at, blob_content, quality_field};
use crate::types::{
    BlobHeader, EntryKind, MakePatchOptions, Manifest, ManifestEntry, Patch, PatchError, PatchOp,
    BLOB_HEADER_SIZE, FORMAT_VERSION,
};
use crate::verify::sha256_hex_of;
use vstd::prelude::*;

verus! {

/// Whether a destination block with bytes `bytes` is copied from the source.
pub open spec fn has_source(refs: Seq<BlockRef>, bytes: Seq<u8>) -> bool {
    exists|i: int| is_first_match(refs, sha256_hex_of(bytes), i)
}

/// The framed blob stored in the data section for a block with bytes `bytes`.
pub open spec fn frame_of(bytes: Seq<u8>, level: i32) -> Seq<u8> {
    let stored = stored_form(bytes, level);
    (BlobHeader {
        compressed: level >= 0,
        zstd_level: quality_field(level >= 0, level),
        payload_len: stored.len() as u64,
    }).spec_bytes() + stored
}

/// The blobs added for the first `k` blocks of a destination file, in order.
pub open spec fn file_frames(refs: Seq<BlockRef>, data: Seq<u8>, bs: int, level: i32, k: int) -> Seq<
    u8,
>
    decreases k,
{
    if k <= 0 {
        Seq::empty()
    } else {
        let bytes = block_bytes(data, bs, k - 1);
        file_frames(refs, data, bs, level, k - 1) + if has_source(refs, bytes) {
            Seq::empty()
        } else {
            frame_of(bytes, level)
        }
    }
}

/// The data section written for the first `n` destination files.
pub open spec fn tree_frames(refs: Seq<BlockRef>, dst: Seq<TreeFile>, bs: int, level: i32, n: int) -> Seq<
    u8,
>
    decreases n,
{
    if n <= 0 {
        Seq::empty()
    } else {
        tree_frames(refs, dst, bs, level, n - 1) + file_frames(
            refs,
            dst[n - 1].data@,
            bs,
            level,
            num_blocks(dst[n - 1].data@.len() as int, bs) as int,
        )
    }
}

/// `op` adds the bytes `bytes` as a blob framed at offset `at` of `data`.
pub open spec fn made_add(op: PatchOp, bytes: Seq<u8>, level: i32, data: Seq<u8>, at: int) -> bool {
    match op {
        PatchOp::Add { data_offset, data_length, compressed, compression, zstd_level } => {
                &&& data_offset == at
                &&& data_length == bytes.len()
                &&& compressed == (level >= 0)
                &&& level >= 0 ==> compression is Some && compression->Some_0@ == "zstd"@
                    && zstd_level == Some(level)
                &&& level < 0 ==> compression is None && zstd_level is None
                &&& blob_at(data, data_offset as int) == Some((level >= 0, stored_form(bytes, level)))
                &&& blob_content(data, data_offset as int) == Some(bytes)
            },
        _ => false,
    }
}

/// The operation stored for a destination block with bytes `bytes`: the
/// planned copy, or an add at offset `at` whose framed payload in `data`
/// decodes to `bytes`.
pub open spec fn made_op(refs: Seq<BlockRef>, bytes: Seq<u8>, op: PatchOp, level: i32, data: Seq<u8>, at: int) -> bool {
    let d = sha256_hex_of(bytes);
    if exists|i: int| is_first_match(refs, d, i) {
        planned_op(refs, bytes, op)
    } else {
        match op {
            PatchOp::Add { .. } => made_add(op, bytes, level, data, at),
            _ => false,
        }
    }
}

/// `e` is the stored entry for destination file `f`, whose blobs start at
/// offset `base` of the data section; it carries the file's digest when
/// `record` is set.
pub open spec fn made_file_entry(
    e: ManifestEntry,
    f: TreeFile,
    refs: Seq<BlockRef>,
    bs: int,
    level: i32,
    data: Seq<u8>,
    base: int,
    record: bool,
) -> bool {
    &&& e.path@ == f.path@
    &&& e.entry_type == EntryKind::File
    &&& e.mode == FILE_MODE
    &&& e.mtime == 0
    &&& if record {
        e.sha256 is Some && e.sha256->Some_0@ == sha256_hex_of(f.data@)
    } else {
        e.sha256 is None
    }
    &&& e.ops@.len() == num_blocks(f.data@.len() as int, bs)
    &&& forall|k: int|
        #![trigger e.ops@[k]]
        0 <= k < e.ops@.len() ==> made_op(
            refs,
            block_bytes(f.data@, bs, k),
            e.ops@[k],
            level,
            data,
            base + file_frames(refs, f.data@, bs, level, k).len(),
        )
}

/// A blob framed inside `d` reads the same after more bytes are appended.
pub proof fn lemma_blob_at_extends(d: Seq<u8>, more: Seq<u8>, off: int)
    requires
        blob_at(d, off) is Some,
    ensures
        blob_at(d + more, off) == blob_at(d, off),
        blob_content(d + more, off) == blob_content(d, off),
{
    let e = d + more;
    assert(e.subrange(off + 5, off + 13) =~= d.subrange(off + 5, off + 13));
    let n = crate::types::from_be64(d.subrange(off + 5, off + 13)) as int;
    assert(e.subrange(off + 13, off + 13 + n) =~= d.subrange(off + 13, off + 13 + n));
}

proof fn lemma_made_entry_extends(
    e: ManifestEntry,
    f: TreeFile,
    refs: Seq<BlockRef>,
    bs: int,
    level: i32,
    d: Seq<u8>,
    more: Seq<u8>,
    base: int,
    record: bool,
)
    requires
        made_file_entry(e, f, refs, bs, level, d, base, record),
    ensures
        made_file_entry(e, f, refs, bs, level, d + more, base, record),
{
    assert forall|k: int| #![trigger e.ops@[k]] 0 <= k < e.ops@.len() implies made_op(
        refs,
        block_bytes(f.data@, bs, k),
        e.ops@[k],
        level,
        d + more,
        base + file_frames(refs, f.data@, bs, level, k).len(),
    ) by {
        let bytes = block_bytes(f.data@, bs, k);
        if !exists|i: int| is_first_match(refs, sha256_hex_of(bytes), i) {
            if let PatchOp::Add { data_offset, .. } = e.ops@[k] {
                lemma_blob_at_extends(d, more, data_offset as int);
            }
        }
    }
}

proof fn lemma_file_frames_grow(refs: Seq<BlockRef>, data: Seq<u8>, bs: int, level: i32, k: int, m: int)
    requires
        0 <= k <= m,
    ensures
        file_frames(refs, data, bs, level, k).len() <= file_frames(refs, data, bs, level, m).len(),
    decreases m - k,
{
    if k < m {
        lemma_file_frames_grow(refs, data, bs, level, k, m - 1);
    }
}

proof fn lemma_tree_frames_grow(refs: Seq<BlockRef>, dst: Seq<TreeFile>, bs: int, level: i32, i: int, n: int)
    requires
        0 <= i <= n,
    ensures
        tree_frames(refs, dst, bs, level, i).len() <= tree_frames(refs, dst, bs, level, n).len(),
    decreases n - i,
{
    if i < n {
        lemma_tree_frames_grow(refs, dst, bs, level, i, n - 1);
    }
}

/// The frames written up to and including block `k` of file `i` are part of
/// the whole data section.
proof fn lemma_frames_bound(refs: Seq<BlockRef>, dst: Seq<TreeFile>, bs: int, level: i32, i: int, k: int)
    requires
        0 <= i < dst.len(),
        0 <= k < num_blocks(dst[i].data@.len() as int, bs),
        !has_source(refs, block_bytes(dst[i].data@, bs, k)),
    ensures
        tree_frames(refs, dst, bs, level, i).len() + file_frames(refs, dst[i].data@, bs, level, k).len()
            + BLOB_HEADER_SIZE + stored_form(block_bytes(dst[i].data@, bs, k), level).len()
            <= tree_frames(refs, dst, bs, level, dst.len() as int).len(),
{
    let data = dst[i].data@;
    let nb = num_blocks(data.len() as int, bs) as int;
    lemma_file_frames_grow(refs, data, bs, level, k + 1, nb);
    lemma_tree_frames_grow(refs, dst, bs, level, i + 1, dst.len() as int);
}

/// Stores `chunk` as a framed blob at the end of the data section and returns
/// the `Add` operation that points at it.
fn add_block(patch: &mut Patch, chunk: &[u8], level: i32) -> (r: Result<PatchOp, PatchError>)
    ensures
        final(patch).manifest == old(patch).manifest,
        r is Ok ==> final(patch).data@ == old(patch).data@ + frame_of(chunk@, level),
        r is Ok ==> made_add(r->Ok_0, chunk@, level, final(patch).data@, old(patch).data@.len() as int),
        r is Err ==> r->Err_0 is Format && old(patch).data@.len() + BLOB_HEADER_SIZE + stored_form(
            chunk@,
            level,
        ).len() > usize::MAX,
{
    let stored = match compress(chunk, level) {
        Ok(v) => v,
        Err(e) => {
            return Err(e);
        },
    };
    if patch.data.len() > usize::MAX - BLOB_HEADER_SIZE || stored.len() > usize::MAX - BLOB_HEADER_SIZE
        - patch.data.len() {
        return Err(PatchError::Format(String::from_str("data section too large")));
    }
    let compressed = level >= 0;
    let offset = match append_add_blob(patch, stored.as_slice(), compressed, level) {
        Ok(o) => o,
        Err(e) => {
            return Err(e);
        },
    };
    proof {
        assert(patch.data@ =~= old(patch).data@ + frame_of(chunk@, level));
        lemma_blob_at_extends(patch.data@, Seq::empty(), old(patch).data@.len() as int);
    }
    let (compression, zl) = if compressed {
        (Some(String::from_str("zstd")), Some(level))
    } else {
        (None, None)
    };
    Ok(
        PatchOp::Add {
            data_offset: offset,
            data_length: chunk.len() as u64,
            compressed,
            compression,
            zstd_level: zl,
        },
    )
}

proof fn lemma_ops_extend(
    refs: Seq<BlockRef>,
    data: Seq<u8>,
    bs: int,
    level: i32,
    ops: Seq<PatchOp>,
    k: int,
    base: int,
    d: Seq<u8>,
    more: Seq<u8>,
)
    requires
        k <= ops.len(),
        forall|y: int|
            #![trigger ops[y]]
            0 <= y < k ==> made_op(
                refs,
                block_bytes(data, bs, y),
                ops[y],
                level,
                d,
                base + file_frames(refs, data, bs, level, y).len(),
            ),
    ensures
        forall|y: int|
            #![trigger ops[y]]
            0 <= y < k ==> made_op(
                refs,
                block_bytes(data, bs, y),
                ops[y],
                level,
                d + more,
                base + file_frames(refs, data, bs, level, y).len(),
            ),
{
    assert forall|y: int| #![trigger ops[y]] 0 <= y < k implies made_op(
        refs,
        block_bytes(data, bs, y),
        ops[y],
        level,
        d + more,
        base + file_frames(refs, data, bs, level, y).len(),
    ) by {
        if !has_source(refs, block_bytes(data, bs, y)) {
            if let PatchOp::Add { data_offset, .. } = ops[y] {
                lemma_blob_at_extends(d, more, data_offset as int);
            }
        }
    }
}

proof fn lemma_entries_extend(
    entries: Seq<ManifestEntry>,
    dst: Seq<TreeFile>,
    refs: Seq<BlockRef>,
    bs: int,
    level: i32,
    i: int,
    d: Seq<u8>,
    more: Seq<u8>,
    record: bool,
)
    requires
        i <= entries.len(),
        forall|x: int|
            #![trigger entries[x]]
            0 <= x < i ==> made_file_entry(
                entries[x],
                dst[x],
                refs,
                bs,
                level,
                d,
                tree_frames(refs, dst, bs, level, x).len() as int,
                record,
            ),
    ensures
        forall|x: int|
            #![trigger entries[x]]
            0 <= x < i ==> made_file_entry(
                entries[x],
                dst[x],
                refs,
                bs,
                level,
                d + more,
                tree_frames(refs, dst, bs, level, x).len() as int,
                record,
            ),
{
    assert forall|x: int| #![trigger entries[x]] 0 <= x < i implies made_file_entry(
        entries[x],
        dst[x],
        refs,
        bs,
        level,
        d + more,
        tree_frames(refs, dst, bs, level, x).len() as int,
        record,
    ) by {
        lemma_made_entry_extends(
            entries[x],
            dst[x],
            refs,
            bs,
            level,
            d,
            more,
            tree_frames(refs, dst, bs, level, x).len() as int,
            record,
        );
    }
}

/// Stores the blobs of one destination file and returns its operations, given
/// its planned entry `pe`.
fn file_ops(
    patch: &mut Patch,
    pe: &ManifestEntry,
    file: &TreeFile,
    block_size: usize,
    level: i32,
    Ghost(refs): Ghost<Seq<BlockRef>>,
) -> (r: Result<Vec<PatchOp>, PatchError>)
    requires
        block_size > 0,
        planned_file_entry(*pe, *file, refs, block_size as int),
    ensures
        final(patch).manifest == old(patch).manifest,
        r is Ok ==> final(patch).data@ == old(patch).data@ + file_frames(
            refs,
            file.data@,
            block_size as int,
            level,
            num_blocks(file.data@.len() as int, block_size as int) as int,
        ),
        r is Ok ==> r->Ok_0@.len() == num_blocks(file.data@.len() as int, block_size as int),
        r is Ok ==> forall|y: int|
            #![trigger r->Ok_0@[y]]
            0 <= y < r->Ok_0@.len() ==> made_op(
                refs,
                block_bytes(file.data@, block_size as int, y),
                r->Ok_0@[y],
                level,
                final(patch).data@,
                old(patch).data@.len() + file_frames(refs, file.data@, block_size as int, level, y).len() as int,
            ),
        r is Err ==> r->Err_0 is Format && old(patch).data@.len() + file_frames(
            refs,
            file.data@,
            block_size as int,
            level,
            num_blocks(file.data@.len() as int, block_size as int) as int,
        ).len() > usize::MAX,
{
    let ghost bs = block_size as int;
    let ghost base = patch.data@.len() as int;
    let ghost nb = num_blocks(file.data@.len() as int, bs) as int;
    let data = &file.data;
    let mut ops: Vec<PatchOp> = Vec::new();
    let mut k: usize = 0;
    while k < pe.ops.len()
        invariant
            bs == block_size as int,
            bs > 0,
            data == &file.data,
            planned_file_entry(*pe, *file, refs, bs),
            nb == pe.ops@.len(),
            k <= pe.ops@.len(),
            ops@.len() == k,
            base == old(patch).data@.len(),
            patch.manifest == old(patch).manifest,
            patch.data@ == old(patch).data@ + file_frames(refs, data@, bs, level, k as int),
            forall|y: int|
                #![trigger ops@[y]]
                0 <= y < k ==> made_op(
                    refs,
                    block_bytes(data@, bs, y),
                    ops@[y],
                    level,
                    patch.data@,
                    base + file_frames(refs, data@, bs, level, y).len(),
                ),
        decreases pe.ops@.len() - k,
    {
        let ghost bytes = block_bytes(data@, bs, k as int);
        assert(planned_op(refs, bytes, pe.ops@[k as int]));
        match &pe.ops[k] {
            PatchOp::Copy { src: from, block_index, len } => {
                ops.push(PatchOp::Copy { src: from.clone(), block_index: *block_index, len: *len });
                proof {
                    assert(has_source(refs, bytes));
                    assert(file_frames(refs, data@, bs, level, k + 1) =~= file_frames(
                        refs,
                        data@,
                        bs,
                        level,
                        k as int,
                    ));
                }
            },
            PatchOp::Add { .. } => {
                proof {
                    lemma_block_start(data@.len() as int, bs, k as int);
                }
                let dlen = data.len();
                assert(k * bs < dlen);
                let start = k * block_size;
                let end = if data.len() - start > block_size {
                    start + block_size
                } else {
                    data.len()
                };
                let chunk = vstd::slice::slice_subrange(data.as_slice(), start, end);
                assert(chunk@ == bytes);
                let ghost before = patch.data@;
                proof {
                    assert(!has_source(refs, bytes));
                    assert(file_frames(refs, data@, bs, level, k + 1) == file_frames(
                        refs,
                        data@,
                        bs,
                        level,
                        k as int,
                    ) + frame_of(bytes, level));
                    lemma_file_frames_grow(refs, data@, bs, level, k + 1, nb);
                }
                let op = match add_block(patch, chunk, level) {
                    Ok(op) => op,
                    Err(e) => {
                        return Err(e);
                    },
                };
                proof {
                    let more = frame_of(bytes, level);
                    assert(patch.data@ =~= old(patch).data@ + file_frames(
                        refs,
                        data@,
                        bs,
                        level,
                        k + 1,
                    ));
                    lemma_ops_extend(refs, data@, bs, level, ops@, k as int, base, before, more);
                }
                ops.push(op);
            },
        }
        k = k + 1;
    }
    Ok(ops)
}

fn copy_text(s: &Option<String>) -> (r: Option<String>)
    ensures
        r == *s,
{
    match s {
        Some(t) => Some(t.clone()),
        None => None,
    }
}

/// `p` is the patch built from `src` to `dst` and `dst_dirs`: one entry per
/// destination file, then one per directory, and a data section holding the
/// framed blobs of the added blocks, back to back in entry and block order.
pub open spec fn made_patch(
    src: Seq<TreeFile>,
    dst: Seq<TreeFile>,
    dst_dirs: Seq<Seq<char>>,
    bs: int,
    level: i32,
    record: bool,
    p: Patch,
) -> bool {
    let refs = tree_refs(src, bs);
    &&& p.manifest.version == FORMAT_VERSION
    &&& p.manifest.entries@.len() == dst.len() + dst_dirs.len()
    &&& p.data@ == tree_frames(refs, dst, bs, level, dst.len() as int)
    &&& forall|i: int|
        #![trigger p.manifest.entries@[i]]
        0 <= i < dst.len() ==> made_file_entry(
            p.manifest.entries@[i],
            dst[i],
            refs,
            bs,
            level,
            p.data@,
            tree_frames(refs, dst, bs, level, i).len() as int,
            record,
        )
    &&& forall|j: int|
        #![trigger dst_dirs[j]]
        0 <= j < dst_dirs.len() ==> planned_dir_entry(p.manifest.entries@[dst.len() + j], dst_dirs[j])
}

/// Builds the patch that turns tree `src` into tree `dst` (files and
/// directories), with `Add` payloads compressed at `opts.zstd_level` (stored raw
/// when it is negative). File entries carry whole-file digests when
/// `opts.verify_checksums` is set. Fails, with a format error, exactly when the
/// data section would outgrow memory.
pub fn build_patch(
    src: &Vec<TreeFile>,
    dst: &Vec<TreeFile>,
    dst_dirs: &Vec<String>,
    opts: &MakePatchOptions,
) -> (r: Result<Patch, PatchError>)
    requires
        opts.block_size > 0,
        ascending_files(src@),
        ascending_files(dst@),
        ascending_paths(dst_dirs@.map_values(|d: String| d@)),
    ensures
        r is Err ==> r->Err_0 is Format && tree_frames(
            tree_refs(src@, opts.block_size as int),
            dst@,
            opts.block_size as int,
            opts.zstd_level,
            dst@.len() as int,
        ).len() > usize::MAX,
        tree_frames(
            tree_refs(src@, opts.block_size as int),
            dst@,
            opts.block_size as int,
            opts.zstd_level,
            dst@.len() as int,
        ).len() <= usize::MAX ==> r is Ok,
        r is Ok ==> made_patch(
            src@,
            dst@,
            dst_dirs@.map_values(|s: String| s@),
            opts.block_size as int,
            opts.zstd_level,
            opts.verify_checksums,
            r->Ok_0,
        ),
{
    let ghost bs = opts.block_size as int;
    let ghost refs = tree_refs(src@, bs);
    let level = opts.zstd_level;
    let block_size = opts.block_size;
    let planned = generate_manifest(src, dst, dst_dirs, block_size);
    let mut patch = Patch::new();
    let mut entries: Vec<ManifestEntry> = Vec::new();
    let mut i: usize = 0;
    while i < dst.len()
        invariant
            bs == opts.block_size as int,
            bs == block_size as int,
            bs > 0,
            level == opts.zstd_level,
            refs == tree_refs(src@, bs),
            i <= dst@.len(),
            planned.entries@.len() == dst@.len() + dst_dirs@.len(),
            forall|x: int|
                #![trigger planned.entries@[x]]
                0 <= x < dst@.len() ==> planned_file_entry(planned.entries@[x], dst@[x], refs, bs),
            forall|y: int|
                #![trigger dst_dirs@[y]]
                0 <= y < dst_dirs@.len() ==> planned_dir_entry(
                    planned.entries@[dst@.len() + y],
                    dst_dirs@[y]@,
                ),
            entries@.len() == i,
            patch.data@ == tree_frames(refs, dst@, bs, level, i as int),
            forall|x: int|
                #![trigger entries@[x]]
                0 <= x < i ==> made_file_entry(
                    entries@[x],
                    dst@[x],
                    refs,
                    bs,
                    level,
                    patch.data@,
                    tree_frames(refs, dst@, bs, level, x).len() as int,
                    opts.verify_checksums,
                ),
        decreases dst@.len() - i,
    {
        let pe = &planned.entries[i];
        let data = &dst[i].data;
        let ghost before = patch.data@;
        let ghost nb = num_blocks(data@.len() as int, bs) as int;
        assert(planned_file_entry(planned.entries@[i as int], dst@[i as int], refs, bs));
        let ops = match file_ops(&mut patch, pe, &dst[i], block_size, level, Ghost(refs)) {
            Ok(o) => o,
            Err(e) => {
                proof {
                    assert(tree_frames(refs, dst@, bs, level, i + 1) == tree_frames(
                        refs,
                        dst@,
                        bs,
                        level,
                        i as int,
                    ) + file_frames(refs, data@, bs, level, nb));
                    lemma_tree_frames_grow(refs, dst@, bs, level, i + 1, dst@.len() as int);
                }
                return Err(e);
            },
        };
        proof {
            lemma_entries_extend(
                entries@,
                dst@,
                refs,
                bs,
                level,
                i as int,
                before,
                file_frames(refs, data@, bs, level, nb),
                opts.verify_checksums,
            );
        }
        entries.push(
            ManifestEntry {
                path: pe.path.clone(),
                entry_type: pe.entry_type,
                mode: pe.mode,
                mtime: pe.mtime,
                sha256: if opts.verify_checksums {
                    copy_text(&pe.sha256)
                } else {
                    None
                },
                ops,
            },
        );
        proof {
            assert(tree_frames(refs, dst@, bs, level, i + 1) == tree_frames(
                refs,
                dst@,
                bs,
                level,
                i as int,
            ) + file_frames(refs, data@, bs, level, nb));
        }
        i = i + 1;
    }
    let total = planned.entries.len();
    let mut j: usize = 0;
    while j < dst_dirs.len()
        invariant
            total == planned.entries@.len(),
            bs == block_size as int,
            level == opts.zstd_level,
            refs == tree_refs(src@, bs),
            j <= dst_dirs@.len(),
            planned.entries@.len() == dst@.len() + dst_dirs@.len(),
            forall|y: int|
                #![trigger dst_dirs@[y]]
                0 <= y < dst_dirs@.len() ==> planned_dir_entry(
                    planned.entries@[dst@.len() + y],
                    dst_dirs@[y]@,
                ),
            entries@.len() == dst@.len() + j,
            patch.data@ == tree_frames(refs, dst@, bs, level, dst@.len() as int),
            forall|x: int|
                #![trigger entries@[x]]
                0 <= x < dst@.len() ==> made_file_entry(
                    entries@[x],
                    dst@[x],
                    refs,
                    bs,
                    level,
                    patch.data@,
                    tree_frames(refs, dst@, bs, level, x).len() as int,
                    opts.verify_checksums,
                ),
            forall|y: int|
                #![trigger dst_dirs@[y]]
                0 <= y < j ==> planned_dir_entry(entries@[dst@.len() + y], dst_dirs@[y]@),
        decreases dst_dirs@.len() - j,
    {
        let pe = &planned.entries[dst.len() + j];
        assert(planned_dir_entry(*pe, dst_dirs@[j as int]@));
        let entry = ManifestEntry {
            path: pe.path.clone(),
            entry_type: pe.entry_type,
            mode: pe.mode,
            mtime: pe.mtime,
            sha256: None,
            ops: Vec::new(),
        };
        entries.push(entry);
        proof {
            assert(entries@[dst@.len() + j] == entry);
        }
        j = j + 1;
    }
    patch.manifest = Manifest { version: FORMAT_VERSION, entries };
    proof {
        let dirs = dst_dirs@.map_values(|s: String| s@);
        assert forall|y: int| #![trigger dirs[y]] 0 <= y < dirs.len() implies planned_dir_entry(
            patch.manifest.entries@[dst@.len() + y],
            dirs[y],
        ) by {
            assert(dirs[y] == dst_dirs@[y]@);
        }
    }
    Ok(patch)
}

} // verus!
