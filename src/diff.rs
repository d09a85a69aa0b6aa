//! Block hashing, the block index of a source tree, and manifest construction.
use crate::types::{BlockHash, EntryKind, Manifest, ManifestEntry, PatchOp, FORMAT_VERSION};
use crate::verify::{sha256_hex, sha256_hex_of};
use vstd::prelude::*;

verus! {

/// Permissions recorded for rebuilt files.
pub const FILE_MODE: u32 = 0o644;

/// Permissions recorded for rebuilt directories.
pub const DIR_MODE: u32 = 0o755;

/// A regular file of a tree: its path relative to the root and its bytes.
#[derive(Debug, Clone)]
pub struct TreeFile {
    pub path: String,
    pub data: Vec<u8>,
}

/// `a` comes strictly before `b` in lexicographic order of their characters,
/// the order of `String`'s `Ord` (byte order of UTF-8 is code point order).
pub open spec fn path_less(a: Seq<char>, b: Seq<char>) -> bool {
    exists|i: int|
        0 <= i <= a.len() && i <= b.len() && #[trigger] a.subrange(0, i) == b.subrange(0, i) && (
        (i < a.len() && i < b.len() && a[i] < b[i]) || (i == a.len() && i < b.len()))
}

/// The paths of `files` are strictly ascending.
pub open spec fn ascending_files(files: Seq<TreeFile>) -> bool {
    forall|i: int, j: int|
        0 <= i < j < files.len() ==> path_less(
            (#[trigger] files[i]).path@,
            (#[trigger] files[j]).path@,
        )
}

/// The paths `paths` are strictly ascending.
pub open spec fn ascending_paths(paths: Seq<Seq<char>>) -> bool {
    forall|i: int, j: int|
        0 <= i < j < paths.len() ==> path_less(#[trigger] paths[i], #[trigger] paths[j])
}

/// Block `a` comes before block `b` in (path, block index) order.
pub open spec fn block_before(a: BlockHash, b: BlockHash) -> bool {
    path_less(a.file_path@, b.file_path@) || (a.file_path@ == b.file_path@ && a.block_index
        < b.block_index)
}

/// No path comes before itself.
pub proof fn lemma_path_less_irreflexive(a: Seq<char>)
    ensures
        !path_less(a, a),
{
}

/// Number of blocks of size `bs` that cover `len` bytes.
pub open spec fn num_blocks(len: int, bs: int) -> nat
    decreases len,
{
    if len <= 0 || bs <= 0 {
        0
    } else if len <= bs {
        1
    } else {
        1 + num_blocks(len - bs, bs)
    }
}

/// The bytes of block `k`: `bs` bytes from `k * bs`, fewer at the end of `data`.
pub open spec fn block_bytes(data: Seq<u8>, bs: int, k: int) -> Seq<u8> {
    let start = k * bs;
    let end = if start + bs < data.len() {
        start + bs
    } else {
        data.len() as int
    };
    data.subrange(start, end)
}

/// Provenance of a block: file path, block index and bytes.
pub type BlockRef = (Seq<char>, int, Seq<u8>);

/// The blocks of one file, in order.
pub open spec fn file_refs(path: Seq<char>, data: Seq<u8>, bs: int) -> Seq<BlockRef> {
    Seq::new(num_blocks(data.len() as int, bs), |k: int| (path, k, block_bytes(data, bs, k)))
}

/// The blocks of a tree's files, file by file in the given order.
pub open spec fn tree_refs(files: Seq<TreeFile>, bs: int) -> Seq<BlockRef>
    decreases files.len(),
{
    if files.len() == 0 {
        Seq::empty()
    } else {
        tree_refs(files.drop_last(), bs) + file_refs(
            files.last().path@,
            files.last().data@,
            bs,
        )
    }
}

/// `hashes` records, entry for entry, the digest and provenance of `refs`.
pub open spec fn describes(hashes: Seq<BlockHash>, refs: Seq<BlockRef>) -> bool {
    &&& hashes.len() == refs.len()
    &&& forall|i: int|
        #![trigger hashes[i]]
        0 <= i < hashes.len() ==> {
            &&& hashes[i].sha256@ == sha256_hex_of(refs[i].2)
            &&& hashes[i].file_path@ == refs[i].0
            &&& hashes[i].block_index == refs[i].1
            &&& hashes[i].len == refs[i].2.len()
        }
}

/// `i` is the first block of `refs` whose digest is `d`.
pub open spec fn is_first_match(refs: Seq<BlockRef>, d: Seq<char>, i: int) -> bool {
    &&& 0 <= i < refs.len()
    &&& sha256_hex_of(refs[i].2) == d
    &&& forall|j: int| 0 <= j < i ==> sha256_hex_of(#[trigger] refs[j].2) != d
}

/// The operation planned for a destination block with bytes `bytes`: a copy of
/// the first source block with the same digest, else a pending add.
pub open spec fn planned_op(refs: Seq<BlockRef>, bytes: Seq<u8>, op: PatchOp) -> bool {
    let d = sha256_hex_of(bytes);
    if exists|i: int| is_first_match(refs, d, i) {
        let i = choose|i: int| is_first_match(refs, d, i);
        match op {
            PatchOp::Copy { src, block_index, len } => src@ == refs[i].0 && block_index
                == refs[i].1 && len == refs[i].2.len(),
            _ => false,
        }
    } else {
        match op {
            PatchOp::Add { data_offset, data_length, compressed, compression, zstd_level } => {
                &&& data_offset == 0
                &&& data_length == bytes.len()
                &&& !compressed
                &&& compression is None
                &&& zstd_level is None
            },
            _ => false,
        }
    }
}

/// `e` is the planned entry for destination file `f` against source blocks `refs`.
pub open spec fn planned_file_entry(
    e: ManifestEntry,
    f: TreeFile,
    refs: Seq<BlockRef>,
    bs: int,
) -> bool {
    &&& e.path@ == f.path@
    &&& e.entry_type == EntryKind::File
    &&& e.mode == FILE_MODE
    &&& e.mtime == 0
    &&& e.sha256 is Some && e.sha256->Some_0@ == sha256_hex_of(f.data@)
    &&& e.ops@.len() == num_blocks(f.data@.len() as int, bs)
    &&& forall|k: int|
        #![trigger e.ops@[k]]
        0 <= k < e.ops@.len() ==> planned_op(refs, block_bytes(f.data@, bs, k), e.ops@[k])
}

/// `e` is the entry of directory `path`.
pub open spec fn planned_dir_entry(e: ManifestEntry, path: Seq<char>) -> bool {
    &&& e.path@ == path
    &&& e.entry_type == EntryKind::Dir
    &&& e.mode == DIR_MODE
    &&& e.mtime == 0
    &&& e.sha256 is None
    &&& e.ops@.len() == 0
}

/// Hashes the blocks of one file, recording them under `file_path`.
pub fn hash_file_blocks(file_path: &String, data: &[u8], block_size: usize) -> (r: Vec<
    BlockHash,
>)
    requires
        block_size > 0,
    ensures
        describes(r@, file_refs(file_path@, data@, block_size as int)),
{
    let ghost bs = block_size as int;
    let ghost len = data@.len() as int;
    let mut blocks: Vec<BlockHash> = Vec::new();
    let mut pos: usize = 0;
    let mut k: usize = 0;
    while pos < data.len()
        invariant
            bs == block_size as int,
            len == data@.len(),
            bs > 0,
            pos <= len,
            k <= pos,
            pos < len ==> pos == k * bs,
            blocks@.len() == k,
            k + num_blocks(len - pos, bs) == num_blocks(len, bs),
            forall|j: int|
                #![trigger blocks@[j]]
                0 <= j < k ==> {
                    &&& j < num_blocks(len, bs)
                    &&& blocks@[j].sha256@ == sha256_hex_of(block_bytes(data@, bs, j))
                    &&& blocks@[j].file_path@ == file_path@
                    &&& blocks@[j].block_index == j
                    &&& blocks@[j].len == block_bytes(data@, bs, j).len()
                },
        decreases len - pos,
    {
        let end: usize = if data.len() - pos > block_size {
            pos + block_size
        } else {
            data.len()
        };
        assert(num_blocks(len - pos, bs) == 1 + num_blocks(len - end, bs));
        let chunk = vstd::slice::slice_subrange(data, pos, end);
        assert(chunk@ == block_bytes(data@, bs, k as int));
        let digest = sha256_hex(chunk);
        blocks.push(
            BlockHash {
                sha256: digest,
                file_path: file_path.clone(),
                block_index: k as u64,
                len: end - pos,
            },
        );
        assert((k + 1) * bs == k * bs + bs) by (nonlinear_arith);
        pos = end;
        k = k + 1;
    }
    proof {
        let refs = file_refs(file_path@, data@, bs);
        assert forall|i: int| #![trigger blocks@[i]] 0 <= i < blocks@.len() implies {
            &&& blocks@[i].sha256@ == sha256_hex_of(refs[i].2)
            &&& blocks@[i].file_path@ == refs[i].0
            &&& blocks@[i].block_index == refs[i].1
            &&& blocks@[i].len == refs[i].2.len()
        } by {}
    }
    blocks
}

/// Hashes every block of a tree, file by file in the given order.
pub fn scan_tree(files: &Vec<TreeFile>, block_size: usize) -> (r: Vec<BlockHash>)
    requires
        block_size > 0,
        ascending_files(files@),
    ensures
        describes(r@, tree_refs(files@, block_size as int)),
        forall|a: int, b: int| 0 <= a < b < r@.len() ==> block_before(#[trigger] r@[a], #[trigger] r@[b]),
{
    let ghost bs = block_size as int;
    let mut out: Vec<BlockHash> = Vec::new();
    let mut i: usize = 0;
    while i < files.len()
        invariant
            bs == block_size as int,
            bs > 0,
            i <= files@.len(),
            describes(out@, tree_refs(files@.take(i as int), bs)),
        decreases files@.len() - i,
    {
        let mut blocks = hash_file_blocks(&files[i].path, files[i].data.as_slice(), block_size);
        let ghost prev = out@;
        let ghost added = blocks@;
        out.append(&mut blocks);
        proof {
            assert(files@.take(i + 1).drop_last() =~= files@.take(i as int));
            let refs = tree_refs(files@.take(i + 1), bs);
            assert(refs =~= tree_refs(files@.take(i as int), bs) + file_refs(files@[i as int].path@, files@[i as int].data@, bs));
            assert forall|x: int| #![trigger out@[x]] 0 <= x < out@.len() implies {
                &&& out@[x].sha256@ == sha256_hex_of(refs[x].2)
                &&& out@[x].file_path@ == refs[x].0
                &&& out@[x].block_index == refs[x].1
                &&& out@[x].len == refs[x].2.len()
            } by {
                if x < prev.len() {
                    assert(out@[x] == prev[x]);
                } else {
                    assert(out@[x] == added[x - prev.len()]);
                }
            }
        }
        i = i + 1;
    }
    proof {
        assert(files@.take(i as int) =~= files@);
        assert forall|a: int, b: int| 0 <= a < b < out@.len() implies block_before(
            #[trigger] out@[a],
            #[trigger] out@[b],
        ) by {
            lemma_refs_ordered(files@, bs, a, b);
        }
    }
    out
}

/// Position of the first indexed block whose digest is `digest`.
pub fn find_first_block(index: &Vec<BlockHash>, digest: &String) -> (r: Option<usize>)
    ensures
        match r {
            Some(i) => i < index@.len() && index@[i as int].sha256@ == digest@ && forall|j: int|
                0 <= j < i ==> (#[trigger] index@[j]).sha256@ != digest@,
            None => forall|j: int| 0 <= j < index@.len() ==> (#[trigger] index@[j]).sha256@ != digest@,
        },
{
    let mut i: usize = 0;
    while i < index.len()
        invariant
            i <= index@.len(),
            forall|j: int| 0 <= j < i ==> (#[trigger] index@[j]).sha256@ != digest@,
        decreases index@.len() - i,
    {
        if index[i].sha256 == *digest {
            return Some(i);
        }
        i = i + 1;
    }
    None
}

/// The operation for one destination block, looked up in the source index.
fn plan_block(index: &Vec<BlockHash>, block: &BlockHash, Ghost(refs): Ghost<Seq<BlockRef>>, Ghost(bytes): Ghost<Seq<u8>>) -> (r: PatchOp)
    requires
        describes(index@, refs),
        block.sha256@ == sha256_hex_of(bytes),
        block.len == bytes.len(),
    ensures
        planned_op(refs, bytes, r),
{
    let ghost d = sha256_hex_of(bytes);
    match find_first_block(index, &block.sha256) {
        Some(i) => {
            proof {
                assert(is_first_match(refs, d, i as int)) by {
                    assert forall|j: int| 0 <= j < i implies sha256_hex_of(#[trigger] refs[j].2) != d by {
                        assert(index@[j].sha256@ != d);
                    }
                    assert(index@[i as int].sha256@ == d);
                }
                let c = choose|c: int| is_first_match(refs, d, c);
                if c < i {
                    assert(index@[c].sha256@ == d);
                } else if i < c {
                    assert(index@[i as int].sha256@ == d);
                }
            }
            PatchOp::Copy {
                src: index[i].file_path.clone(),
                block_index: index[i].block_index,
                len: index[i].len,
            }
        },
        None => {
            proof {
                assert forall|c: int| !is_first_match(refs, d, c) by {
                    if 0 <= c < refs.len() {
                        assert(index@[c].sha256@ != d);
                    }
                }
            }
            PatchOp::Add {
                data_offset: 0,
                data_length: block.len as u64,
                compressed: false,
                compression: None,
                zstd_level: None,
            }
        },
    }
}

/// Builds the manifest that rebuilds `dst` (and its directories `dst_dirs`) from
/// the blocks of `src`: one file entry per destination file, then one entry per
/// directory, in the given orders.
pub fn generate_manifest(
    src: &Vec<TreeFile>,
    dst: &Vec<TreeFile>,
    dst_dirs: &Vec<String>,
    block_size: usize,
) -> (r: Manifest)
    requires
        block_size > 0,
        ascending_files(src@),
        ascending_files(dst@),
        ascending_paths(dst_dirs@.map_values(|d: String| d@)),
    ensures
        r.version == FORMAT_VERSION,
        forall|a: int, b: int|
            0 <= a < b < dst@.len() ==> path_less(
                (#[trigger] r.entries@[a]).path@,
                (#[trigger] r.entries@[b]).path@,
            ),
        forall|a: int, b: int|
            dst@.len() <= a < b < r.entries@.len() ==> path_less(
                (#[trigger] r.entries@[a]).path@,
                (#[trigger] r.entries@[b]).path@,
            ),
        r.entries@.len() == dst@.len() + dst_dirs@.len(),
        forall|i: int|
            #![trigger r.entries@[i]]
            0 <= i < dst@.len() ==> planned_file_entry(
                r.entries@[i],
                dst@[i],
                tree_refs(src@, block_size as int),
                block_size as int,
            ),
        forall|j: int|
            #![trigger dst_dirs@[j]]
            0 <= j < dst_dirs@.len() ==> planned_dir_entry(
                r.entries@[dst@.len() + j],
                dst_dirs@[j]@,
            ),
{
    let ghost bs = block_size as int;
    let ghost refs = tree_refs(src@, bs);
    let index = scan_tree(src, block_size);
    let mut manifest = Manifest::new();
    let mut i: usize = 0;
    while i < dst.len()
        invariant
            bs == block_size as int,
            bs > 0,
            refs == tree_refs(src@, bs),
            describes(index@, refs),
            i <= dst@.len(),
            manifest.version == FORMAT_VERSION,
            manifest.entries@.len() == i,
            forall|x: int|
                #![trigger manifest.entries@[x]]
                0 <= x < i ==> planned_file_entry(manifest.entries@[x], dst@[x], refs, bs),
        decreases dst@.len() - i,
    {
        let file = &dst[i];
        let blocks = hash_file_blocks(&file.path, file.data.as_slice(), block_size);
        let ghost frefs = file_refs(file.path@, file.data@, bs);
        let mut ops: Vec<PatchOp> = Vec::new();
        let mut k: usize = 0;
        while k < blocks.len()
            invariant
                describes(index@, refs),
                describes(blocks@, frefs),
                frefs == file_refs(file.path@, file.data@, bs),
                k <= blocks@.len(),
                ops@.len() == k,
                forall|y: int|
                    #![trigger ops@[y]]
                    0 <= y < k ==> planned_op(refs, block_bytes(file.data@, bs, y), ops@[y]),
            decreases blocks@.len() - k,
        {
            let op = plan_block(&index, &blocks[k], Ghost(refs), Ghost(frefs[k as int].2));
            ops.push(op);
            k = k + 1;
        }
        let entry = ManifestEntry {
            path: file.path.clone(),
            entry_type: EntryKind::File,
            mode: FILE_MODE,
            mtime: 0,
            sha256: Some(sha256_hex(file.data.as_slice())),
            ops,
        };
        manifest.entries.push(entry);
        i = i + 1;
    }
    let mut j: usize = 0;
    while j < dst_dirs.len()
        invariant
            bs == block_size as int,
            refs == tree_refs(src@, bs),
            j <= dst_dirs@.len(),
            manifest.version == FORMAT_VERSION,
            manifest.entries@.len() == dst@.len() + j,
            forall|x: int|
                #![trigger manifest.entries@[x]]
                0 <= x < dst@.len() ==> planned_file_entry(manifest.entries@[x], dst@[x], refs, bs),
            forall|y: int|
                #![trigger dst_dirs@[y]]
                0 <= y < j ==> planned_dir_entry(manifest.entries@[dst@.len() + y], dst_dirs@[y]@),
        decreases dst_dirs@.len() - j,
    {
        let entry = ManifestEntry {
            path: dst_dirs[j].clone(),
            entry_type: EntryKind::Dir,
            mode: DIR_MODE,
            mtime: 0,
            sha256: None,
            ops: Vec::new(),
        };
        manifest.entries.push(entry);
        proof {
            assert(manifest.entries@[dst@.len() + j] == entry);
        }
        j = j + 1;
    }
    proof {
        let dirs = dst_dirs@.map_values(|d: String| d@);
        assert forall|a: int, b: int| 0 <= a < b < dst@.len() implies path_less(
            (#[trigger] manifest.entries@[a]).path@,
            (#[trigger] manifest.entries@[b]).path@,
        ) by {
            assert(path_less(dst@[a].path@, dst@[b].path@));
        }
        assert forall|a: int, b: int| dst@.len() <= a < b < manifest.entries@.len() implies path_less(
            (#[trigger] manifest.entries@[a]).path@,
            (#[trigger] manifest.entries@[b]).path@,
        ) by {
            let x = a - dst@.len();
            let y = b - dst@.len();
            assert(planned_dir_entry(manifest.entries@[dst@.len() + x], dst_dirs@[x]@));
            assert(planned_dir_entry(manifest.entries@[dst@.len() + y], dst_dirs@[y]@));
            assert(path_less(dirs[x], dirs[y]));
        }
    }
    manifest
}

/// Every block of a file starts inside it.
pub proof fn lemma_block_start(len: int, bs: int, k: int)
    requires
        bs > 0,
        0 <= k < num_blocks(len, bs),
    ensures
        k * bs < len,
        0 <= k * bs,
    decreases k,
{
    if k > 0 {
        lemma_block_start(len - bs, bs, k - 1);
        assert((k - 1) * bs + bs == k * bs) by (nonlinear_arith);
    } else {
        assert(0 * bs == 0) by (nonlinear_arith);
    }
}

/// The blocks of a file cover it.
pub proof fn lemma_blocks_cover(len: int, bs: int)
    requires
        bs > 0,
        len >= 0,
    ensures
        num_blocks(len, bs) * bs >= len,
    decreases len,
{
    if len > bs {
        lemma_blocks_cover(len - bs, bs);
        let n = num_blocks(len - bs, bs) as int;
        assert((n + 1) * bs == n * bs + bs) by (nonlinear_arith);
    } else if len > 0 {
        assert(1 * bs == bs) by (nonlinear_arith);
    }
}

/// Block boundaries: an empty file has no blocks; a file no longer than one
/// block has exactly one block, holding all of it; a file whose size is a
/// multiple of the block size has no short trailing block.
pub proof fn lemma_block_boundaries(data: Seq<u8>, bs: int)
    requires
        bs > 0,
    ensures
        data.len() == 0 ==> num_blocks(0, bs) == 0,
        0 < data.len() <= bs ==> num_blocks(data.len() as int, bs) == 1 && block_bytes(data, bs, 0)
            == data,
        (data.len() as int) % bs == 0 ==> forall|k: int|
            0 <= k < num_blocks(data.len() as int, bs) ==> (#[trigger] block_bytes(data, bs, k)).len()
                == bs,
{
    let len = data.len() as int;
    if 0 < len <= bs {
        assert(0 * bs == 0) by (nonlinear_arith);
        assert(block_bytes(data, bs, 0) =~= data);
    }
    if len % bs == 0 {
        assert forall|k: int| 0 <= k < num_blocks(len, bs) implies (#[trigger] block_bytes(
            data,
            bs,
            k,
        )).len() == bs by {
            lemma_block_start(len, bs, k);
            let m = len / bs;
            vstd::arithmetic::div_mod::lemma_fundamental_div_mod(len, bs);
            assert(k * bs + bs <= len) by (nonlinear_arith)
                requires
                    k * bs < len,
                    len == bs * m,
                    bs > 0,
                    k >= 0,
            ;
        }
    }
}

/// Hashing the same bytes twice gives the same digests, block for block,
/// whatever path the blocks are recorded under.
pub proof fn lemma_digest_stability(
    hashes_a: Seq<BlockHash>,
    hashes_b: Seq<BlockHash>,
    path_a: Seq<char>,
    path_b: Seq<char>,
    data: Seq<u8>,
    bs: int,
)
    requires
        describes(hashes_a, file_refs(path_a, data, bs)),
        describes(hashes_b, file_refs(path_b, data, bs)),
    ensures
        hashes_a.len() == hashes_b.len(),
        forall|k: int| 0 <= k < hashes_a.len() ==> (#[trigger] hashes_a[k]).sha256@ == hashes_b[k].sha256@,
{
    assert forall|k: int| 0 <= k < hashes_a.len() implies (#[trigger] hashes_a[k]).sha256@ == hashes_b[k].sha256@ by {
        assert(hashes_b[k].sha256@ == sha256_hex_of(file_refs(path_b, data, bs)[k].2));
    }
}

/// Each recorded block of a tree is block `k` of some file `j` of the tree.
pub proof fn lemma_tree_refs_member(files: Seq<TreeFile>, bs: int, c: int) -> (r: (int, int))
    requires
        bs > 0,
        0 <= c < tree_refs(files, bs).len(),
    ensures
        0 <= r.0 < files.len(),
        0 <= r.1 < num_blocks(files[r.0].data@.len() as int, bs),
        tree_refs(files, bs)[c] == (files[r.0].path@, r.1, block_bytes(files[r.0].data@, bs, r.1)),
    decreases files.len(),
{
    let init = files.drop_last();
    let prev = tree_refs(init, bs);
    if c < prev.len() {
        let (j, k) = lemma_tree_refs_member(init, bs, c);
        assert(init[j] == files[j]);
        (j, k)
    } else {
        (files.len() - 1, c - prev.len())
    }
}

/// Of two positions in the blocks of a tree, the earlier one lies in an
/// earlier file, or earlier in the same file.
pub proof fn lemma_tree_refs_pair(files: Seq<TreeFile>, bs: int, c: int, d: int) -> (r: (
    int,
    int,
    int,
    int,
))
    requires
        bs > 0,
        0 <= c < d < tree_refs(files, bs).len(),
    ensures
        0 <= r.0 < files.len(),
        0 <= r.2 < files.len(),
        tree_refs(files, bs)[c] == (files[r.0].path@, r.1, block_bytes(files[r.0].data@, bs, r.1)),
        tree_refs(files, bs)[d] == (files[r.2].path@, r.3, block_bytes(files[r.2].data@, bs, r.3)),
        r.0 < r.2 || (r.0 == r.2 && r.1 < r.3),
    decreases files.len(),
{
    let init = files.drop_last();
    let prev = tree_refs(init, bs);
    if d < prev.len() {
        let (j, k, j2, k2) = lemma_tree_refs_pair(init, bs, c, d);
        assert(init[j] == files[j]);
        assert(init[j2] == files[j2]);
        (j, k, j2, k2)
    } else if c < prev.len() {
        let (j, k) = lemma_tree_refs_member(init, bs, c);
        assert(init[j] == files[j]);
        (j, k, files.len() - 1, d - prev.len())
    } else {
        (files.len() - 1, c - prev.len(), files.len() - 1, d - prev.len())
    }
}

/// In a tree with ascending paths, recorded blocks come in (path, block index) order.
pub proof fn lemma_refs_ordered(files: Seq<TreeFile>, bs: int, c: int, d: int)
    requires
        bs > 0,
        ascending_files(files),
        0 <= c < d < tree_refs(files, bs).len(),
    ensures
        path_less(tree_refs(files, bs)[c].0, tree_refs(files, bs)[d].0) || (tree_refs(files, bs)[c].0
            == tree_refs(files, bs)[d].0 && tree_refs(files, bs)[c].1 < tree_refs(files, bs)[d].1),
{
    let (j, k, j2, k2) = lemma_tree_refs_pair(files, bs, c, d);
    if j < j2 {
        assert(path_less(files[j].path@, files[j2].path@));
    }
}

/// First match is least match: in a tree with ascending paths, the block that a
/// `Copy` refers to comes, in (path, block index) order, before every other
/// block with the same digest.
pub proof fn lemma_first_match_least(files: Seq<TreeFile>, bs: int, dg: Seq<char>, c: int, d: int)
    requires
        bs > 0,
        ascending_files(files),
        is_first_match(tree_refs(files, bs), dg, c),
        0 <= d < tree_refs(files, bs).len(),
        d != c,
        sha256_hex_of(tree_refs(files, bs)[d].2) == dg,
    ensures
        path_less(tree_refs(files, bs)[c].0, tree_refs(files, bs)[d].0) || (tree_refs(files, bs)[c].0
            == tree_refs(files, bs)[d].0 && tree_refs(files, bs)[c].1 < tree_refs(files, bs)[d].1),
{
    lemma_refs_ordered(files, bs, c, d);
}

} // verus!
