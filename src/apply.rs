//! Planning an apply run: every file of the manifest is rebuilt from an
//! unchanging snapshot of the target tree, so a `Copy` never reads bytes that
//! an earlier entry of the same run has already replaced.
use crate::diff::TreeFile;
use crate::patch::{append_bytes, blob_content, read_add_blob};
use crate::types::{ApplyPatchOptions, EntryKind, ManifestEntry, Patch, PatchError, PatchOp};
use crate::verify::{sha256_hex, sha256_hex_of};
use vstd::prelude::*;

verus! {

/// One filesystem change of an apply run, in manifest order.
#[derive(Debug)]
pub enum ApplyStep {
    /// Create this directory and any missing parents.
    CreateDir(String),
    /// Publish these bytes at this path.
    WriteFile(String, Vec<u8>),
}

/// `i` is the first file of `tree` at path `p`.
pub open spec fn is_first_file(tree: Seq<TreeFile>, p: Seq<char>, i: int) -> bool {
    &&& 0 <= i < tree.len()
    &&& tree[i].path@ == p
    &&& forall|j: int| 0 <= j < i ==> (#[trigger] tree[j]).path@ != p
}

/// The bytes of the file at `p` in `tree`.
pub open spec fn file_at(tree: Seq<TreeFile>, p: Seq<char>) -> Option<Seq<u8>> {
    if exists|i: int| is_first_file(tree, p, i) {
        Some(tree[choose|i: int| is_first_file(tree, p, i)].data@)
    } else {
        None
    }
}

/// The bytes one operation stands for, where they can be had.
pub open spec fn resolve_op(tree: Seq<TreeFile>, data: Seq<u8>, op: PatchOp, bs: int) -> Option<
    Seq<u8>,
> {
    match op {
        PatchOp::Copy { src, block_index, len } => match file_at(tree, src@) {
            Some(bytes) => {
                let start = block_index * bs;
                if start + len <= bytes.len() {
                    Some(bytes.subrange(start, start + len))
                } else {
                    None
                }
            },
            None => None,
        },
        PatchOp::Add { data_offset, .. } => blob_content(data, data_offset as int),
    }
}

/// The bytes of a list of operations, concatenated in order.
pub open spec fn resolve_ops(tree: Seq<TreeFile>, data: Seq<u8>, ops: Seq<PatchOp>, bs: int) -> Option<
    Seq<u8>,
>
    decreases ops.len(),
{
    if ops.len() == 0 {
        Some(Seq::empty())
    } else {
        match (resolve_ops(tree, data, ops.drop_last(), bs), resolve_op(tree, data, ops.last(), bs)) {
            (Some(a), Some(b)) => Some(a + b),
            _ => None,
        }
    }
}

/// Whether entry `e` can be rebuilt, with its digest checked when `verify` is set.
pub open spec fn entry_ok(tree: Seq<TreeFile>, data: Seq<u8>, e: ManifestEntry, bs: int, verify: bool) -> bool {
    e.entry_type == EntryKind::File ==> {
        &&& resolve_ops(tree, data, e.ops@, bs) is Some
        &&& resolve_ops(tree, data, e.ops@, bs)->Some_0.len() <= usize::MAX
        &&& verify && e.sha256 is Some ==> sha256_hex_of(resolve_ops(tree, data, e.ops@, bs)->Some_0)
            == e.sha256->Some_0@
    }
}

/// The step that publishes entry `e`.
pub open spec fn step_for(tree: Seq<TreeFile>, data: Seq<u8>, e: ManifestEntry, bs: int, s: ApplyStep) -> bool {
    match s {
        ApplyStep::CreateDir(p) => e.entry_type == EntryKind::Dir && p@ == e.path@,
        ApplyStep::WriteFile(p, bytes) => e.entry_type == EntryKind::File && p@ == e.path@
            && resolve_ops(tree, data, e.ops@, bs) == Some(bytes@),
    }
}

/// Position of the first file of `tree` at `path`.
pub fn find_file(tree: &Vec<TreeFile>, path: &String) -> (r: Option<usize>)
    ensures
        match r {
            Some(i) => is_first_file(tree@, path@, i as int),
            None => forall|j: int| 0 <= j < tree@.len() ==> (#[trigger] tree@[j]).path@ != path@,
        },
{
    let mut i: usize = 0;
    while i < tree.len()
        invariant
            i <= tree@.len(),
            forall|j: int| 0 <= j < i ==> (#[trigger] tree@[j]).path@ != path@,
        decreases tree@.len() - i,
    {
        if tree[i].path == *path {
            return Some(i);
        }
        i = i + 1;
    }
    None
}

pub proof fn lemma_first_file_unique(tree: Seq<TreeFile>, p: Seq<char>, i: int, k: int)
    requires
        is_first_file(tree, p, i),
        is_first_file(tree, p, k),
    ensures
        i == k,
{
    if i < k {
        assert(tree[i].path@ != p);
    } else if k < i {
        assert(tree[k].path@ != p);
    }
}

/// Resolves one operation against the snapshot `tree` and the data section of `patch`.
pub fn resolve_operation(tree: &Vec<TreeFile>, patch: &Patch, op: &PatchOp, block_size: usize) -> (r:
    Result<Vec<u8>, PatchError>)
    ensures
        (r is Ok) == (resolve_op(tree@, patch.data@, *op, block_size as int) is Some),
        r is Ok ==> resolve_op(tree@, patch.data@, *op, block_size as int) == Some(r->Ok_0@),
{
    match op {
        PatchOp::Copy { src, block_index, len } => {
            let found = find_file(tree, src);
            let i = match found {
                Some(i) => i,
                None => {
                    return Err(PatchError::Io(String::from_str("copy source not found")));
                },
            };
            proof {
                assert forall|k: int| is_first_file(tree@, src@, k) implies k == i by {
                    lemma_first_file_unique(tree@, src@, i as int, k);
                }
            }
            let bytes = &tree[i].data;
            let bi = *block_index as u128;
            let bsz = block_size as u128;
            proof {
                assert(bi * bsz <= 0xffff_ffff_ffff_ffffu128 * 0xffff_ffff_ffff_ffffu128)
                    by (nonlinear_arith)
                    requires
                        bi <= 0xffff_ffff_ffff_ffffu128,
                        bsz <= 0xffff_ffff_ffff_ffffu128,
                ;
                assert(bi * bsz >= 0) by (nonlinear_arith)
                    requires bi >= 0, bsz >= 0;
            }
            let start = bi * bsz;
            let end = start + *len as u128;
            if end > bytes.len() as u128 {
                return Err(PatchError::Io(String::from_str("copy range past end of file")));
            }
            let piece = vstd::slice::slice_subrange(
                bytes.as_slice(),
                start as usize,
                end as usize,
            );
            Ok(vstd::slice::slice_to_vec(piece))
        },
        PatchOp::Add { data_offset, .. } => read_add_blob(patch, *data_offset),
    }
}

/// Rebuilds the bytes of a file entry's operation list.
pub fn reconstruct_ops(tree: &Vec<TreeFile>, patch: &Patch, ops: &Vec<PatchOp>, block_size: usize) -> (r:
    Result<Vec<u8>, PatchError>)
    ensures
        r is Ok ==> resolve_ops(tree@, patch.data@, ops@, block_size as int) == Some(r->Ok_0@),
        resolve_ops(tree@, patch.data@, ops@, block_size as int) is None ==> r is Err,
        resolve_ops(tree@, patch.data@, ops@, block_size as int) is Some && resolve_ops(
            tree@,
            patch.data@,
            ops@,
            block_size as int,
        )->Some_0.len() <= usize::MAX ==> r is Ok,
{
    let ghost bs = block_size as int;
    let mut out: Vec<u8> = Vec::new();
    let mut k: usize = 0;
    while k < ops.len()
        invariant
            bs == block_size as int,
            k <= ops@.len(),
            resolve_ops(tree@, patch.data@, ops@.take(k as int), bs) == Some(out@),
        decreases ops@.len() - k,
    {
        proof {
            assert(ops@.take(k + 1).drop_last() =~= ops@.take(k as int));
        }
        let piece = match resolve_operation(tree, patch, &ops[k], block_size) {
            Ok(p) => p,
            Err(e) => {
                proof {
                    lemma_resolve_none_extends(tree@, patch.data@, ops@, bs, k as int + 1);
                }
                return Err(e);
            },
        };
        if out.len() > usize::MAX - piece.len() {
            proof {
                lemma_resolve_len(tree@, patch.data@, ops@, bs, k as int + 1);
            }
            return Err(PatchError::Io(String::from_str("file too large")));
        }
        append_bytes(&mut out, piece.as_slice());
        k = k + 1;
    }
    proof {
        assert(ops@.take(k as int) =~= ops@);
    }
    Ok(out)
}

/// A prefix that cannot be resolved leaves the whole list unresolved.
proof fn lemma_resolve_none_extends(tree: Seq<TreeFile>, data: Seq<u8>, ops: Seq<PatchOp>, bs: int, n: int)
    requires
        0 <= n <= ops.len(),
        resolve_ops(tree, data, ops.take(n), bs) is None,
    ensures
        resolve_ops(tree, data, ops, bs) is None,
    decreases ops.len() - n,
{
    if n < ops.len() {
        assert(ops.take(n + 1).drop_last() =~= ops.take(n));
        lemma_resolve_none_extends(tree, data, ops, bs, n + 1);
    } else {
        assert(ops.take(n) =~= ops);
    }
}

/// A resolved list is at least as long as each resolved prefix.
proof fn lemma_resolve_len(tree: Seq<TreeFile>, data: Seq<u8>, ops: Seq<PatchOp>, bs: int, n: int)
    requires
        0 <= n <= ops.len(),
    ensures
        resolve_ops(tree, data, ops, bs) is Some ==> resolve_ops(tree, data, ops.take(n), bs) is Some
            && resolve_ops(tree, data, ops.take(n), bs)->Some_0.len() <= resolve_ops(
            tree,
            data,
            ops,
            bs,
        )->Some_0.len(),
    decreases ops.len() - n,
{
    if n < ops.len() {
        lemma_resolve_len(tree, data, ops, bs, n + 1);
        assert(ops.take(n + 1).drop_last() =~= ops.take(n));
    } else {
        assert(ops.take(n) =~= ops);
    }
}

/// Computes every change of an apply run from the snapshot `tree` of the target
/// tree, in manifest order. Each file's bytes are checked against the entry's
/// digest when `opts.verify_checksums` is set and the entry carries one.
pub fn plan_apply(tree: &Vec<TreeFile>, patch: &Patch, opts: &ApplyPatchOptions) -> (r: Result<
    Vec<ApplyStep>,
    PatchError,
>)
    ensures
        (r is Ok) == (forall|i: int|
            0 <= i < patch.manifest.entries@.len() ==> entry_ok(
                tree@,
                patch.data@,
                #[trigger] patch.manifest.entries@[i],
                opts.block_size as int,
                opts.verify_checksums,
            )),
        r is Ok ==> r->Ok_0@.len() == patch.manifest.entries@.len() && forall|i: int|
            0 <= i < r->Ok_0@.len() ==> step_for(
                tree@,
                patch.data@,
                patch.manifest.entries@[i],
                opts.block_size as int,
                #[trigger] r->Ok_0@[i],
            ),
{
    let ghost bs = opts.block_size as int;
    let entries = &patch.manifest.entries;
    let mut steps: Vec<ApplyStep> = Vec::new();
    let mut i: usize = 0;
    while i < entries.len()
        invariant
            bs == opts.block_size as int,
            entries == &patch.manifest.entries,
            i <= entries@.len(),
            steps@.len() == i,
            forall|x: int|
                0 <= x < i ==> entry_ok(tree@, patch.data@, #[trigger] entries@[x], bs, opts.verify_checksums),
            forall|x: int|
                0 <= x < i ==> step_for(tree@, patch.data@, entries@[x], bs, #[trigger] steps@[x]),
        decreases entries@.len() - i,
    {
        let entry = &entries[i];
        match entry.entry_type {
            EntryKind::Dir => {
                steps.push(ApplyStep::CreateDir(entry.path.clone()));
            },
            EntryKind::File => {
                let bytes = match reconstruct_ops(tree, patch, &entry.ops, opts.block_size) {
                    Ok(b) => b,
                    Err(e) => {
                        return Err(e);
                    },
                };
                let blen = bytes.len();
                assert(bytes@.len() == blen);
                if opts.verify_checksums {
                    match &entry.sha256 {
                        Some(expected) => {
                            let actual = sha256_hex(bytes.as_slice());
                            if !(actual == *expected) {
                                return Err(
                                    PatchError::Verification(String::from_str("file digest mismatch")),
                                );
                            }
                        },
                        None => {},
                    }
                }
                steps.push(ApplyStep::WriteFile(entry.path.clone(), bytes));
            },
        }
        i = i + 1;
    }
    Ok(steps)
}

} // verus!
