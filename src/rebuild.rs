//! What an apply run produces from a patch built by this library.
use crate::apply::{entry_ok, file_at, is_first_file, lemma_first_file_unique, resolve_op, resolve_ops};
use crate::diff::{
    ascending_files, lemma_path_less_irreflexive, path_less,
    block_bytes, is_first_match, lemma_block_start, lemma_blocks_cover, lemma_tree_refs_member,
    num_blocks, planned_dir_entry, tree_refs, TreeFile,
};
use crate::make::{file_frames, made_file_entry, made_op, made_patch, tree_frames};
use crate::types::{EntryKind, ManifestEntry, Patch, PatchOp};
use crate::verify::sha256_hex_of;
use vstd::prelude::*;

verus! {

/// No two files of a tree share a path.
pub open spec fn distinct_paths(files: Seq<TreeFile>) -> bool {
    forall|i: int, j: int|
        0 <= i < files.len() && 0 <= j < files.len() && i != j ==> (#[trigger] files[i]).path@
            != (#[trigger] files[j]).path@
}

/// No block of `src` shares its digest with a block of `f` unless their bytes agree.
pub open spec fn digests_separate(src: Seq<TreeFile>, f: TreeFile, bs: int) -> bool {
    let refs = tree_refs(src, bs);
    forall|c: int, k: int|
        0 <= c < refs.len() && 0 <= k < num_blocks(f.data@.len() as int, bs) && sha256_hex_of(
            #[trigger] refs[c].2,
        ) == sha256_hex_of(#[trigger] block_bytes(f.data@, bs, k)) ==> refs[c].2 == block_bytes(
            f.data@,
            bs,
            k,
        )
}

proof fn lemma_file_at_member(files: Seq<TreeFile>, j: int)
    requires
        distinct_paths(files),
        0 <= j < files.len(),
    ensures
        file_at(files, files[j].path@) == Some(files[j].data@),
{
    let p = files[j].path@;
    assert(is_first_file(files, p, j));
    let c = choose|c: int| is_first_file(files, p, c);
    lemma_first_file_unique(files, p, j, c);
}

proof fn lemma_op_resolves(
    src: Seq<TreeFile>,
    f: TreeFile,
    bs: int,
    level: i32,
    data: Seq<u8>,
    op: PatchOp,
    k: int,
    at: int,
)
    requires
        bs > 0,
        distinct_paths(src),
        digests_separate(src, f, bs),
        0 <= k < num_blocks(f.data@.len() as int, bs),
        made_op(tree_refs(src, bs), block_bytes(f.data@, bs, k), op, level, data, at),
    ensures
        resolve_op(src, data, op, bs) == Some(block_bytes(f.data@, bs, k)),
{
    let refs = tree_refs(src, bs);
    let bytes = block_bytes(f.data@, bs, k);
    let d = sha256_hex_of(bytes);
    if exists|i: int| is_first_match(refs, d, i) {
        let c = choose|i: int| is_first_match(refs, d, i);
        let (j, kk) = lemma_tree_refs_member(src, bs, c);
        lemma_file_at_member(src, j);
        lemma_block_start(src[j].data@.len() as int, bs, kk);
        assert(refs[c].2 == bytes);
        let fb = src[j].data@;
        assert(block_bytes(fb, bs, kk) =~= fb.subrange(kk * bs, kk * bs + bytes.len()));
    }
}

proof fn lemma_prefix_resolves(
    src: Seq<TreeFile>,
    f: TreeFile,
    bs: int,
    data: Seq<u8>,
    ops: Seq<PatchOp>,
    n: int,
)
    requires
        bs > 0,
        ops.len() == num_blocks(f.data@.len() as int, bs),
        forall|k: int|
            #![trigger ops[k]]
            0 <= k < ops.len() ==> resolve_op(src, data, ops[k], bs) == Some(
                block_bytes(f.data@, bs, k),
            ),
        0 <= n <= ops.len(),
    ensures
        n * bs <= f.data@.len() ==> resolve_ops(src, data, ops.take(n), bs) == Some(
            f.data@.subrange(0, n * bs),
        ),
        n * bs > f.data@.len() ==> resolve_ops(src, data, ops.take(n), bs) == Some(f.data@),
    decreases n,
{
    let len = f.data@.len() as int;
    if n == 0 {
        assert(0 * bs == 0) by (nonlinear_arith);
        assert(ops.take(0) =~= Seq::<PatchOp>::empty());
        assert(f.data@.subrange(0, 0) =~= Seq::<u8>::empty());
    } else {
        let m = n - 1;
        lemma_prefix_resolves(src, f, bs, data, ops, m);
        assert(ops.take(n).drop_last() =~= ops.take(m));
        assert(ops.take(n).last() == ops[m]);
        assert(resolve_op(src, data, ops[m], bs) == Some(block_bytes(f.data@, bs, m)));
        lemma_block_start(len, bs, m);
        assert(m * bs + bs == n * bs) by (nonlinear_arith)
            requires
                m == n - 1,
        ;
        if n * bs <= len {
            assert(f.data@.subrange(0, m * bs) + block_bytes(f.data@, bs, m) =~= f.data@.subrange(
                0,
                n * bs,
            ));
        } else {
            assert(f.data@.subrange(0, m * bs) + block_bytes(f.data@, bs, m) =~= f.data@);
        }
    }
}

/// Reconstruction: applying a patch built from `src` to `dst` to a tree that
/// holds `src` rebuilds each destination file byte for byte, provided that the source's paths are distinct and
/// that no two blocks with different bytes share a digest.
pub proof fn lemma_reconstruction(
    src: Seq<TreeFile>,
    dst: Seq<TreeFile>,
    dst_dirs: Seq<Seq<char>>,
    bs: int,
    level: i32,
    record: bool,
    p: Patch,
)
    requires
        bs > 0,
        distinct_paths(src),
        forall|i: int| 0 <= i < dst.len() ==> digests_separate(src, #[trigger] dst[i], bs),
        made_patch(src, dst, dst_dirs, bs, level, record, p),
    ensures
        forall|i: int|
            #![trigger dst[i]]
            0 <= i < dst.len() ==> p.manifest.entries@[i].entry_type == EntryKind::File
                && p.manifest.entries@[i].path@ == dst[i].path@ && resolve_ops(
                src,
                p.data@,
                p.manifest.entries@[i].ops@,
                bs,
            ) == Some(dst[i].data@),
{
    assert forall|i: int| #![trigger dst[i]] 0 <= i < dst.len() implies resolve_ops(
        src,
        p.data@,
        p.manifest.entries@[i].ops@,
        bs,
    ) == Some(dst[i].data@) by {
        let e = p.manifest.entries@[i];
        let refs = tree_refs(src, bs);
        let base = tree_frames(refs, dst, bs, level, i).len() as int;
        assert(made_file_entry(e, dst[i], refs, bs, level, p.data@, base, record));
        let n = e.ops@.len() as int;
        assert forall|k: int| #![trigger e.ops@[k]] 0 <= k < n implies resolve_op(
            src,
            p.data@,
            e.ops@[k],
            bs,
        ) == Some(block_bytes(dst[i].data@, bs, k)) by {
            lemma_op_resolves(
                src,
                dst[i],
                bs,
                level,
                p.data@,
                e.ops@[k],
                k,
                base + file_frames(refs, dst[i].data@, bs, level, k).len(),
            );
        }
        lemma_prefix_resolves(src, dst[i], bs, p.data@, e.ops@, n);
        assert(e.ops@.take(n) =~= e.ops@);
        lemma_blocks_cover(dst[i].data@.len() as int, bs);
        if n * bs == dst[i].data@.len() {
            assert(dst[i].data@.subrange(0, n * bs) =~= dst[i].data@);
        }
    }
}

/// Round trip: a patch built from a tree to itself, applied to that tree,
/// rebuilds every file of it unchanged (under the same conditions as
/// reconstruction, with the tree as both source and destination).
pub proof fn lemma_round_trip(
    t: Seq<TreeFile>,
    dirs: Seq<Seq<char>>,
    bs: int,
    level: i32,
    record: bool,
    p: Patch,
)
    requires
        bs > 0,
        distinct_paths(t),
        forall|i: int| 0 <= i < t.len() ==> digests_separate(t, #[trigger] t[i], bs),
        made_patch(t, t, dirs, bs, level, record, p),
    ensures
        forall|i: int|
            #![trigger t[i]]
            0 <= i < t.len() ==> p.manifest.entries@[i].path@ == t[i].path@ && resolve_ops(
                t,
                p.data@,
                p.manifest.entries@[i].ops@,
                bs,
            ) == Some(t[i].data@),
{
    lemma_reconstruction(t, t, dirs, bs, level, record, p);
}

/// The text of an optional string.
pub open spec fn text_of(o: Option<String>) -> Option<Seq<char>> {
    match o {
        Some(s) => Some(s@),
        None => None,
    }
}

/// Two operations agree in every field, strings compared by their text.
pub open spec fn same_op(a: PatchOp, b: PatchOp) -> bool {
    match (a, b) {
        (
            PatchOp::Copy { src: s1, block_index: i1, len: l1 },
            PatchOp::Copy { src: s2, block_index: i2, len: l2 },
        ) => s1@ == s2@ && i1 == i2 && l1 == l2,
        (
            PatchOp::Add {
                data_offset: o1,
                data_length: n1,
                compressed: c1,
                compression: z1,
                zstd_level: q1,
            },
            PatchOp::Add {
                data_offset: o2,
                data_length: n2,
                compressed: c2,
                compression: z2,
                zstd_level: q2,
            },
        ) => o1 == o2 && n1 == n2 && c1 == c2 && text_of(z1) == text_of(z2) && q1 == q2,
        _ => false,
    }
}

/// Two manifest entries agree in every field, strings compared by their text.
pub open spec fn same_entry(a: ManifestEntry, b: ManifestEntry) -> bool {
    &&& a.path@ == b.path@
    &&& a.entry_type == b.entry_type
    &&& a.mode == b.mode
    &&& a.mtime == b.mtime
    &&& text_of(a.sha256) == text_of(b.sha256)
    &&& a.ops@.len() == b.ops@.len()
    &&& forall|k: int| 0 <= k < a.ops@.len() ==> same_op(#[trigger] a.ops@[k], b.ops@[k])
}

/// Determinism: two patches built from the same trees with the same options
/// have the same data section, byte for byte, and the same manifest.
pub proof fn lemma_determinism(
    src: Seq<TreeFile>,
    dst: Seq<TreeFile>,
    dst_dirs: Seq<Seq<char>>,
    bs: int,
    level: i32,
    record: bool,
    first: Patch,
    second: Patch,
)
    requires
        made_patch(src, dst, dst_dirs, bs, level, record, first),
        made_patch(src, dst, dst_dirs, bs, level, record, second),
    ensures
        first.data@ == second.data@,
        first.manifest.version == second.manifest.version,
        first.manifest.entries@.len() == second.manifest.entries@.len(),
        forall|i: int|
            0 <= i < first.manifest.entries@.len() ==> same_entry(
                #[trigger] first.manifest.entries@[i],
                second.manifest.entries@[i],
            ),
{
    let refs = tree_refs(src, bs);
    assert forall|i: int| 0 <= i < first.manifest.entries@.len() implies same_entry(
        #[trigger] first.manifest.entries@[i],
        second.manifest.entries@[i],
    ) by {
        let e1 = first.manifest.entries@[i];
        let e2 = second.manifest.entries@[i];
        if i < dst.len() {
            let base = tree_frames(refs, dst, bs, level, i).len() as int;
            assert(made_file_entry(e1, dst[i], refs, bs, level, first.data@, base, record));
            assert(made_file_entry(e2, dst[i], refs, bs, level, second.data@, base, record));
        } else {
            let j = i - dst.len();
            assert(planned_dir_entry(first.manifest.entries@[dst.len() + j], dst_dirs[j]));
            assert(planned_dir_entry(second.manifest.entries@[dst.len() + j], dst_dirs[j]));
        }
    }
}

/// Strictly ascending paths are distinct.
pub proof fn lemma_ascending_distinct(files: Seq<TreeFile>)
    requires
        ascending_files(files),
    ensures
        distinct_paths(files),
{
    assert forall|i: int, j: int|
        0 <= i < files.len() && 0 <= j < files.len() && i != j implies (#[trigger] files[i]).path@
        != (#[trigger] files[j]).path@ by {
        lemma_path_less_irreflexive(files[i].path@);
        if i < j {
            assert(path_less(files[i].path@, files[j].path@));
        } else {
            assert(path_less(files[j].path@, files[i].path@));
        }
    }
}

proof fn lemma_file_entry_ok(
    src: Seq<TreeFile>,
    data: Seq<u8>,
    e: ManifestEntry,
    f: TreeFile,
    bs: int,
    verify: bool,
)
    requires
        e.entry_type == EntryKind::File,
        resolve_ops(src, data, e.ops@, bs) == Some(f.data@),
        f.data@.len() <= usize::MAX,
        e.sha256 is Some ==> e.sha256->Some_0@ == sha256_hex_of(f.data@),
    ensures
        entry_ok(src, data, e, bs, verify),
{
}

/// Applying succeeds: under the conditions of reconstruction, every entry of a
/// built patch passes the check of `plan_apply` on a snapshot holding `src`,
/// with or without digest verification, so `plan_apply` returns `Ok` with the
/// destination's bytes.
pub proof fn lemma_apply_succeeds(
    src: Seq<TreeFile>,
    dst: Seq<TreeFile>,
    dst_dirs: Seq<Seq<char>>,
    bs: int,
    level: i32,
    record: bool,
    verify: bool,
    p: Patch,
)
    requires
        bs > 0,
        distinct_paths(src),
        forall|i: int| 0 <= i < dst.len() ==> digests_separate(src, #[trigger] dst[i], bs),
        forall|i: int| 0 <= i < dst.len() ==> (#[trigger] dst[i]).data@.len() <= usize::MAX,
        made_patch(src, dst, dst_dirs, bs, level, record, p),
    ensures
        forall|i: int|
            0 <= i < p.manifest.entries@.len() ==> entry_ok(
                src,
                p.data@,
                #[trigger] p.manifest.entries@[i],
                bs,
                verify,
            ),
{
    lemma_reconstruction(src, dst, dst_dirs, bs, level, record, p);
    let refs = tree_refs(src, bs);
    assert forall|i: int| 0 <= i < p.manifest.entries@.len() implies entry_ok(
        src,
        p.data@,
        #[trigger] p.manifest.entries@[i],
        bs,
        verify,
    ) by {
        if i < dst.len() {
            let base = tree_frames(refs, dst, bs, level, i).len() as int;
            assert(made_file_entry(p.manifest.entries@[i], dst[i], refs, bs, level, p.data@, base, record));
            lemma_file_entry_ok(src, p.data@, p.manifest.entries@[i], dst[i], bs, verify);
        } else {
            let j = i - dst.len();
            assert(planned_dir_entry(p.manifest.entries@[dst.len() + j], dst_dirs[j]));
        }
    }
}

} // verus!
