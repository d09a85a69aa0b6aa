use patchforge::apply::ApplyStep;
use patchforge::compress::{compress, decompress};
use patchforge::diff::{hash_file_blocks, scan_tree};
use patchforge::patch::{append_add_blob, compress_blob, decompress_blob, read_add_blob};
use patchforge::verify::{sha256_hex, verify_block};
use patchforge::{
    build_patch, generate_manifest, plan_apply, read_patch, write_patch, ApplyPatchOptions,
    BlobHeader, EntryKind, MakePatchOptions, Manifest, Patch, PatchError, PatchHeader, PatchOp,
    TreeFile,
};

fn file(path: &str, data: &[u8]) -> TreeFile {
    TreeFile { path: path.to_string(), data: data.to_vec() }
}

fn make_opts(block_size: usize, level: i32) -> MakePatchOptions {
    MakePatchOptions { block_size, zstd_level: level, verify_checksums: true }
}

fn apply_opts(block_size: usize) -> ApplyPatchOptions {
    ApplyPatchOptions { verify_checksums: true, atomic: true, block_size }
}

fn written(steps: &[ApplyStep]) -> Vec<(String, Vec<u8>)> {
    let mut out = Vec::new();
    for s in steps {
        if let ApplyStep::WriteFile(p, b) = s {
            out.push((p.clone(), b.clone()));
        }
    }
    out
}

#[test]
fn defaults() {
    let m = MakePatchOptions::default();
    assert_eq!(m.block_size, 4096);
    assert_eq!(m.zstd_level, 3);
    assert!(m.verify_checksums);
    let a = ApplyPatchOptions::default();
    assert!(a.verify_checksums && a.atomic);
    assert_eq!(a.block_size, 4096);
    let man = Manifest::new();
    assert_eq!(man.version, 1);
    assert!(man.entries.is_empty());
    let p = Patch::new();
    assert!(p.data.is_empty());
}

#[test]
fn patch_header_bytes() {
    let h = PatchHeader::new(0x0102);
    let b = h.to_bytes();
    let mut want = b"PATCHFG1".to_vec();
    want.extend_from_slice(&[0, 0, 0, 1]);
    want.extend_from_slice(&[0, 0, 0, 0, 0, 0, 1, 2]);
    assert_eq!(b, want);
    let (back, n) = PatchHeader::from_bytes(&b).unwrap();
    assert_eq!(n, 20);
    assert_eq!(back.version, 1);
    assert_eq!(back.manifest_len, 0x0102);
    assert_eq!(&back.magic, b"PATCHFG1");
}

#[test]
fn patch_header_rejects_short_and_bad_magic() {
    assert!(matches!(PatchHeader::from_bytes(&[0u8; 19]), Err(PatchError::Format(_))));
    let mut b = PatchHeader::new(3).to_bytes();
    b[7] = b'2';
    assert!(matches!(PatchHeader::from_bytes(&b), Err(PatchError::Format(_))));
}

#[test]
fn blob_header_bytes() {
    let h = BlobHeader { compressed: true, zstd_level: 3, payload_len: 258 };
    let b = h.to_bytes();
    assert_eq!(b, vec![1, 0, 0, 0, 3, 0, 0, 0, 0, 0, 0, 1, 2]);
    let (back, n) = BlobHeader::from_bytes(&b).unwrap();
    assert_eq!(n, 13);
    assert!(back.compressed);
    assert_eq!(back.zstd_level, 3);
    assert_eq!(back.payload_len, 258);
    assert!(matches!(BlobHeader::from_bytes(&b[..12]), Err(PatchError::Format(_))));
}

#[test]
fn container_round_trip() {
    let bytes = write_patch(b"{\"v\":1}", &[9, 8, 7]);
    assert_eq!(bytes.len(), 20 + 7 + 3);
    let (m, d) = read_patch(&bytes).unwrap();
    assert_eq!(m, b"{\"v\":1}".to_vec());
    assert_eq!(d, vec![9, 8, 7]);
}

#[test]
fn container_rejects_corrupted_magic() {
    let mut bytes = write_patch(b"{}", &[]);
    bytes[0] = b'X';
    assert!(matches!(read_patch(&bytes), Err(PatchError::Format(_))));
    let mut last = write_patch(b"{}", &[]);
    last[7] = 0;
    assert!(matches!(read_patch(&last), Err(PatchError::Format(_))));
}

#[test]
fn container_rejects_overlong_manifest_and_short_header() {
    let mut bytes = write_patch(b"{}", &[1, 2]);
    bytes[19] = 200;
    assert!(matches!(read_patch(&bytes), Err(PatchError::Format(_))));
    assert!(matches!(read_patch(&bytes[..10]), Err(PatchError::Format(_))));
}

#[test]
fn container_rejects_unknown_version() {
    let mut bytes = write_patch(b"{}", &[]);
    bytes[11] = 2;
    assert!(matches!(read_patch(&bytes), Err(PatchError::Unsupported(_))));
}

#[test]
fn blob_round_trip_raw() {
    let mut p = Patch::new();
    let off0 = append_add_blob(&mut p, b"hello", false, -1).unwrap();
    let off1 = append_add_blob(&mut p, b"world!", false, 7).unwrap();
    assert_eq!(off0, 0);
    assert_eq!(off1, 18);
    assert_eq!(p.data.len(), 18 + 13 + 6);
    assert_eq!(&p.data[0..13], &[0, 0, 0, 0, 0, 0, 0, 0, 0, 0, 0, 0, 5]);
    assert_eq!(read_add_blob(&p, off0).unwrap(), b"hello".to_vec());
    assert_eq!(read_add_blob(&p, off1).unwrap(), b"world!".to_vec());
}

#[test]
fn blob_offset_out_of_range() {
    let mut p = Patch::new();
    append_add_blob(&mut p, b"abc", false, -1).unwrap();
    assert!(matches!(read_add_blob(&p, 16), Err(PatchError::Format(_))));
    assert!(matches!(read_add_blob(&p, 1000), Err(PatchError::Format(_))));
    assert!(matches!(read_add_blob(&p, 5), Err(PatchError::Format(_))));
}

#[test]
fn blob_payload_overrun() {
    let mut p = Patch::new();
    append_add_blob(&mut p, b"abcd", false, -1).unwrap();
    p.data.truncate(15);
    assert!(matches!(read_add_blob(&p, 0), Err(PatchError::Format(_))));
}

#[test]
fn compressed_blob_round_trip() {
    let payload = vec![b'z'; 1000];
    for level in [0, 1, 3, 19] {
        let stored = compress_blob(&payload, level).unwrap();
        assert_ne!(stored, payload);
        let mut p = Patch::new();
        let off = append_add_blob(&mut p, &stored, true, level).unwrap();
        assert_eq!(p.data[0], 1);
        assert_eq!(p.data[4], level as u8);
        assert_eq!(read_add_blob(&p, off).unwrap(), payload);
        assert_eq!(decompress_blob(&stored).unwrap(), payload);
    }
}

#[test]
fn compress_negative_level_is_identity() {
    assert_eq!(compress(b"raw bytes", -1).unwrap(), b"raw bytes".to_vec());
    let c = compress(b"raw bytes raw bytes raw bytes", 3).unwrap();
    assert_ne!(c, b"raw bytes raw bytes raw bytes".to_vec());
    assert_eq!(decompress(&c).unwrap(), b"raw bytes raw bytes raw bytes".to_vec());
}

#[test]
fn decompress_rejects_garbage() {
    assert!(matches!(decompress(b"not a zstd frame"), Err(PatchError::Compression(_))));
    let mut p = Patch::new();
    append_add_blob(&mut p, b"not a zstd frame", true, 3).unwrap();
    assert!(matches!(read_add_blob(&p, 0), Err(PatchError::Compression(_))));
}

#[test]
fn sha256_known_value() {
    assert_eq!(
        sha256_hex(b"abc"),
        "ba7816bf8f01cfea414140de5dae2223b00361a396177a9cb410ff61f20015ad"
    );
    assert!(verify_block(b"abc", "ba7816bf8f01cfea414140de5dae2223b00361a396177a9cb410ff61f20015ad"));
    assert!(!verify_block(b"abd", "ba7816bf8f01cfea414140de5dae2223b00361a396177a9cb410ff61f20015ad"));
}

#[test]
fn block_boundaries() {
    let exact = hash_file_blocks(&"f".to_string(), b"AAAABBBB", 4);
    assert_eq!(exact.len(), 2);
    assert!(exact.iter().all(|b| b.len == 4));
    assert_eq!(exact[1].block_index, 1);
    assert!(hash_file_blocks(&"f".to_string(), b"", 4).is_empty());
    let small = hash_file_blocks(&"f".to_string(), b"abc", 4);
    assert_eq!(small.len(), 1);
    assert_eq!(small[0].len, 3);
    assert_eq!(small[0].sha256, sha256_hex(b"abc"));
    let tail = hash_file_blocks(&"f".to_string(), b"AAAABBBBC", 4);
    assert_eq!(tail.len(), 3);
    assert_eq!(tail[2].len, 1);
}

#[test]
fn digests_are_stable_and_distinct() {
    let a = hash_file_blocks(&"x".to_string(), b"AAAACCCC", 4);
    let b = hash_file_blocks(&"y".to_string(), b"AAAACCCC", 4);
    assert_eq!(a[0].sha256, b[0].sha256);
    assert_eq!(a[1].sha256, b[1].sha256);
    assert_ne!(a[0].sha256, a[1].sha256);
    let src = vec![file("s", b"AAAB")];
    let dst = vec![file("d", b"AAAC")];
    let m = generate_manifest(&src, &dst, &vec![], 4);
    assert!(matches!(m.entries[0].ops[0], PatchOp::Add { .. }));
}

#[test]
fn scan_order_and_first_match() {
    let files = vec![file("a", b"XXXXYYYY"), file("b", b"YYYY")];
    let idx = scan_tree(&files, 4);
    assert_eq!(idx.len(), 3);
    assert_eq!(idx[2].file_path, "b");
    let dst = vec![file("c", b"YYYY")];
    let m = generate_manifest(&files, &dst, &vec![], 4);
    match &m.entries[0].ops[0] {
        PatchOp::Copy { src, block_index, len } => {
            assert_eq!(src, "a");
            assert_eq!(*block_index, 1);
            assert_eq!(*len, 4);
        }
        _ => panic!("expected a copy"),
    }
}

#[test]
fn scenario_copy_then_add() {
    let src = vec![file("a.txt", b"AAAABBBB")];
    let dst = vec![file("a.txt", b"AAAABBBB"), file("b.txt", b"AAAACCCC")];
    let p = build_patch(&src, &dst, &vec![], &make_opts(4, -1)).unwrap();
    let b = &p.manifest.entries[1];
    assert_eq!(b.path, "b.txt");
    assert_eq!(b.ops.len(), 2);
    match &b.ops[0] {
        PatchOp::Copy { src, block_index, len } => {
            assert_eq!(src, "a.txt");
            assert_eq!(*block_index, 0);
            assert_eq!(*len, 4);
        }
        _ => panic!("expected a copy"),
    }
    match &b.ops[1] {
        PatchOp::Add { data_offset, data_length, compressed, .. } => {
            assert_eq!(*data_length, 4);
            assert!(!*compressed);
            assert_eq!(read_add_blob(&p, *data_offset).unwrap(), b"CCCC".to_vec());
        }
        _ => panic!("expected an add"),
    }
    let steps = plan_apply(&src, &p, &apply_opts(4)).unwrap();
    let out = written(&steps);
    assert_eq!(out, vec![
        ("a.txt".to_string(), b"AAAABBBB".to_vec()),
        ("b.txt".to_string(), b"AAAACCCC".to_vec()),
    ]);
}

#[test]
fn scenario_quality_flags() {
    let src = vec![file("s", b"0000")];
    let dst = vec![file("d", b"11112222333")];
    let raw = build_patch(&src, &dst, &vec![], &make_opts(4, -1)).unwrap();
    for op in &raw.manifest.entries[0].ops {
        match op {
            PatchOp::Add { compressed, compression, zstd_level, .. } => {
                assert!(!*compressed);
                assert!(compression.is_none() && zstd_level.is_none());
            }
            _ => panic!("expected an add"),
        }
    }
    for level in [0, 5, 22] {
        let p = build_patch(&src, &dst, &vec![], &make_opts(4, level)).unwrap();
        for op in &p.manifest.entries[0].ops {
            match op {
                PatchOp::Add { compressed, compression, zstd_level, .. } => {
                    assert!(*compressed);
                    assert_eq!(compression.as_deref(), Some("zstd"));
                    assert_eq!(*zstd_level, Some(level));
                }
                _ => panic!("expected an add"),
            }
        }
        let out = written(&plan_apply(&src, &p, &apply_opts(4)).unwrap());
        assert_eq!(out, vec![("d".to_string(), b"11112222333".to_vec())]);
    }
}

#[test]
fn round_trip_identity() {
    let t = vec![file("a", b"hello world, hello"), file("dir/b", b""), file("dir/c", b"xyz")];
    let dirs = vec!["dir".to_string()];
    let p = build_patch(&t, &t, &dirs, &make_opts(4, 3)).unwrap();
    assert!(p.data.is_empty());
    let steps = plan_apply(&t, &p, &apply_opts(4)).unwrap();
    assert!(matches!(&steps[3], ApplyStep::CreateDir(d) if d == "dir"));
    let out = written(&steps);
    assert_eq!(out.len(), 3);
    for (f, (p, b)) in t.iter().zip(out.iter()) {
        assert_eq!(&f.path, p);
        assert_eq!(&f.data, b);
    }
    assert!(p.manifest.entries[1].ops.is_empty());
    assert_eq!(p.manifest.entries[3].entry_type, EntryKind::Dir);
}

#[test]
fn reconstruction_no_overlap_and_full_overlap() {
    let src = vec![file("old", b"0123456789abcdef")];
    let dst = vec![file("new1", b"zzzzyyyyx"), file("new2", b"cdef89ab01234567")];
    let p = build_patch(&src, &dst, &vec![], &make_opts(4, 3)).unwrap();
    assert!(p.manifest.entries[0].ops.iter().all(|o| matches!(o, PatchOp::Add { .. })));
    assert!(p.manifest.entries[1].ops.iter().all(|o| matches!(o, PatchOp::Copy { .. })));
    let out = written(&plan_apply(&src, &p, &apply_opts(4)).unwrap());
    assert_eq!(out[0].1, b"zzzzyyyyx".to_vec());
    assert_eq!(out[1].1, b"cdef89ab01234567".to_vec());
}

#[test]
fn reads_come_from_the_snapshot() {
    let src = vec![file("a", b"AAAA"), file("b", b"BBBB")];
    let dst = vec![file("a", b"BBBB"), file("b", b"AAAA")];
    let p = build_patch(&src, &dst, &vec![], &make_opts(4, -1)).unwrap();
    let out = written(&plan_apply(&src, &p, &apply_opts(4)).unwrap());
    assert_eq!(out[0].1, b"BBBB".to_vec());
    assert_eq!(out[1].1, b"AAAA".to_vec());
}

#[test]
fn determinism() {
    let src = vec![file("a", b"AAAABBBBCCCC")];
    let dst = vec![file("a", b"AAAADDDDCCCC"), file("b", b"EEEEBBBB")];
    let first = build_patch(&src, &dst, &vec!["x".to_string()], &make_opts(4, 3)).unwrap();
    let second = build_patch(&src, &dst, &vec!["x".to_string()], &make_opts(4, 3)).unwrap();
    assert_eq!(first.data, second.data);
    assert_eq!(format!("{:?}", first.manifest), format!("{:?}", second.manifest));
}

#[test]
fn missing_copy_source_fails() {
    let src = vec![file("a", b"AAAA")];
    let dst = vec![file("b", b"AAAA")];
    let p = build_patch(&src, &dst, &vec![], &make_opts(4, -1)).unwrap();
    assert!(matches!(plan_apply(&vec![], &p, &apply_opts(4)), Err(PatchError::Io(_))));
    let short = vec![file("a", b"AA")];
    assert!(matches!(plan_apply(&short, &p, &apply_opts(4)), Err(PatchError::Io(_))));
}

#[test]
fn checksum_mismatch_is_reported() {
    let src = vec![file("a", b"AAAA")];
    let dst = vec![file("b", b"AAAA")];
    let mut p = build_patch(&src, &dst, &vec![], &make_opts(4, -1)).unwrap();
    p.manifest.entries[0].sha256 = Some(sha256_hex(b"other"));
    assert!(matches!(plan_apply(&src, &p, &apply_opts(4)), Err(PatchError::Verification(_))));
    let lax = ApplyPatchOptions { verify_checksums: false, atomic: true, block_size: 4 };
    assert!(plan_apply(&src, &p, &lax).is_ok());
}

#[test]
fn scenario_data_section_layout() {
    let src = vec![file("a.txt", b"AAAABBBB")];
    let dst = vec![file("a.txt", b"AAAABBBB"), file("b.txt", b"AAAACCCC")];
    let p = build_patch(&src, &dst, &vec![], &make_opts(4, -1)).unwrap();
    let mut want = vec![0u8; 12];
    want.push(4);
    want.extend_from_slice(b"CCCC");
    assert_eq!(p.data, want);
    assert!(p.manifest.entries[0].ops.iter().all(|o| matches!(o, PatchOp::Copy { .. })));
}

#[test]
fn digests_recorded_only_when_asked() {
    let src = vec![file("a", b"AAAA")];
    let dst = vec![file("b", b"AAAAB")];
    let with = build_patch(&src, &dst, &vec![], &make_opts(4, -1)).unwrap();
    assert_eq!(with.manifest.entries[0].sha256, Some(sha256_hex(b"AAAAB")));
    let opts = MakePatchOptions { block_size: 4, zstd_level: -1, verify_checksums: false };
    let without = build_patch(&src, &dst, &vec![], &opts).unwrap();
    assert_eq!(without.manifest.entries[0].sha256, None);
}

#[test]
fn digest_text_is_lower_hex() {
    let h = sha256_hex(b"");
    assert_eq!(h.len(), 64);
    assert!(h.chars().all(|c| c.is_ascii_digit() || ('a'..='f').contains(&c)));
    assert_eq!(h, "e3b0c44298fc1c149afbf4c8996fb92427ae41e4649b934ca495991b7852b855");
}

#[test]
fn manifest_keeps_ascending_order() {
    let src = vec![file("a", b"1111"), file("b", b"2222")];
    let dst = vec![file("a", b"2222"), file("c/d", b"1111")];
    let dirs = vec!["c".to_string(), "e".to_string()];
    let m = generate_manifest(&src, &dst, &dirs, 4);
    let paths: Vec<&str> = m.entries.iter().map(|e| e.path.as_str()).collect();
    assert_eq!(paths, vec!["a", "c/d", "c", "e"]);
    let idx = scan_tree(&src, 4);
    assert_eq!(idx[0].file_path, "a");
    assert_eq!(idx[1].file_path, "b");
}
