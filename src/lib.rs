//! Directory-tree patches built from fixed-size block deduplication.
//!
//! The library holds the logic: block hashing, the block index, manifest
//! construction, the binary container and blob framing, and the planning of
//! an apply run over an in-memory snapshot of the target tree.
pub mod apply;
pub mod compress;
pub mod diff;
pub mod make;
pub mod patch;
pub mod rebuild;
pub mod types;
pub mod verify;

pub use apply::{plan_apply, ApplyStep};
pub use diff::{generate_manifest, TreeFile};
pub use make::build_patch;
pub use patch::{read_patch, write_patch};
pub use types::{
    ApplyPatchOptions, BlobHeader, BlockHash, EntryKind, FileBlock, MakePatchOptions, Manifest,
    ManifestEntry, Patch, PatchError, PatchHeader, PatchOp,
};
