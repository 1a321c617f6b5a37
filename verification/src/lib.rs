//! Finding, deleting and copying files without duplicate contents.
//!
//! The library holds the decisions: which files can have a duplicate at all,
//! how files with their content digests form duplicate groups, which copy of
//! a group is kept, and which source files a duplicate-aware copy writes and
//! where. The program around it walks directories, reads, deletes and copies
//! files, and prints.
pub mod copy;
pub mod delete;
pub mod duplicate;
pub mod hasher;
pub mod model;
pub mod order;
pub mod seqs;

pub use copy::{
    copy_stats, copy_unique, first_conflict, relative_target, sort_by_path, trees_overlap, CopyConflict, CopyError,
    CopyPlan, PlannedCopy,
};
pub use delete::{
    deletion_count, keeper_index, plan_deletions, reclaimed_bytes, select_keeper, KeepPolicy,
};
pub use duplicate::{group_duplicates, size_candidates, total_reclaimable};
pub use hasher::{hash_bytes, ContentHasher};
pub use model::{ContentHash, CopyStats, DuplicateGroup, FileInfo, HashedFile};
