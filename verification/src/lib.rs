//! A lazy directory-tree walker whose traversal state is a dynamic
//! collection of independent work stacks, so that a consumer can interleave
//! progress across sibling subtrees instead of being forced into pure
//! depth-first order.
//!
//! The filesystem itself stays outside this crate: a caller pulls the next
//! directory to visit with [`IntoIter::next`], lists it by whatever means it
//! has, and hands the listing back through [`IntoIter::record`], which
//! returns the visited directory together with the byte total of its direct
//! file children.

mod dir_path;
mod entry;
mod stack;
mod walker;

pub use dir_path::{DirPath, PathModel, is_child_of};
pub use entry::{FsEntry, dirs_of, entries_ok, sum_sizes};
pub use stack::{Stack, all_within_one, fan_out_shape, split_shape, units_ms};
pub use walker::{
    DirWiz, IntoIter, lemma_subtree_isolation, lemma_traversal_complete, post_split_layout,
    reachable,
};
