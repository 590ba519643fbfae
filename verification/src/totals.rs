//! What a subtree total is made of.
//!
//! A directory's reported size decomposes into the allocated sizes of the
//! regular files it transitively contains plus the allocated sizes of the
//! directory entries themselves; symbolic links contribute nothing.  On a
//! platform that charges directories no space of their own, the root's
//! reported size is therefore exactly the sum of the allocated sizes of
//! every regular file transitively contained.

use vstd::prelude::*;

use crate::model::FsNode;
use crate::model::child_at;
use crate::model::child_count;
use crate::model::dir_postorder;
use crate::model::is_dir;
use crate::model::is_symlink;
use crate::model::own_size;
use crate::model::subtree_size;
use crate::model::sum_sizes_from;

verus! {

/// The tree contains no symbolic link anywhere.
pub open spec fn no_symlinks(n: &FsNode) -> bool
    decreases n, 1int, 0int,
{
    !is_symlink(n) && no_symlinks_from(n, 0)
}

pub open spec fn no_symlinks_from(n: &FsNode, i: int) -> bool
    decreases n, 0int, child_count(n) - i,
{
    if 0 <= i < child_count(n) {
        no_symlinks(&child_at(n, i)) && no_symlinks_from(n, i + 1)
    } else {
        true
    }
}

/// Every directory entry of the tree has own allocated size zero.
pub open spec fn dirs_chargeless(n: &FsNode) -> bool
    decreases n, 1int, 0int,
{
    (is_dir(n) ==> own_size(n) == 0) && dirs_chargeless_from(n, 0)
}

pub open spec fn dirs_chargeless_from(n: &FsNode, i: int) -> bool
    decreases n, 0int, child_count(n) - i,
{
    if 0 <= i < child_count(n) {
        dirs_chargeless(&child_at(n, i)) && dirs_chargeless_from(n, i + 1)
    } else {
        true
    }
}

/// Sum of the allocated sizes of every regular file transitively contained
/// in the subtree; symbolic links are never followed and contribute zero.
pub open spec fn file_bytes(n: &FsNode) -> int
    decreases n, 1int, 0int,
{
    match n {
        FsNode::File { size, .. } => *size as int,
        FsNode::Symlink { .. } => 0,
        FsNode::Dir { .. } => file_bytes_from(n, 0),
    }
}

pub open spec fn file_bytes_from(n: &FsNode, i: int) -> int
    decreases n, 0int, child_count(n) - i,
{
    if 0 <= i < child_count(n) {
        file_bytes(&child_at(n, i)) + file_bytes_from(n, i + 1)
    } else {
        0
    }
}

/// Sum of the own allocated sizes of every directory entry in the subtree.
pub open spec fn dir_own_bytes(n: &FsNode) -> int
    decreases n, 1int, 0int,
{
    if is_dir(n) {
        own_size(n) + dir_own_bytes_from(n, 0)
    } else {
        0
    }
}

pub open spec fn dir_own_bytes_from(n: &FsNode, i: int) -> int
    decreases n, 0int, child_count(n) - i,
{
    if 0 <= i < child_count(n) {
        dir_own_bytes(&child_at(n, i)) + dir_own_bytes_from(n, i + 1)
    } else {
        0
    }
}

/// A subtree total is exactly file bytes plus directory-entry bytes.
pub proof fn lemma_size_decomposition(n: &FsNode)
    ensures
        subtree_size(n) == file_bytes(n) + dir_own_bytes(n),
    decreases n, 1int, 0int,
{
    lemma_size_decomposition_from(n, 0);
}

pub proof fn lemma_size_decomposition_from(n: &FsNode, i: int)
    ensures
        sum_sizes_from(n, i) == file_bytes_from(n, i) + dir_own_bytes_from(n, i),
    decreases n, 0int, child_count(n) - i,
{
    if 0 <= i < child_count(n) {
        lemma_size_decomposition(&child_at(n, i));
        lemma_size_decomposition_from(n, i + 1);
    }
}

pub proof fn lemma_chargeless_no_dir_bytes(n: &FsNode)
    requires
        dirs_chargeless(n),
    ensures
        dir_own_bytes(n) == 0,
    decreases n, 1int, 0int,
{
    lemma_chargeless_no_dir_bytes_from(n, 0);
}

pub proof fn lemma_chargeless_no_dir_bytes_from(n: &FsNode, i: int)
    requires
        dirs_chargeless_from(n, i),
    ensures
        dir_own_bytes_from(n, i) == 0,
    decreases n, 0int, child_count(n) - i,
{
    if 0 <= i < child_count(n) {
        lemma_chargeless_no_dir_bytes(&child_at(n, i));
        lemma_chargeless_no_dir_bytes_from(n, i + 1);
    }
}

/// For a tree without symbolic links whose directory entries consume no
/// space of their own, the reported size of the root equals the sum of
/// the allocated sizes of every regular file transitively contained.
pub proof fn lemma_root_size_is_file_sum(n: &FsNode)
    requires
        no_symlinks(n),
        dirs_chargeless(n),
    ensures
        subtree_size(n) == file_bytes(n),
{
    lemma_size_decomposition(n);
    lemma_chargeless_no_dir_bytes(n);
}

/// A symbolic link is never traversed: it reports no entries at all and
/// contributes zero bytes to every total.
pub proof fn lemma_symlink_inert(n: &FsNode)
    requires
        is_symlink(n),
    ensures
        subtree_size(n) == 0,
        dir_postorder(n) == Seq::<(Seq<char>, int)>::empty(),
{
}

} // verus!
