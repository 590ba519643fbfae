//! The mathematical model of a filesystem snapshot.
//!
//! A scan works on a tree of [`FsNode`] values: regular files with their
//! allocated size, symbolic links (never followed, so they are leaves and
//! contribute nothing), and directories with their own allocated size and
//! their direct children.  The spec functions here define what a scan must
//! compute: `subtree_size` is the space consumed by a subtree, and
//! `dir_postorder` is the exact sequence of (path, size) results a scan
//! emits, one per directory, each directory strictly after its descendants.

use vstd::prelude::*;

verus! {

/// One node of a filesystem snapshot.  `size` is the allocated size of the
/// entry itself (blocks actually reserved on the device), not a logical
/// length.  Symbolic links are leaves: a scan never follows them.
pub enum FsNode {
    File { path: String, size: u64 },
    Symlink { path: String },
    Dir { path: String, size: u64, children: Vec<FsNode> },
}

pub open spec fn node_path(n: &FsNode) -> Seq<char> {
    match n {
        FsNode::File { path, .. } => path@,
        FsNode::Symlink { path } => path@,
        FsNode::Dir { path, .. } => path@,
    }
}

pub open spec fn is_dir(n: &FsNode) -> bool {
    n matches FsNode::Dir { .. }
}

pub open spec fn is_symlink(n: &FsNode) -> bool {
    n matches FsNode::Symlink { .. }
}

/// The allocated size of the node's own entry; a symbolic link contributes
/// nothing to any total.
pub open spec fn own_size(n: &FsNode) -> int {
    match n {
        FsNode::File { size, .. } => *size as int,
        FsNode::Symlink { .. } => 0,
        FsNode::Dir { size, .. } => *size as int,
    }
}

pub open spec fn child_count(n: &FsNode) -> int {
    match n {
        FsNode::Dir { children, .. } => children@.len() as int,
        _ => 0,
    }
}

pub open spec fn child_at(n: &FsNode, i: int) -> FsNode {
    match n {
        FsNode::Dir { children, .. } => children@[i],
        _ => arbitrary(),
    }
}

/// Total space consumed by the subtree rooted at `n`: the node's own
/// allocated size plus, for a directory, the totals of all children.
pub open spec fn subtree_size(n: &FsNode) -> int
    decreases n, 1int, 0int,
{
    own_size(n) + sum_sizes_from(n, 0)
}

/// Sum of `subtree_size` over the children of `n` with index `i` and up.
pub open spec fn sum_sizes_from(n: &FsNode, i: int) -> int
    decreases n, 0int, child_count(n) - i,
{
    if 0 <= i < child_count(n) {
        subtree_size(&child_at(n, i)) + sum_sizes_from(n, i + 1)
    } else {
        0
    }
}

/// Number of nodes in the subtree; used as a termination measure.
pub open spec fn weight(n: &FsNode) -> int
    decreases n, 1int, 0int,
{
    1 + weight_from(n, 0)
}

pub open spec fn weight_from(n: &FsNode, i: int) -> int
    decreases n, 0int, child_count(n) - i,
{
    if 0 <= i < child_count(n) {
        weight(&child_at(n, i)) + weight_from(n, i + 1)
    } else {
        0
    }
}

/// `x` is `t` itself or a node somewhere inside `t`.
pub open spec fn in_tree(t: &FsNode, x: &FsNode) -> bool
    decreases t, 1int, 0int,
{
    *t == *x || in_tree_from(t, 0, x)
}

pub open spec fn in_tree_from(t: &FsNode, i: int, x: &FsNode) -> bool
    decreases t, 0int, child_count(t) - i,
{
    if 0 <= i < child_count(t) {
        in_tree(&child_at(t, i), x) || in_tree_from(t, i + 1, x)
    } else {
        false
    }
}

/// How many nodes of the subtree carry path `p`.
pub open spec fn path_count(n: &FsNode, p: Seq<char>) -> int
    decreases n, 1int, 0int,
{
    (if node_path(n) == p { 1int } else { 0int }) + path_count_from(n, 0, p)
}

pub open spec fn path_count_from(n: &FsNode, i: int, p: Seq<char>) -> int
    decreases n, 0int, child_count(n) - i,
{
    if 0 <= i < child_count(n) {
        path_count(&child_at(n, i), p) + path_count_from(n, i + 1, p)
    } else {
        0
    }
}

/// Well-formed snapshot: no two nodes share a path.  True of any snapshot
/// taken from a real filesystem, where every entry has a distinct
/// absolute path.
pub open spec fn wf_paths(n: &FsNode) -> bool {
    forall|p: Seq<char>| #[trigger] path_count(n, p) <= 1
}

/// The result a scan reports for one directory.
pub open spec fn entry_of(n: &FsNode) -> (Seq<char>, int) {
    (node_path(n), subtree_size(n))
}

/// The exact stream of results for the subtree at `n`: one entry per
/// directory, each directory after all entries of its own subtree
/// (strict post-order).  Files and symbolic links produce no entries.
pub open spec fn dir_postorder(n: &FsNode) -> Seq<(Seq<char>, int)>
    decreases n, 1int, 0int,
{
    if is_dir(n) {
        post_from(n, 0) + seq![entry_of(n)]
    } else {
        Seq::empty()
    }
}

pub open spec fn post_from(n: &FsNode, i: int) -> Seq<(Seq<char>, int)>
    decreases n, 0int, child_count(n) - i,
{
    if 0 <= i < child_count(n) {
        dir_postorder(&child_at(n, i)) + post_from(n, i + 1)
    } else {
        Seq::empty()
    }
}

/// The stream of results for a whole scan of root `n`: its directory
/// children are aggregated one after the other, in enumeration order;
/// files and links directly under the root are skipped.
pub open spec fn scan_output(n: &FsNode) -> Seq<(Seq<char>, int)> {
    post_from(n, 0)
}

// ---------------------------------------------------------------------
// Sizes are non-negative and monotone along containment.
// ---------------------------------------------------------------------

pub proof fn lemma_size_nonneg(n: &FsNode)
    ensures
        subtree_size(n) >= 0,
    decreases n, 1int, 0int,
{
    lemma_sum_sizes_nonneg(n, 0);
}

pub proof fn lemma_sum_sizes_nonneg(n: &FsNode, i: int)
    ensures
        sum_sizes_from(n, i) >= 0,
    decreases n, 0int, child_count(n) - i,
{
    if 0 <= i < child_count(n) {
        lemma_size_nonneg(&child_at(n, i));
        lemma_sum_sizes_nonneg(n, i + 1);
    }
}

/// A child's total is at most the tail sum of any range containing it.
pub proof fn lemma_sum_sizes_ge_child(n: &FsNode, i: int, j: int)
    requires
        0 <= i <= j,
        0 <= j < child_count(n),
    ensures
        sum_sizes_from(n, i) >= subtree_size(&child_at(n, j)),
    decreases j - i,
{
    if i < j {
        lemma_sum_sizes_ge_child(n, i + 1, j);
        lemma_size_nonneg(&child_at(n, i));
    } else {
        lemma_sum_sizes_nonneg(n, j + 1);
    }
}

/// A contained node's total never exceeds the containing tree's total.
pub proof fn lemma_size_mono(t: &FsNode, x: &FsNode)
    requires
        in_tree(t, x),
    ensures
        subtree_size(x) <= subtree_size(t),
    decreases t, 1int, 0int,
{
    if *t == *x {
    } else {
        lemma_size_mono_from(t, 0, x);
    }
}

pub proof fn lemma_size_mono_from(t: &FsNode, i: int, x: &FsNode)
    requires
        in_tree_from(t, i, x),
    ensures
        subtree_size(x) <= own_size(t) + sum_sizes_from(t, 0),
    decreases t, 0int, child_count(t) - i,
{
    if 0 <= i < child_count(t) {
        if in_tree(&child_at(t, i), x) {
            lemma_size_mono(&child_at(t, i), x);
            lemma_sum_sizes_ge_child(t, 0, i);
            assert(own_size(t) >= 0);
        } else {
            lemma_size_mono_from(t, i + 1, x);
        }
    }
}

// ---------------------------------------------------------------------
// Weights: positive, and strictly smaller for children.
// ---------------------------------------------------------------------

pub proof fn lemma_weight_pos(n: &FsNode)
    ensures
        weight(n) >= 1,
    decreases n, 1int, 0int,
{
    lemma_weight_from_nonneg(n, 0);
}

pub proof fn lemma_weight_from_nonneg(n: &FsNode, i: int)
    ensures
        weight_from(n, i) >= 0,
    decreases n, 0int, child_count(n) - i,
{
    if 0 <= i < child_count(n) {
        lemma_weight_pos(&child_at(n, i));
        lemma_weight_from_nonneg(n, i + 1);
    }
}

pub proof fn lemma_weight_ge_child(n: &FsNode, i: int, j: int)
    requires
        0 <= i <= j,
        0 <= j < child_count(n),
    ensures
        weight_from(n, i) >= weight(&child_at(n, j)),
    decreases j - i,
{
    if i < j {
        lemma_weight_ge_child(n, i + 1, j);
        lemma_weight_pos(&child_at(n, i));
    } else {
        lemma_weight_from_nonneg(n, j + 1);
    }
}

pub proof fn lemma_child_weight_lt(n: &FsNode, j: int)
    requires
        0 <= j < child_count(n),
    ensures
        weight(&child_at(n, j)) < weight(n),
{
    lemma_weight_ge_child(n, 0, j);
}

/// Containment never increases the weight.
pub proof fn lemma_weight_mono(t: &FsNode, x: &FsNode)
    requires
        in_tree(t, x),
    ensures
        weight(x) <= weight(t),
    decreases t, 1int, 0int,
{
    if *t == *x {
    } else {
        lemma_weight_mono_from(t, 0, x);
    }
}

pub proof fn lemma_weight_mono_from(t: &FsNode, i: int, x: &FsNode)
    requires
        in_tree_from(t, i, x),
    ensures
        weight(x) < weight(t),
    decreases t, 0int, child_count(t) - i,
{
    if 0 <= i < child_count(t) {
        if in_tree(&child_at(t, i), x) {
            lemma_weight_mono(&child_at(t, i), x);
            lemma_child_weight_lt(t, i);
        } else {
            lemma_weight_mono_from(t, i + 1, x);
        }
    }
}

// ---------------------------------------------------------------------
// Containment: children are contained, and containment is transitive.
// ---------------------------------------------------------------------

pub proof fn lemma_child_in_tree(n: &FsNode, j: int)
    requires
        0 <= j < child_count(n),
    ensures
        in_tree(n, &child_at(n, j)),
{
    lemma_child_in_tree_from(n, 0, j);
}

pub proof fn lemma_child_in_tree_from(n: &FsNode, i: int, j: int)
    requires
        0 <= i <= j,
        0 <= j < child_count(n),
    ensures
        in_tree_from(n, i, &child_at(n, j)),
    decreases j - i,
{
    if i < j {
        lemma_child_in_tree_from(n, i + 1, j);
    } else {
        assert(in_tree(&child_at(n, j), &child_at(n, j)));
    }
}

pub proof fn lemma_in_tree_trans(t: &FsNode, x: &FsNode, y: &FsNode)
    requires
        in_tree(t, x),
        in_tree(x, y),
    ensures
        in_tree(t, y),
    decreases t, 1int, 0int,
{
    if *t == *x {
    } else {
        lemma_in_tree_trans_from(t, 0, x, y);
    }
}

pub proof fn lemma_in_tree_trans_from(t: &FsNode, i: int, x: &FsNode, y: &FsNode)
    requires
        in_tree_from(t, i, x),
        in_tree(x, y),
    ensures
        in_tree_from(t, i, y),
    decreases t, 0int, child_count(t) - i,
{
    if 0 <= i < child_count(t) {
        if in_tree(&child_at(t, i), x) {
            lemma_in_tree_trans(&child_at(t, i), x, y);
        } else {
            lemma_in_tree_trans_from(t, i + 1, x, y);
        }
    }
}

// ---------------------------------------------------------------------
// Path counts: non-negative, additive over children, and at least one
// occurrence for every contained node.  Under `wf_paths` this makes a
// node's path identify it uniquely, which is what lets a scan key its
// partial-size table by path.
// ---------------------------------------------------------------------

pub proof fn lemma_pc_nonneg(n: &FsNode, p: Seq<char>)
    ensures
        path_count(n, p) >= 0,
    decreases n, 1int, 0int,
{
    lemma_pc_from_nonneg(n, 0, p);
}

pub proof fn lemma_pc_from_nonneg(n: &FsNode, i: int, p: Seq<char>)
    ensures
        path_count_from(n, i, p) >= 0,
    decreases n, 0int, child_count(n) - i,
{
    if 0 <= i < child_count(n) {
        lemma_pc_nonneg(&child_at(n, i), p);
        lemma_pc_from_nonneg(n, i + 1, p);
    }
}

pub proof fn lemma_pc_from_le(n: &FsNode, i: int, j: int, p: Seq<char>)
    requires
        0 <= i <= j,
    ensures
        path_count_from(n, j, p) <= path_count_from(n, i, p),
    decreases j - i,
{
    if i < j {
        lemma_pc_from_le(n, i + 1, j, p);
        if 0 <= i < child_count(n) {
            lemma_pc_nonneg(&child_at(n, i), p);
        }
    }
}

pub proof fn lemma_pc_from_ge_child(n: &FsNode, i: int, j: int, p: Seq<char>)
    requires
        0 <= i <= j,
        0 <= j < child_count(n),
    ensures
        path_count_from(n, i, p) >= path_count(&child_at(n, j), p),
    decreases j - i,
{
    if i < j {
        lemma_pc_from_ge_child(n, i + 1, j, p);
        lemma_pc_nonneg(&child_at(n, i), p);
    } else {
        lemma_pc_from_nonneg(n, j + 1, p);
    }
}

/// Two different child positions contribute their counts independently.
pub proof fn lemma_pc_from_two(n: &FsNode, i: int, j: int, p: Seq<char>)
    requires
        0 <= i < j < child_count(n),
    ensures
        path_count_from(n, 0, p) >= path_count(&child_at(n, i), p) + path_count(
            &child_at(n, j),
            p,
        ),
{
    lemma_pc_from_ge_child(n, i + 1, j, p);
    lemma_pc_from_le(n, 0, i, p);
}

/// Every contained node's path occurs in the count.
pub proof fn lemma_in_tree_count(t: &FsNode, x: &FsNode)
    requires
        in_tree(t, x),
    ensures
        path_count(t, node_path(x)) >= 1,
    decreases t, 1int, 0int,
{
    lemma_pc_from_nonneg(t, 0, node_path(x));
    if *t == *x {
    } else {
        let j = lemma_in_tree_witness(t, 0, x);
        lemma_in_tree_count(&child_at(t, j), x);
        lemma_pc_from_ge_child(t, 0, j, node_path(x));
    }
}

/// A child of a well-formed tree is itself well-formed.
pub proof fn lemma_wf_child(t: &FsNode, j: int)
    requires
        wf_paths(t),
        0 <= j < child_count(t),
    ensures
        wf_paths(&child_at(t, j)),
{
    assert forall|p: Seq<char>| #[trigger] path_count(&child_at(t, j), p) <= 1 by {
        lemma_pc_from_ge_child(t, 0, j, p);
        assert(path_count(t, p) <= 1);
    }
}

pub proof fn lemma_wf_subtree(t: &FsNode, x: &FsNode)
    requires
        wf_paths(t),
        in_tree(t, x),
    ensures
        wf_paths(x),
    decreases t,
{
    if *t == *x {
    } else {
        let j = lemma_in_tree_witness(t, 0, x);
        lemma_wf_child(t, j);
        lemma_wf_subtree(&child_at(t, j), x);
    }
}

/// Two distinct contained nodes with the same path make that path occur
/// at least twice.
pub proof fn lemma_two_values(t: &FsNode, a: &FsNode, b: &FsNode)
    requires
        in_tree(t, a),
        in_tree(t, b),
        *a != *b,
        node_path(a) == node_path(b),
    ensures
        path_count(t, node_path(a)) >= 2,
    decreases t,
{
    let p = node_path(a);
    if *t == *a {
        let j = lemma_in_tree_witness(t, 0, b);
        lemma_in_tree_count(&child_at(t, j), b);
        lemma_pc_from_ge_child(t, 0, j, p);
    } else if *t == *b {
        let j = lemma_in_tree_witness(t, 0, a);
        lemma_in_tree_count(&child_at(t, j), a);
        lemma_pc_from_ge_child(t, 0, j, p);
    } else {
        let ja = lemma_in_tree_witness(t, 0, a);
        let jb = lemma_in_tree_witness(t, 0, b);
        if ja == jb {
            lemma_two_values(&child_at(t, ja), a, b);
            lemma_pc_from_ge_child(t, 0, ja, p);
        } else if ja < jb {
            lemma_in_tree_count(&child_at(t, ja), a);
            lemma_in_tree_count(&child_at(t, jb), b);
            lemma_pc_from_two(t, ja, jb, p);
        } else {
            lemma_in_tree_count(&child_at(t, ja), a);
            lemma_in_tree_count(&child_at(t, jb), b);
            lemma_pc_from_two(t, jb, ja, p);
        }
    }
}

/// In a well-formed tree a path identifies at most one node.
pub proof fn lemma_unique(t: &FsNode, a: &FsNode, b: &FsNode)
    requires
        wf_paths(t),
        in_tree(t, a),
        in_tree(t, b),
        node_path(a) == node_path(b),
    ensures
        *a == *b,
{
    if *a != *b {
        lemma_two_values(t, a, b);
        assert(path_count(t, node_path(a)) <= 1);
    }
}

/// In a well-formed tree, no two distinct nodes have children with the
/// same path: a node has at most one parent.
pub proof fn lemma_parent_unique(t: &FsNode, n1: &FsNode, j1: int, n2: &FsNode, j2: int)
    requires
        wf_paths(t),
        in_tree(t, n1),
        in_tree(t, n2),
        0 <= j1 < child_count(n1),
        0 <= j2 < child_count(n2),
        node_path(&child_at(n1, j1)) == node_path(&child_at(n2, j2)),
    ensures
        *n1 == *n2,
        child_at(n1, j1) == child_at(n2, j2),
    decreases t,
{
    let c1 = child_at(n1, j1);
    let c2 = child_at(n2, j2);
    let p = node_path(&c1);
    lemma_child_in_tree(n1, j1);
    lemma_child_in_tree(n2, j2);
    lemma_in_tree_trans(t, n1, &c1);
    lemma_in_tree_trans(t, n2, &c2);
    lemma_unique(t, &c1, &c2);
    if *n1 == *n2 {
        return ;
    }
    if *t == *n1 {
        // n2 sits inside some child of t; the shared child value would make
        // either the path occur twice or a node contain itself.
        let jb = lemma_in_tree_witness(t, 0, n2);
        if jb == j1 {
            lemma_weight_mono(&child_at(t, j1), n2);
            lemma_child_weight_lt(n2, j2);
            assert(false);
        } else {
            lemma_in_tree_count(&child_at(t, j1), &c1);
            lemma_in_tree_trans(&child_at(t, jb), n2, &c2);
            lemma_in_tree_count(&child_at(t, jb), &c2);
            if j1 < jb {
                lemma_pc_from_two(t, j1, jb, p);
            } else {
                lemma_pc_from_two(t, jb, j1, p);
            }
            assert(path_count(t, p) <= 1);
            lemma_pc_from_nonneg(t, 0, p);
            assert(false);
        }
    } else if *t == *n2 {
        let ja = lemma_in_tree_witness(t, 0, n1);
        if ja == j2 {
            lemma_weight_mono(&child_at(t, j2), n1);
            lemma_child_weight_lt(n1, j1);
            assert(false);
        } else {
            lemma_in_tree_count(&child_at(t, j2), &c2);
            lemma_in_tree_trans(&child_at(t, ja), n1, &c1);
            lemma_in_tree_count(&child_at(t, ja), &c1);
            if j2 < ja {
                lemma_pc_from_two(t, j2, ja, p);
            } else {
                lemma_pc_from_two(t, ja, j2, p);
            }
            assert(path_count(t, p) <= 1);
            lemma_pc_from_nonneg(t, 0, p);
            assert(false);
        }
    } else {
        let ja = lemma_in_tree_witness(t, 0, n1);
        let jb = lemma_in_tree_witness(t, 0, n2);
        if ja == jb {
            lemma_wf_child(t, ja);
            lemma_parent_unique(&child_at(t, ja), n1, j1, n2, j2);
        } else {
            lemma_in_tree_trans(&child_at(t, ja), n1, &c1);
            lemma_in_tree_count(&child_at(t, ja), &c1);
            lemma_in_tree_trans(&child_at(t, jb), n2, &c2);
            lemma_in_tree_count(&child_at(t, jb), &c2);
            if ja < jb {
                lemma_pc_from_two(t, ja, jb, p);
            } else {
                lemma_pc_from_two(t, jb, ja, p);
            }
            assert(path_count(t, p) <= 1);
            lemma_pc_from_nonneg(t, 0, p);
            assert(false);
        }
    }
}

/// Extract a witness child from a strict containment.
pub proof fn lemma_in_tree_witness(t: &FsNode, i: int, x: &FsNode) -> (j: int)
    requires
        in_tree_from(t, i, x),
    ensures
        i <= j < child_count(t),
        in_tree(&child_at(t, j), x),
    decreases child_count(t) - i,
{
    if in_tree(&child_at(t, i), x) {
        i
    } else {
        lemma_in_tree_witness(t, i + 1, x)
    }
}

} // verus!
