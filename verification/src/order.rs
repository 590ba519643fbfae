//! Structure of the post-order result stream.
//!
//! These lemmas pin down the shape of [`dir_postorder`]: every entry comes
//! from a directory of the tree, no two entries share a path in a
//! well-formed tree, every contained directory's results form one
//! contiguous block that ends with that directory's own entry, and —
//! the ordering guarantee a consumer relies on — a directory's entry is
//! emitted strictly after the entry of every directory nested inside it.

use vstd::prelude::*;

use crate::model::FsNode;
use crate::model::child_at;
use crate::model::child_count;
use crate::model::dir_postorder;
use crate::model::entry_of;
use crate::model::in_tree;
use crate::model::in_tree_from;
use crate::model::is_dir;
use crate::model::lemma_child_in_tree;
use crate::model::lemma_in_tree_count;
use crate::model::lemma_in_tree_trans;
use crate::model::lemma_pc_from_ge_child;
use crate::model::lemma_pc_from_le;
use crate::model::lemma_pc_from_nonneg;
use crate::model::lemma_pc_nonneg;
use crate::model::lemma_wf_child;
use crate::model::lemma_wf_subtree;
use crate::model::node_path;
use crate::model::path_count;
use crate::model::path_count_from;
use crate::model::post_from;
use crate::model::scan_output;
use crate::model::wf_paths;

verus! {

/// No two entries of the sequence carry the same path.
pub open spec fn entries_paths_distinct(s: Seq<(Seq<char>, int)>) -> bool {
    forall|i: int, j: int| 0 <= i < j < s.len() ==> (#[trigger] s[i]).0 != (#[trigger] s[j]).0
}

pub proof fn lemma_contains_left<T>(a: Seq<T>, b: Seq<T>, x: T)
    requires
        a.contains(x),
    ensures
        (a + b).contains(x),
{
    let k = choose|k: int| 0 <= k < a.len() && a[k] == x;
    assert((a + b)[k] == x);
}

pub proof fn lemma_contains_right<T>(a: Seq<T>, b: Seq<T>, x: T)
    requires
        b.contains(x),
    ensures
        (a + b).contains(x),
{
    let k = choose|k: int| 0 <= k < b.len() && b[k] == x;
    assert((a + b)[a.len() + k] == x);
}

pub proof fn lemma_contains_split<T>(a: Seq<T>, b: Seq<T>, x: T)
    requires
        (a + b).contains(x),
    ensures
        a.contains(x) || b.contains(x),
{
    let k = choose|k: int| 0 <= k < (a + b).len() && (a + b)[k] == x;
    if k < a.len() {
        assert(a[k] == x);
    } else {
        assert(b[k - a.len()] == x);
    }
}

/// A directory's stream is never empty and ends with its own entry.
pub proof fn lemma_post_last(n: &FsNode)
    requires
        is_dir(n),
    ensures
        dir_postorder(n).len() >= 1,
        dir_postorder(n).last() == entry_of(n),
        dir_postorder(n) == post_from(n, 0) + seq![entry_of(n)],
{
}

/// A directory child's own entry occurs in the tail stream that covers it.
pub proof fn lemma_entry_in_post_from(n: &FsNode, i: int, j: int)
    requires
        0 <= i <= j,
        j < child_count(n),
        is_dir(&child_at(n, j)),
    ensures
        post_from(n, i).contains(entry_of(&child_at(n, j))),
    decreases j - i,
{
    if i < j {
        lemma_entry_in_post_from(n, i + 1, j);
        lemma_contains_right(
            dir_postorder(&child_at(n, i)),
            post_from(n, i + 1),
            entry_of(&child_at(n, j)),
        );
    } else {
        let c = child_at(n, j);
        lemma_post_last(&c);
        assert(dir_postorder(&c).contains(entry_of(&c))) by {
            assert(dir_postorder(&c)[dir_postorder(&c).len() - 1] == entry_of(&c));
        }
        lemma_contains_left(dir_postorder(&c), post_from(n, j + 1), entry_of(&c));
    }
}

/// Every entry of a directory's stream is the entry of some directory
/// contained in it.
pub proof fn lemma_post_source(n: &FsNode, e: (Seq<char>, int))
    requires
        dir_postorder(n).contains(e),
    ensures
        exists|x: FsNode|
            in_tree(n, &x) && is_dir(&x) && #[trigger] entry_of(&x) == e,
    decreases n, 1int, 0int,
{
    if is_dir(n) {
        lemma_contains_split(post_from(n, 0), seq![entry_of(n)], e);
        if post_from(n, 0).contains(e) {
            lemma_post_from_source(n, 0, e);
            let (j, x): (int, FsNode) = choose|j: int, x: FsNode|
                0 <= j < child_count(n) && #[trigger] in_tree(&child_at(n, j), &x) && is_dir(&x)
                    && entry_of(&x) == e;
            lemma_child_in_tree(n, j);
            lemma_in_tree_trans(n, &child_at(n, j), &x);
        } else {
            assert(seq![entry_of(n)][0] == e);
            assert(entry_of(n) == e);
        }
    } else {
        assert(false);
    }
}

/// Every entry of the tail stream comes from inside a covered child.
pub proof fn lemma_post_from_source(n: &FsNode, i: int, e: (Seq<char>, int))
    requires
        post_from(n, i).contains(e),
    ensures
        exists|j: int, x: FsNode|
            i <= j < child_count(n) && #[trigger] in_tree(&child_at(n, j), &x) && is_dir(&x)
                && entry_of(&x) == e,
        i < child_count(n),
    decreases n, 0int, child_count(n) - i,
{
    if 0 <= i < child_count(n) {
        lemma_contains_split(dir_postorder(&child_at(n, i)), post_from(n, i + 1), e);
        if dir_postorder(&child_at(n, i)).contains(e) {
            lemma_post_source(&child_at(n, i), e);
            let x = choose|x: FsNode|
                in_tree(&child_at(n, i), &x) && is_dir(&x) && #[trigger] entry_of(&x) == e;
            assert(i <= i < child_count(n) && in_tree(&child_at(n, i), &x) && is_dir(&x)
                && entry_of(&x) == e);
        } else {
            lemma_post_from_source(n, i + 1, e);
        }
    } else {
        assert(false);
    }
}

/// If some entry of the tail stream carries path `p`, that path occurs in
/// the covered children.
pub proof fn lemma_post_from_path_count(n: &FsNode, i: int, e: (Seq<char>, int))
    requires
        0 <= i,
        post_from(n, i).contains(e),
    ensures
        path_count_from(n, i, e.0) >= 1,
{
    lemma_post_from_source(n, i, e);
    let (j, x): (int, FsNode) = choose|j: int, x: FsNode|
        i <= j < child_count(n) && #[trigger] in_tree(&child_at(n, j), &x) && is_dir(&x)
            && entry_of(&x) == e;
    lemma_in_tree_count(&child_at(n, j), &x);
    lemma_pc_from_ge_child(n, i, j, e.0);
}

/// In a well-formed tree no path is reported twice.
pub proof fn lemma_post_nodup(n: &FsNode)
    requires
        wf_paths(n),
    ensures
        entries_paths_distinct(dir_postorder(n)),
    decreases n, 1int, 0int,
{
    if is_dir(n) {
        lemma_post_from_nodup(n, 0);
        let a = post_from(n, 0);
        let s = dir_postorder(n);
        assert forall|i: int, j: int| 0 <= i < j < s.len() implies (#[trigger] s[i]).0 != (
        #[trigger] s[j]).0 by {
            if j < a.len() {
                assert(a[i] == s[i] && a[j] == s[j]);
            } else {
                // `j` is the final entry for `n` itself; a shared path would
                // make `n`'s path occur both at `n` and inside a child.
                assert(s[j] == entry_of(n));
                assert(a[i] == s[i]);
                if s[i].0 == node_path(n) {
                    assert(a.contains(a[i]));
                    lemma_post_from_path_count(n, 0, a[i]);
                    assert(path_count(n, node_path(n)) <= 1);
                    assert(false);
                }
            }
        }
    }
}

pub proof fn lemma_post_from_nodup(n: &FsNode, i: int)
    requires
        wf_paths(n),
        0 <= i,
    ensures
        entries_paths_distinct(post_from(n, i)),
    decreases n, 0int, child_count(n) - i,
{
    if 0 <= i < child_count(n) {
        let a = dir_postorder(&child_at(n, i));
        let b = post_from(n, i + 1);
        let s = post_from(n, i);
        lemma_wf_child(n, i);
        lemma_post_nodup(&child_at(n, i));
        lemma_post_from_nodup(n, i + 1);
        assert forall|k: int, l: int| 0 <= k < l < s.len() implies (#[trigger] s[k]).0 != (
        #[trigger] s[l]).0 by {
            if l < a.len() {
                assert(a[k] == s[k] && a[l] == s[l]);
            } else if k >= a.len() {
                assert(b[k - a.len()] == s[k] && b[l - a.len()] == s[l]);
            } else {
                assert(a[k] == s[k] && b[l - a.len()] == s[l]);
                if s[k].0 == s[l].0 {
                    let p = s[k].0;
                    assert(a.contains(a[k]));
                    lemma_post_source(&child_at(n, i), a[k]);
                    let x = choose|x: FsNode|
                        in_tree(&child_at(n, i), &x) && is_dir(&x) && #[trigger] entry_of(&x)
                            == a[k];
                    lemma_in_tree_count(&child_at(n, i), &x);
                    assert(b.contains(b[l - a.len()]));
                    lemma_post_from_path_count(n, i + 1, b[l - a.len()]);
                    lemma_pc_from_le(n, 0, i, p);
                    lemma_pc_from_nonneg(n, 0, p);
                    assert(path_count_from(n, i, p) >= 2);
                    assert(path_count(n, p) <= 1);
                    lemma_pc_nonneg(n, p);
                    assert(false);
                }
            }
        }
    }
}

/// The results of a contained directory form one contiguous block of the
/// containing directory's stream, ending with the contained directory's
/// own entry; for a strictly contained directory the block ends before
/// the containing directory's final entry.
pub proof fn lemma_post_block(root: &FsNode, x: &FsNode) -> (k: int)
    requires
        in_tree(root, x),
        is_dir(x),
    ensures
        0 <= k,
        k + dir_postorder(x).len() <= dir_postorder(root).len(),
        dir_postorder(root).subrange(k, k + dir_postorder(x).len() as int) == dir_postorder(x),
        *root != *x ==> k + dir_postorder(x).len() <= dir_postorder(root).len() - 1,
    decreases root, 1int, 0int,
{
    if *root == *x {
        let m = dir_postorder(x).len() as int;
        assert(dir_postorder(root).subrange(0, m) =~= dir_postorder(x));
        0
    } else {
        let k = lemma_post_block_from(root, 0, x);
        // `root` has children, so it is a directory and its stream is the
        // tail stream plus its own final entry.
        assert(child_count(root) > 0);
        assert(is_dir(root));
        let a = post_from(root, 0);
        let m = dir_postorder(x).len() as int;
        assert(dir_postorder(root).subrange(k, k + m) =~= a.subrange(k, k + m));
        k
    }
}

pub proof fn lemma_post_block_from(root: &FsNode, i: int, x: &FsNode) -> (k: int)
    requires
        in_tree_from(root, i, x),
        is_dir(x),
    ensures
        0 <= k,
        k + dir_postorder(x).len() <= post_from(root, i).len(),
        post_from(root, i).subrange(k, k + dir_postorder(x).len() as int) == dir_postorder(x),
    decreases root, 0int, child_count(root) - i,
{
    if 0 <= i < child_count(root) {
        let a = dir_postorder(&child_at(root, i));
        let b = post_from(root, i + 1);
        let m = dir_postorder(x).len() as int;
        if in_tree(&child_at(root, i), x) {
            let k = lemma_post_block(&child_at(root, i), x);
            assert((a + b).subrange(k, k + m) =~= a.subrange(k, k + m));
            k
        } else {
            let k = lemma_post_block_from(root, i + 1, x);
            assert((a + b).subrange(a.len() + k, a.len() + k + m) =~= b.subrange(k, k + m));
            a.len() + k
        }
    } else {
        assert(false);
        0
    }
}

/// Post-order emission: a directory's entry appears strictly after the
/// entry of every directory nested inside it.
#[verifier::rlimit(100)]
pub proof fn lemma_postorder_strict(root: &FsNode, a: &FsNode, b: &FsNode)
    requires
        in_tree(root, a),
        is_dir(a),
        in_tree(a, b),
        is_dir(b),
        *a != *b,
    ensures
        exists|i: int, j: int|
            0 <= i < j < dir_postorder(root).len() && #[trigger] dir_postorder(root)[i]
                == entry_of(b) && #[trigger] dir_postorder(root)[j] == entry_of(a),
{
    let ka = lemma_post_block(root, a);
    let kb = lemma_post_block(a, b);
    let la = dir_postorder(a).len() as int;
    let lb = dir_postorder(b).len() as int;
    lemma_post_last(a);
    lemma_post_last(b);
    let j = ka + la - 1;
    let i = ka + kb + lb - 1;
    assert(dir_postorder(root)[j] == dir_postorder(root).subrange(ka, ka + la)[la - 1]);
    assert(dir_postorder(root)[j] == entry_of(a));
    assert(dir_postorder(a)[kb + lb - 1] == dir_postorder(a).subrange(kb, kb + lb)[lb - 1]);
    assert(dir_postorder(a)[kb + lb - 1] == entry_of(b));
    assert(dir_postorder(root)[i] == dir_postorder(root).subrange(ka, ka + la)[kb + lb - 1]);
    assert(dir_postorder(root)[i] == entry_of(b));
    assert(0 <= i < j < dir_postorder(root).len());
}

/// The same guarantee for a whole scan of `root`'s children: within the
/// scan's emitted stream, a directory's entry appears strictly after the
/// entry of every directory nested inside it.
pub proof fn lemma_scan_postorder_strict(root: &FsNode, a: &FsNode, b: &FsNode)
    requires
        in_tree(root, a),
        *a != *root,
        is_dir(a),
        in_tree(a, b),
        is_dir(b),
        *a != *b,
    ensures
        exists|i: int, j: int|
            0 <= i < j < scan_output(root).len() && #[trigger] scan_output(root)[i] == entry_of(b)
                && #[trigger] scan_output(root)[j] == entry_of(a),
{
    let ka = lemma_post_block_from(root, 0, a);
    let kb = lemma_post_block(a, b);
    let la = dir_postorder(a).len() as int;
    let lb = dir_postorder(b).len() as int;
    lemma_post_last(a);
    lemma_post_last(b);
    let j = ka + la - 1;
    let i = ka + kb + lb - 1;
    assert(scan_output(root)[j] == post_from(root, 0).subrange(ka, ka + la)[la - 1]);
    assert(scan_output(root)[j] == entry_of(a));
    assert(dir_postorder(a)[kb + lb - 1] == dir_postorder(a).subrange(kb, kb + lb)[lb - 1]);
    assert(dir_postorder(a)[kb + lb - 1] == entry_of(b));
    assert(scan_output(root)[i] == post_from(root, 0).subrange(ka, ka + la)[kb + lb - 1]);
    assert(scan_output(root)[i] == entry_of(b));
    assert(0 <= i < j < scan_output(root).len());
}

/// Distinct children of one directory never share a path.
pub proof fn lemma_sibling_paths_distinct(t: &FsNode, d: &FsNode, m: int, j: int)
    requires
        wf_paths(t),
        in_tree(t, d),
        0 <= m < j < child_count(d),
    ensures
        node_path(&child_at(d, m)) != node_path(&child_at(d, j)),
{
    lemma_wf_subtree(t, d);
    if node_path(&child_at(d, m)) == node_path(&child_at(d, j)) {
        let p = node_path(&child_at(d, m));
        lemma_child_in_tree(d, m);
        lemma_child_in_tree(d, j);
        lemma_in_tree_count(&child_at(d, m), &child_at(d, m));
        lemma_in_tree_count(&child_at(d, j), &child_at(d, j));
        crate::model::lemma_pc_from_two(d, m, j, p);
        assert(path_count(d, p) <= 1);
        lemma_pc_from_nonneg(d, 0, p);
        assert(false);
    }
}

} // verus!
