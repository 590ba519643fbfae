//! Runtime validation of a snapshot.
//!
//! The aggregator's contracts assume a well-formed snapshot: every node
//! carries a distinct path, and the grand total fits a machine word.
//! Both hold of any snapshot taken from a real filesystem, but a caller
//! outside the proofs can establish them here: `snapshot_is_well_formed`
//! soundly checks path distinctness, and `checked_total` computes the
//! total, reporting overflow instead of wrapping.

use vstd::prelude::*;

use crate::model::FsNode;
use crate::model::child_at;
use crate::model::child_count;
use crate::model::node_path;
use crate::model::path_count;
use crate::model::path_count_from;
use crate::model::subtree_size;
use crate::model::sum_sizes_from;
use crate::model::lemma_size_nonneg;
use crate::model::lemma_sum_sizes_nonneg;
use crate::model::lemma_sum_sizes_ge_child;
use crate::model::wf_paths;

verus! {

/// Every node path of the subtree, root first, children in order.
pub open spec fn paths_of(n: &FsNode) -> Seq<Seq<char>>
    decreases n, 1int, 0int,
{
    seq![node_path(n)] + paths_from(n, 0)
}

pub open spec fn paths_from(n: &FsNode, i: int) -> Seq<Seq<char>>
    decreases n, 0int, child_count(n) - i,
{
    if 0 <= i < child_count(n) {
        paths_of(&child_at(n, i)) + paths_from(n, i + 1)
    } else {
        Seq::empty()
    }
}

/// How often `p` occurs in the list.
pub open spec fn seq_count(l: Seq<Seq<char>>, p: Seq<char>) -> int
    decreases l.len(),
{
    if l.len() == 0 {
        0
    } else {
        seq_count(l.drop_last(), p) + (if l.last() == p {
            1int
        } else {
            0int
        })
    }
}

pub proof fn lemma_seq_count_nonneg(l: Seq<Seq<char>>, p: Seq<char>)
    ensures
        seq_count(l, p) >= 0,
    decreases l.len(),
{
    if l.len() > 0 {
        lemma_seq_count_nonneg(l.drop_last(), p);
    }
}

pub proof fn lemma_seq_count_concat(a: Seq<Seq<char>>, b: Seq<Seq<char>>, p: Seq<char>)
    ensures
        seq_count(a + b, p) == seq_count(a, p) + seq_count(b, p),
    decreases b.len(),
{
    if b.len() == 0 {
        assert(a + b =~= a);
    } else {
        assert((a + b).drop_last() =~= a + b.drop_last());
        assert((a + b).last() == b.last());
        lemma_seq_count_concat(a, b.drop_last(), p);
    }
}

pub proof fn lemma_seq_count_contains(l: Seq<Seq<char>>, p: Seq<char>)
    ensures
        seq_count(l, p) >= 1 <==> (exists|i: int| 0 <= i < l.len() && #[trigger] l[i] == p),
    decreases l.len(),
{
    lemma_seq_count_nonneg(l, p);
    if l.len() > 0 {
        lemma_seq_count_contains(l.drop_last(), p);
        lemma_seq_count_nonneg(l.drop_last(), p);
        if l.last() == p {
            assert(l[l.len() - 1] == p);
        } else {
            if exists|i: int| 0 <= i < l.len() && #[trigger] l[i] == p {
                let i = choose|i: int| 0 <= i < l.len() && #[trigger] l[i] == p;
                if i < l.len() - 1 {
                    assert(l.drop_last()[i] == p);
                }
            }
        }
    }
}

/// In a pairwise-distinct list every path occurs at most once.
pub proof fn lemma_distinct_count(l: Seq<Seq<char>>, p: Seq<char>)
    requires
        forall|i: int, j: int| 0 <= i < j < l.len() ==> #[trigger] l[i] != #[trigger] l[j],
    ensures
        seq_count(l, p) <= 1,
    decreases l.len(),
{
    if l.len() > 0 {
        assert(forall|i: int, j: int|
            0 <= i < j < l.drop_last().len() ==> #[trigger] l.drop_last()[i]
                != #[trigger] l.drop_last()[j]);
        lemma_distinct_count(l.drop_last(), p);
        if l.last() == p {
            lemma_seq_count_contains(l.drop_last(), p);
            lemma_seq_count_nonneg(l.drop_last(), p);
            if seq_count(l.drop_last(), p) >= 1 {
                let i = choose|i: int| 0 <= i < l.drop_last().len() && #[trigger] l.drop_last()[i]
                    == p;
                assert(l[i] == p && l[l.len() - 1] == p);
                assert(false);
            }
        }
    }
}

/// A node's path multiplicity is bounded by the path list's count.
pub proof fn lemma_path_count_le_seq_count(n: &FsNode, p: Seq<char>)
    ensures
        path_count(n, p) <= seq_count(paths_of(n), p),
    decreases n, 1int, 0int,
{
    lemma_path_count_from_le(n, 0, p);
    lemma_seq_count_concat(seq![node_path(n)], paths_from(n, 0), p);
    assert(seq_count(seq![node_path(n)], p) == (if node_path(n) == p {
        1int
    } else {
        0int
    })) by {
        assert(seq![node_path(n)].drop_last() =~= Seq::<Seq<char>>::empty());
        assert(seq_count(Seq::<Seq<char>>::empty(), p) == 0);
        assert(seq![node_path(n)].last() == node_path(n));
    }
}

pub proof fn lemma_path_count_from_le(n: &FsNode, i: int, p: Seq<char>)
    ensures
        path_count_from(n, i, p) <= seq_count(paths_from(n, i), p),
    decreases n, 0int, child_count(n) - i,
{
    if 0 <= i < child_count(n) {
        lemma_path_count_le_seq_count(&child_at(n, i), p);
        lemma_path_count_from_le(n, i + 1, p);
        lemma_seq_count_concat(paths_of(&child_at(n, i)), paths_from(n, i + 1), p);
    }
}

/// The tail path list from `j` on is a suffix of the full tail list.
proof fn lemma_paths_from_split(n: &FsNode, j: int)
    requires
        0 <= j <= child_count(n),
    ensures
        paths_from(n, j).len() <= paths_from(n, 0).len(),
        forall|x: int|
            0 <= x < paths_from(n, j).len() ==> #[trigger] paths_from(n, j)[x] == paths_from(
                n,
                0,
            )[paths_from(n, 0).len() - paths_from(n, j).len() + x],
    decreases j,
{
    if j > 0 {
        lemma_paths_from_split(n, j - 1);
        assert(paths_from(n, j - 1) == paths_of(&child_at(n, j - 1)) + paths_from(n, j));
        assert forall|x: int| 0 <= x < paths_from(n, j).len() implies #[trigger] paths_from(
            n,
            j,
        )[x] == paths_from(n, 0)[paths_from(n, 0).len() - paths_from(n, j).len() + x] by {
            assert(paths_from(n, j)[x] == paths_from(n, j - 1)[paths_of(
                &child_at(n, j - 1),
            ).len() + x]);
        }
    }
}

/// The views of a list of owned strings.
pub open spec fn views_of(v: Seq<String>) -> Seq<Seq<char>> {
    v.map_values(|s: String| s@)
}

/// Collect every node path of the subtree into `out`.
fn gather_paths(n: &FsNode, out: &mut Vec<String>)
    ensures
        views_of(final(out)@) == views_of(old(out)@) + paths_of(n),
    decreases n,
{
    match n {
        FsNode::File { path, .. } => {
            out.push(path.clone());
            proof {
                assert(paths_from(n, 0) =~= Seq::<Seq<char>>::empty());
                assert(views_of(final(out)@) =~= views_of(old(out)@) + paths_of(n));
            }
        },
        FsNode::Symlink { path } => {
            out.push(path.clone());
            proof {
                assert(paths_from(n, 0) =~= Seq::<Seq<char>>::empty());
                assert(views_of(final(out)@) =~= views_of(old(out)@) + paths_of(n));
            }
        },
        FsNode::Dir { path, children, .. } => {
            out.push(path.clone());
            let ghost base = out@;
            proof {
                assert(views_of(base) =~= views_of(old(out)@) + seq![node_path(n)]);
            }
            let mut j: usize = 0;
            while j < children.len()
                invariant
                    child_count(n) == children@.len(),
                    forall|m: int|
                        0 <= m < children@.len() ==> #[trigger] child_at(n, m) == children@[m],
                    0 <= j <= children.len(),
                    paths_from(n, j as int).len() <= paths_from(n, 0).len(),
                    views_of(out@) == views_of(base) + paths_from(n, 0).take(
                        paths_from(n, 0).len() - paths_from(n, j as int).len(),
                    ),
                decreases children@.len() - j,
            {
                let ghost done = paths_from(n, 0).len() - paths_from(n, j as int).len();
                proof {
                    lemma_paths_from_split(n, j as int);
                    assert(child_at(n, j as int) == children@[j as int]);
                    assert(paths_from(n, j as int) == paths_of(&child_at(n, j as int))
                        + paths_from(n, j as int + 1));
                }
                gather_paths(&children[j], out);
                proof {
                    let pc = paths_of(&child_at(n, j as int));
                    assert(paths_from(n, 0).take(done + pc.len()) =~= paths_from(n, 0).take(
                        done,
                    ) + pc) by {
                        assert forall|x: int| 0 <= x < pc.len() implies paths_from(n, 0)[done + x]
                            == pc[x] by {
                            assert(paths_from(n, j as int)[x] == pc[x]);
                        }
                    }
                    assert(views_of(out@) =~= views_of(base) + paths_from(n, 0).take(
                        done + pc.len(),
                    ));
                }
                j += 1;
            }
            proof {
                assert(paths_from(n, children@.len() as int).len() == 0);
                assert(paths_from(n, 0).take(paths_from(n, 0).len() as int) =~= paths_from(n, 0));
                assert(views_of(final(out)@) =~= views_of(old(out)@) + paths_of(n));
            }
        },
    }
}

/// Check that no two nodes of the snapshot share a path.  A `true` answer
/// establishes the well-formedness the aggregator's contracts assume.
pub fn snapshot_is_well_formed(root: &FsNode) -> (r: bool)
    ensures
        r ==> wf_paths(root),
{
    let mut paths: Vec<String> = Vec::new();
    gather_paths(root, &mut paths);
    proof {
        assert(views_of(paths@) =~= paths_of(root));
        assert(paths@.len() == paths_of(root).len());
    }
    let n = paths.len();
    let mut i: usize = 0;
    while i < n
        invariant
            n == paths@.len(),
            0 <= i <= n,
            forall|a: int, b: int| 0 <= a < b < paths@.len() && a < i ==> (#[trigger] paths@[a])@
                != (#[trigger] paths@[b])@,
        decreases n - i,
    {
        let mut j: usize = i + 1;
        while j < n
            invariant
                n == paths@.len(),
                0 <= i < j <= n,
                forall|b: int| i < b < j ==> (#[trigger] paths@[b])@ != paths@[i as int]@,
            decreases n - j,
        {
            if paths[i] == paths[j] {
                return false;
            }
            j += 1;
        }
        i += 1;
    }
    proof {
        assert forall|p: Seq<char>| #[trigger] path_count(root, p) <= 1 by {
            lemma_path_count_le_seq_count(root, p);
            assert forall|a: int, b: int|
                0 <= a < b < paths_of(root).len() implies #[trigger] paths_of(root)[a]
                != #[trigger] paths_of(root)[b] by {
                assert(views_of(paths@)[a] == paths@[a]@);
                assert(views_of(paths@)[b] == paths@[b]@);
                assert(paths@[a]@ == paths_of(root)[a]);
                assert(paths@[b]@ == paths_of(root)[b]);
            }
            lemma_distinct_count(paths_of(root), p);
        }
    }
    true
}

/// Compute the snapshot's total with overflow detection.
pub fn checked_total(root: &FsNode) -> (r: Option<u64>)
    ensures
        match r {
            Some(t) => t as int == subtree_size(root),
            None => subtree_size(root) > u64::MAX as int,
        },
    decreases root,
{
    match root {
        FsNode::File { size, .. } => {
            proof {
                assert(sum_sizes_from(root, 0) == 0);
            }
            Some(*size)
        },
        FsNode::Symlink { .. } => {
            proof {
                assert(sum_sizes_from(root, 0) == 0);
            }
            Some(0)
        },
        FsNode::Dir { size, children, .. } => {
            let mut acc: u64 = *size;
            let mut j: usize = 0;
            while j < children.len()
                invariant
                    child_count(root) == children@.len(),
                    forall|m: int|
                        0 <= m < children@.len() ==> #[trigger] child_at(root, m) == children@[m],
                    0 <= j <= children.len(),
                    acc as int == subtree_size(root) - sum_sizes_from(root, j as int),
                decreases children@.len() - j,
            {
                proof {
                    assert(child_at(root, j as int) == children@[j as int]);
                    assert(sum_sizes_from(root, j as int) == subtree_size(&children@[j as int])
                        + sum_sizes_from(root, j as int + 1));
                    lemma_sum_sizes_nonneg(root, j as int + 1);
                }
                match checked_total(&children[j]) {
                    Some(t) => {
                        proof {
                            lemma_sum_sizes_ge_child(root, j as int, j as int);
                            lemma_sum_sizes_nonneg(root, 0);
                        }
                        if acc > u64::MAX - t {
                            proof {
                                assert(subtree_size(root) > u64::MAX as int);
                            }
                            return None;
                        }
                        acc = acc + t;
                    },
                    None => {
                        proof {
                            lemma_sum_sizes_ge_child(root, j as int, j as int);
                            lemma_sum_sizes_nonneg(root, 0);
                            lemma_size_nonneg(root);
                            assert(subtree_size(root) > u64::MAX as int);
                        }
                        return None;
                    },
                }
                j += 1;
            }
            proof {
                assert(sum_sizes_from(root, children@.len() as int) == 0);
            }
            Some(acc)
        },
    }
}

} // verus!
