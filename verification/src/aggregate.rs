//! The verified directory-size aggregator.
//!
//! The traversal uses an explicit last-in-first-out work stack instead of
//! call recursion, so pathologically deep trees cannot overflow the call
//! stack.  Each stack item is a node in one of two phases: `Discovering`
//! (its children still have to be visited) or `Aggregating` (all children
//! are done and its own total can be folded together).  Finished subtree
//! totals wait in a partial-size table keyed by path until the parent
//! consumes them, so the table is bounded by the open frontier, not by
//! the whole tree.
//!
//! The aggregator is a resumable machine: [`Aggregator::next`] runs the
//! traversal until exactly one more directory result is ready and returns
//! it.  Its contract pins the whole stream down: the `k`-th call returns
//! precisely the `k`-th element of the mathematical post-order stream.
//! Cooperative cancellation is therefore simply not calling `next` again;
//! everything already returned stays valid.

use vstd::prelude::*;

use crate::FileEntry;
use crate::model::FsNode;
use crate::model::child_at;
use crate::model::child_count;
use crate::model::dir_postorder;
use crate::model::entry_of;
use crate::model::in_tree;
use crate::model::is_dir;
use crate::model::is_symlink;
use crate::model::lemma_child_in_tree;
use crate::model::lemma_in_tree_trans;
use crate::model::lemma_parent_unique;
use crate::model::lemma_size_mono;
use crate::model::lemma_size_nonneg;
use crate::model::lemma_sum_sizes_nonneg;
use crate::model::lemma_unique;
use crate::model::lemma_weight_pos;
use crate::model::node_path;
use crate::model::post_from;
use crate::model::scan_output;
use crate::model::subtree_size;
use crate::model::sum_sizes_from;
use crate::model::weight;
use crate::model::weight_from;
use crate::model::wf_paths;
use crate::order::entries_paths_distinct;
use crate::order::lemma_entry_in_post_from;
use crate::order::lemma_post_from_nodup;
use crate::order::lemma_post_nodup;
use crate::order::lemma_sibling_paths_distinct;

verus! {

/// One unit of pending traversal work.
pub enum TraversalItem<'a> {
    Discovering(&'a FsNode),
    Aggregating(&'a FsNode),
}

pub open spec fn item_node<'a>(t: TraversalItem<'a>) -> FsNode {
    match t {
        TraversalItem::Discovering(n) => *n,
        TraversalItem::Aggregating(n) => *n,
    }
}

/// The entries an item will still emit once it is popped: a node being
/// discovered emits its whole post-order stream, a node being aggregated
/// emits exactly its own final entry.
pub open spec fn fut<'a>(t: TraversalItem<'a>) -> Seq<(Seq<char>, int)> {
    match t {
        TraversalItem::Discovering(n) => dir_postorder(n),
        TraversalItem::Aggregating(n) => seq![entry_of(n)],
    }
}

/// Everything the stack will still emit, topmost item first.
pub open spec fn out_of<'a>(s: Seq<TraversalItem<'a>>) -> Seq<(Seq<char>, int)>
    decreases s.len(),
{
    if s.len() == 0 {
        Seq::empty()
    } else {
        fut(s.last()) + out_of(s.drop_last())
    }
}

pub proof fn lemma_out_push<'a>(s: Seq<TraversalItem<'a>>, t: TraversalItem<'a>)
    ensures
        out_of(s.push(t)) == fut(t) + out_of(s),
{
    assert(s.push(t).drop_last() =~= s);
    assert(s.push(t).last() == t);
}

pub proof fn lemma_out_concat<'a>(a: Seq<TraversalItem<'a>>, b: Seq<TraversalItem<'a>>)
    ensures
        out_of(a + b) == out_of(b) + out_of(a),
    decreases b.len(),
{
    if b.len() == 0 {
        assert(a + b =~= a);
        assert(out_of(b) + out_of(a) =~= out_of(a));
    } else {
        assert((a + b).drop_last() =~= a + b.drop_last());
        assert((a + b).last() == b.last());
        lemma_out_concat(a, b.drop_last());
        assert(out_of(a + b) =~= out_of(b) + out_of(a));
    }
}

/// Whatever one stack item will emit is part of what the stack will emit.
pub proof fn lemma_out_member<'a>(s: Seq<TraversalItem<'a>>, k: int, e: (Seq<char>, int))
    requires
        0 <= k < s.len(),
        fut(s[k]).contains(e),
    ensures
        out_of(s).contains(e),
    decreases s.len(),
{
    if k == s.len() - 1 {
        crate::order::lemma_contains_left(fut(s.last()), out_of(s.drop_last()), e);
    } else {
        lemma_out_member(s.drop_last(), k, e);
        crate::order::lemma_contains_right(fut(s.last()), out_of(s.drop_last()), e);
    }
}

/// Termination measure of the remaining work.
pub open spec fn item_measure<'a>(t: TraversalItem<'a>) -> int {
    match t {
        TraversalItem::Discovering(n) => 2 * weight(n),
        TraversalItem::Aggregating(_) => 1,
    }
}

pub open spec fn stack_measure<'a>(s: Seq<TraversalItem<'a>>) -> int
    decreases s.len(),
{
    if s.len() == 0 {
        0
    } else {
        item_measure(s.last()) + stack_measure(s.drop_last())
    }
}

pub proof fn lemma_measure_push<'a>(s: Seq<TraversalItem<'a>>, t: TraversalItem<'a>)
    ensures
        stack_measure(s.push(t)) == stack_measure(s) + item_measure(t),
{
    assert(s.push(t).drop_last() =~= s);
    assert(s.push(t).last() == t);
}

pub proof fn lemma_measure_nonneg<'a>(s: Seq<TraversalItem<'a>>)
    ensures
        stack_measure(s) >= 0,
    decreases s.len(),
{
    if s.len() > 0 {
        lemma_measure_nonneg(s.drop_last());
        crate::model::lemma_weight_pos(&item_node(s.last()));
    }
}

// ---------------------------------------------------------------------
// The partial-size table: an association list from path to finished
// subtree total, with pairwise-distinct keys.
// ---------------------------------------------------------------------

pub open spec fn tbl_has(t: Seq<(String, u64)>, p: Seq<char>, v: int) -> bool {
    exists|k: int| 0 <= k < t.len() && (#[trigger] t[k]).0@ == p && t[k].1 as int == v
}

pub open spec fn tbl_contains(t: Seq<(String, u64)>, p: Seq<char>) -> bool {
    exists|k: int| 0 <= k < t.len() && (#[trigger] t[k]).0@ == p
}

pub open spec fn tbl_keys_distinct(t: Seq<(String, u64)>) -> bool {
    forall|k: int, l: int|
        0 <= k < l < t.len() ==> (#[trigger] t[k]).0@ != (#[trigger] t[l]).0@
}

/// Store a finished total, replacing any previous binding of the path.
fn tbl_put(table: &mut Vec<(String, u64)>, key: String, val: u64)
    requires
        tbl_keys_distinct(old(table)@),
    ensures
        tbl_keys_distinct(final(table)@),
        forall|p: Seq<char>, v: int|
            #![trigger tbl_has(final(table)@, p, v)]
            tbl_has(final(table)@, p, v) <==> if p == key@ {
                v == val as int
            } else {
                tbl_has(old(table)@, p, v)
            },
        forall|p: Seq<char>|
            #![trigger tbl_contains(final(table)@, p)]
            tbl_contains(final(table)@, p) <==> (tbl_contains(old(table)@, p) || p == key@),
{
    let n = table.len();
    let mut i: usize = 0;
    while i < n
        invariant
            n == table.len(),
            0 <= i <= n,
            table@ == old(table)@,
            tbl_keys_distinct(table@),
            forall|k: int| 0 <= k < i ==> (#[trigger] table@[k]).0@ != key@,
        decreases n - i,
    {
        if table[i].0 == key {
            let ghost t0 = table@;
            table.set(i, (key, val));
            proof {
                assert forall|p: Seq<char>, v: int|
                    tbl_has(table@, p, v) <==> if p == key@ {
                        v == val as int
                    } else {
                        tbl_has(t0, p, v)
                    } by {
                    if p == key@ {
                        if tbl_has(table@, p, v) {
                            let k = choose|k: int|
                                0 <= k < table@.len() && (#[trigger] table@[k]).0@ == p
                                    && table@[k].1 as int == v;
                            if k != i {
                                assert(t0[k] == table@[k]);
                                assert(false);
                            }
                        }
                        if v == val as int {
                            assert(table@[i as int].0@ == p && table@[i as int].1 as int == v);
                        }
                    } else {
                        if tbl_has(table@, p, v) {
                            let k = choose|k: int|
                                0 <= k < table@.len() && (#[trigger] table@[k]).0@ == p
                                    && table@[k].1 as int == v;
                            assert(t0[k] == table@[k]);
                        }
                        if tbl_has(t0, p, v) {
                            let k = choose|k: int|
                                0 <= k < t0.len() && (#[trigger] t0[k]).0@ == p && t0[k].1 as int
                                    == v;
                            assert(table@[k] == t0[k]);
                        }
                    }
                }
                assert forall|p: Seq<char>|
                    tbl_contains(table@, p) <==> (tbl_contains(t0, p) || p == key@) by {
                    if tbl_contains(table@, p) {
                        let k = choose|k: int|
                            0 <= k < table@.len() && (#[trigger] table@[k]).0@ == p;
                        if k != i {
                            assert(t0[k] == table@[k]);
                        }
                    }
                    if tbl_contains(t0, p) && p != key@ {
                        let k = choose|k: int| 0 <= k < t0.len() && (#[trigger] t0[k]).0@ == p;
                        assert(table@[k] == t0[k]);
                    }
                    if p == key@ {
                        assert(table@[i as int].0@ == p);
                    }
                }
            }
            return ;
        }
        i += 1;
    }
    let ghost t0 = table@;
    table.push((key, val));
    proof {
        assert(table@.drop_last() =~= t0);
        assert forall|p: Seq<char>, v: int|
            tbl_has(table@, p, v) <==> if p == key@ {
                v == val as int
            } else {
                tbl_has(t0, p, v)
            } by {
            if p == key@ {
                if tbl_has(table@, p, v) {
                    let k = choose|k: int|
                        0 <= k < table@.len() && (#[trigger] table@[k]).0@ == p && table@[k].1 as int
                            == v;
                    if k != t0.len() {
                        assert(t0[k] == table@[k]);
                        assert(false);
                    }
                }
                if v == val as int {
                    assert(table@[t0.len() as int].0@ == p && table@[t0.len() as int].1 as int
                        == v);
                }
            } else {
                if tbl_has(table@, p, v) {
                    let k = choose|k: int|
                        0 <= k < table@.len() && (#[trigger] table@[k]).0@ == p && table@[k].1 as int
                            == v;
                    assert(k != t0.len());
                    assert(t0[k] == table@[k]);
                }
                if tbl_has(t0, p, v) {
                    let k = choose|k: int|
                        0 <= k < t0.len() && (#[trigger] t0[k]).0@ == p && t0[k].1 as int == v;
                    assert(table@[k] == t0[k]);
                }
            }
        }
        assert forall|p: Seq<char>|
            tbl_contains(table@, p) <==> (tbl_contains(t0, p) || p == key@) by {
            if tbl_contains(table@, p) {
                let k = choose|k: int| 0 <= k < table@.len() && (#[trigger] table@[k]).0@ == p;
                if k != t0.len() {
                    assert(t0[k] == table@[k]);
                }
            }
            if tbl_contains(t0, p) {
                let k = choose|k: int| 0 <= k < t0.len() && (#[trigger] t0[k]).0@ == p;
                assert(table@[k] == t0[k]);
            }
            if p == key@ {
                assert(table@[t0.len() as int].0@ == p);
            }
        }
    }
}

/// Take a finished total out of the table.
fn tbl_remove(table: &mut Vec<(String, u64)>, key: &String) -> (r: Option<u64>)
    requires
        tbl_keys_distinct(old(table)@),
    ensures
        tbl_keys_distinct(final(table)@),
        !tbl_contains(final(table)@, key@),
        match r {
            Some(v) => tbl_has(old(table)@, key@, v as int),
            None => !tbl_contains(old(table)@, key@),
        },
        forall|p: Seq<char>, v: int|
            #![trigger tbl_has(final(table)@, p, v)]
            tbl_has(final(table)@, p, v) <==> (p != key@ && tbl_has(old(table)@, p, v)),
        forall|p: Seq<char>|
            #![trigger tbl_contains(final(table)@, p)]
            tbl_contains(final(table)@, p) <==> (p != key@ && tbl_contains(old(table)@, p)),
{
    let n = table.len();
    let mut i: usize = 0;
    while i < n
        invariant
            n == table.len(),
            0 <= i <= n,
            table@ == old(table)@,
            tbl_keys_distinct(table@),
            forall|k: int| 0 <= k < i ==> (#[trigger] table@[k]).0@ != key@,
        decreases n - i,
    {
        if table[i].0 == *key {
            let ghost t0 = table@;
            let entry = table.remove(i);
            proof {
                assert(t0[i as int].0@ == key@);
                assert forall|p: Seq<char>, v: int|
                    tbl_has(table@, p, v) <==> (p != key@ && tbl_has(t0, p, v)) by {
                    if tbl_has(table@, p, v) {
                        let k = choose|k: int|
                            0 <= k < table@.len() && (#[trigger] table@[k]).0@ == p && table@[k].1
                                as int == v;
                        if k < i {
                            assert(t0[k] == table@[k]);
                        } else {
                            assert(t0[k + 1] == table@[k]);
                        }
                    }
                    if p != key@ && tbl_has(t0, p, v) {
                        let k = choose|k: int|
                            0 <= k < t0.len() && (#[trigger] t0[k]).0@ == p && t0[k].1 as int == v;
                        if k < i {
                            assert(table@[k] == t0[k]);
                        } else {
                            assert(k != i);
                            assert(table@[k - 1] == t0[k]);
                        }
                    }
                }
                assert forall|p: Seq<char>|
                    tbl_contains(table@, p) <==> (p != key@ && tbl_contains(t0, p)) by {
                    if tbl_contains(table@, p) {
                        let k = choose|k: int|
                            0 <= k < table@.len() && (#[trigger] table@[k]).0@ == p;
                        if k < i {
                            assert(t0[k] == table@[k]);
                        } else {
                            assert(t0[k + 1] == table@[k]);
                        }
                        if p == key@ {
                            if k < i {
                                assert(false);
                            } else {
                                assert(t0[k + 1].0@ == key@ && t0[i as int].0@ == key@);
                                assert(false);
                            }
                        }
                    }
                    if p != key@ && tbl_contains(t0, p) {
                        let k = choose|k: int| 0 <= k < t0.len() && (#[trigger] t0[k]).0@ == p;
                        if k < i {
                            assert(table@[k] == t0[k]);
                        } else {
                            assert(k != i);
                            assert(table@[k - 1] == t0[k]);
                        }
                    }
                }
            }
            return Some(entry.1);
        }
        i += 1;
    }
    None
}

pub proof fn lemma_measure_concat<'a>(a: Seq<TraversalItem<'a>>, b: Seq<TraversalItem<'a>>)
    ensures
        stack_measure(a + b) == stack_measure(a) + stack_measure(b),
    decreases b.len(),
{
    if b.len() == 0 {
        assert(a + b =~= a);
    } else {
        assert((a + b).drop_last() =~= a + b.drop_last());
        assert((a + b).last() == b.last());
        lemma_measure_concat(a, b.drop_last());
    }
}

// ---------------------------------------------------------------------
// The aggregator machine.
// ---------------------------------------------------------------------

/// The paths of the children of `n` before index `j` that a fold has
/// already consumed out of the table (symbolic links are skipped and
/// consume nothing).
pub open spec fn removed_before(n: &FsNode, j: int, p: Seq<char>) -> bool {
    exists|m: int|
        #![trigger child_at(n, m)]
        0 <= m < j && !is_symlink(&child_at(n, m)) && node_path(&child_at(n, m)) == p
}

/// Every binding of the table is the finished total of the unique node of
/// the tree carrying that path.
pub open spec fn tbl_sound(root: FsNode, t: Seq<(String, u64)>) -> bool {
    forall|p: Seq<char>, v: int|
        #![trigger tbl_has(t, p, v)]
        tbl_has(t, p, v) ==> exists|x: FsNode|
            #![trigger node_path(&x)]
            in_tree(&root, &x) && node_path(&x) == p && subtree_size(&x) == v
}

/// For an item waiting to aggregate, every directory child's total is
/// either already in the table or still pending strictly above it on the
/// stack.  When the item reaches the top, nothing is above it, so every
/// child total must be in the table: the structural guarantee the fold
/// step relies on, airtight by construction.
pub open spec fn obligations_ok<'a>(
    root: FsNode,
    s: Seq<TraversalItem<'a>>,
    t: Seq<(String, u64)>,
    k: int,
) -> bool {
    match s[k] {
        TraversalItem::Aggregating(n) => forall|j: int|
            #![trigger child_at(n, j)]
            0 <= j < child_count(n) && is_dir(&child_at(n, j)) ==> (tbl_has(
                t,
                node_path(&child_at(n, j)),
                subtree_size(&child_at(n, j)),
            ) || out_of(s.skip(k + 1)).contains(entry_of(&child_at(n, j)))),
        TraversalItem::Discovering(_) => true,
    }
}

/// The resumable scanning engine: an explicit work stack, the partial-size
/// table, and a ghost record of the target output stream.
pub struct Aggregator<'a> {
    stack: Vec<TraversalItem<'a>>,
    table: Vec<(String, u64)>,
    emitted: Ghost<int>,
    root: Ghost<FsNode>,
    target: Ghost<Seq<(Seq<char>, int)>>,
}

impl<'a> Aggregator<'a> {
    /// The tree this machine is scanning.
    pub closed spec fn root(&self) -> FsNode {
        self.root@
    }

    /// The full stream of results this machine will emit over its lifetime.
    pub closed spec fn target(&self) -> Seq<(Seq<char>, int)> {
        self.target@
    }

    /// How many results have been emitted so far.
    pub closed spec fn count(&self) -> int {
        self.emitted@
    }

    pub closed spec fn inv(&self) -> bool {
        &&& wf_paths(&self.root@)
        &&& subtree_size(&self.root@) <= u64::MAX as int
        &&& entries_paths_distinct(self.target@)
        &&& 0 <= self.emitted@
        &&& self.emitted@ + out_of(self.stack@).len() == self.target@.len()
        &&& self.target@.skip(self.emitted@) == out_of(self.stack@)
        &&& tbl_keys_distinct(self.table@)
        &&& tbl_sound(self.root@, self.table@)
        &&& forall|k: int|
            #![trigger self.stack@[k]]
            0 <= k < self.stack@.len() ==> {
                &&& in_tree(&self.root@, &item_node(self.stack@[k]))
                &&& !is_symlink(&item_node(self.stack@[k]))
                &&& (self.stack@[k] is Aggregating ==> is_dir(&item_node(self.stack@[k])))
                &&& obligations_ok(self.root@, self.stack@, self.table@, k)
            }
    }

    /// Start an aggregation of the single subtree at `root`, as one
    /// invocation of the aggregator does.
    pub fn new(root: &'a FsNode) -> (r: Self)
        requires
            wf_paths(root),
            subtree_size(root) <= u64::MAX as int,
            !is_symlink(root),
        ensures
            r.inv(),
            r.root() == *root,
            r.target() == dir_postorder(root),
            r.count() == 0,
    {
        let mut stack: Vec<TraversalItem<'a>> = Vec::new();
        stack.push(TraversalItem::Discovering(root));
        let r = Aggregator {
            stack,
            table: Vec::new(),
            emitted: Ghost(0),
            root: Ghost(*root),
            target: Ghost(dir_postorder(root)),
        };
        proof {
            lemma_post_nodup(root);
            let s = r.stack@;
            assert(s.len() == 1);
            assert(s.last() == TraversalItem::Discovering(root));
            assert(s.drop_last() =~= Seq::<TraversalItem<'a>>::empty());
            assert(out_of(s.drop_last()) =~= Seq::<(Seq<char>, int)>::empty());
            assert(out_of(s) == fut(s.last()) + out_of(s.drop_last()));
            assert(fut(s.last()) == dir_postorder(root));
            assert(out_of(s) =~= dir_postorder(root));
            assert(r.target@.skip(0) =~= r.target@);
            assert(in_tree(root, root));
            assert forall|k: int| 0 <= k < r.stack@.len() implies obligations_ok(
                r.root@,
                r.stack@,
                r.table@,
                k,
            ) by {}
        }
        r
    }

    /// Start a whole scan of the directory children of `root`, as the
    /// orchestrator does: each directory child is aggregated in
    /// enumeration order; files and links directly under `root` are
    /// skipped.
    pub fn for_scan(root: &'a FsNode) -> (r: Self)
        requires
            wf_paths(root),
            subtree_size(root) <= u64::MAX as int,
            is_dir(root),
        ensures
            r.inv(),
            r.root() == *root,
            r.target() == scan_output(root),
            r.count() == 0,
    {
        let mut r = Aggregator {
            stack: Vec::new(),
            table: Vec::new(),
            emitted: Ghost(0),
            root: Ghost(*root),
            target: Ghost(scan_output(root)),
        };
        r.push_dir_children(root);
        proof {
            lemma_post_from_nodup(root, 0);
            assert(r.stack@.skip(0) =~= r.stack@);
            assert(r.target@.skip(0) =~= r.target@);
            assert(in_tree(root, root));
            assert forall|k: int| #![trigger r.stack@[k]] 0 <= k < r.stack@.len() implies {
                &&& in_tree(&r.root@, &item_node(r.stack@[k]))
                &&& !is_symlink(&item_node(r.stack@[k]))
                &&& (r.stack@[k] is Aggregating ==> is_dir(&item_node(r.stack@[k])))
                &&& obligations_ok(r.root@, r.stack@, r.table@, k)
            } by {
                let j = choose|j: int|
                    0 <= j < child_count(root) && item_node(r.stack@[k]) == #[trigger] child_at(
                        root,
                        j,
                    );
                lemma_child_in_tree(root, j);
            }
        }
        r
    }

    /// Push one `Discovering` item for each child of `n` that is not a
    /// symbolic link, in reverse enumeration order, so that the children
    /// are popped — and their results emitted — in enumeration order.
    fn push_dir_children(&mut self, n: &'a FsNode)
        requires
            is_dir(n),
        ensures
            final(self).stack@.len() >= old(self).stack@.len(),
            final(self).stack@.take(old(self).stack@.len() as int) == old(self).stack@,
            out_of(final(self).stack@.skip(old(self).stack@.len() as int)) == post_from(n, 0),
            stack_measure(final(self).stack@.skip(old(self).stack@.len() as int)) <= 2
                * weight_from(n, 0),
            forall|k: int|
                #![trigger final(self).stack@[k]]
                old(self).stack@.len() <= k < final(self).stack@.len() ==> {
                    &&& final(self).stack@[k] is Discovering
                    &&& !is_symlink(&item_node(final(self).stack@[k]))
                    &&& exists|j: int|
                        0 <= j < child_count(n) && item_node(final(self).stack@[k])
                            == #[trigger] child_at(n, j)
                },
            final(self).table == old(self).table,
            final(self).emitted == old(self).emitted,
            final(self).root == old(self).root,
            final(self).target == old(self).target,
    {
        let ghost base = self.stack@;
        match n {
            FsNode::Dir { children, .. } => {
                let mut j: usize = children.len();
                proof {
                    assert(self.stack@.skip(base.len() as int) =~= Seq::<
                        TraversalItem<'a>,
                    >::empty());
                    assert(self.stack@.take(base.len() as int) =~= base);
                }
                while j > 0
                    invariant
                        is_dir(n),
                        child_count(n) == children@.len(),
                        forall|m: int|
                            0 <= m < children@.len() ==> #[trigger] child_at(n, m) == children@[m],
                        j <= children.len(),
                        self.stack@.len() >= base.len(),
                        self.stack@.take(base.len() as int) == base,
                        out_of(self.stack@.skip(base.len() as int)) == post_from(n, j as int),
                        stack_measure(self.stack@.skip(base.len() as int)) <= 2 * weight_from(
                            n,
                            j as int,
                        ),
                        forall|k: int|
                            #![trigger self.stack@[k]]
                            base.len() <= k < self.stack@.len() ==> {
                                &&& self.stack@[k] is Discovering
                                &&& !is_symlink(&item_node(self.stack@[k]))
                                &&& exists|j2: int|
                                    0 <= j2 < child_count(n) && item_node(self.stack@[k])
                                        == #[trigger] child_at(n, j2)
                            },
                        self.table == old(self).table,
                        self.emitted == old(self).emitted,
                        self.root == old(self).root,
                        self.target == old(self).target,
                    decreases j,
                {
                    j -= 1;
                    let c = &children[j];
                    let ghost pre = self.stack@;
                    match c {
                        FsNode::Symlink { .. } => {
                            proof {
                                assert(child_at(n, j as int) == children@[j as int]);
                                assert(dir_postorder(c) =~= Seq::<(Seq<char>, int)>::empty());
                                assert(post_from(n, j as int) =~= post_from(n, j as int + 1));
                                lemma_weight_pos(c);
                            }
                        },
                        _ => {
                            self.stack.push(TraversalItem::Discovering(c));
                            proof {
                                assert(child_at(n, j as int) == children@[j as int]);
                                assert(self.stack@.take(base.len() as int) =~= base);
                                assert(self.stack@.skip(base.len() as int) =~= pre.skip(
                                    base.len() as int,
                                ).push(TraversalItem::Discovering(c)));
                                lemma_out_push(
                                    pre.skip(base.len() as int),
                                    TraversalItem::Discovering(c),
                                );
                                assert(out_of(self.stack@.skip(base.len() as int))
                                    =~= dir_postorder(c) + post_from(n, j as int + 1));
                                assert(out_of(self.stack@.skip(base.len() as int)) =~= post_from(
                                    n,
                                    j as int,
                                ));
                                lemma_measure_push(
                                    pre.skip(base.len() as int),
                                    TraversalItem::Discovering(c),
                                );
                                assert forall|k: int|
                                    base.len() <= k < self.stack@.len() implies {
                                    &&& self.stack@[k] is Discovering
                                    &&& !is_symlink(&item_node(self.stack@[k]))
                                    &&& exists|j2: int|
                                        0 <= j2 < child_count(n) && item_node(self.stack@[k])
                                            == #[trigger] child_at(n, j2)
                                } by {
                                    if k < pre.len() {
                                        assert(self.stack@[k] == pre[k]);
                                    } else {
                                        assert(self.stack@[k] == TraversalItem::Discovering(c));
                                        assert(item_node(self.stack@[k]) == child_at(n, j as int));
                                    }
                                }
                            }
                        },
                    }
                }
            },
            _ => {
                proof {
                    assert(false);
                }
            },
        }
    }

    /// Run the traversal until the next directory total is complete and
    /// return its entry; return `None` once the whole stream has been
    /// emitted.  The `k`-th successful call returns exactly element `k`
    /// of the target stream, so stopping early — simply not calling
    /// again — leaves every already-returned entry valid.
    pub fn next(&mut self) -> (r: Option<FileEntry>)
        requires
            old(self).inv(),
        ensures
            final(self).inv(),
            final(self).root() == old(self).root(),
            final(self).target() == old(self).target(),
            old(self).count() < old(self).target().len() ==> {
                &&& final(self).count() == old(self).count() + 1
                &&& r matches Some(e) && e.file@ == old(self).target()[old(self).count()].0
                    && e.size as int == old(self).target()[old(self).count()].1 && e.accessed
                    is None
            },
            old(self).count() >= old(self).target().len() ==> r is None && final(self).count()
                == old(self).count(),
    {
        loop
            invariant
                old(self).inv(),
                self.inv(),
                self.root == old(self).root,
                self.target == old(self).target,
                self.emitted == old(self).emitted,
            decreases stack_measure(self.stack@),
        {
            let ghost s0 = self.stack@;
            let ghost t_snap = self.table@;
            let ghost root0 = self.root@;
            let ghost em0 = self.emitted@;
            proof {
                lemma_measure_nonneg(s0);
            }
            let popped = self.stack.pop();
            match popped {
                None => {
                    proof {
                        assert(out_of(s0) =~= Seq::<(Seq<char>, int)>::empty());
                        assert(self.target@.skip(em0).len() == 0);
                        assert(self.emitted@ == self.target@.len());
                        assert(self.stack@ =~= s0);
                    }
                    return None;
                },
                Some(item) => {
                    let ghost rest = self.stack@;
                    proof {
                        assert(rest =~= s0.drop_last());
                        assert(item == s0.last());
                        assert(s0[s0.len() - 1] == item);
                        assert(out_of(s0) == fut(item) + out_of(rest));
                        assert(in_tree(&root0, &item_node(item)));
                        assert(!is_symlink(&item_node(item)));
                        assert(forall|k: int|
                            0 <= k < rest.len() ==> rest[k] == #[trigger] s0[k]);
                    }
                    match item {
                        TraversalItem::Discovering(node) => {
                            match node {
                                FsNode::Symlink { .. } => {
                                    proof {
                                        assert(false);
                                    }
                                },
                                FsNode::File { path, size } => {
                                    proof {
                                        assert(sum_sizes_from(node, 0) == 0);
                                        assert(subtree_size(node) == *size as int);
                                        assert(fut(item) =~= Seq::<(Seq<char>, int)>::empty());
                                        assert(out_of(s0) =~= out_of(rest));
                                    }
                                    tbl_put(&mut self.table, path.clone(), *size);
                                    proof {
                                        // the new binding is the file's own finished total
                                        assert forall|p: Seq<char>, v: int|
                                            #![trigger tbl_has(self.table@, p, v)]
                                            tbl_has(self.table@, p, v) implies exists|x: FsNode|
                                                #![trigger node_path(&x)]
                                                in_tree(&root0, &x) && node_path(&x) == p
                                                    && subtree_size(&x) == v by {
                                            if p == path@ {
                                                let x = *node;
                                                assert(in_tree(&root0, &x) && node_path(&x) == p
                                                    && subtree_size(&x) == v);
                                            } else {
                                                assert(tbl_has(t_snap, p, v));
                                            }
                                        }
                                        assert forall|k: int|
                                            #![trigger self.stack@[k]]
                                            0 <= k < self.stack@.len() implies {
                                            &&& in_tree(&self.root@, &item_node(self.stack@[k]))
                                            &&& !is_symlink(&item_node(self.stack@[k]))
                                            &&& (self.stack@[k] is Aggregating ==> is_dir(
                                                &item_node(self.stack@[k]),
                                            ))
                                            &&& obligations_ok(
                                                self.root@,
                                                self.stack@,
                                                self.table@,
                                                k,
                                            )
                                        } by {
                                            assert(s0[k] == self.stack@[k]);
                                            assert(obligations_ok(root0, s0, t_snap, k));
                                            let it = self.stack@[k];
                                            match it {
                                                TraversalItem::Aggregating(nn) => {
                                                    assert forall|j2: int|
                                                        #![trigger child_at(nn, j2)]
                                                        0 <= j2 < child_count(nn) && is_dir(
                                                            &child_at(nn, j2),
                                                        ) implies (tbl_has(
                                                        self.table@,
                                                        node_path(&child_at(nn, j2)),
                                                        subtree_size(&child_at(nn, j2)),
                                                    ) || out_of(self.stack@.skip(k + 1)).contains(
                                                        entry_of(&child_at(nn, j2)),
                                                    )) by {
                                                        let c = child_at(nn, j2);
                                                        assert(s0.skip(k + 1).drop_last()
                                                            =~= self.stack@.skip(k + 1));
                                                        assert(s0.skip(k + 1).last() == item);
                                                        assert(out_of(s0.skip(k + 1)) == fut(item)
                                                            + out_of(self.stack@.skip(k + 1)));
                                                        assert(out_of(s0.skip(k + 1))
                                                            =~= out_of(self.stack@.skip(k + 1)));
                                                        if tbl_has(
                                                            t_snap,
                                                            node_path(&c),
                                                            subtree_size(&c),
                                                        ) {
                                                            if node_path(&c) == path@ {
                                                                lemma_child_in_tree(nn, j2);
                                                                lemma_in_tree_trans(
                                                                    &root0,
                                                                    nn,
                                                                    &c,
                                                                );
                                                                lemma_unique(&root0, &c, node);
                                                                assert(false);
                                                            }
                                                        }
                                                    }
                                                },
                                                TraversalItem::Discovering(_) => {},
                                            }
                                        }
                                        lemma_weight_pos(node);
                                        assert(stack_measure(s0) == item_measure(item)
                                            + stack_measure(rest));
                                        lemma_measure_nonneg(rest);
                                    }
                                },
                                FsNode::Dir { .. } => {
                                    self.stack.push(TraversalItem::Aggregating(node));
                                    let ghost mid = self.stack@;
                                    proof {
                                        lemma_out_push(rest, TraversalItem::Aggregating(node));
                                        lemma_measure_push(
                                            rest,
                                            TraversalItem::Aggregating(node),
                                        );
                                    }
                                    self.push_dir_children(node);
                                    proof {
                                        let f = self.stack@;
                                        let pushed = f.skip(mid.len() as int);
                                        assert(f =~= mid + pushed);
                                        lemma_out_concat(mid, pushed);
                                        assert(out_of(f) == out_of(pushed) + out_of(mid));
                                        assert(out_of(f) =~= out_of(s0)) by {
                                            assert(out_of(pushed) == post_from(node, 0));
                                            assert(out_of(mid) == seq![entry_of(node)] + out_of(
                                                rest,
                                            ));
                                            assert(fut(item) == dir_postorder(node));
                                            assert(dir_postorder(node) == post_from(node, 0)
                                                + seq![entry_of(node)]);
                                            assert(out_of(s0) == fut(item) + out_of(rest));
                                        }
                                        lemma_measure_concat(mid, pushed);
                                        assert(weight(node) == 1 + weight_from(node, 0));
                                        assert(stack_measure(s0) == 2 * weight(node)
                                            + stack_measure(rest));
                                        lemma_measure_nonneg(f);
                                        // items: the prefix is unchanged, the pushed items are
                                        // children of `node`, and `node` itself now aggregates.
                                        assert forall|k: int|
                                            #![trigger self.stack@[k]]
                                            0 <= k < self.stack@.len() implies {
                                            &&& in_tree(&self.root@, &item_node(self.stack@[k]))
                                            &&& !is_symlink(&item_node(self.stack@[k]))
                                            &&& (self.stack@[k] is Aggregating ==> is_dir(
                                                &item_node(self.stack@[k]),
                                            ))
                                            &&& obligations_ok(
                                                self.root@,
                                                self.stack@,
                                                self.table@,
                                                k,
                                            )
                                        } by {
                                            if k < rest.len() {
                                                assert(f[k] == rest[k] && rest[k] == s0[k]);
                                                assert(obligations_ok(root0, s0, t_snap, k));
                                                let it = f[k];
                                                match it {
                                                    TraversalItem::Aggregating(nn) => {
                                                        assert forall|j2: int|
                                                            #![trigger child_at(nn, j2)]
                                                            0 <= j2 < child_count(nn) && is_dir(
                                                                &child_at(nn, j2),
                                                            ) implies (tbl_has(
                                                            self.table@,
                                                            node_path(&child_at(nn, j2)),
                                                            subtree_size(&child_at(nn, j2)),
                                                        ) || out_of(f.skip(k + 1)).contains(
                                                            entry_of(&child_at(nn, j2)),
                                                        )) by {
                                                            assert(f.skip(k + 1) =~= mid.skip(
                                                                k + 1,
                                                            ) + pushed);
                                                            lemma_out_concat(
                                                                mid.skip(k + 1),
                                                                pushed,
                                                            );
                                                            assert(mid.skip(k + 1) =~= rest.skip(
                                                                k + 1,
                                                            ).push(TraversalItem::Aggregating(
                                                                node,
                                                            )));
                                                            lemma_out_push(
                                                                rest.skip(k + 1),
                                                                TraversalItem::Aggregating(node),
                                                            );
                                                            assert(s0.skip(k + 1).drop_last()
                                                                =~= rest.skip(k + 1));
                                                            assert(s0.skip(k + 1).last() == item);
                                                            assert(out_of(s0.skip(k + 1)) == fut(
                                                                item,
                                                            ) + out_of(rest.skip(k + 1)));
                                                            assert(out_of(f.skip(k + 1))
                                                                =~= out_of(s0.skip(k + 1)));
                                                        }
                                                    },
                                                    TraversalItem::Discovering(_) => {},
                                                }
                                            } else if k == rest.len() {
                                                assert(f[k] == mid[k]);
                                                assert(f[k] == TraversalItem::Aggregating(node));
                                                assert forall|j2: int|
                                                    #![trigger child_at(node, j2)]
                                                    0 <= j2 < child_count(node) && is_dir(
                                                        &child_at(node, j2),
                                                    ) implies (tbl_has(
                                                    self.table@,
                                                    node_path(&child_at(node, j2)),
                                                    subtree_size(&child_at(node, j2)),
                                                ) || out_of(f.skip(k + 1)).contains(
                                                    entry_of(&child_at(node, j2)),
                                                )) by {
                                                    assert(f.skip(k + 1) =~= pushed);
                                                    lemma_entry_in_post_from(node, 0, j2);
                                                }
                                            } else {
                                                // one of the freshly pushed children
                                                let j2 = choose|j2: int|
                                                    0 <= j2 < child_count(node) && item_node(f[k])
                                                        == #[trigger] child_at(node, j2);
                                                lemma_child_in_tree(node, j2);
                                                lemma_in_tree_trans(
                                                    &root0,
                                                    node,
                                                    &child_at(node, j2),
                                                );
                                            }
                                        }
                                    }
                                },
                            }
                        },
                        TraversalItem::Aggregating(node) => {
                            proof {
                                assert(is_dir(&item_node(item)));
                            }
                            match node {
                                FsNode::Dir { path: dpath, size: dsize, children } => {
                                    proof {
                                        lemma_size_mono(&root0, node);
                                        lemma_size_nonneg(node);
                                        // at the top of the stack, every directory child's
                                        // total must already be in the table
                                        assert(obligations_ok(root0, s0, t_snap, s0.len() - 1));
                                        assert(s0.skip(s0.len() as int) =~= Seq::<
                                            TraversalItem<'a>,
                                        >::empty());
                                        assert forall|j2: int|
                                            #![trigger child_at(node, j2)]
                                            0 <= j2 < child_count(node) && is_dir(
                                                &child_at(node, j2),
                                            ) implies tbl_has(
                                            t_snap,
                                            node_path(&child_at(node, j2)),
                                            subtree_size(&child_at(node, j2)),
                                        ) by {
                                            assert(!out_of(s0.skip(s0.len() - 1 + 1)).contains(
                                                entry_of(&child_at(node, j2)),
                                            ));
                                        }
                                    }
                                    let mut total: u64 = *dsize;
                                    let mut j: usize = 0;
                                    while j < children.len()
                                        invariant
                                            old(self).inv(),
                                            is_dir(node),
                                            in_tree(&root0, node),
                                            child_count(node) == children@.len(),
                                            forall|m: int|
                                                0 <= m < children@.len() ==> #[trigger] child_at(
                                                    node,
                                                    m,
                                                ) == children@[m],
                                            0 <= j <= children.len(),
                                            subtree_size(node) <= u64::MAX as int,
                                            total as int == subtree_size(node) - sum_sizes_from(
                                                node,
                                                j as int,
                                            ),
                                            self.stack@ == rest,
                                            self.root@ == root0,
                                            self.root == old(self).root,
                                            self.target == old(self).target,
                                            self.emitted == old(self).emitted,
                                            self.emitted@ == em0,
                                            tbl_keys_distinct(self.table@),
                                            forall|j2: int|
                                                #![trigger child_at(node, j2)]
                                                0 <= j2 < child_count(node) && is_dir(
                                                    &child_at(node, j2),
                                                ) ==> tbl_has(
                                                    t_snap,
                                                    node_path(&child_at(node, j2)),
                                                    subtree_size(&child_at(node, j2)),
                                                ),
                                            forall|p: Seq<char>, v: int|
                                                #![trigger tbl_has(self.table@, p, v)]
                                                tbl_has(self.table@, p, v) <==> (tbl_has(
                                                    t_snap,
                                                    p,
                                                    v,
                                                ) && !removed_before(node, j as int, p)),
                                        decreases children.len() - j,
                                    {
                                        let c = &children[j];
                                        let ghost t_pre = self.table@;
                                        proof {
                                            assert(child_at(node, j as int) == children@[j as int]);
                                            assert(sum_sizes_from(node, j as int) == subtree_size(
                                                c,
                                            ) + sum_sizes_from(node, j as int + 1));
                                            lemma_sum_sizes_nonneg(node, j as int + 1);
                                            lemma_size_nonneg(c);
                                        }
                                        match c {
                                            FsNode::Symlink { .. } => {
                                                proof {
                                                    assert(subtree_size(c) == 0);
                                                    assert forall|p: Seq<char>|
                                                        removed_before(node, j as int + 1, p)
                                                            <==> removed_before(
                                                            node,
                                                            j as int,
                                                            p,
                                                        ) by {
                                                        if removed_before(node, j as int + 1, p) {
                                                            let m = choose|m: int|
                                                                0 <= m < j as int + 1
                                                                    && !is_symlink(
                                                                    &#[trigger] child_at(node, m),
                                                                ) && node_path(&child_at(node, m))
                                                                    == p;
                                                            assert(m < j as int);
                                                        }
                                                    }
                                                }
                                            },
                                            FsNode::File { path: fpath, size: fsize } => {
                                                proof {
                                                    assert(sum_sizes_from(c, 0) == 0);
                                                    assert(subtree_size(c) == *fsize as int);
                                                }
                                                total = total + *fsize;
                                                // the size recorded at discovery is consumed by
                                                // the probe above; evict it so the table stays
                                                // bounded by the open frontier
                                                let ghost removed_path = node_path(c);
                                                let _ = tbl_remove(&mut self.table, fpath);
                                                proof {
                                                    assert forall|p: Seq<char>|
                                                        removed_before(node, j as int + 1, p)
                                                            <==> (removed_before(node, j as int, p)
                                                            || p == removed_path) by {
                                                        if removed_before(node, j as int + 1, p) {
                                                            let m = choose|m: int|
                                                                0 <= m < j as int + 1
                                                                    && !is_symlink(
                                                                    &#[trigger] child_at(node, m),
                                                                ) && node_path(&child_at(node, m))
                                                                    == p;
                                                            if m == j as int {
                                                                assert(p == removed_path);
                                                            } else {
                                                                assert(removed_before(
                                                                    node,
                                                                    j as int,
                                                                    p,
                                                                ));
                                                            }
                                                        }
                                                        if p == removed_path {
                                                            assert(!is_symlink(
                                                                &child_at(node, j as int),
                                                            ) && node_path(
                                                                &child_at(node, j as int),
                                                            ) == p);
                                                        }
                                                    }
                                                }
                                            },
                                            FsNode::Dir { path: cpath, .. } => {
                                                proof {
                                                    // the child's total is present: it was in
                                                    // the table at entry and no earlier sibling
                                                    // shares its path
                                                    assert(tbl_has(
                                                        t_snap,
                                                        node_path(c),
                                                        subtree_size(c),
                                                    ));
                                                    if removed_before(
                                                        node,
                                                        j as int,
                                                        node_path(c),
                                                    ) {
                                                        let m = choose|m: int|
                                                            0 <= m < j as int && !is_symlink(
                                                                &#[trigger] child_at(node, m),
                                                            ) && node_path(&child_at(node, m))
                                                                == node_path(c);
                                                        lemma_sibling_paths_distinct(
                                                            &root0,
                                                            node,
                                                            m,
                                                            j as int,
                                                        );
                                                        assert(false);
                                                    }
                                                    assert(tbl_has(
                                                        self.table@,
                                                        node_path(c),
                                                        subtree_size(c),
                                                    ));
                                                }
                                                let got = tbl_remove(&mut self.table, cpath);
                                                match got {
                                                    Some(v) => {
                                                        proof {
                                                            // with distinct keys the removed
                                                            // binding is the child's total
                                                            assert(v as int == subtree_size(
                                                                c,
                                                            )) by {
                                                                assert(tbl_has(
                                                                    t_pre,
                                                                    node_path(c),
                                                                    v as int,
                                                                ));
                                                                assert(tbl_has(
                                                                    t_pre,
                                                                    node_path(c),
                                                                    subtree_size(c),
                                                                ));
                                                                let k1 = choose|k1: int|
                                                                    0 <= k1 < t_pre.len() && (
                                                                    #[trigger] t_pre[k1]).0@
                                                                        == node_path(c)
                                                                        && t_pre[k1].1 as int
                                                                        == v as int;
                                                                let k2 = choose|k2: int|
                                                                    0 <= k2 < t_pre.len() && (
                                                                    #[trigger] t_pre[k2]).0@
                                                                        == node_path(c)
                                                                        && t_pre[k2].1 as int
                                                                        == subtree_size(c);
                                                                if k1 != k2 {
                                                                    assert(tbl_keys_distinct(
                                                                        t_pre,
                                                                    ));
                                                                    assert(false);
                                                                }
                                                            }
                                                        }
                                                        total = total + v;
                                                        proof {
                                                            let removed_path = node_path(c);
                                                            assert forall|p: Seq<char>|
                                                                removed_before(
                                                                    node,
                                                                    j as int + 1,
                                                                    p,
                                                                ) <==> (removed_before(
                                                                node,
                                                                j as int,
                                                                p,
                                                            ) || p == removed_path) by {
                                                                if removed_before(
                                                                    node,
                                                                    j as int + 1,
                                                                    p,
                                                                ) {
                                                                    let m = choose|m: int|
                                                                        0 <= m < j as int + 1
                                                                            && !is_symlink(
                                                                            &#[trigger] child_at(
                                                                                node,
                                                                                m,
                                                                            ),
                                                                        ) && node_path(
                                                                            &child_at(node, m),
                                                                        ) == p;
                                                                    if m == j as int {
                                                                        assert(p == removed_path);
                                                                    } else {
                                                                        assert(removed_before(
                                                                            node,
                                                                            j as int,
                                                                            p,
                                                                        ));
                                                                    }
                                                                }
                                                                if p == removed_path {
                                                                    assert(!is_symlink(
                                                                        &child_at(
                                                                            node,
                                                                            j as int,
                                                                        ),
                                                                    ) && node_path(
                                                                        &child_at(node, j as int),
                                                                    ) == p);
                                                                }
                                                            }
                                                        }
                                                    },
                                                    None => {
                                                        proof {
                                                            assert(false);
                                                        }
                                                    },
                                                }
                                            },
                                        }
                                        j += 1;
                                    }
                                    proof {
                                        assert(sum_sizes_from(node, children@.len() as int) == 0);
                                        assert(total as int == subtree_size(node));
                                    }
                                    let out_path = dpath.clone();
                                    tbl_put(&mut self.table, dpath.clone(), total);
                                    proof {
                                        self.emitted@ = em0 + 1;
                                    }
                                    let entry = FileEntry {
                                        file: out_path,
                                        size: total,
                                        accessed: None,
                                    };
                                    proof {
                                        let tgt = self.target@;
                                        assert(out_of(s0) == seq![entry_of(node)] + out_of(rest));
                                        assert(tgt.skip(em0) == out_of(s0));
                                        assert(tgt.skip(em0)[0] == entry_of(node));
                                        assert(tgt[em0] == entry_of(node));
                                        assert(em0 < tgt.len());
                                        assert(tgt.skip(em0 + 1) =~= out_of(rest)) by {
                                            assert forall|ii: int|
                                                0 <= ii < tgt.len() - (em0 + 1) implies tgt.skip(
                                                em0 + 1,
                                            )[ii] == out_of(rest)[ii] by {
                                                assert(tgt.skip(em0)[ii + 1] == tgt[em0 + 1 + ii]);
                                                assert((seq![entry_of(node)] + out_of(rest))[ii
                                                    + 1] == out_of(rest)[ii]);
                                            }
                                        }
                                        // table soundness and the remaining obligations
                                        assert forall|p: Seq<char>, v: int|
                                            #![trigger tbl_has(self.table@, p, v)]
                                            tbl_has(self.table@, p, v) implies exists|x: FsNode|
                                                #![trigger node_path(&x)]
                                                in_tree(&root0, &x) && node_path(&x) == p
                                                    && subtree_size(&x) == v by {
                                            if p == dpath@ {
                                                let x = *node;
                                                assert(in_tree(&root0, &x) && node_path(&x) == p
                                                    && subtree_size(&x) == v);
                                            } else {
                                                assert(tbl_has(t_snap, p, v));
                                            }
                                        }
                                        assert forall|k: int|
                                            #![trigger self.stack@[k]]
                                            0 <= k < self.stack@.len() implies {
                                            &&& in_tree(&self.root@, &item_node(self.stack@[k]))
                                            &&& !is_symlink(&item_node(self.stack@[k]))
                                            &&& (self.stack@[k] is Aggregating ==> is_dir(
                                                &item_node(self.stack@[k]),
                                            ))
                                            &&& obligations_ok(
                                                self.root@,
                                                self.stack@,
                                                self.table@,
                                                k,
                                            )
                                        } by {
                                            assert(self.stack@[k] == rest[k] && rest[k] == s0[k]);
                                            assert(obligations_ok(root0, s0, t_snap, k));
                                            let it = self.stack@[k];
                                            match it {
                                                TraversalItem::Aggregating(nn) => {
                                                    assert forall|j2: int|
                                                        #![trigger child_at(nn, j2)]
                                                        0 <= j2 < child_count(nn) && is_dir(
                                                            &child_at(nn, j2),
                                                        ) implies (tbl_has(
                                                        self.table@,
                                                        node_path(&child_at(nn, j2)),
                                                        subtree_size(&child_at(nn, j2)),
                                                    ) || out_of(rest.skip(k + 1)).contains(
                                                        entry_of(&child_at(nn, j2)),
                                                    )) by {
                                                        let c = child_at(nn, j2);
                                                        let pc = node_path(&c);
                                                        assert(in_tree(&root0, nn));
                                                        lemma_child_in_tree(nn, j2);
                                                        lemma_in_tree_trans(&root0, nn, &c);
                                                        assert(s0.skip(k + 1).drop_last()
                                                            =~= rest.skip(k + 1));
                                                        assert(s0.skip(k + 1).last() == item);
                                                        assert(out_of(s0.skip(k + 1)) == fut(item)
                                                            + out_of(rest.skip(k + 1)));
                                                        if tbl_has(t_snap, pc, subtree_size(&c)) {
                                                            // was it consumed by this fold?
                                                            if removed_before(
                                                                node,
                                                                children@.len() as int,
                                                                pc,
                                                            ) {
                                                                let m = choose|m: int|
                                                                    0 <= m < children@.len()
                                                                        && !is_symlink(
                                                                        &#[trigger] child_at(
                                                                            node,
                                                                            m,
                                                                        ),
                                                                    ) && node_path(
                                                                        &child_at(node, m),
                                                                    ) == pc;
                                                                lemma_child_in_tree(node, m);
                                                                lemma_in_tree_trans(
                                                                    &root0,
                                                                    node,
                                                                    &child_at(node, m),
                                                                );
                                                                lemma_unique(
                                                                    &root0,
                                                                    &c,
                                                                    &child_at(node, m),
                                                                );
                                                                lemma_parent_unique(
                                                                    &root0,
                                                                    nn,
                                                                    j2,
                                                                    node,
                                                                    m,
                                                                );
                                                                // then nn and node are the same
                                                                // directory, and its entry would
                                                                // have to appear twice
                                                                assert(*nn == *node);
                                                                assert(entry_of(nn) == entry_of(
                                                                    node,
                                                                ));
                                                                assert(fut(rest[k]).contains(
                                                                    entry_of(node),
                                                                ));
                                                                lemma_out_member(
                                                                    rest,
                                                                    k,
                                                                    entry_of(node),
                                                                );
                                                                assert(out_of(rest).contains(
                                                                    entry_of(node),
                                                                ));
                                                                let l = choose|l: int|
                                                                    0 <= l < out_of(rest).len()
                                                                        && #[trigger] out_of(
                                                                        rest,
                                                                    )[l] == entry_of(node);
                                                                assert(self.target@.skip(
                                                                    em0 + 1,
                                                                )[l] == entry_of(node));
                                                                assert(self.target@[em0 + 1 + l]
                                                                    == entry_of(node));
                                                                assert(self.target@[em0]
                                                                    == entry_of(node));
                                                                assert(entries_paths_distinct(
                                                                    self.target@,
                                                                ));
                                                                assert(false);
                                                            } else {
                                                                assert(tbl_has(
                                                                    self.table@,
                                                                    pc,
                                                                    subtree_size(&c),
                                                                )) by {
                                                                    if pc == dpath@ {
                                                                        lemma_unique(
                                                                            &root0,
                                                                            &c,
                                                                            node,
                                                                        );
                                                                    }
                                                                }
                                                            }
                                                        } else {
                                                            // pending above on the old stack
                                                            assert(out_of(s0.skip(k + 1)).contains(
                                                                entry_of(&c),
                                                            ));
                                                            if entry_of(&c) == entry_of(node) {
                                                                lemma_unique(&root0, &c, node);
                                                                assert(tbl_has(
                                                                    self.table@,
                                                                    pc,
                                                                    subtree_size(&c),
                                                                ));
                                                            } else {
                                                                let l = choose|l: int|
                                                                    0 <= l < out_of(
                                                                        s0.skip(k + 1),
                                                                    ).len() && #[trigger] out_of(
                                                                        s0.skip(k + 1),
                                                                    )[l] == entry_of(&c);
                                                                assert(l != 0);
                                                                assert(out_of(rest.skip(k + 1))[l
                                                                    - 1] == entry_of(&c));
                                                            }
                                                        }
                                                    }
                                                },
                                                TraversalItem::Discovering(_) => {},
                                            }
                                        }
                                    }
                                    return Some(entry);
                                },
                                _ => {
                                    proof {
                                        assert(false);
                                    }
                                },
                            }
                        },
                    }
                },
            }
        }
    }
}

/// Aggregate the subtree at `root` to completion: the returned entries are
/// exactly the post-order result stream, one entry per directory, each
/// directory after all of its descendants.
pub fn aggregate_tree(root: &FsNode) -> (v: Vec<FileEntry>)
    requires
        wf_paths(root),
        subtree_size(root) <= u64::MAX as int,
        !is_symlink(root),
    ensures
        v@.len() == dir_postorder(root).len(),
        forall|i: int|
            #![trigger v@[i]]
            0 <= i < v@.len() ==> v@[i].file@ == dir_postorder(root)[i].0 && v@[i].size as int
                == dir_postorder(root)[i].1 && v@[i].accessed is None,
{
    let mut agg = Aggregator::new(root);
    let mut v: Vec<FileEntry> = Vec::new();
    loop
        invariant
            agg.inv(),
            agg.target() == dir_postorder(root),
            agg.count() == v@.len(),
            forall|i: int|
                #![trigger v@[i]]
                0 <= i < v@.len() ==> v@[i].file@ == dir_postorder(root)[i].0 && v@[i].size as int
                    == dir_postorder(root)[i].1 && v@[i].accessed is None,
        decreases agg.target().len() - agg.count(),
    {
        match agg.next() {
            Some(e) => { v.push(e) },
            None => { return v; },
        }
    }
}

/// Scan the directory children of `root` to completion, each aggregated in
/// enumeration order, as one scan request does.  Files and links directly
/// under `root` are skipped.
pub fn scan_children(root: &FsNode) -> (v: Vec<FileEntry>)
    requires
        wf_paths(root),
        subtree_size(root) <= u64::MAX as int,
        is_dir(root),
    ensures
        v@.len() == scan_output(root).len(),
        forall|i: int|
            #![trigger v@[i]]
            0 <= i < v@.len() ==> v@[i].file@ == scan_output(root)[i].0 && v@[i].size as int
                == scan_output(root)[i].1 && v@[i].accessed is None,
{
    let mut agg = Aggregator::for_scan(root);
    let mut v: Vec<FileEntry> = Vec::new();
    loop
        invariant
            agg.inv(),
            agg.target() == scan_output(root),
            agg.count() == v@.len(),
            forall|i: int|
                #![trigger v@[i]]
                0 <= i < v@.len() ==> v@[i].file@ == scan_output(root)[i].0 && v@[i].size as int
                    == scan_output(root)[i].1 && v@[i].accessed is None,
        decreases agg.target().len() - agg.count(),
    {
        match agg.next() {
            Some(e) => { v.push(e) },
            None => { return v; },
        }
    }
}

} // verus!
