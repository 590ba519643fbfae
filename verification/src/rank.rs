//! The rank maintainer: re-sort accumulated results by descending size.
//!
//! The sort repeatedly moves the first largest remaining entry to the
//! output, so entries of equal size keep their relative order, and
//! ranking an already-sorted list leaves it exactly as it is.

use vstd::prelude::*;

use crate::FileEntry;
use vstd::multiset::Multiset;

verus! {

broadcast use vstd::seq_lib::group_to_multiset_ensures;

/// Sorted by size, largest first.
pub open spec fn sorted_desc(s: Seq<FileEntry>) -> bool {
    forall|i: int, j: int|
        0 <= i <= j < s.len() ==> (#[trigger] s[i]).size >= (#[trigger] s[j]).size
}

/// Index of the first entry with the largest size.
fn first_max_index(entries: &Vec<FileEntry>) -> (best: usize)
    requires
        entries@.len() > 0,
    ensures
        0 <= best < entries@.len(),
        forall|m: int| 0 <= m < entries@.len() ==> entries@[best as int].size >= (
        #[trigger] entries@[m]).size,
        forall|m: int| 0 <= m < best ==> (#[trigger] entries@[m]).size < entries@[
            best as int
        ].size,
{
    let mut best: usize = 0;
    let mut i: usize = 1;
    while i < entries.len()
        invariant
            0 <= best < i <= entries@.len(),
            forall|m: int| 0 <= m < i ==> entries@[best as int].size >= (
            #[trigger] entries@[m]).size,
            forall|m: int| 0 <= m < best ==> (#[trigger] entries@[m]).size < entries@[
                best as int
            ].size,
        decreases entries@.len() - i,
    {
        if entries[i].size > entries[best].size {
            best = i;
        }
        i += 1;
    }
    best
}

/// Sort the accumulated entries by size, descending.  The result holds
/// exactly the same entries; and re-ranking is idempotent: ranking a list
/// that is already sorted descending returns it unchanged.
pub fn rerank(entries: &mut Vec<FileEntry>)
    ensures
        sorted_desc(final(entries)@),
        final(entries)@.to_multiset() == old(entries)@.to_multiset(),
        final(entries)@.len() == old(entries)@.len(),
        sorted_desc(old(entries)@) ==> final(entries)@ == old(entries)@,
{
    let ghost orig = entries@;
    let mut out: Vec<FileEntry> = Vec::new();
    while entries.len() > 0
        invariant
            out@.to_multiset().add(entries@.to_multiset()) == orig.to_multiset(),
            out@.len() + entries@.len() == orig.len(),
            sorted_desc(out@),
            forall|i: int, j: int|
                0 <= i < out@.len() && 0 <= j < entries@.len() ==> (#[trigger] out@[i]).size >= (
                #[trigger] entries@[j]).size,
            sorted_desc(orig) ==> out@ + entries@ == orig,
        decreases entries@.len(),
    {
        let best = first_max_index(entries);
        let ghost pre_out = out@;
        let ghost pre_rem = entries@;
        let e = entries.remove(best);
        out.push(e);
        proof {
            assert(out@ == pre_out.push(e));
            assert(entries@ == pre_rem.remove(best as int));
            assert(out@.to_multiset() =~= pre_out.to_multiset().insert(e));
            assert(entries@.to_multiset() =~= pre_rem.to_multiset().remove(e));
            assert(pre_rem.to_multiset().contains(e)) by {
                assert(pre_rem[best as int] == e);
                assert(pre_rem.contains(e));
            }
            assert(out@.to_multiset().add(entries@.to_multiset()) =~= pre_out.to_multiset().add(
                pre_rem.to_multiset(),
            ));
            assert forall|i: int, j: int|
                0 <= i < out@.len() && 0 <= j < entries@.len() implies (#[trigger] out@[i]).size
                >= (#[trigger] entries@[j]).size by {
                if j < best {
                    assert(entries@[j] == pre_rem[j]);
                } else {
                    assert(entries@[j] == pre_rem[j + 1]);
                }
                if i < pre_out.len() {
                    assert(out@[i] == pre_out[i]);
                }
            }
            if sorted_desc(orig) {
                // the remaining entries are a sorted suffix, so the first
                // maximum is the first element and nothing moves
                assert(pre_out + pre_rem == orig);
                assert forall|m: int, l: int|
                    0 <= m <= l < pre_rem.len() implies (#[trigger] pre_rem[m]).size >= (
                #[trigger] pre_rem[l]).size by {
                    assert(pre_rem[m] == orig[pre_out.len() + m]);
                    assert(pre_rem[l] == orig[pre_out.len() + l]);
                }
                if best != 0 {
                    assert(pre_rem[0].size < pre_rem[best as int].size);
                    assert(pre_rem[0].size >= pre_rem[best as int].size);
                }
                assert(best == 0);
                assert(out@ + entries@ =~= orig);
            }
        }
    }
    proof {
        assert(entries@.to_multiset() =~= Multiset::<FileEntry>::empty());
        assert(out@.to_multiset() =~= out@.to_multiset().add(entries@.to_multiset()));
        if sorted_desc(orig) {
            assert(out@ + entries@ =~= out@);
        }
    }
    *entries = out;
}

} // verus!
