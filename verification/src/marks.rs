//! Positions of the raised flags in a sequence of booleans, in ascending
//! order. Both containers count and drain their entries through this.

use vstd::prelude::*;

verus! {

/// The indices `i` with `lo <= i < hi` at which `flags` is raised, ascending.
pub open spec fn marked(flags: Seq<bool>, lo: int, hi: int) -> Seq<int>
    recommends
        0 <= lo <= hi <= flags.len(),
    decreases hi - lo,
{
    if hi <= lo {
        Seq::empty()
    } else if flags[hi - 1] {
        marked(flags, lo, hi - 1).push(hi - 1)
    } else {
        marked(flags, lo, hi - 1)
    }
}

/// Every entry of `marked` lies in the range and is raised, the entries are
/// strictly ascending, and every raised index of the range is an entry.
pub proof fn lemma_marked_ascending(flags: Seq<bool>, lo: int, hi: int)
    requires
        0 <= lo <= hi <= flags.len(),
    ensures
        marked(flags, lo, hi).len() <= hi - lo,
        forall|k: int|
            0 <= k < marked(flags, lo, hi).len() ==> lo <= #[trigger] marked(flags, lo, hi)[k] < hi
                && flags[marked(flags, lo, hi)[k]],
        forall|j: int, k: int|
            0 <= j < k < marked(flags, lo, hi).len() ==> marked(flags, lo, hi)[j] < marked(
                flags,
                lo,
                hi,
            )[k],
        forall|i: int|
            lo <= i < hi && flags[i] ==> exists|k: int|
                0 <= k < marked(flags, lo, hi).len() && marked(flags, lo, hi)[k] == i,
    decreases hi - lo,
{
    if hi > lo {
        lemma_marked_ascending(flags, lo, hi - 1);
        let prev = marked(flags, lo, hi - 1);
        let cur = marked(flags, lo, hi);
        assert forall|i: int| lo <= i < hi && flags[i] implies exists|k: int|
            0 <= k < cur.len() && cur[k] == i by {
            if i < hi - 1 {
                let k = choose|k: int| 0 <= k < prev.len() && prev[k] == i;
                assert(cur[k] == i);
            } else {
                assert(cur[cur.len() - 1] == i);
            }
        }
    }
}

/// A range splits at any point inside it.
pub proof fn lemma_marked_split(flags: Seq<bool>, lo: int, mid: int, hi: int)
    requires
        0 <= lo <= mid <= hi <= flags.len(),
    ensures
        marked(flags, lo, hi) == marked(flags, lo, mid) + marked(flags, mid, hi),
    decreases hi - mid,
{
    if hi > mid {
        lemma_marked_split(flags, lo, mid, hi - 1);
    }
    assert(marked(flags, lo, hi) =~= marked(flags, lo, mid) + marked(flags, mid, hi));
}

/// Where no flag is raised, nothing is marked.
pub proof fn lemma_marked_none(flags: Seq<bool>, lo: int, hi: int)
    requires
        0 <= lo <= hi <= flags.len(),
        forall|i: int| lo <= i < hi ==> !flags[i],
    ensures
        marked(flags, lo, hi) == Seq::<int>::empty(),
    decreases hi - lo,
{
    if hi > lo {
        lemma_marked_none(flags, lo, hi - 1);
    }
}

/// Two sequences that agree on a range mark the same indices there.
pub proof fn lemma_marked_agree(a: Seq<bool>, b: Seq<bool>, lo: int, hi: int)
    requires
        0 <= lo <= hi <= a.len(),
        hi <= b.len(),
        forall|i: int| lo <= i < hi ==> a[i] == b[i],
    ensures
        marked(a, lo, hi) == marked(b, lo, hi),
    decreases hi - lo,
{
    if hi > lo {
        lemma_marked_agree(a, b, lo, hi - 1);
    }
}

/// How many flags are raised.
pub open spec fn raised(flags: Seq<bool>) -> nat {
    marked(flags, 0, flags.len() as int).len()
}

/// Changing one flag changes the count by that flag alone.
pub proof fn lemma_raised_update(flags: Seq<bool>, i: int, b: bool)
    requires
        0 <= i < flags.len(),
    ensures
        raised(flags.update(i, b)) == raised(flags) + (if b { 1int } else { 0 }) - (if flags[i] {
            1int
        } else {
            0
        }),
        raised(flags) <= flags.len(),
{
    let n = flags.len() as int;
    let next = flags.update(i, b);
    lemma_marked_split(flags, 0, i, n);
    lemma_marked_split(flags, i, i + 1, n);
    lemma_marked_split(next, 0, i, n);
    lemma_marked_split(next, i, i + 1, n);
    lemma_marked_agree(flags, next, 0, i);
    lemma_marked_agree(flags, next, i + 1, n);
    assert(marked(flags, i, i) =~= Seq::<int>::empty());
    assert(marked(next, i, i) =~= Seq::<int>::empty());
    assert(marked(flags, i, i + 1).len() == if flags[i] { 1int } else { 0 });
    assert(marked(next, i, i + 1).len() == if b { 1int } else { 0 });
    lemma_marked_ascending(flags, 0, n);
}

/// The raised indices below `hi`, as a set.
pub open spec fn raised_below(flags: Seq<bool>, hi: int) -> Set<int> {
    Set::new(|i: int| 0 <= i < hi && flags[i])
}

/// `marked` lists each raised index once: it is as long as the set of
/// raised indices is large.
pub proof fn lemma_marked_counts(flags: Seq<bool>, hi: int)
    requires
        0 <= hi <= flags.len(),
    ensures
        raised_below(flags, hi).finite(),
        raised_below(flags, hi).len() == marked(flags, 0, hi).len(),
    decreases hi,
{
    if hi == 0 {
        assert(raised_below(flags, 0) =~= Set::<int>::empty());
    } else {
        lemma_marked_counts(flags, hi - 1);
        if flags[hi - 1] {
            assert(raised_below(flags, hi) =~= raised_below(flags, hi - 1).insert(hi - 1));
        } else {
            assert(raised_below(flags, hi) =~= raised_below(flags, hi - 1));
        }
    }
}

} // verus!
