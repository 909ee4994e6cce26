use vstd::prelude::*;

use crate::engine::{failure_at, failure_paths, identical_paths, is_comparison_of, is_differing, is_identical, ResultView};
use crate::entry::{ContentView, Entry};
use crate::walk::listed_dirs;
use crate::order::{lemma_lex_irreflexive, lemma_sorted_unique, strictly_sorted};

verus! {

/// No path is reported twice: it stands in at most one of `only_in_left`, `only_in_right`
/// and `differing`, never in one of them and among the identical paths, and no sequence
/// names a path twice.
pub proof fn lemma_categories_disjoint(v: ResultView, cc: bool, l: Seq<Entry>, r: Seq<Entry>)
    requires
        is_comparison_of(v, cc, l, r),
    ensures
        forall|p: Seq<u8>| !(v.only_in_left.contains(p) && v.only_in_right.contains(p)),
        forall|p: Seq<u8>| !(v.only_in_left.contains(p) && v.differing.contains(p)),
        forall|p: Seq<u8>| !(v.only_in_right.contains(p) && v.differing.contains(p)),
        forall|p: Seq<u8>| identical_paths(cc, l, r).contains(p) ==> {
            &&& !v.only_in_left.contains(p)
            &&& !v.only_in_right.contains(p)
            &&& !v.differing.contains(p)
        },
        v.only_in_left.no_duplicates(),
        v.only_in_right.no_duplicates(),
        v.differing.no_duplicates(),
{
    lemma_sorted_no_duplicates(v.only_in_left);
    lemma_sorted_no_duplicates(v.only_in_right);
    lemma_sorted_no_duplicates(v.differing);
}

proof fn lemma_sorted_no_duplicates(s: Seq<Seq<u8>>)
    requires
        strictly_sorted(s),
    ensures
        s.no_duplicates(),
{
    assert forall|i: int, j: int| 0 <= i < s.len() && 0 <= j < s.len() && i != j implies s[i] != s[j] by {
        lemma_lex_irreflexive(s[i]);
        if i < j {
            assert(crate::order::lex_lt(s[i], s[j]));
        } else {
            assert(crate::order::lex_lt(s[j], s[i]));
        }
    }
}

proof fn lemma_failure_paths_members(v: ResultView, cc: bool, l: Seq<Entry>, r: Seq<Entry>)
    requires
        is_comparison_of(v, cc, l, r),
    ensures
        forall|p: Seq<u8>| failure_paths(v.failures).contains(p) <==> failure_at(l, r, p) is Some,
{
    assert forall|p: Seq<u8>| failure_paths(v.failures).contains(p) <==> failure_at(l, r, p) is Some by {
        if failure_paths(v.failures).contains(p) {
            let k = choose|k: int| 0 <= k < failure_paths(v.failures).len() && failure_paths(v.failures)[k] == p;
            assert(v.failures[k].0 == p);
        }
        if failure_at(l, r, p) is Some {
            let k = choose|k: int| 0 <= k < v.failures.len() && (#[trigger] v.failures[k]).0 == p;
            assert(failure_paths(v.failures)[k] == p);
        }
    }
}

/// A comparison is determined by its inputs: two results of comparing the same listings
/// are equal in every sequence, in order, and in the count.
pub proof fn lemma_comparison_deterministic(v1: ResultView, v2: ResultView, cc: bool, l: Seq<Entry>, r: Seq<Entry>)
    requires
        is_comparison_of(v1, cc, l, r),
        is_comparison_of(v2, cc, l, r),
    ensures
        v1 == v2,
{
    lemma_sorted_unique(v1.only_in_left, v2.only_in_left);
    lemma_sorted_unique(v1.only_in_right, v2.only_in_right);
    lemma_sorted_unique(v1.differing, v2.differing);
    lemma_failure_paths_members(v1, cc, l, r);
    lemma_failure_paths_members(v2, cc, l, r);
    lemma_sorted_unique(failure_paths(v1.failures), failure_paths(v2.failures));
    assert forall|k: int| 0 <= k < v1.failures.len() implies v1.failures[k] == v2.failures[k] by {
        assert(failure_paths(v1.failures)[k] == failure_paths(v2.failures)[k]);
        assert(v1.failures[k].0 == v2.failures[k].0);
    }
    assert(v1.failures =~= v2.failures);
}

/// Swapping the two sides swaps `only_in_left` and `only_in_right`, and keeps `differing`,
/// the paths of the failures, and the identical count.
pub proof fn lemma_comparison_symmetric(v1: ResultView, v2: ResultView, cc: bool, l: Seq<Entry>, r: Seq<Entry>)
    requires
        is_comparison_of(v1, cc, l, r),
        is_comparison_of(v2, cc, r, l),
    ensures
        v1.only_in_left == v2.only_in_right,
        v1.only_in_right == v2.only_in_left,
        v1.differing == v2.differing,
        failure_paths(v1.failures) == failure_paths(v2.failures),
        v1.identical_count == v2.identical_count,
{
    lemma_sorted_unique(v1.only_in_left, v2.only_in_right);
    lemma_sorted_unique(v1.only_in_right, v2.only_in_left);
    assert forall|p: Seq<u8>| #![auto] is_differing(cc, l, r, p) == is_differing(cc, r, l, p) by {}
    lemma_sorted_unique(v1.differing, v2.differing);
    lemma_failure_paths_members(v1, cc, l, r);
    lemma_failure_paths_members(v2, cc, r, l);
    assert forall|p: Seq<u8>| #![auto] (failure_at(l, r, p) is Some) == (failure_at(r, l, p) is Some) by {}
    lemma_sorted_unique(failure_paths(v1.failures), failure_paths(v2.failures));
    assert forall|p: Seq<u8>| #![auto] is_identical(cc, l, r, p) == is_identical(cc, r, l, p) by {}
    assert(identical_paths(cc, l, r) =~= identical_paths(cc, r, l));
}

/// A walk that is not recursive queues no directory: after the roots, nothing more is listed,
/// so nothing below a root's immediate children is ever reported.
pub proof fn lemma_flat_walk_queues_nothing(patterns: Seq<Seq<u8>>, dir: Seq<u8>, cs: Seq<(Seq<u8>, ContentView)>)
    ensures
        listed_dirs(false, patterns, dir, cs) == Seq::<Seq<u8>>::empty(),
    decreases cs.len(),
{
    if cs.len() > 0 {
        lemma_flat_walk_queues_nothing(patterns, dir, cs.drop_last());
    }
}

} // verus!
