use vstd::prelude::*;

use crate::entry::{
    bytes_eq, has_path, lemma_content_at, content_at, paths_of, sort_entries, Content,
    ContentView, Entry,
};
use crate::order::{bytes_lt, lemma_lex_irreflexive, lemma_lex_total, lemma_lex_transitive, lex_lt, strictly_sorted};

verus! {

/// A path present on both sides whose contents could not be determined.
pub struct Failure {
    pub path: Vec<u8>,
    pub cause: Vec<u8>,
}

/// What a comparison reports. Each sequence is sorted by relative path.
pub struct ComparisonResult {
    pub only_in_left: Vec<Vec<u8>>,
    pub only_in_right: Vec<Vec<u8>>,
    pub differing: Vec<Vec<u8>>,
    pub identical_count: usize,
    pub failures: Vec<Failure>,
}

/// The mathematical value of a `ComparisonResult`.
pub struct ResultView {
    pub only_in_left: Seq<Seq<u8>>,
    pub only_in_right: Seq<Seq<u8>>,
    pub differing: Seq<Seq<u8>>,
    pub identical_count: nat,
    pub failures: Seq<(Seq<u8>, Seq<u8>)>,
}

/// The byte strings held in a sequence of vectors.
pub open spec fn bytes_view(v: Seq<Vec<u8>>) -> Seq<Seq<u8>> {
    v.map_values(|b: Vec<u8>| b@)
}

/// Each failure as its path and cause.
pub open spec fn failures_view(v: Seq<Failure>) -> Seq<(Seq<u8>, Seq<u8>)> {
    v.map_values(|f: Failure| (f.path@, f.cause@))
}

impl View for ComparisonResult {
    type V = ResultView;

    open spec fn view(&self) -> ResultView {
        ResultView {
            only_in_left: bytes_view(self.only_in_left@),
            only_in_right: bytes_view(self.only_in_right@),
            differing: bytes_view(self.differing@),
            identical_count: self.identical_count as nat,
            failures: failures_view(self.failures@),
        }
    }
}

/// Two contents count as the same: both directories, files with equal bytes, or links with
/// equal targets. Unreadable contents are never the same as anything.
pub open spec fn same_content(a: ContentView, b: ContentView) -> bool {
    match (a, b) {
        (ContentView::Directory, ContentView::Directory) => true,
        (ContentView::File(x), ContentView::File(y)) => x == y,
        (ContentView::Link(x), ContentView::Link(y)) => x == y,
        _ => false,
    }
}

pub open spec fn in_both(l: Seq<Entry>, r: Seq<Entry>, p: Seq<u8>) -> bool {
    has_path(l, p) && has_path(r, p)
}

/// A path is reported as differing: contents are compared and are not the same.
pub open spec fn is_differing(cc: bool, l: Seq<Entry>, r: Seq<Entry>, p: Seq<u8>) -> bool {
    cc && in_both(l, r, p) && !same_content(content_at(l, p), content_at(r, p))
}

/// A path counts as identical: present on both sides and not differing.
pub open spec fn is_identical(cc: bool, l: Seq<Entry>, r: Seq<Entry>, p: Seq<u8>) -> bool {
    in_both(l, r, p) && !is_differing(cc, l, r, p)
}

/// The paths that count as identical.
pub open spec fn identical_paths(cc: bool, l: Seq<Entry>, r: Seq<Entry>) -> Set<Seq<u8>> {
    Set::new(|p: Seq<u8>| is_identical(cc, l, r, p))
}

/// The cause held by an unreadable content.
pub open spec fn content_cause(c: ContentView) -> Option<Seq<u8>> {
    match c {
        ContentView::Unreadable(cause) => Some(cause),
        _ => None,
    }
}

/// The cause of the failure to read path `p` in a listing, if the listing holds it unreadable.
pub open spec fn cause_in(s: Seq<Entry>, p: Seq<u8>) -> Option<Seq<u8>> {
    if has_path(s, p) {
        content_cause(content_at(s, p))
    } else {
        None
    }
}

/// The failure recorded at a path: every path that could not be read on either side, whether
/// or not contents are compared and whether or not the other side holds it; the left cause first.
pub open spec fn failure_at(l: Seq<Entry>, r: Seq<Entry>, p: Seq<u8>) -> Option<Seq<u8>> {
    if cause_in(l, p) is Some {
        cause_in(l, p)
    } else {
        cause_in(r, p)
    }
}

/// `v` sorts the paths of listing `l` (left) and listing `r` (right) into the three
/// categories and counts the identical ones.
pub open spec fn categories_of(v: ResultView, cc: bool, l: Seq<Entry>, r: Seq<Entry>) -> bool {
    &&& strictly_sorted(v.only_in_left)
    &&& forall|p: Seq<u8>| #![trigger v.only_in_left.contains(p)] #![trigger has_path(l, p)] v.only_in_left.contains(p) <==> has_path(l, p) && !has_path(r, p)
    &&& strictly_sorted(v.only_in_right)
    &&& forall|p: Seq<u8>| #![trigger v.only_in_right.contains(p)] #![trigger has_path(r, p)] v.only_in_right.contains(p) <==> has_path(r, p) && !has_path(l, p)
    &&& strictly_sorted(v.differing)
    &&& forall|p: Seq<u8>| #![trigger v.differing.contains(p)] #![trigger is_differing(cc, l, r, p)] v.differing.contains(p) <==> is_differing(cc, l, r, p)
    &&& v.identical_count == identical_paths(cc, l, r).len()
}

/// `f` records, sorted by path, exactly the paths of `l` and `r` that could not be read,
/// each with its cause.
pub open spec fn failures_of(f: Seq<(Seq<u8>, Seq<u8>)>, l: Seq<Entry>, r: Seq<Entry>) -> bool {
    &&& strictly_sorted(failure_paths(f))
    &&& forall|i: int| 0 <= i < f.len() ==> failure_at(l, r, (#[trigger] f[i]).0) == Some(f[i].1)
    &&& forall|p: Seq<u8>| #[trigger] failure_at(l, r, p) is Some ==> exists|i: int| 0 <= i < f.len() && (#[trigger] f[i]).0 == p
}

/// `v` is the comparison of listing `l` (left) with listing `r` (right).
pub open spec fn is_comparison_of(v: ResultView, cc: bool, l: Seq<Entry>, r: Seq<Entry>) -> bool {
    categories_of(v, cc, l, r) && failures_of(v.failures, l, r)
}

/// Copies a byte string.
pub fn copy_bytes(b: &[u8]) -> (r: Vec<u8>)
    ensures
        r@ == b@,
{
    let mut r: Vec<u8> = Vec::new();
    let mut i: usize = 0;
    while i < b.len()
        invariant
            i <= b.len(),
            r@ == b@.take(i as int),
        decreases b.len() - i,
    {
        r.push(b[i]);
        i = i + 1;
        assert(r@ =~= b@.take(i as int));
    }
    assert(b@.take(i as int) =~= b@);
    r
}

/// Decides whether two contents are the same.
pub fn contents_equal(a: &Content, b: &Content) -> (r: bool)
    ensures
        r == same_content(a@, b@),
{
    match (a, b) {
        (Content::Directory, Content::Directory) => true,
        (Content::File(x), Content::File(y)) => bytes_eq(x.as_slice(), y.as_slice()),
        (Content::Link(x), Content::Link(y)) => bytes_eq(x.as_slice(), y.as_slice()),
        _ => false,
    }
}

/// The cause held by an unreadable content.
pub fn cause_of(c: &Content) -> (r: Option<Vec<u8>>)
    ensures
        match r {
            Some(x) => content_cause(c@) == Some(x@),
            None => content_cause(c@) is None,
        },
{
    match c {
        Content::Unreadable(cause) => Some(copy_bytes(cause.as_slice())),
        _ => None,
    }
}

proof fn lemma_sorted_push(s: Seq<Seq<u8>>, x: Seq<u8>)
    requires
        strictly_sorted(s),
        forall|q: Seq<u8>| s.contains(q) ==> lex_lt(q, x),
    ensures
        strictly_sorted(s.push(x)),
        forall|q: Seq<u8>| s.push(x).contains(q) <==> (s.contains(q) || q == x),
{
    let t = s.push(x);
    assert forall|i: int, j: int| 0 <= i < j < t.len() implies lex_lt(#[trigger] t[i], #[trigger] t[j]) by {
        if j == s.len() {
            assert(s.contains(s[i]));
        } else {
            assert(lex_lt(s[i], s[j]));
        }
    }
    assert forall|q: Seq<u8>| t.contains(q) <==> (s.contains(q) || q == x) by {
        if t.contains(q) {
            let k = choose|k: int| 0 <= k < t.len() && t[k] == q;
            if k < s.len() {
                assert(s[k] == q);
            }
        }
        if s.contains(q) {
            let k = choose|k: int| 0 <= k < s.len() && s[k] == q;
            assert(t[k] == q);
        }
        if q == x {
            assert(t[s.len() as int] == x);
        }
    }
}

proof fn lemma_has_take_next(s: Seq<Entry>, i: int, q: Seq<u8>)
    requires
        0 <= i < s.len(),
    ensures
        has_path(s.take(i + 1), q) <==> (has_path(s.take(i), q) || s[i].path@ == q),
{
    let a = s.take(i);
    let b = s.take(i + 1);
    if has_path(b, q) {
        let k = choose|k: int| 0 <= k < b.len() && (#[trigger] b[k]).path@ == q;
        if k < i {
            assert(a[k] == b[k]);
        }
    }
    if has_path(a, q) {
        let k = choose|k: int| 0 <= k < a.len() && (#[trigger] a[k]).path@ == q;
        assert(b[k] == a[k]);
    }
    if s[i].path@ == q {
        assert(b[i] == s[i]);
    }
}

/// In a sorted listing, everything seen so far comes before the next path.
proof fn lemma_take_before(s: Seq<Entry>, i: int, q: Seq<u8>)
    requires
        strictly_sorted(paths_of(s)),
        0 <= i < s.len(),
        has_path(s.take(i), q),
    ensures
        lex_lt(q, s[i].path@),
{
    let k = choose|k: int| 0 <= k < i && (#[trigger] s.take(i)[k]).path@ == q;
    assert(s.take(i)[k] == s[k]);
    assert(lex_lt(paths_of(s)[k], paths_of(s)[i]));
}

/// A path that comes after everything seen so far and before the next path is absent.
proof fn lemma_absent(s: Seq<Entry>, j: int, q: Seq<u8>)
    requires
        strictly_sorted(paths_of(s)),
        0 <= j <= s.len(),
        !has_path(s.take(j), q),
        j < s.len() ==> lex_lt(q, s[j].path@),
    ensures
        !has_path(s, q),
{
    if has_path(s, q) {
        let k = choose|k: int| 0 <= k < s.len() && (#[trigger] s[k]).path@ == q;
        if k < j {
            assert(s.take(j)[k] == s[k]);
        } else if k == j {
            lemma_lex_irreflexive(q);
        } else {
            assert(lex_lt(paths_of(s)[j], paths_of(s)[k]));
            lemma_lex_transitive(q, s[j].path@, q);
            lemma_lex_irreflexive(q);
        }
    }
}

/// In a sorted listing the content at an entry's path is that entry's.
proof fn lemma_sorted_content(s: Seq<Entry>, i: int)
    requires
        strictly_sorted(paths_of(s)),
        0 <= i < s.len(),
    ensures
        content_at(s, s[i].path@) == s[i].content@,
        has_path(s, s[i].path@),
{
    let p = s[i].path@;
    assert forall|j: int| 0 <= j < i implies (#[trigger] s[j]).path@ != p by {
        assert(lex_lt(paths_of(s)[j], paths_of(s)[i]));
        lemma_lex_irreflexive(p);
    }
    lemma_content_at(s, p, i);
}

/// The paths of a sequence of failures.
pub open spec fn failure_paths(f: Seq<(Seq<u8>, Seq<u8>)>) -> Seq<Seq<u8>> {
    f.map_values(|x: (Seq<u8>, Seq<u8>)| x.0)
}

/// Compares two listings that are each sorted by path, walking both in step.
#[verifier::rlimit(50)]
#[verifier::spinoff_prover]
fn merge_sorted(compare_contents: bool, left: &Vec<Entry>, right: &Vec<Entry>) -> (r: ComparisonResult)
    requires
        strictly_sorted(paths_of(left@)),
        strictly_sorted(paths_of(right@)),
    ensures
        categories_of(r@, compare_contents, left@, right@),
{
    let ghost cc = compare_contents;
    let ghost l = left@;
    let ghost rt = right@;
    let mut only_in_left: Vec<Vec<u8>> = Vec::new();
    let mut only_in_right: Vec<Vec<u8>> = Vec::new();
    let mut differing: Vec<Vec<u8>> = Vec::new();
    let mut identical_count: usize = 0;
    let ghost mut ids: Set<Seq<u8>> = Set::empty();
    let mut i: usize = 0;
    let mut j: usize = 0;
    proof {
        assert(l.take(0) =~= Seq::<Entry>::empty());
        assert(rt.take(0) =~= Seq::<Entry>::empty());
        assert(bytes_view(only_in_left@) =~= Seq::<Seq<u8>>::empty());
        assert(bytes_view(only_in_right@) =~= Seq::<Seq<u8>>::empty());
        assert(bytes_view(differing@) =~= Seq::<Seq<u8>>::empty());
    }
    while i < left.len() || j < right.len()
        invariant
            l == left@,
            rt == right@,
            cc == compare_contents,
            strictly_sorted(paths_of(l)),
            strictly_sorted(paths_of(rt)),
            i <= l.len(),
            j <= rt.len(),
            identical_count <= i,
            forall|q: Seq<u8>|
                #![trigger has_path(l.take(i as int), q)]
                #![trigger has_path(rt.take(j as int), q)]
                (has_path(l.take(i as int), q) || has_path(rt.take(j as int), q)) ==> {
                &&& (i < l.len() ==> lex_lt(q, l[i as int].path@))
                &&& (j < rt.len() ==> lex_lt(q, rt[j as int].path@))
            },
            strictly_sorted(bytes_view(only_in_left@)),
            forall|q: Seq<u8>|
                #![trigger bytes_view(only_in_left@).contains(q)]
                #![trigger has_path(l.take(i as int), q)]
                bytes_view(only_in_left@).contains(q) <==> (has_path(l.take(i as int), q) && !has_path(rt, q)),
            strictly_sorted(bytes_view(only_in_right@)),
            forall|q: Seq<u8>|
                #![trigger bytes_view(only_in_right@).contains(q)]
                #![trigger has_path(rt.take(j as int), q)]
                bytes_view(only_in_right@).contains(q) <==> (has_path(rt.take(j as int), q) && !has_path(l, q)),
            strictly_sorted(bytes_view(differing@)),
            forall|q: Seq<u8>|
                #![trigger bytes_view(differing@).contains(q)]
                #![trigger has_path(l.take(i as int), q)]
                bytes_view(differing@).contains(q) <==> (has_path(l.take(i as int), q) && is_differing(cc, l, rt, q)),
            ids.finite(),
            ids.len() == identical_count,
            forall|q: Seq<u8>|
                #![trigger ids.contains(q)]
                #![trigger has_path(l.take(i as int), q)]
                ids.contains(q) <==> (has_path(l.take(i as int), q) && is_identical(cc, l, rt, q)),
        decreases l.len() - i + rt.len() - j,
    {
        let take_left = j >= right.len() || (i < left.len() && bytes_lt(left[i].path.as_slice(), right[j].path.as_slice()));
        let take_right = !take_left && (i >= left.len() || bytes_lt(right[j].path.as_slice(), left[i].path.as_slice()));
        if take_left {
            let ghost p = l[i as int].path@;
            proof {
                assert(!has_path(rt, p)) by {
                    assert(!has_path(rt.take(j as int), p)) by {
                        if has_path(rt.take(j as int), p) {
                            lemma_lex_irreflexive(p);
                        }
                    }
                    lemma_absent(rt, j as int, p);
                }
                assert forall|q: Seq<u8>| bytes_view(only_in_left@).contains(q) implies lex_lt(q, p) by {
                    assert(has_path(l.take(i as int), q));
                }
            }
            let ghost before = bytes_view(only_in_left@);
            only_in_left.push(copy_bytes(left[i].path.as_slice()));
            proof {
                assert(bytes_view(only_in_left@) =~= before.push(p));
                lemma_sorted_push(before, p);
                assert forall|q: Seq<u8>| #![auto] has_path(l.take(i + 1), q) <==> (has_path(l.take(i as int), q) || p == q) by {
                    lemma_has_take_next(l, i as int, q);
                }
                assert forall|q: Seq<u8>|
                    #![trigger has_path(l.take(i + 1), q)]
                    #![trigger has_path(rt.take(j as int), q)]
                    (has_path(l.take(i + 1), q) || has_path(rt.take(j as int), q)) implies {
                    &&& (i + 1 < l.len() ==> lex_lt(q, l[i + 1].path@))
                    &&& (j < rt.len() ==> lex_lt(q, rt[j as int].path@))
                } by {
                    lemma_has_take_next(l, i as int, q);
                    if i + 1 < l.len() {
                        assert(lex_lt(paths_of(l)[i as int], paths_of(l)[i + 1]));
                        if q != p {
                            lemma_lex_transitive(q, p, l[i + 1].path@);
                        }
                    }
                    if j < rt.len() && q == p {
                        lemma_lex_total(p, rt[j as int].path@);
                    }
                }
            }
            proof {
                let ni: int = i + 1;
                assert forall|q: Seq<u8>| #![trigger has_path(l.take(ni), q)]
                    bytes_view(only_in_left@).contains(q) <==> (has_path(l.take(ni), q) && !has_path(rt, q)) by {
                    lemma_has_take_next(l, i as int, q);
                    assert(bytes_view(only_in_left@).contains(q) <==> (before.contains(q) || q == p));
                    assert(before.contains(q) <==> (has_path(l.take(i as int), q) && !has_path(rt, q)));
                }
                assert forall|q: Seq<u8>| #![trigger has_path(l.take(ni), q)]
                    bytes_view(differing@).contains(q) <==> (has_path(l.take(ni), q) && is_differing(cc, l, rt, q)) by {
                    lemma_has_take_next(l, i as int, q);
                }
                assert forall|q: Seq<u8>| #![trigger has_path(l.take(ni), q)]
                    ids.contains(q) <==> (has_path(l.take(ni), q) && is_identical(cc, l, rt, q)) by {
                    lemma_has_take_next(l, i as int, q);
                }
                assert forall|q: Seq<u8>| #![trigger has_path(rt.take(j as int), q)]
                    bytes_view(only_in_right@).contains(q) <==> (has_path(rt.take(j as int), q) && !has_path(l, q)) by {}
            }
            i = i + 1;
        } else if take_right {
            let ghost p = rt[j as int].path@;
            proof {
                assert(!has_path(l, p)) by {
                    assert(!has_path(l.take(i as int), p)) by {
                        if has_path(l.take(i as int), p) {
                            lemma_lex_irreflexive(p);
                        }
                    }
                    lemma_absent(l, i as int, p);
                }
                assert forall|q: Seq<u8>| bytes_view(only_in_right@).contains(q) implies lex_lt(q, p) by {
                    assert(has_path(rt.take(j as int), q));
                }
            }
            let ghost before = bytes_view(only_in_right@);
            only_in_right.push(copy_bytes(right[j].path.as_slice()));
            proof {
                assert(bytes_view(only_in_right@) =~= before.push(p));
                lemma_sorted_push(before, p);
                assert forall|q: Seq<u8>| #![auto] has_path(rt.take(j + 1), q) <==> (has_path(rt.take(j as int), q) || p == q) by {
                    lemma_has_take_next(rt, j as int, q);
                }
                assert forall|q: Seq<u8>|
                    #![trigger has_path(l.take(i as int), q)]
                    #![trigger has_path(rt.take(j + 1), q)]
                    (has_path(l.take(i as int), q) || has_path(rt.take(j + 1), q)) implies {
                    &&& (i < l.len() ==> lex_lt(q, l[i as int].path@))
                    &&& (j + 1 < rt.len() ==> lex_lt(q, rt[j + 1].path@))
                } by {
                    lemma_has_take_next(rt, j as int, q);
                    if j + 1 < rt.len() {
                        assert(lex_lt(paths_of(rt)[j as int], paths_of(rt)[j + 1]));
                        if q != p {
                            lemma_lex_transitive(q, p, rt[j + 1].path@);
                        }
                    }
                }
            }
            proof {
                let nj: int = j + 1;
                assert forall|q: Seq<u8>| #![trigger has_path(rt.take(nj), q)]
                    bytes_view(only_in_right@).contains(q) <==> (has_path(rt.take(nj), q) && !has_path(l, q)) by {
                    lemma_has_take_next(rt, j as int, q);
                    assert(bytes_view(only_in_right@).contains(q) <==> (before.contains(q) || q == p));
                    assert(before.contains(q) <==> (has_path(rt.take(j as int), q) && !has_path(l, q)));
                }
            }
            j = j + 1;
        } else {
            let ghost p = l[i as int].path@;
            proof {
                lemma_lex_total(l[i as int].path@, rt[j as int].path@);
                assert(rt[j as int].path@ == p);
                lemma_sorted_content(l, i as int);
                lemma_sorted_content(rt, j as int);
                assert(in_both(l, rt, p));
                assert(!has_path(l.take(i as int), p)) by {
                    if has_path(l.take(i as int), p) {
                        lemma_lex_irreflexive(p);
                    }
                }
                assert(!has_path(rt.take(j as int), p)) by {
                    if has_path(rt.take(j as int), p) {
                        lemma_lex_irreflexive(p);
                    }
                }
            }
            let same = contents_equal(&left[i].content, &right[j].content);
            if compare_contents && !same {
                let ghost before = bytes_view(differing@);
                proof {
                    assert forall|q: Seq<u8>| before.contains(q) implies lex_lt(q, p) by {}
                }
                differing.push(copy_bytes(left[i].path.as_slice()));
                proof {
                    assert(bytes_view(differing@) =~= before.push(p));
                    lemma_sorted_push(before, p);
                }
            } else {
                proof {
                    assert(!ids.contains(p)) by {
                        if ids.contains(p) {
                            lemma_lex_irreflexive(p);
                        }
                    }
                    ids = ids.insert(p);
                }
                identical_count = identical_count + 1;
            }
            proof {
                assert forall|q: Seq<u8>| #![auto] has_path(l.take(i + 1), q) <==> (has_path(l.take(i as int), q) || p == q) by {
                    lemma_has_take_next(l, i as int, q);
                }
                assert forall|q: Seq<u8>| #![auto] has_path(rt.take(j + 1), q) <==> (has_path(rt.take(j as int), q) || p == q) by {
                    lemma_has_take_next(rt, j as int, q);
                }
                let ni: int = i + 1;
                let nj: int = j + 1;
                assert forall|q: Seq<u8>|
                    #![trigger has_path(l.take(ni), q)]
                    #![trigger has_path(rt.take(nj), q)]
                    (has_path(l.take(ni), q) || has_path(rt.take(nj), q)) implies {
                    &&& (i + 1 < l.len() ==> lex_lt(q, l[i + 1].path@))
                    &&& (j + 1 < rt.len() ==> lex_lt(q, rt[j + 1].path@))
                } by {
                    lemma_has_take_next(l, i as int, q);
                    lemma_has_take_next(rt, j as int, q);
                    if i + 1 < l.len() {
                        assert(lex_lt(paths_of(l)[i as int], paths_of(l)[i + 1]));
                        if q != p {
                            lemma_lex_transitive(q, p, l[i + 1].path@);
                        }
                    }
                    if j + 1 < rt.len() {
                        assert(lex_lt(paths_of(rt)[j as int], paths_of(rt)[j + 1]));
                        if q != p {
                            lemma_lex_transitive(q, p, rt[j + 1].path@);
                        }
                    }
                }
            }
            proof {
                let ni: int = i + 1;
                let nj: int = j + 1;
                assert forall|q: Seq<u8>| #![trigger has_path(l.take(ni), q)]
                    bytes_view(only_in_left@).contains(q) <==> (has_path(l.take(ni), q) && !has_path(rt, q)) by {
                    lemma_has_take_next(l, i as int, q);
                }
                assert forall|q: Seq<u8>| #![trigger has_path(rt.take(nj), q)]
                    bytes_view(only_in_right@).contains(q) <==> (has_path(rt.take(nj), q) && !has_path(l, q)) by {
                    lemma_has_take_next(rt, j as int, q);
                }
                assert forall|q: Seq<u8>| #![trigger has_path(l.take(ni), q)]
                    bytes_view(differing@).contains(q) <==> (has_path(l.take(ni), q) && is_differing(cc, l, rt, q)) by {
                    lemma_has_take_next(l, i as int, q);
                }
                assert forall|q: Seq<u8>| #![trigger has_path(l.take(ni), q)]
                    ids.contains(q) <==> (has_path(l.take(ni), q) && is_identical(cc, l, rt, q)) by {
                    lemma_has_take_next(l, i as int, q);
                }
            }
            i = i + 1;
            j = j + 1;
        }
    }
    proof {
        assert(l.take(i as int) =~= l);
        assert(rt.take(j as int) =~= rt);
        assert(ids =~= identical_paths(cc, l, rt));
    }
    ComparisonResult { only_in_left, only_in_right, differing, identical_count, failures: Vec::new() }
}

/// A comparison depends on the listings only through their paths and the content at each.
proof fn lemma_same_listings(v: ResultView, cc: bool, sl: Seq<Entry>, sr: Seq<Entry>, l: Seq<Entry>, r: Seq<Entry>)
    requires
        is_comparison_of(v, cc, sl, sr),
        forall|p: Seq<u8>| has_path(sl, p) <==> has_path(l, p),
        forall|p: Seq<u8>| has_path(sl, p) ==> content_at(sl, p) == content_at(l, p),
        forall|p: Seq<u8>| has_path(sr, p) <==> has_path(r, p),
        forall|p: Seq<u8>| has_path(sr, p) ==> content_at(sr, p) == content_at(r, p),
    ensures
        is_comparison_of(v, cc, l, r),
{
    assert forall|p: Seq<u8>| #![auto] is_differing(cc, sl, sr, p) == is_differing(cc, l, r, p) by {}
    assert forall|p: Seq<u8>| #![auto] failure_at(sl, sr, p) == failure_at(l, r, p) by {}
    assert(identical_paths(cc, sl, sr) =~= identical_paths(cc, l, r));
}

/// Compares two listings of entries: paths only on one side, paths whose contents differ
/// (when `compare_contents` is set), how many common paths are identical, and every path
/// that could not be read on either side, with its cause.
pub fn compare_entries(compare_contents: bool, left: Vec<Entry>, right: Vec<Entry>) -> (r: ComparisonResult)
    ensures
        is_comparison_of(r@, compare_contents, left@, right@),
{
    let ghost l = left@;
    let ghost rt = right@;
    let sl = sort_entries(left);
    let sr = sort_entries(right);
    let mut r = merge_sorted(compare_contents, &sl, &sr);
    r.failures = collect_failures(&sl, &sr);
    proof {
        lemma_same_listings(r@, compare_contents, sl@, sr@, l, rt);
    }
    r
}

/// Path `q` is among the first `i` left entries or the first `j` right entries.
pub open spec fn seen(l: Seq<Entry>, r: Seq<Entry>, i: int, j: int, q: Seq<u8>) -> bool {
    has_path(l.take(i), q) || has_path(r.take(j), q)
}

/// Every path seen so far comes before both next paths.
pub open spec fn seen_before_next(l: Seq<Entry>, r: Seq<Entry>, i: int, j: int) -> bool {
    forall|q: Seq<u8>| #[trigger] seen(l, r, i, j, q) ==> {
        &&& (i < l.len() ==> lex_lt(q, l[i].path@))
        &&& (j < r.len() ==> lex_lt(q, r[j].path@))
    }
}

/// Taking the next entry of both listings, or of one whose next path comes first.
proof fn lemma_advance(l: Seq<Entry>, r: Seq<Entry>, i: int, j: int, ni: int, nj: int, take_l: bool, take_r: bool, p: Seq<u8>)
    requires
        ni == if take_l { i + 1 } else { i },
        nj == if take_r { j + 1 } else { j },
        strictly_sorted(paths_of(l)),
        strictly_sorted(paths_of(r)),
        0 <= i <= l.len(),
        0 <= j <= r.len(),
        seen_before_next(l, r, i, j),
        take_l || take_r,
        take_l ==> i < l.len() && l[i].path@ == p,
        take_r ==> j < r.len() && r[j].path@ == p,
        take_l && !take_r ==> j < r.len() ==> lex_lt(p, r[j].path@),
        take_r && !take_l ==> i < l.len() ==> lex_lt(p, l[i].path@),
    ensures
        forall|q: Seq<u8>| #[trigger] seen(l, r, i, j, q) ==> lex_lt(q, p),
        forall|q: Seq<u8>| #[trigger] seen(l, r, ni, nj, q) <==> (seen(l, r, i, j, q) || q == p),
        seen_before_next(l, r, ni, nj),
        take_l && !take_r ==> !has_path(r, p),
        take_r && !take_l ==> !has_path(l, p),
        take_l ==> content_at(l, p) == l[i].content@ && has_path(l, p),
        take_r ==> content_at(r, p) == r[j].content@ && has_path(r, p),
{
    assert forall|q: Seq<u8>| #[trigger] seen(l, r, i, j, q) implies lex_lt(q, p) by {}
    assert forall|q: Seq<u8>| #[trigger] seen(l, r, ni, nj, q) <==> (seen(l, r, i, j, q) || q == p) by {
        if take_l {
            lemma_has_take_next(l, i, q);
        }
        if take_r {
            lemma_has_take_next(r, j, q);
        }
    }
    assert forall|q: Seq<u8>| #[trigger] seen(l, r, ni, nj, q) implies {
        &&& (ni < l.len() ==> lex_lt(q, l[ni].path@))
        &&& (nj < r.len() ==> lex_lt(q, r[nj].path@))
    } by {
        if ni < l.len() {
            if take_l {
                assert(lex_lt(paths_of(l)[i], paths_of(l)[i + 1]));
                if q != p {
                    lemma_lex_transitive(q, p, l[ni].path@);
                }
            } else if q == p {
            }
        }
        if nj < r.len() {
            if take_r {
                assert(lex_lt(paths_of(r)[j], paths_of(r)[j + 1]));
                if q != p {
                    lemma_lex_transitive(q, p, r[nj].path@);
                }
            }
        }
    }
    if take_l && !take_r {
        assert(!has_path(r.take(j), p)) by {
            if has_path(r.take(j), p) {
                assert(seen(l, r, i, j, p));
                lemma_lex_irreflexive(p);
            }
        }
        lemma_absent(r, j, p);
    }
    if take_r && !take_l {
        assert(!has_path(l.take(i), p)) by {
            if has_path(l.take(i), p) {
                assert(seen(l, r, i, j, p));
                lemma_lex_irreflexive(p);
            }
        }
        lemma_absent(l, i, p);
    }
    if take_l {
        lemma_sorted_content(l, i);
    }
    if take_r {
        lemma_sorted_content(r, j);
    }
}

/// Records, sorted by path, every path of two sorted listings that could not be read.
fn collect_failures(left: &Vec<Entry>, right: &Vec<Entry>) -> (f: Vec<Failure>)
    requires
        strictly_sorted(paths_of(left@)),
        strictly_sorted(paths_of(right@)),
    ensures
        failures_of(failures_view(f@), left@, right@),
{
    let ghost l = left@;
    let ghost rt = right@;
    let mut failures: Vec<Failure> = Vec::new();
    let mut i: usize = 0;
    let mut j: usize = 0;
    proof {
        assert(failure_paths(failures_view(failures@)) =~= Seq::<Seq<u8>>::empty());
        assert forall|q: Seq<u8>| #[trigger] seen(l, rt, 0, 0, q) implies false by {
            assert(l.take(0) =~= Seq::<Entry>::empty());
            assert(rt.take(0) =~= Seq::<Entry>::empty());
        }
    }
    while i < left.len() || j < right.len()
        invariant
            l == left@,
            rt == right@,
            strictly_sorted(paths_of(l)),
            strictly_sorted(paths_of(rt)),
            i <= l.len(),
            j <= rt.len(),
            seen_before_next(l, rt, i as int, j as int),
            strictly_sorted(failure_paths(failures_view(failures@))),
            forall|k: int| 0 <= k < failures@.len() ==> seen(l, rt, i as int, j as int, (#[trigger] failures_view(failures@)[k]).0),
            forall|k: int| 0 <= k < failures@.len() ==> failure_at(l, rt, (#[trigger] failures_view(failures@)[k]).0) == Some(failures_view(failures@)[k].1),
            forall|q: Seq<u8>| #[trigger] seen(l, rt, i as int, j as int, q) && failure_at(l, rt, q) is Some ==>
                exists|k: int| 0 <= k < failures@.len() && (#[trigger] failures_view(failures@)[k]).0 == q,
        decreases l.len() - i + rt.len() - j,
    {
        let take_l = j >= right.len() || (i < left.len() && !bytes_lt(right[j].path.as_slice(), left[i].path.as_slice()));
        let take_r = i >= left.len() || (j < right.len() && !bytes_lt(left[i].path.as_slice(), right[j].path.as_slice()));
        let ghost p = if take_l { l[i as int].path@ } else { rt[j as int].path@ };
        proof {
            if i < l.len() && j < rt.len() {
                lemma_lex_total(l[i as int].path@, rt[j as int].path@);
            }
            let ni: int = if take_l { i + 1 } else { i as int };
            let nj: int = if take_r { j + 1 } else { j as int };
            lemma_advance(l, rt, i as int, j as int, ni, nj, take_l, take_r, p);
        }
        let mut cause: Option<Vec<u8>> = None;
        if take_l {
            cause = cause_of(&left[i].content);
        }
        if take_r {
            match cause {
                Some(_) => {},
                None => {
                    cause = cause_of(&right[j].content);
                },
            }
        }
        proof {
            assert(!take_l ==> !has_path(l, p));
            assert(!take_r ==> !has_path(rt, p));
            assert(cause is Some ==> failure_at(l, rt, p) == Some(cause->Some_0@));
            assert(cause is None ==> failure_at(l, rt, p) is None);
        }
        let ghost i0 = i as int;
        let ghost j0 = j as int;
        let ghost before = failures_view(failures@);
        match cause {
            Some(c) => {
                let path = if take_l { copy_bytes(left[i].path.as_slice()) } else { copy_bytes(right[j].path.as_slice()) };
                failures.push(Failure { path, cause: c });
            },
            None => {},
        }
        if take_l {
            i = i + 1;
        }
        if take_r {
            j = j + 1;
        }
        proof {
            let fv = failures_view(failures@);
            assert forall|q: Seq<u8>| failure_paths(before).contains(q) implies lex_lt(q, p) by {
                let k = choose|k: int| 0 <= k < before.len() && failure_paths(before)[k] == q;
                assert(seen(l, rt, i0, j0, before[k].0));
            }
            if fv.len() > before.len() {
                assert(fv =~= before.push(fv.last()));
                assert(failure_paths(fv) =~= failure_paths(before).push(p));
                lemma_sorted_push(failure_paths(before), p);
            } else {
                assert(fv =~= before);
            }
            assert forall|k: int| 0 <= k < fv.len() implies seen(l, rt, i as int, j as int, (#[trigger] fv[k]).0) by {
                if k < before.len() {
                    assert(fv[k] == before[k]);
                    assert(seen(l, rt, i0, j0, before[k].0));
                }
            }
            assert forall|k: int| 0 <= k < fv.len() implies failure_at(l, rt, (#[trigger] fv[k]).0) == Some(fv[k].1) by {
                if k < before.len() {
                    assert(fv[k] == before[k]);
                }
            }
            assert forall|q: Seq<u8>| #[trigger] seen(l, rt, i as int, j as int, q) && failure_at(l, rt, q) is Some implies
                exists|k: int| 0 <= k < fv.len() && (#[trigger] fv[k]).0 == q by {
                if q == p {
                    assert(fv[fv.len() - 1].0 == p);
                } else {
                    assert(seen(l, rt, i0, j0, q));
                    let k = choose|k: int| 0 <= k < before.len() && (#[trigger] before[k]).0 == q;
                    assert(fv[k] == before[k]);
                }
            }
        }
    }
    proof {
        let fv = failures_view(failures@);
        assert forall|q: Seq<u8>| #[trigger] failure_at(l, rt, q) is Some implies
            exists|k: int| 0 <= k < fv.len() && (#[trigger] fv[k]).0 == q by {
            assert(l.take(i as int) =~= l);
            if cause_in(l, q) is Some {
                assert(seen(l, rt, i as int, j as int, q));
            } else {
                assert(rt.take(j as int) =~= rt);
                assert(seen(l, rt, i as int, j as int, q));
            }
        }
    }
    failures
}

} // verus!
