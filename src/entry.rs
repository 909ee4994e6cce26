use vstd::prelude::*;

use crate::order::{bytes_lt, lemma_lex_irreflexive, lemma_lex_total, lemma_lex_transitive, lex_lt, strictly_sorted};

verus! {

/// What a listing found at a relative path.
pub enum Content {
    /// A directory that was not descended into.
    Directory,
    /// A regular file and its bytes.
    File(Vec<u8>),
    /// A symbolic link and its target, never followed.
    Link(Vec<u8>),
    /// An entry whose contents could not be read, with the cause.
    Unreadable(Vec<u8>),
}

/// The mathematical value of a `Content`.
pub enum ContentView {
    Directory,
    File(Seq<u8>),
    Link(Seq<u8>),
    Unreadable(Seq<u8>),
}

impl View for Content {
    type V = ContentView;

    open spec fn view(&self) -> ContentView {
        match self {
            Content::Directory => ContentView::Directory,
            Content::File(b) => ContentView::File(b@),
            Content::Link(t) => ContentView::Link(t@),
            Content::Unreadable(c) => ContentView::Unreadable(c@),
        }
    }
}

/// One entry of a tree: its path relative to the root, `/`-separated, and what it holds.
pub struct Entry {
    pub path: Vec<u8>,
    pub content: Content,
}

/// The relative paths of a listing, in its order.
pub open spec fn paths_of(s: Seq<Entry>) -> Seq<Seq<u8>> {
    s.map_values(|e: Entry| e.path@)
}

/// The listing holds an entry at path `p`.
pub open spec fn has_path(s: Seq<Entry>, p: Seq<u8>) -> bool {
    exists|i: int| 0 <= i < s.len() && (#[trigger] s[i]).path@ == p
}

/// `i` is the first index of the listing whose path is `p`.
pub open spec fn is_first_at(s: Seq<Entry>, p: Seq<u8>, i: int) -> bool {
    &&& 0 <= i < s.len()
    &&& s[i].path@ == p
    &&& forall|j: int| 0 <= j < i ==> (#[trigger] s[j]).path@ != p
}

/// What the first entry at path `p` holds; where a listing names a path twice, the first counts.
pub open spec fn content_at(s: Seq<Entry>, p: Seq<u8>) -> ContentView {
    let i = choose|i: int| is_first_at(s, p, i);
    s[i].content@
}

/// The content at a path is that of the first entry with that path.
pub proof fn lemma_content_at(s: Seq<Entry>, p: Seq<u8>, i: int)
    requires
        is_first_at(s, p, i),
    ensures
        content_at(s, p) == s[i].content@,
{
    let c = choose|c: int| is_first_at(s, p, c);
    assert(is_first_at(s, p, c));
    if c < i {
        assert(s[c].path@ == p);
    } else if c > i {
        assert(s[i].path@ == p);
    }
}

/// A listing that names a path has a first entry there.
pub proof fn lemma_first_exists(s: Seq<Entry>, p: Seq<u8>) -> (i: int)
    requires
        has_path(s, p),
    ensures
        is_first_at(s, p, i),
    decreases s.len(),
{
    if s[0].path@ == p {
        0
    } else {
        let k = choose|k: int| 0 <= k < s.len() && (#[trigger] s[k]).path@ == p;
        let t = s.drop_first();
        assert(t[k - 1] == s[k]);
        let j = lemma_first_exists(t, p);
        assert forall|m: int| 0 <= m < j + 1 implies (#[trigger] s[m]).path@ != p by {
            if m > 0 {
                assert(s[m] == t[m - 1]);
            }
        }
        j + 1
    }
}

/// Compares two byte strings for equality through the lexicographic order.
pub fn bytes_eq(a: &[u8], b: &[u8]) -> (r: bool)
    ensures
        r == (a@ == b@),
{
    proof {
        lemma_lex_total(a@, b@);
        lemma_lex_irreflexive(a@);
    }
    !bytes_lt(a, b) && !bytes_lt(b, a)
}

/// Sorts a listing by relative path and keeps one entry for each path, the first.
pub fn sort_entries(entries: Vec<Entry>) -> (r: Vec<Entry>)
    ensures
        strictly_sorted(paths_of(r@)),
        forall|p: Seq<u8>| has_path(r@, p) <==> has_path(entries@, p),
        forall|p: Seq<u8>| has_path(r@, p) ==> content_at(r@, p) == content_at(entries@, p),
{
    let ghost input = entries@;
    let mut entries = entries;
    // `rest` holds the entries still to place, the next one last.
    let mut rest: Vec<Entry> = Vec::new();
    while entries.len() > 0
        invariant
            entries@.len() + rest@.len() == input.len(),
            entries@ == input.take(entries@.len() as int),
            forall|t: int| 0 <= t < rest@.len() ==> #[trigger] rest@[t] == input[input.len() - 1 - t],
        decreases entries.len(),
    {
        let ghost n = entries@.len();
        let e = entries.pop().unwrap();
        proof {
            assert(e == input[n - 1]);
            assert(entries@ =~= input.take(n - 1));
        }
        rest.push(e);
    }
    let mut r: Vec<Entry> = Vec::new();
    let ghost mut k: int = 0;
    while rest.len() > 0
        invariant
            0 <= k <= input.len(),
            rest@.len() == input.len() - k,
            forall|t: int| 0 <= t < rest@.len() ==> #[trigger] rest@[t] == input[input.len() - 1 - t],
            strictly_sorted(paths_of(r@)),
            forall|p: Seq<u8>| has_path(r@, p) <==> has_path(input.take(k), p),
            forall|p: Seq<u8>| has_path(r@, p) ==> content_at(r@, p) == content_at(input.take(k), p),
        decreases rest.len(),
    {
        let ghost before = r@;
        let ghost done = input.take(k);
        let ghost next = input.take(k + 1);
        assert(next =~= done.push(input[k]));
        let ghost last = rest@.len() - 1;
        assert(rest@[last] == input[k]);
        let e = rest.pop().unwrap();
        let mut lo: usize = 0;
        let mut hi: usize = r.len();
        while lo < hi
            invariant
                r@ == before,
                strictly_sorted(paths_of(r@)),
                lo <= hi <= r.len(),
                forall|m: int| 0 <= m < lo ==> lex_lt(#[trigger] r@[m].path@, e.path@),
                forall|m: int| hi <= m < r.len() ==> !lex_lt(#[trigger] r@[m].path@, e.path@),
            decreases hi - lo,
        {
            let mid = lo + (hi - lo) / 2;
            if bytes_lt(r[mid].path.as_slice(), e.path.as_slice()) {
                proof {
                    assert forall|m: int| 0 <= m < mid + 1 implies lex_lt(#[trigger] r@[m].path@, e.path@) by {
                        if m < mid {
                            assert(lex_lt(paths_of(r@)[m], paths_of(r@)[mid as int]));
                            lemma_lex_transitive(r@[m].path@, r@[mid as int].path@, e.path@);
                        }
                    }
                }
                lo = mid + 1;
            } else {
                proof {
                    assert forall|m: int| mid <= m < r.len() implies !lex_lt(#[trigger] r@[m].path@, e.path@) by {
                        if m > mid && lex_lt(r@[m].path@, e.path@) {
                            assert(lex_lt(paths_of(r@)[mid as int], paths_of(r@)[m]));
                            lemma_lex_transitive(r@[mid as int].path@, r@[m].path@, e.path@);
                        }
                    }
                }
                hi = mid;
            }
        }
        let pos = lo;
        let dup = pos < r.len() && bytes_eq(r[pos].path.as_slice(), e.path.as_slice());
        proof {
            // paths after `pos` come after the new path
            if pos < r.len() {
                assert(!lex_lt(r@[pos as int].path@, e.path@));
                lemma_lex_total(r@[pos as int].path@, e.path@);
            }
            assert forall|m: int| pos <= m < r.len() implies
                (#[trigger] r@[m].path@ == e.path@ || lex_lt(e.path@, r@[m].path@)) by {
                if m > pos {
                    assert(lex_lt(paths_of(r@)[pos as int], paths_of(r@)[m]));
                    if r@[pos as int].path@ != e.path@ {
                        lemma_lex_transitive(e.path@, r@[pos as int].path@, r@[m].path@);
                    }
                }
            }
        }
        if dup {
            proof {
                assert(has_path(before, e.path@));
                assert(has_path(done, e.path@));
                assert forall|p: Seq<u8>| has_path(r@, p) <==> has_path(next, p) by {
                    if has_path(next, p) {
                        let i = choose|i: int| 0 <= i < next.len() && (#[trigger] next[i]).path@ == p;
                        if i < k {
                            assert(done[i] == next[i]);
                        }
                    }
                    if has_path(done, p) {
                        let i = choose|i: int| 0 <= i < done.len() && (#[trigger] done[i]).path@ == p;
                        assert(next[i] == done[i]);
                    }
                }
                assert forall|p: Seq<u8>| has_path(r@, p) implies content_at(r@, p) == content_at(next, p) by {
                    let i = lemma_first_exists(done, p);
                    lemma_content_at(done, p, i);
                    assert(next[i] == done[i]);
                    assert forall|j: int| 0 <= j < i implies (#[trigger] next[j]).path@ != p by {
                        assert(next[j] == done[j]);
                    }
                    lemma_content_at(next, p, i);
                }
            }
        } else {
            let ghost ep = e.path@;
            proof {
                assert forall|m: int| pos <= m < before.len() implies lex_lt(ep, #[trigger] before[m].path@) by {
                    assert(before[pos as int].path@ != ep);
                    assert(lex_lt(ep, before[pos as int].path@));
                    if m > pos && before[m].path@ == ep {
                        assert(lex_lt(paths_of(before)[pos as int], paths_of(before)[m]));
                        lemma_lex_total(ep, before[pos as int].path@);
                    }
                }
            }
            r.insert(pos, e);
            proof {
                let after = r@;
                assert(after =~= before.insert(pos as int, after[pos as int]));
                assert forall|i: int, j: int| 0 <= i < j < after.len() implies
                    lex_lt(#[trigger] paths_of(after)[i], #[trigger] paths_of(after)[j]) by {
                    if j < pos {
                        assert(lex_lt(paths_of(before)[i], paths_of(before)[j]));
                    } else if j == pos {
                    } else if i < pos {
                        assert(lex_lt(before[i].path@, ep));
                        assert(lex_lt(ep, before[j - 1].path@));
                        lemma_lex_transitive(before[i].path@, ep, before[j - 1].path@);
                    } else if i == pos {
                        assert(lex_lt(ep, before[j - 1].path@));
                    } else {
                        assert(lex_lt(paths_of(before)[i - 1], paths_of(before)[j - 1]));
                    }
                }
                assert(!has_path(done, ep)) by {
                    if has_path(before, ep) {
                        let m = choose|m: int| 0 <= m < before.len() && (#[trigger] before[m]).path@ == ep;
                        if m < pos {
                            lemma_lex_irreflexive(ep);
                        } else if m > pos {
                            assert(lex_lt(ep, before[m].path@));
                            lemma_lex_irreflexive(ep);
                        }
                    }
                }
                assert forall|p: Seq<u8>| has_path(after, p) <==> has_path(next, p) by {
                    if has_path(next, p) {
                        let i = choose|i: int| 0 <= i < next.len() && (#[trigger] next[i]).path@ == p;
                        if i < k {
                            assert(done[i] == next[i]);
                            assert(has_path(before, p));
                            let m = choose|m: int| 0 <= m < before.len() && (#[trigger] before[m]).path@ == p;
                            if m < pos {
                                assert(after[m] == before[m]);
                            } else {
                                assert(after[m + 1] == before[m]);
                            }
                        } else {
                            assert(after[pos as int].path@ == p);
                        }
                    }
                    if has_path(after, p) {
                        let m = choose|m: int| 0 <= m < after.len() && (#[trigger] after[m]).path@ == p;
                        if m == pos {
                            assert(next[k] == input[k]);
                        } else {
                            let bm = if m < pos { m } else { m - 1 };
                            assert(before[bm] == after[m]);
                            assert(before[bm].path@ == p);
                            assert(has_path(before, p));
                            assert(has_path(done, p));
                            let i = choose|i: int| 0 <= i < done.len() && (#[trigger] done[i]).path@ == p;
                            assert(next[i] == done[i]);
                        }
                    }
                }
                assert forall|p: Seq<u8>| has_path(after, p) implies content_at(after, p) == content_at(next, p) by {
                    let m = choose|m: int| 0 <= m < after.len() && (#[trigger] after[m]).path@ == p;
                    assert forall|j: int| 0 <= j < m implies (#[trigger] after[j]).path@ != p by {
                        assert(lex_lt(paths_of(after)[j], paths_of(after)[m]));
                        lemma_lex_irreflexive(p);
                    }
                    lemma_content_at(after, p, m);
                    if p == ep {
                        assert forall|j: int| 0 <= j < k implies (#[trigger] next[j]).path@ != p by {
                            assert(next[j] == done[j]);
                        }
                        lemma_content_at(next, p, k);
                        assert(m == pos) by {
                            if m != pos {
                                assert(after[pos as int].path@ == p);
                                if m > pos {
                                    assert(lex_lt(paths_of(after)[pos as int], paths_of(after)[m]));
                                }
                                lemma_lex_irreflexive(p);
                            }
                        }
                    } else {
                        assert(has_path(before, p)) by {
                            if m < pos {
                                assert(before[m] == after[m]);
                            } else {
                                assert(before[m - 1] == after[m]);
                            }
                        }
                        let bm = if m < pos { m } else { m - 1 };
                        assert forall|j: int| 0 <= j < bm implies (#[trigger] before[j]).path@ != p by {
                            assert(lex_lt(paths_of(before)[j], paths_of(before)[bm]));
                            lemma_lex_irreflexive(p);
                        }
                        lemma_content_at(before, p, bm);
                        let i = lemma_first_exists(done, p);
                        lemma_content_at(done, p, i);
                        assert(next[i] == done[i]);
                        assert forall|j: int| 0 <= j < i implies (#[trigger] next[j]).path@ != p by {
                            assert(next[j] == done[j]);
                        }
                        lemma_content_at(next, p, i);
                    }
                }
            }
        }
        proof {
            k = k + 1;
        }
    }
    proof {
        assert(input.take(k) =~= input);
    }
    r
}

} // verus!
