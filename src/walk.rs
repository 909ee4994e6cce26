use vstd::prelude::*;

use crate::engine::{bytes_view, compare_entries, copy_bytes, is_comparison_of, ComparisonResult};
use crate::entry::{Content, ContentView, Entry};
use crate::glob::{ignored_by, is_ignored};

verus! {

/// The separator between the components of a relative path.
pub const SLASH: u8 = 47;

/// What a caller asks to compare, and how.
pub struct ComparisonRequest {
    pub left: String,
    pub right: String,
    pub recursive: bool,
    pub ignore_patterns: Vec<Vec<u8>>,
    pub compare_contents: bool,
}

/// One child found when listing a directory: its name and what it holds.
pub struct Child {
    pub name: Vec<u8>,
    pub content: Content,
}

/// One of the two trees.
#[derive(Clone, Copy, Debug, PartialEq, Eq, Structural)]
pub enum Side {
    Left,
    Right,
}

/// What the caller does next.
pub enum Step {
    /// List the directory at this relative path of this side and deliver its children.
    List(Side, Vec<u8>),
    /// Both trees are listed: call `finish`.
    Done,
    /// The root of this side could not be listed, for this cause; there is no result.
    RootUnlistable(Side, Vec<u8>),
    /// The comparison was abandoned on request; there is no result.
    Cancelled,
}

/// The traversal of one tree: directories still to list, entries found so far.
pub struct Tree {
    pub pending: Vec<Vec<u8>>,
    pub entries: Vec<Entry>,
}

/// Each entry as its path and content.
pub open spec fn entries_view(s: Seq<Entry>) -> Seq<(Seq<u8>, ContentView)> {
    s.map_values(|e: Entry| (e.path@, e.content@))
}

/// Each child as its name and content.
pub open spec fn children_view(s: Seq<Child>) -> Seq<(Seq<u8>, ContentView)> {
    s.map_values(|c: Child| (c.name@, c.content@))
}

/// The relative path of `name` inside the directory at relative path `dir` (empty: the root).
pub open spec fn join_path(dir: Seq<u8>, name: Seq<u8>) -> Seq<u8> {
    if dir.len() == 0 {
        name
    } else {
        dir.push(SLASH) + name
    }
}

/// A child that is walked into: not ignored, a directory, and the walk is recursive.
pub open spec fn descends(recursive: bool, patterns: Seq<Seq<u8>>, c: (Seq<u8>, ContentView)) -> bool {
    !ignored_by(patterns, c.0) && recursive && c.1 == ContentView::Directory
}

/// A child that is reported as an entry: not ignored and not walked into.
pub open spec fn records(recursive: bool, patterns: Seq<Seq<u8>>, c: (Seq<u8>, ContentView)) -> bool {
    !ignored_by(patterns, c.0) && !(recursive && c.1 == ContentView::Directory)
}

/// The entries that a listing of `dir` adds, in the order of its children.
pub open spec fn listed_entries(
    recursive: bool,
    patterns: Seq<Seq<u8>>,
    dir: Seq<u8>,
    cs: Seq<(Seq<u8>, ContentView)>,
) -> Seq<(Seq<u8>, ContentView)>
    decreases cs.len(),
{
    if cs.len() == 0 {
        Seq::empty()
    } else {
        let prev = listed_entries(recursive, patterns, dir, cs.drop_last());
        let c = cs.last();
        if records(recursive, patterns, c) {
            prev.push((join_path(dir, c.0), c.1))
        } else {
            prev
        }
    }
}

/// The directories that a listing of `dir` adds to those still to list.
pub open spec fn listed_dirs(recursive: bool, patterns: Seq<Seq<u8>>, dir: Seq<u8>, cs: Seq<(Seq<u8>, ContentView)>) -> Seq<Seq<u8>>
    decreases cs.len(),
{
    if cs.len() == 0 {
        Seq::empty()
    } else {
        let prev = listed_dirs(recursive, patterns, dir, cs.drop_last());
        let c = cs.last();
        if descends(recursive, patterns, c) {
            prev.push(join_path(dir, c.0))
        } else {
            prev
        }
    }
}

/// Builds the relative path of `name` inside `dir`.
pub fn join(dir: &[u8], name: &[u8]) -> (r: Vec<u8>)
    ensures
        r@ == join_path(dir@, name@),
{
    let mut r = copy_bytes(dir);
    if dir.len() > 0 {
        r.push(SLASH);
    }
    let mut i: usize = 0;
    let ghost start = r@;
    while i < name.len()
        invariant
            i <= name.len(),
            r@ == start + name@.take(i as int),
        decreases name.len() - i,
    {
        r.push(name[i]);
        i = i + 1;
        assert(r@ =~= start + name@.take(i as int));
    }
    assert(name@.take(i as int) =~= name@);
    assert(dir@.len() == 0 ==> start + name@ =~= name@);
    r
}

impl Tree {
    /// A tree whose root is still to list.
    pub fn new() -> (t: Tree)
        ensures
            bytes_view(t.pending@) == seq![Seq::<u8>::empty()],
            t.entries@.len() == 0,
    {
        let mut pending: Vec<Vec<u8>> = Vec::new();
        pending.push(Vec::new());
        assert(bytes_view(pending@) =~= seq![Seq::<u8>::empty()]);
        Tree { pending, entries: Vec::new() }
    }

    /// Takes in the children of the directory at `dir`: ignored names are dropped, directories
    /// are queued when the walk is recursive, everything else becomes an entry.
    pub fn add_listing(&mut self, recursive: bool, patterns: &Vec<Vec<u8>>, dir: &[u8], children: Vec<Child>)
        ensures
            entries_view(final(self).entries@) == entries_view(old(self).entries@)
                + listed_entries(recursive, bytes_view(patterns@), dir@, children_view(children@)),
            bytes_view(final(self).pending@) == bytes_view(old(self).pending@)
                + listed_dirs(recursive, bytes_view(patterns@), dir@, children_view(children@)),
    {
        let ghost input = children@;
        let ghost pats = bytes_view(patterns@);
        let ghost e0 = entries_view(self.entries@);
        let ghost p0 = bytes_view(self.pending@);
        let mut rest = children;
        let ghost mut k: int = 0;
        proof {
            assert(children_view(input.take(0)) =~= Seq::<(Seq<u8>, ContentView)>::empty());
            assert(e0 + Seq::<(Seq<u8>, ContentView)>::empty() =~= e0);
            assert(p0 + Seq::<Seq<u8>>::empty() =~= p0);
        }
        while rest.len() > 0
            invariant
                0 <= k <= input.len(),
                rest@ == input.skip(k),
                pats == bytes_view(patterns@),
                entries_view(self.entries@) == e0 + listed_entries(recursive, pats, dir@, children_view(input.take(k))),
                bytes_view(self.pending@) == p0 + listed_dirs(recursive, pats, dir@, children_view(input.take(k))),
            decreases rest.len(),
        {
            assert(rest@[0] == input[k]);
            let c = rest.remove(0);
            proof {
                assert(rest@ =~= input.skip(k + 1));
                assert(children_view(input.take(k + 1)).drop_last() =~= children_view(input.take(k)));
                assert(children_view(input.take(k + 1)).last() == (c.name@, c.content@));
            }
            let ghost before_e = entries_view(self.entries@);
            let ghost before_p = bytes_view(self.pending@);
            if !is_ignored(patterns, c.name.as_slice()) {
                let path = join(dir, c.name.as_slice());
                let is_dir = match c.content {
                    Content::Directory => true,
                    _ => false,
                };
                if recursive && is_dir {
                    self.pending.push(path);
                    proof {
                        assert(bytes_view(self.pending@) =~= before_p.push(path@));
                    }
                } else {
                    let ghost cv = c.content@;
                    self.entries.push(Entry { path, content: c.content });
                    proof {
                        assert(entries_view(self.entries@) =~= before_e.push((path@, cv)));
                    }
                }
            }
            proof {
                k = k + 1;
            }
        }
        proof {
            assert(input.take(k) =~= input);
        }
    }
}

/// A comparison in progress: the caller lists directories as asked and delivers what it found.
pub struct Comparison {
    pub request: ComparisonRequest,
    pub left: Tree,
    pub right: Tree,
    /// The side whose root could not be listed, and why; the comparison then has no result.
    pub root_failure: Option<(Side, Vec<u8>)>,
}

impl Comparison {
    /// Starts a comparison; both roots are still to list.
    pub fn new(request: ComparisonRequest) -> (c: Comparison)
        ensures
            c.request == request,
            bytes_view(c.left.pending@) == seq![Seq::<u8>::empty()],
            bytes_view(c.right.pending@) == seq![Seq::<u8>::empty()],
            c.left.entries@.len() == 0,
            c.right.entries@.len() == 0,
            c.root_failure is None,
    {
        Comparison { request, left: Tree::new(), right: Tree::new(), root_failure: None }
    }

    /// Decides what to do next: stop on a cancellation request; fail when a root could not be
    /// listed; else list the next directory of the left tree, then of the right tree, most
    /// recently queued first; else finish.
    pub fn next_step(&mut self, cancel_requested: bool) -> (s: Step)
        ensures
            final(self).request == old(self).request,
            final(self).root_failure == old(self).root_failure,
            cancel_requested ==> s is Cancelled && *final(self) == *old(self),
            !cancel_requested && old(self).root_failure is Some ==> {
                &&& s matches Step::RootUnlistable(side, cause)
                &&& side == old(self).root_failure->Some_0.0
                &&& cause@ == old(self).root_failure->Some_0.1@
                &&& *final(self) == *old(self)
            },
            !cancel_requested && old(self).root_failure is None && old(self).left.pending@.len() > 0 ==> {
                &&& s matches Step::List(side, d) && side == Side::Left && d@ == old(self).left.pending@.last()@
                &&& final(self).left.pending@ == old(self).left.pending@.drop_last()
                &&& final(self).left.entries == old(self).left.entries
                &&& final(self).right == old(self).right
            },
            !cancel_requested && old(self).root_failure is None && old(self).left.pending@.len() == 0
                && old(self).right.pending@.len() > 0 ==> {
                &&& s matches Step::List(side, d) && side == Side::Right && d@ == old(self).right.pending@.last()@
                &&& final(self).right.pending@ == old(self).right.pending@.drop_last()
                &&& final(self).right.entries == old(self).right.entries
                &&& final(self).left == old(self).left
            },
            !cancel_requested && old(self).root_failure is None && old(self).left.pending@.len() == 0
                && old(self).right.pending@.len() == 0 ==> {
                &&& s is Done
                &&& *final(self) == *old(self)
            },
    {
        if cancel_requested {
            return Step::Cancelled;
        }
        match &self.root_failure {
            Some(failure) => {
                return Step::RootUnlistable(failure.0, copy_bytes(failure.1.as_slice()));
            },
            None => {},
        }
        if self.left.pending.len() > 0 {
            match self.left.pending.pop() {
                Some(d) => Step::List(Side::Left, d),
                None => Step::Done,
            }
        } else if self.right.pending.len() > 0 {
            match self.right.pending.pop() {
                Some(d) => Step::List(Side::Right, d),
                None => Step::Done,
            }
        } else {
            Step::Done
        }
    }

    /// Delivers the children of the directory at `dir` on `side`.
    pub fn deliver(&mut self, side: Side, dir: &[u8], children: Vec<Child>)
        ensures
            final(self).request == old(self).request,
            final(self).root_failure == old(self).root_failure,
            side == Side::Left ==> {
                &&& entries_view(final(self).left.entries@) == entries_view(old(self).left.entries@)
                    + listed_entries(old(self).request.recursive, bytes_view(old(self).request.ignore_patterns@), dir@, children_view(children@))
                &&& bytes_view(final(self).left.pending@) == bytes_view(old(self).left.pending@)
                    + listed_dirs(old(self).request.recursive, bytes_view(old(self).request.ignore_patterns@), dir@, children_view(children@))
                &&& final(self).right == old(self).right
            },
            side == Side::Right ==> {
                &&& entries_view(final(self).right.entries@) == entries_view(old(self).right.entries@)
                    + listed_entries(old(self).request.recursive, bytes_view(old(self).request.ignore_patterns@), dir@, children_view(children@))
                &&& bytes_view(final(self).right.pending@) == bytes_view(old(self).right.pending@)
                    + listed_dirs(old(self).request.recursive, bytes_view(old(self).request.ignore_patterns@), dir@, children_view(children@))
                &&& final(self).left == old(self).left
            },
    {
        match side {
            Side::Left => self.left.add_listing(self.request.recursive, &self.request.ignore_patterns, dir, children),
            Side::Right => self.right.add_listing(self.request.recursive, &self.request.ignore_patterns, dir, children),
        }
    }

    /// Records that the directory at `dir` on `side` could not be listed. A root (`dir` empty)
    /// fails the whole comparison, the first such failure being kept. Any other directory
    /// stands as an unreadable entry, and the rest of the walk goes on.
    pub fn listing_failed(&mut self, side: Side, dir: &[u8], cause: Vec<u8>)
        ensures
            final(self).request == old(self).request,
            dir@.len() == 0 ==> {
                &&& final(self).left == old(self).left
                &&& final(self).right == old(self).right
                &&& old(self).root_failure is Some ==> final(self).root_failure == old(self).root_failure
                &&& old(self).root_failure is None ==> (final(self).root_failure matches Some(f)
                    && f.0 == side && f.1@ == cause@)
            },
            dir@.len() > 0 ==> final(self).root_failure == old(self).root_failure,
            dir@.len() > 0 && side == Side::Left ==> {
                &&& entries_view(final(self).left.entries@) == entries_view(old(self).left.entries@).push((dir@, ContentView::Unreadable(cause@)))
                &&& final(self).left.pending == old(self).left.pending
                &&& final(self).right == old(self).right
            },
            dir@.len() > 0 && side == Side::Right ==> {
                &&& entries_view(final(self).right.entries@) == entries_view(old(self).right.entries@).push((dir@, ContentView::Unreadable(cause@)))
                &&& final(self).right.pending == old(self).right.pending
                &&& final(self).left == old(self).left
            },
    {
        if dir.len() == 0 {
            if self.root_failure.is_none() {
                self.root_failure = Some((side, cause));
            }
            return;
        }
        let ghost cv = cause@;
        let entry = Entry { path: copy_bytes(dir), content: Content::Unreadable(cause) };
        match side {
            Side::Left => {
                let ghost before = entries_view(self.left.entries@);
                self.left.entries.push(entry);
                assert(entries_view(self.left.entries@) =~= before.push((dir@, ContentView::Unreadable(cv))));
            },
            Side::Right => {
                let ghost before = entries_view(self.right.entries@);
                self.right.entries.push(entry);
                assert(entries_view(self.right.entries@) =~= before.push((dir@, ContentView::Unreadable(cv))));
            },
        }
    }

    /// Compares what both walks found, once both are complete and both roots were listed.
    pub fn finish(self) -> (r: ComparisonResult)
        requires
            self.left.pending@.len() == 0,
            self.right.pending@.len() == 0,
            self.root_failure is None,
        ensures
            is_comparison_of(r@, self.request.compare_contents, self.left.entries@, self.right.entries@),
    {
        compare_entries(self.request.compare_contents, self.left.entries, self.right.entries)
    }
}

} // verus!
