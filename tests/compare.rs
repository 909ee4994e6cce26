use comparust::engine::{compare_entries, ComparisonResult};
use comparust::entry::{sort_entries, Content, Entry};
use comparust::glob::{is_ignored, matches_glob};
use comparust::order::bytes_lt;
use comparust::report::render_report;
use comparust::walk::{join, Child, Comparison, ComparisonRequest, Side, Step};

fn file(name: &str, body: &str) -> Child {
    Child { name: name.as_bytes().to_vec(), content: Content::File(body.as_bytes().to_vec()) }
}

fn dir(name: &str) -> Child {
    Child { name: name.as_bytes().to_vec(), content: Content::Directory }
}

fn entry(path: &str, body: &str) -> Entry {
    Entry { path: path.as_bytes().to_vec(), content: Content::File(body.as_bytes().to_vec()) }
}

fn paths(v: &[Vec<u8>]) -> Vec<String> {
    v.iter().map(|p| String::from_utf8(p.clone()).unwrap()).collect()
}

fn request(recursive: bool, ignore: &[&str], compare_contents: bool) -> ComparisonRequest {
    ComparisonRequest {
        left: "left".to_string(),
        right: "right".to_string(),
        recursive,
        ignore_patterns: ignore.iter().map(|p| p.as_bytes().to_vec()).collect(),
        compare_contents,
    }
}

/// An in-memory tree: each directory's relative path with the children it lists.
type MemTree = Vec<(&'static str, Vec<Child>)>;

fn children_of(tree: &mut MemTree, d: &[u8]) -> Vec<Child> {
    let pos = tree.iter().position(|(p, _)| p.as_bytes() == d).expect("listed directory exists");
    std::mem::take(&mut tree[pos].1)
}

/// Drives a comparison over two in-memory trees; cancels once `cancel_after` listings were made.
fn run(req: ComparisonRequest, mut left: MemTree, mut right: MemTree, cancel_after: Option<usize>) -> Option<ComparisonResult> {
    let mut cmp = Comparison::new(req);
    let mut listed = 0usize;
    loop {
        let cancel = cancel_after.map_or(false, |n| listed >= n);
        match cmp.next_step(cancel) {
            Step::List(side, d) => {
                let children = match side {
                    Side::Left => children_of(&mut left, &d),
                    Side::Right => children_of(&mut right, &d),
                };
                cmp.deliver(side, &d, children);
                listed += 1;
            }
            Step::Done => return Some(cmp.finish()),
            Step::Cancelled => return None,
            Step::RootUnlistable(_, _) => return None,
        }
    }
}

#[test]
fn presence_scenario() {
    let left: MemTree = vec![("", vec![file("a.txt", "hi"), file("b.txt", "x")])];
    let right: MemTree = vec![("", vec![file("a.txt", "hi"), file("c.txt", "y")])];
    let r = run(request(false, &[], true), left, right, None).unwrap();
    assert_eq!(paths(&r.only_in_left), vec!["b.txt"]);
    assert_eq!(paths(&r.only_in_right), vec!["c.txt"]);
    assert!(r.differing.is_empty());
    assert_eq!(r.identical_count, 1);
}

#[test]
fn content_differs_scenario() {
    let left: MemTree = vec![("", vec![file("a.txt", "hi"), file("b.txt", "x")])];
    let right: MemTree = vec![("", vec![file("a.txt", "bye"), file("c.txt", "y")])];
    let r = run(request(false, &[], true), left, right, None).unwrap();
    assert_eq!(paths(&r.differing), vec!["a.txt"]);
    assert_eq!(r.identical_count, 0);
    assert!(r.failures.is_empty());
}

#[test]
fn ignored_name_scenario() {
    let left: MemTree = vec![("", vec![file(".DS_Store", "one"), file("a.txt", "hi")])];
    let right: MemTree = vec![("", vec![file(".DS_Store", "two"), file("a.txt", "hi")])];
    let r = run(request(false, &[".DS_Store"], true), left, right, None).unwrap();
    assert!(r.only_in_left.is_empty());
    assert!(r.only_in_right.is_empty());
    assert!(r.differing.is_empty());
    assert_eq!(r.identical_count, 1);
}

#[test]
fn non_recursive_skips_nested_scenario() {
    let left: MemTree = vec![("", vec![dir("sub")]), ("sub", vec![file("deep.txt", "d")])];
    let right: MemTree = vec![("", vec![dir("sub")]), ("sub", vec![])];
    let r = run(request(false, &[], true), left, right, None).unwrap();
    assert!(r.only_in_left.is_empty());
    assert!(!paths(&r.only_in_left).iter().any(|p| p.ends_with("deep.txt")));
    assert_eq!(r.identical_count, 1);
}

#[test]
fn recursive_reports_nested() {
    let left: MemTree = vec![("", vec![dir("sub")]), ("sub", vec![file("deep.txt", "d")])];
    let right: MemTree = vec![("", vec![dir("sub")]), ("sub", vec![])];
    let r = run(request(true, &[], true), left, right, None).unwrap();
    assert_eq!(paths(&r.only_in_left), vec!["sub/deep.txt"]);
    assert_eq!(r.identical_count, 0);
}

#[test]
fn cancelled_scenario() {
    let mut left: MemTree = vec![("", (0..50).map(|i| dir(Box::leak(format!("d{}", i).into_boxed_str()))).collect())];
    for i in 0..50 {
        let name: &'static str = Box::leak(format!("d{}", i).into_boxed_str());
        left.push((name, vec![file("f.txt", "x")]));
    }
    let right: MemTree = vec![("", vec![])];
    assert!(run(request(true, &[], true), left, right, Some(10)).is_none());
}

#[test]
fn cancel_request_stops_at_once() {
    let mut cmp = Comparison::new(request(true, &[], true));
    assert!(matches!(cmp.next_step(true), Step::Cancelled));
    assert!(matches!(cmp.next_step(false), Step::List(Side::Left, ref d) if d.is_empty()));
}

#[test]
fn no_path_in_two_categories() {
    let left = vec![entry("a", "1"), entry("b", "2"), entry("c", "3")];
    let right = vec![entry("b", "2"), entry("c", "4"), entry("d", "5")];
    let r = compare_entries(true, left, right);
    let all = [paths(&r.only_in_left), paths(&r.only_in_right), paths(&r.differing)].concat();
    let mut dedup = all.clone();
    dedup.sort();
    dedup.dedup();
    assert_eq!(all.len(), dedup.len());
    assert_eq!(all, vec!["a", "d", "c"]);
    assert_eq!(r.identical_count, 1);
}

#[test]
fn repeated_comparison_is_identical() {
    let make = || (vec![entry("z", "1"), entry("m", "2"), entry("a", "3")], vec![entry("m", "9"), entry("q", "1")]);
    let (l1, r1) = make();
    let (l2, r2) = make();
    let a = compare_entries(true, l1, r1);
    let b = compare_entries(true, l2, r2);
    let text_a = render_report(b"diff", &a);
    let text_b = render_report(b"diff", &b);
    assert_eq!(text_a, text_b);
    assert_eq!(a.identical_count, b.identical_count);
}

#[test]
fn swapped_sides_swap_results() {
    let l = || vec![entry("a", "1"), entry("b", "2"), entry("c", "3")];
    let r = || vec![entry("b", "2"), entry("c", "4"), entry("d", "5")];
    let x = compare_entries(true, l(), r());
    let y = compare_entries(true, r(), l());
    assert_eq!(paths(&x.only_in_left), paths(&y.only_in_right));
    assert_eq!(paths(&x.only_in_right), paths(&y.only_in_left));
    assert_eq!(paths(&x.differing), paths(&y.differing));
    assert_eq!(x.identical_count, y.identical_count);
}

#[test]
fn results_sorted_regardless_of_listing_order() {
    let r = compare_entries(false, vec![entry("b", ""), entry("a/x", ""), entry("a", ""), entry("A", "")], vec![]);
    assert_eq!(paths(&r.only_in_left), vec!["A", "a", "a/x", "b"]);
}

#[test]
fn presence_only_counts_common_as_identical() {
    let r = compare_entries(false, vec![entry("a", "1")], vec![entry("a", "2")]);
    assert!(r.differing.is_empty());
    assert_eq!(r.identical_count, 1);
}

#[test]
fn links_compare_by_target() {
    let link = |t: &str| Entry { path: b"l".to_vec(), content: Content::Link(t.as_bytes().to_vec()) };
    assert_eq!(compare_entries(true, vec![link("x")], vec![link("x")]).identical_count, 1);
    assert_eq!(paths(&compare_entries(true, vec![link("x")], vec![link("y")]).differing), vec!["l"]);
}

#[test]
fn directory_against_file_differs() {
    let d = Entry { path: b"n".to_vec(), content: Content::Directory };
    let r = compare_entries(true, vec![d], vec![entry("n", "")]);
    assert_eq!(paths(&r.differing), vec!["n"]);
}

#[test]
fn unreadable_file_is_differing_with_cause() {
    let bad = Entry { path: b"s".to_vec(), content: Content::Unreadable(b"denied".to_vec()) };
    let r = compare_entries(true, vec![entry("s", "ok"), entry("t", "1")], vec![bad, entry("t", "1")]);
    assert_eq!(paths(&r.differing), vec!["s"]);
    assert_eq!(r.failures.len(), 1);
    assert_eq!(r.failures[0].path, b"s".to_vec());
    assert_eq!(r.failures[0].cause, b"denied".to_vec());
    assert_eq!(r.identical_count, 1);
}

#[test]
fn unlistable_directory_is_recorded() {
    let mut cmp = Comparison::new(request(true, &[], true));
    assert!(matches!(cmp.next_step(false), Step::List(Side::Left, _)));
    cmp.deliver(Side::Left, b"", vec![dir("locked"), file("a", "1")]);
    match cmp.next_step(false) {
        Step::List(Side::Left, d) => {
            assert_eq!(d, b"locked".to_vec());
            cmp.listing_failed(Side::Left, &d, b"permission denied".to_vec());
        }
        _ => panic!("expected the locked directory"),
    }
    assert!(matches!(cmp.next_step(false), Step::List(Side::Right, _)));
    cmp.deliver(Side::Right, b"", vec![file("a", "1")]);
    assert!(matches!(cmp.next_step(false), Step::Done));
    let r = cmp.finish();
    assert_eq!(paths(&r.only_in_left), vec!["locked"]);
    assert_eq!(r.identical_count, 1);
    assert_eq!(r.failures.len(), 1);
    assert_eq!(r.failures[0].path, b"locked".to_vec());
    assert_eq!(r.failures[0].cause, b"permission denied".to_vec());
}

#[test]
fn duplicate_listing_keeps_first() {
    let sorted = sort_entries(vec![entry("b", "1"), entry("a", "2"), entry("b", "3")]);
    assert_eq!(sorted.len(), 2);
    assert_eq!(sorted[0].path, b"a".to_vec());
    assert!(matches!(&sorted[1].content, Content::File(b) if b == b"1"));
}

#[test]
fn empty_trees_compare_empty() {
    let r = compare_entries(true, vec![], vec![]);
    assert!(r.only_in_left.is_empty() && r.only_in_right.is_empty() && r.differing.is_empty());
    assert_eq!(r.identical_count, 0);
}

#[test]
fn glob_patterns() {
    assert!(matches_glob(b"*.txt", b"a.txt"));
    assert!(matches_glob(b"*.txt", b".txt"));
    assert!(!matches_glob(b"*.txt", b"a.txt.bak"));
    assert!(matches_glob(b"?.rs", b"a.rs"));
    assert!(!matches_glob(b"?.rs", b"ab.rs"));
    assert!(matches_glob(b".DS_Store", b".DS_Store"));
    assert!(!matches_glob(b".DS_Store", b".DS_Stor"));
    assert!(matches_glob(b"*", b""));
    assert!(matches_glob(b"a*b*c", b"axxbyyc"));
    let pats = vec![b"*.o".to_vec(), b"target".to_vec()];
    assert!(is_ignored(&pats, b"main.o"));
    assert!(is_ignored(&pats, b"target"));
    assert!(!is_ignored(&pats, b"main.rs"));
}

#[test]
fn glob_ignores_in_nested_directories() {
    let left: MemTree = vec![("", vec![dir("sub")]), ("sub", vec![file("x.tmp", "1"), file("k", "1")])];
    let right: MemTree = vec![("", vec![dir("sub")]), ("sub", vec![file("k", "1")])];
    let r = run(request(true, &["*.tmp"], true), left, right, None).unwrap();
    assert!(r.only_in_left.is_empty());
    assert_eq!(r.identical_count, 1);
}

#[test]
fn byte_order_and_join() {
    assert!(bytes_lt(b"a", b"b"));
    assert!(bytes_lt(b"a", b"ab"));
    assert!(!bytes_lt(b"ab", b"a"));
    assert!(!bytes_lt(b"a", b"a"));
    assert!(bytes_lt(b"", b"a"));
    assert_eq!(join(b"", b"x"), b"x".to_vec());
    assert_eq!(join(b"a/b", b"x"), b"a/b/x".to_vec());
}

#[test]
fn report_text_layout() {
    let r = compare_entries(true, vec![entry("a", "1"), entry("b", "1")], vec![entry("b", "2"), entry("c", "3")]);
    let text = render_report(b"Comparison", &r);
    assert_eq!(String::from_utf8(text).unwrap(), "Comparison\n< a\n> c\n! b\n");
}

#[test]
fn non_recursive_nested_only_on_left() {
    let left: MemTree = vec![("", vec![dir("sub"), file("a.txt", "hi")]), ("sub", vec![file("deep.txt", "d")])];
    let right: MemTree = vec![("", vec![file("a.txt", "hi")])];
    let r = run(request(false, &[], true), left, right, None).unwrap();
    assert_eq!(paths(&r.only_in_left), vec!["sub"]);
    assert!(!paths(&r.only_in_left).iter().any(|p| p.contains("deep.txt")));
    assert!(r.only_in_right.is_empty());
    assert_eq!(r.identical_count, 1);
}

#[test]
fn unreadable_on_one_side_only_is_recorded() {
    let bad = Entry { path: b"x".to_vec(), content: Content::Unreadable(b"denied".to_vec()) };
    let r = compare_entries(true, vec![bad], vec![]);
    assert_eq!(paths(&r.only_in_left), vec!["x"]);
    assert_eq!(r.failures.len(), 1);
    assert_eq!(r.failures[0].path, b"x".to_vec());
    assert_eq!(r.failures[0].cause, b"denied".to_vec());
}

#[test]
fn unreadable_recorded_without_content_comparison() {
    let bad = |c: &str| Entry { path: b"y".to_vec(), content: Content::Unreadable(c.as_bytes().to_vec()) };
    let r = compare_entries(false, vec![bad("left cause")], vec![bad("right cause")]);
    assert!(r.differing.is_empty());
    assert_eq!(r.identical_count, 1);
    assert_eq!(r.failures.len(), 1);
    assert_eq!(r.failures[0].cause, b"left cause".to_vec());
    let r = compare_entries(false, vec![entry("y", "ok")], vec![bad("right cause")]);
    assert_eq!(r.failures[0].cause, b"right cause".to_vec());
}

#[test]
fn unlistable_root_fails_the_comparison() {
    let mut cmp = Comparison::new(request(true, &[], true));
    assert!(matches!(cmp.next_step(false), Step::List(Side::Left, _)));
    cmp.listing_failed(Side::Left, b"", b"permission denied".to_vec());
    match cmp.next_step(false) {
        Step::RootUnlistable(side, cause) => {
            assert_eq!(side, Side::Left);
            assert_eq!(cause, b"permission denied".to_vec());
        }
        _ => panic!("expected the root failure"),
    }
    assert!(matches!(cmp.next_step(true), Step::Cancelled));
}

#[test]
fn sort_many_entries_in_reverse() {
    let names: Vec<String> = (0..300).rev().map(|i| format!("f{:03}", i)).collect();
    let sorted = sort_entries(names.iter().map(|n| entry(n, "")).collect());
    let got: Vec<String> = sorted.iter().map(|e| String::from_utf8(e.path.clone()).unwrap()).collect();
    let mut expected = names.clone();
    expected.sort();
    assert_eq!(got, expected);
}
