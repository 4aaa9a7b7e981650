use std::collections::BTreeMap;

use main_extract::entry::DirEntry;
use main_extract::fragment::extract_main;
use main_extract::walk::{Action, Walk, WalkError};

/// A source tree held in memory.
enum Node {
    File(&'static str),
    Dir(Vec<(&'static str, Node)>),
    /// A directory that cannot be listed.
    Locked,
    /// A file that cannot be read as text.
    Garbled,
}

/// What a run left behind.
#[derive(Debug, PartialEq)]
struct Outcome {
    listed: Vec<String>,
    written: Vec<(String, String)>,
    count: u32,
    failed_at: Option<String>,
}

fn entry(name: &str, is_dir: bool) -> DirEntry {
    DirEntry { name: String::from(name), is_dir }
}

fn find<'a>(root: &'a Node, path: &[String]) -> &'a Node {
    let mut at = root;
    for name in path {
        match at {
            Node::Dir(children) => {
                at = &children.iter().find(|(n, _)| n == name).unwrap().1;
            }
            _ => panic!("not a directory"),
        }
    }
    at
}

/// Drives a walk over `root` as a caller with a file system would, and stops
/// at the first step that fails.
fn run_from(root: &Node, start: u32) -> Outcome {
    let mut walk = Walk::with_count(start);
    let mut listed = Vec::new();
    let mut written = Vec::new();
    let mut failed_at = None;
    loop {
        let action = match walk.pending() {
            Some(action) => action.clone(),
            None => break,
        };
        match action {
            Action::List(path) => match find(root, &path) {
                Node::Dir(children) => {
                    listed.push(path.join("/"));
                    let entries: Vec<DirEntry> = children
                        .iter()
                        .map(|(name, node)| entry(name, matches!(node, Node::Dir(_) | Node::Locked)))
                        .collect();
                    walk.listed(&entries).unwrap();
                }
                _ => {
                    failed_at = Some(path.join("/"));
                    break;
                }
            },
            Action::Extract(path) => match find(root, &path) {
                Node::File(content) => {
                    let fragment = extract_main(content).unwrap();
                    written.push((path.join("/"), fragment));
                    walk.written().unwrap();
                }
                _ => {
                    failed_at = Some(path.join("/"));
                    break;
                }
            },
        }
    }
    Outcome { listed, written, count: walk.count(), failed_at }
}

fn run(root: &Node) -> Outcome {
    run_from(root, 0)
}

fn names(list: &[&str]) -> Vec<String> {
    list.iter().map(|s| String::from(*s)).collect()
}

fn pairs(list: &[(&str, &str)]) -> Vec<(String, String)> {
    list.iter().map(|(p, c)| (String::from(*p), String::from(*c))).collect()
}

fn path(list: &[&str]) -> Vec<String> {
    names(list)
}

#[test]
fn a_new_walk_asks_for_the_root() {
    let walk = Walk::new();
    assert_eq!(walk.pending(), Some(&Action::List(Vec::new())));
    assert_eq!(walk.count(), 0);
}

#[test]
fn a_walk_can_go_on_from_an_earlier_count() {
    let walk = Walk::with_count(7);
    assert_eq!(walk.pending(), Some(&Action::List(Vec::new())));
    assert_eq!(walk.count(), 7);
}

#[test]
fn an_empty_root_ends_the_walk() {
    let mut walk = Walk::new();
    assert_eq!(walk.listed(&Vec::new()), Ok(()));
    assert_eq!(walk.pending(), None);
    assert_eq!(walk.count(), 0);
}

#[test]
fn entries_are_taken_in_the_order_of_the_listing() {
    let mut walk = Walk::new();
    walk.listed(&vec![entry("b.html", false), entry("a.html", false), entry("c.html", false)])
        .unwrap();
    assert_eq!(walk.pending(), Some(&Action::Extract(path(&["b.html"]))));
    walk.written().unwrap();
    assert_eq!(walk.pending(), Some(&Action::Extract(path(&["a.html"]))));
    walk.written().unwrap();
    assert_eq!(walk.pending(), Some(&Action::Extract(path(&["c.html"]))));
    walk.written().unwrap();
    assert_eq!(walk.pending(), None);
    assert_eq!(walk.count(), 3);
}

#[test]
fn entries_that_are_neither_directory_nor_html_ask_for_nothing() {
    let mut walk = Walk::new();
    walk.listed(&vec![entry("notes.txt", false), entry("image.png", false), entry("x.HTML", false)])
        .unwrap();
    assert_eq!(walk.pending(), None);
    assert_eq!(walk.count(), 0);
}

#[test]
fn a_directory_is_gone_through_before_what_follows_it() {
    let mut walk = Walk::new();
    walk.listed(&vec![entry("sub", true), entry("z.html", false)]).unwrap();
    assert_eq!(walk.pending(), Some(&Action::List(path(&["sub"]))));
    walk.listed(&vec![entry("deep", true), entry("b.html", false)]).unwrap();
    assert_eq!(walk.pending(), Some(&Action::List(path(&["sub", "deep"]))));
    walk.listed(&vec![entry("c.html", false)]).unwrap();
    assert_eq!(walk.pending(), Some(&Action::Extract(path(&["sub", "deep", "c.html"]))));
    walk.written().unwrap();
    assert_eq!(walk.pending(), Some(&Action::Extract(path(&["sub", "b.html"]))));
    walk.written().unwrap();
    assert_eq!(walk.pending(), Some(&Action::Extract(path(&["z.html"]))));
    walk.written().unwrap();
    assert_eq!(walk.pending(), None);
    assert_eq!(walk.count(), 3);
}

#[test]
fn a_directory_named_like_an_html_file_is_listed_and_then_extracted() {
    let mut walk = Walk::new();
    walk.listed(&vec![entry("odd.html", true), entry("a.html", false)]).unwrap();
    assert_eq!(walk.pending(), Some(&Action::List(path(&["odd.html"]))));
    walk.listed(&vec![entry("in.html", false)]).unwrap();
    assert_eq!(walk.pending(), Some(&Action::Extract(path(&["odd.html", "in.html"]))));
    walk.written().unwrap();
    assert_eq!(walk.pending(), Some(&Action::Extract(path(&["odd.html"]))));
    assert_eq!(walk.count(), 1);
}

#[test]
fn a_listing_that_was_not_asked_for_is_refused() {
    let mut walk = Walk::new();
    walk.listed(&vec![entry("a.html", false)]).unwrap();
    let before = walk.pending().cloned();
    assert_eq!(walk.listed(&vec![entry("b.html", false)]), Err(WalkError::NotListing));
    assert_eq!(walk.pending().cloned(), before);
    assert_eq!(walk.count(), 0);
}

#[test]
fn a_listing_after_the_end_is_refused() {
    let mut walk = Walk::new();
    walk.listed(&Vec::new()).unwrap();
    assert_eq!(walk.listed(&vec![entry("a.html", false)]), Err(WalkError::NotListing));
    assert_eq!(walk.pending(), None);
}

#[test]
fn a_write_that_was_not_asked_for_is_refused() {
    let mut walk = Walk::new();
    assert_eq!(walk.written(), Err(WalkError::NotExtracting));
    assert_eq!(walk.pending(), Some(&Action::List(Vec::new())));
    assert_eq!(walk.count(), 0);
}

#[test]
fn a_write_after_the_end_is_refused() {
    let mut walk = Walk::new();
    walk.listed(&Vec::new()).unwrap();
    assert_eq!(walk.written(), Err(WalkError::NotExtracting));
    assert_eq!(walk.count(), 0);
}

#[test]
fn a_full_counter_refuses_the_next_write() {
    let mut walk = Walk::with_count(u32::MAX);
    walk.listed(&vec![entry("a.html", false)]).unwrap();
    assert_eq!(walk.written(), Err(WalkError::CounterFull));
    assert_eq!(walk.pending(), Some(&Action::Extract(path(&["a.html"]))));
    assert_eq!(walk.count(), u32::MAX);
}

#[test]
fn the_last_count_is_reached() {
    let mut walk = Walk::with_count(u32::MAX - 1);
    walk.listed(&vec![entry("a.html", false), entry("b.html", false)]).unwrap();
    assert_eq!(walk.written(), Ok(()));
    assert_eq!(walk.count(), u32::MAX);
    assert_eq!(walk.written(), Err(WalkError::CounterFull));
}

#[test]
fn a_tree_of_two_files_is_mirrored() {
    let root = Node::Dir(vec![
        ("a.html", Node::File("<html><body><main>Hi</main></body></html>")),
        ("sub", Node::Dir(vec![("b.html", Node::File("<main><p>X</p></main>"))])),
    ]);
    let outcome = run(&root);
    assert_eq!(outcome.failed_at, None);
    assert_eq!(outcome.written, pairs(&[("a.html", "Hi"), ("sub/b.html", "<p>X</p>")]));
    assert_eq!(outcome.listed, names(&["", "sub"]));
    assert_eq!(outcome.count, 2);
}

#[test]
fn a_tree_of_single_main_files_keeps_its_shape() {
    let root = Node::Dir(vec![
        ("one", Node::Dir(vec![
            ("x.html", Node::File("<main>x</main>")),
            ("two", Node::Dir(vec![("y.html", Node::File("<body><main><i>y</i></main></body>"))])),
            ("empty", Node::Dir(vec![])),
        ])),
        ("z.html", Node::File("<main>z</main>")),
    ]);
    let outcome = run(&root);
    assert_eq!(outcome.failed_at, None);
    assert_eq!(outcome.listed, names(&["", "one", "one/two", "one/empty"]));
    assert_eq!(
        outcome.written,
        pairs(&[("one/x.html", "x"), ("one/two/y.html", "<i>y</i>"), ("z.html", "z")])
    );
    assert_eq!(outcome.count, 3);
}

#[test]
fn a_second_run_gives_the_same_files() {
    let root = Node::Dir(vec![
        ("a.html", Node::File("<main>Hi</main>")),
        ("sub", Node::Dir(vec![("b.html", Node::File("<main><p>X</p></main>"))])),
    ]);
    let first = run(&root);
    let second = run(&root);
    assert_eq!(first, second);
}

#[test]
fn a_second_run_leaves_the_destination_as_the_first_left_it() {
    let root = Node::Dir(vec![
        ("a.html", Node::File("<main>Hi</main>")),
        ("sub", Node::Dir(vec![("b.html", Node::File("<main><p>X</p></main>"))])),
    ]);
    let mut destination: BTreeMap<String, String> = BTreeMap::new();
    destination.insert(String::from("a.html"), String::from("stale"));
    destination.insert(String::from("other.html"), String::from("kept"));
    for (path, content) in run(&root).written {
        destination.insert(path, content);
    }
    let once = destination.clone();
    for (path, content) in run(&root).written {
        destination.insert(path, content);
    }
    assert_eq!(destination, once);
    assert_eq!(destination.get("a.html"), Some(&String::from("Hi")));
    assert_eq!(destination.get("sub/b.html"), Some(&String::from("<p>X</p>")));
    assert_eq!(destination.get("other.html"), Some(&String::from("kept")));
    assert_eq!(destination.len(), 3);
}

#[test]
fn a_file_without_main_is_written_empty_and_counted() {
    let root = Node::Dir(vec![("a.html", Node::File("<html><body><p>no</p></body></html>"))]);
    let outcome = run(&root);
    assert_eq!(outcome.written, pairs(&[("a.html", "")]));
    assert_eq!(outcome.count, 1);
}

#[test]
fn a_file_with_two_mains_is_written_with_the_first() {
    let root = Node::Dir(vec![("a.html", Node::File("<main>1</main><main>2</main>"))]);
    let outcome = run(&root);
    assert_eq!(outcome.written, pairs(&[("a.html", "1")]));
    assert_eq!(outcome.count, 1);
}

#[test]
fn other_files_are_not_reflected() {
    let root = Node::Dir(vec![
        ("readme.txt", Node::File("<main>text</main>")),
        ("a.html", Node::File("<main>a</main>")),
        ("style.css", Node::File("main { }")),
        ("sub", Node::Dir(vec![("data.json", Node::File("{}")), ("page.htm", Node::File("<main>p</main>"))])),
    ]);
    let outcome = run(&root);
    assert_eq!(outcome.failed_at, None);
    assert_eq!(outcome.written, pairs(&[("a.html", "a")]));
    assert_eq!(outcome.listed, names(&["", "sub"]));
    assert_eq!(outcome.count, 1);
}

#[test]
fn an_unreadable_root_leaves_nothing() {
    let outcome = run(&Node::Locked);
    assert_eq!(outcome.failed_at, Some(String::new()));
    assert_eq!(outcome.listed, names(&[]));
    assert_eq!(outcome.written, pairs(&[]));
    assert_eq!(outcome.count, 0);
}

#[test]
fn what_was_written_before_a_failure_stays() {
    let root = Node::Dir(vec![
        ("a.html", Node::File("<main>a</main>")),
        ("first", Node::Dir(vec![("b.html", Node::File("<main>b</main>"))])),
        ("locked", Node::Locked),
        ("c.html", Node::File("<main>c</main>")),
    ]);
    let outcome = run(&root);
    assert_eq!(outcome.failed_at, Some(String::from("locked")));
    assert_eq!(outcome.written, pairs(&[("a.html", "a"), ("first/b.html", "b")]));
    assert_eq!(outcome.listed, names(&["", "first"]));
    assert_eq!(outcome.count, 2);
}

#[test]
fn a_file_that_cannot_be_read_stops_the_run() {
    let root = Node::Dir(vec![
        ("a.html", Node::File("<main>a</main>")),
        ("bad.html", Node::Garbled),
        ("c.html", Node::File("<main>c</main>")),
    ]);
    let outcome = run(&root);
    assert_eq!(outcome.failed_at, Some(String::from("bad.html")));
    assert_eq!(outcome.written, pairs(&[("a.html", "a")]));
    assert_eq!(outcome.count, 1);
}

#[test]
fn a_directory_named_like_an_html_file_stops_the_run_after_its_entries() {
    let root = Node::Dir(vec![
        ("odd.html", Node::Dir(vec![("in.html", Node::File("<main>in</main>"))])),
        ("late.html", Node::File("<main>late</main>")),
    ]);
    let outcome = run(&root);
    assert_eq!(outcome.failed_at, Some(String::from("odd.html")));
    assert_eq!(outcome.listed, names(&["", "odd.html"]));
    assert_eq!(outcome.written, pairs(&[("odd.html/in.html", "in")]));
    assert_eq!(outcome.count, 1);
}

#[test]
fn the_count_goes_on_from_where_it_started() {
    let root = Node::Dir(vec![
        ("a.html", Node::File("<main>a</main>")),
        ("b.html", Node::File("<main>b</main>")),
    ]);
    assert_eq!(run_from(&root, 40).count, 42);
}
