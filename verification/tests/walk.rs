use most_recently::walk::{is_hidden, Entry, TraversalPolicy, Walker};
use most_recently::{Candidate, Method, MostRecently};

/// A file or folder of a tree that is held in memory.
#[derive(Clone)]
struct Node {
    name: &'static str,
    folder: bool,
    ignored: bool,
    modified: Option<i128>,
    children: Vec<Node>,
}

fn file(name: &'static str, modified: i128) -> Node {
    Node { name, folder: false, ignored: false, modified: Some(modified), children: Vec::new() }
}

fn folder(name: &'static str, children: Vec<Node>) -> Node {
    Node { name, folder: true, ignored: false, modified: Some(0), children }
}

fn ignored(node: Node) -> Node {
    Node { ignored: true, ..node }
}

fn entry_of(parent: &str, node: &Node) -> Entry<String> {
    let path = if parent.is_empty() {
        node.name.to_string()
    } else {
        format!("{}/{}", parent, node.name)
    };
    Entry { path, name: node.name.to_string(), folder: node.folder, ignored: node.ignored }
}

fn entries_of(parent: &str, nodes: &[Node]) -> Vec<Entry<String>> {
    nodes.iter().map(|node| entry_of(parent, node)).collect()
}

fn find<'a>(nodes: &'a [Node], parent: &str, path: &str) -> Option<&'a Node> {
    for node in nodes {
        let here = entry_of(parent, node).path;
        if here == path {
            return Some(node);
        }
        if let Some(found) = find(&node.children, &here, path) {
            return Some(found);
        }
    }
    None
}

/// Drives a walker through the trees and collects what it hands out.
fn walk(policy: TraversalPolicy, roots: &[Node]) -> Vec<String> {
    let mut walker = Walker::new(policy, entries_of("", roots));
    let mut out = Vec::new();
    while let Some(visit) = walker.next() {
        if visit.list {
            let node = find(roots, "", &visit.entry.path).unwrap();
            walker.enter(entries_of(&visit.entry.path, &node.children));
        }
        if visit.emit {
            out.push(visit.entry.path);
        }
    }
    out
}

fn most_recent(policy: TraversalPolicy, roots: &[Node]) -> Option<String> {
    walk(policy, roots)
        .into_iter()
        .map(|path| {
            let modified = find(roots, "", &path).unwrap().modified;
            Candidate { path, accessed: None, created: None, modified }
        })
        .most_recently(Method::Modified)
        .map(|candidate| candidate.path)
}

fn policy(include_hidden: bool, include_ignored: bool, include_folders: bool) -> TraversalPolicy {
    TraversalPolicy { include_hidden, include_ignored, include_folders }
}

fn all_policies() -> Vec<TraversalPolicy> {
    let mut all = Vec::new();
    for hidden in [false, true] {
        for ignored in [false, true] {
            for folders in [false, true] {
                all.push(policy(hidden, ignored, folders));
            }
        }
    }
    all
}

fn sample() -> Vec<Node> {
    vec![folder(
        "root",
        vec![
            file("a.txt", 100),
            folder(".hidden", vec![file("b.txt", 200)]),
            folder("sub", vec![file("c.txt", 150)]),
        ],
    )]
}

fn deep() -> Vec<Node> {
    vec![
        folder(
            "one",
            vec![
                file("x", 1),
                folder(
                    "in",
                    vec![
                        file(".secret", 9),
                        folder(".git", vec![file("config", 8), folder("objects", vec![file("0a", 7)])]),
                        ignored(folder("target", vec![file("out", 6), file(".lock", 5)])),
                        folder("src", vec![file("lib.rs", 4), ignored(file("build.log", 10))]),
                    ],
                ),
                folder("empty", vec![]),
            ],
        ),
        file("two.txt", 2),
        folder(".three", vec![file("y", 3)]),
    ]
}

#[test]
fn hidden_names_begin_with_a_dot() {
    assert!(is_hidden(".git"));
    assert!(is_hidden("."));
    assert!(is_hidden(".."));
    assert!(is_hidden(".a.txt"));
    assert!(!is_hidden(""));
    assert!(!is_hidden("a.txt"));
    assert!(!is_hidden("a."));
    assert!(!is_hidden(" .a"));
    assert!(!is_hidden("\u{e9}.txt"));
}

#[test]
fn policy_admits_by_name_and_ignore_rule() {
    let plain = Entry { path: 0u8, name: "a".to_string(), folder: false, ignored: false };
    let dotted = Entry { path: 0u8, name: ".a".to_string(), folder: false, ignored: false };
    let matched = Entry { path: 0u8, name: "a".to_string(), folder: true, ignored: true };
    let both = Entry { path: 0u8, name: ".a".to_string(), folder: true, ignored: true };
    for p in all_policies() {
        assert!(p.admits(&plain));
        assert_eq!(p.admits(&dotted), p.include_hidden);
        assert_eq!(p.admits(&matched), p.include_ignored);
        assert_eq!(p.admits(&both), p.include_hidden && p.include_ignored);
    }
}

#[test]
fn walker_with_no_roots_is_done() {
    let mut walker: Walker<String> = Walker::new(policy(true, true, true), Vec::new());
    assert!(walker.next().is_none());
    assert!(walker.next().is_none());
}

#[test]
fn walker_keeps_its_policy() {
    let p = policy(false, true, false);
    let walker: Walker<String> = Walker::new(p, Vec::new());
    assert_eq!(walker.policy(), p);
}

#[test]
fn visit_says_what_to_do_with_the_entry() {
    let roots = vec![file("f", 1), folder("d", vec![])];
    let mut walker = Walker::new(policy(false, false, false), entries_of("", &roots));
    let first = walker.next().unwrap();
    assert_eq!((first.entry.path.as_str(), first.emit, first.list), ("f", true, false));
    let second = walker.next().unwrap();
    assert_eq!((second.entry.path.as_str(), second.emit, second.list), ("d", false, true));
    assert!(walker.next().is_none());

    let mut walker = Walker::new(policy(false, false, true), entries_of("", &roots));
    let first = walker.next().unwrap();
    assert_eq!((first.entry.path.as_str(), first.emit, first.list), ("f", true, false));
    let second = walker.next().unwrap();
    assert_eq!((second.entry.path.as_str(), second.emit, second.list), ("d", true, true));
    assert!(walker.next().is_none());
}

#[test]
fn entered_entries_come_before_those_that_waited() {
    let mut walker = Walker::new(
        policy(true, true, true),
        entries_of("", &[folder("d", vec![]), file("z", 1)]),
    );
    let d = walker.next().unwrap();
    assert_eq!(d.entry.path, "d");
    walker.enter(entries_of("d", &[file("a", 1), file("b", 1), file("c", 1)]));
    let mut order = Vec::new();
    while let Some(visit) = walker.next() {
        order.push(visit.entry.path);
    }
    assert_eq!(order, vec!["d/a", "d/b", "d/c", "z"]);
}

#[test]
fn entries_not_admitted_are_dropped_on_entering() {
    let mut walker: Walker<String> = Walker::new(policy(false, false, true), Vec::new());
    walker.enter(entries_of(
        "",
        &[file(".a", 1), file("b", 1), ignored(file("c", 1)), folder("d", vec![]), ignored(folder(".e", vec![]))],
    ));
    let mut order = Vec::new();
    while let Some(visit) = walker.next() {
        order.push(visit.entry.path);
    }
    assert_eq!(order, vec!["b", "d"]);
}

#[test]
fn walk_is_in_listing_order_with_folders_before_their_contents() {
    assert_eq!(
        walk(policy(true, true, true), &deep()),
        vec![
            "one",
            "one/x",
            "one/in",
            "one/in/.secret",
            "one/in/.git",
            "one/in/.git/config",
            "one/in/.git/objects",
            "one/in/.git/objects/0a",
            "one/in/target",
            "one/in/target/out",
            "one/in/target/.lock",
            "one/in/src",
            "one/in/src/lib.rs",
            "one/in/src/build.log",
            "one/empty",
            "two.txt",
            ".three",
            ".three/y",
        ]
    );
}

#[test]
fn walk_of_files_only() {
    assert_eq!(
        walk(policy(false, false, false), &deep()),
        vec!["one/x", "one/in/src/lib.rs", "two.txt"]
    );
    assert_eq!(
        walk(policy(true, false, false), &deep()),
        vec![
            "one/x",
            "one/in/.secret",
            "one/in/.git/config",
            "one/in/.git/objects/0a",
            "one/in/src/lib.rs",
            "two.txt",
            ".three/y",
        ]
    );
    assert_eq!(
        walk(policy(false, true, false), &deep()),
        vec!["one/x", "one/in/target/out", "one/in/src/lib.rs", "one/in/src/build.log", "two.txt"]
    );
}

#[test]
fn nothing_hidden_is_found_unless_asked_for() {
    for p in all_policies() {
        if p.include_hidden {
            continue;
        }
        for path in walk(p, &deep()) {
            assert!(path.split('/').all(|segment| !is_hidden(segment)), "{}", path);
        }
    }
}

#[test]
fn folders_are_added_and_nothing_else_changes() {
    for trees in [sample(), deep()] {
        for p in all_policies() {
            let without = walk(TraversalPolicy { include_folders: false, ..p }, &trees);
            let with = walk(TraversalPolicy { include_folders: true, ..p }, &trees);
            let files_of_with: Vec<String> = with
                .iter()
                .filter(|path| !find(&trees, "", path).unwrap().folder)
                .cloned()
                .collect();
            assert_eq!(without, files_of_with);
            assert!(without.iter().all(|path| !find(&trees, "", path).unwrap().folder));
            assert!(with.len() > without.len());
        }
    }
}

#[test]
fn roots_are_walked_in_the_order_given() {
    let a = vec![folder("a", vec![file("1", 1)])];
    let b = vec![file("b", 1), folder("c", vec![file("2", 1)])];
    let mut both = a.clone();
    both.extend(b.clone());
    for p in all_policies() {
        let mut one_after_the_other = walk(p, &a);
        one_after_the_other.extend(walk(p, &b));
        assert_eq!(walk(p, &both), one_after_the_other);
    }
    assert_eq!(walk(policy(false, false, false), &both), vec!["a/1", "b", "c/2"]);
}

#[test]
fn hidden_folder_hides_the_newest_file() {
    assert_eq!(
        most_recent(policy(false, false, false), &sample()),
        Some("root/sub/c.txt".to_string())
    );
    assert_eq!(
        most_recent(policy(true, false, false), &sample()),
        Some("root/.hidden/b.txt".to_string())
    );
}

#[test]
fn root_that_is_a_file_is_the_whole_stream() {
    for p in all_policies() {
        assert_eq!(walk(p, &[file("notes.txt", 5)]), vec!["notes.txt"]);
        let hidden = walk(p, &[file(".profile", 5)]);
        if p.include_hidden {
            assert_eq!(hidden, vec![".profile"]);
        } else {
            assert!(hidden.is_empty());
        }
    }
    assert_eq!(
        most_recent(policy(false, false, false), &[file("notes.txt", 5)]),
        Some("notes.txt".to_string())
    );
}

#[test]
fn root_that_is_an_empty_folder() {
    assert!(walk(policy(true, true, false), &[folder("d", vec![])]).is_empty());
    assert_eq!(walk(policy(true, true, true), &[folder("d", vec![])]), vec!["d"]);
    assert_eq!(most_recent(policy(true, true, false), &[folder("d", vec![])]), None);
}

#[test]
fn ignored_file_wins_only_where_ignored_files_are_included() {
    let trees = vec![folder(
        "proj",
        vec![file("main.rs", 300), ignored(file("build.log", 900)), file("notes.md", 200)],
    )];
    assert_eq!(
        most_recent(policy(false, false, false), &trees),
        Some("proj/main.rs".to_string())
    );
    assert_eq!(
        most_recent(policy(false, true, false), &trees),
        Some("proj/build.log".to_string())
    );
}

#[test]
fn folder_that_cannot_be_listed_gives_no_entries() {
    let mut walker = Walker::new(
        policy(false, false, true),
        entries_of("", &[folder("locked", vec![]), file("after", 1)]),
    );
    let locked = walker.next().unwrap();
    assert!(locked.list && locked.emit);
    walker.enter(Vec::new());
    let after = walker.next().unwrap();
    assert_eq!(after.entry.path, "after");
    assert!(walker.next().is_none());
}
