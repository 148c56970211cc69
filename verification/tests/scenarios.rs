//! Whole scans over small trees held in memory.

use dupescan::file_tree::{visit_files, Directory, File, FileTree, Metadata};
use dupescan::report::{organize, DuplicateGroup, Outcome};
use dupescan::walker::{should_skip, Probe, WalkAction, WalkError, WalkEvent, Walker};

enum Node {
    Dir(Vec<(&'static str, Node)>),
    Locked,
    File(&'static str),
    Link(&'static str),
    Gone,
}

fn find<'a>(root: &str, tree: &'a Node, path: &str) -> Option<&'a Node> {
    if path == root {
        return Some(tree);
    }
    let rest = path.strip_prefix(root)?.strip_prefix('/')?;
    let mut at = tree;
    for part in rest.split('/') {
        match at {
            Node::Dir(children) => {
                at = &children.iter().find(|(name, _)| *name == part)?.1;
            }
            _ => return None,
        }
    }
    Some(at)
}

fn meta(size: usize) -> Metadata {
    Metadata { size: size as u64, modified: 0, permissions: 0o644 }
}

fn answer(root: &str, tree: &Node, action: &WalkAction) -> WalkEvent {
    match action {
        WalkAction::List(path) => match find(root, tree, path) {
            Some(Node::Dir(children)) => WalkEvent::Listed(
                children.iter().map(|(name, _)| format!("{}/{}", path, name)).collect(),
            ),
            _ => WalkEvent::ListFailed,
        },
        WalkAction::Probe(path) => WalkEvent::Probed(match find(root, tree, path) {
            Some(Node::Dir(_)) | Some(Node::Locked) => Probe::Directory,
            Some(Node::File(content)) => Probe::RegularFile(meta(content.len())),
            Some(Node::Link(target)) => Probe::Symlink(target.to_string(), meta(0)),
            Some(Node::Gone) | None => Probe::Unreadable,
        }),
        WalkAction::Stop => panic!("nothing is asked for once the walk is over"),
    }
}

fn walk(root: &str, tree: &Node) -> (Result<Directory, WalkError>, Vec<WalkAction>) {
    let mut walker = Walker::new(root.to_string(), should_skip);
    let mut asked = Vec::new();
    loop {
        let action = walker.action();
        if action == WalkAction::Stop {
            break;
        }
        let event = answer(root, tree, &action);
        asked.push(action);
        walker = walker.step(event);
    }
    (walker.finish().unwrap(), asked)
}

fn digests(root: &str, tree: &Node, walked: &Result<Directory, WalkError>) -> Vec<Option<String>> {
    match walked {
        Ok(directory) => visit_files(directory)
            .iter()
            .map(|file| match find(root, tree, &file.name) {
                Some(Node::File(content)) => Some(sha256::digest(*content)),
                _ => None,
            })
            .collect(),
        Err(_) => Vec::new(),
    }
}

fn scan(root: &str, tree: &Node) -> Outcome {
    let (walked, _) = walk(root, tree);
    let digests = digests(root, tree, &walked);
    organize(&walked, &digests)
}

fn names(files: &Vec<File>) -> Vec<String> {
    files.iter().map(|file| file.name.clone()).collect()
}

fn members(groups: &Vec<DuplicateGroup>) -> Vec<Vec<String>> {
    groups.iter().map(|group| names(&group.members)).collect()
}

#[test]
fn same_bytes_in_two_directories_give_one_group_of_each_kind() {
    let tree = Node::Dir(vec![
        ("a.txt", Node::File("same bytes")),
        ("b", Node::Dir(vec![("a.txt", Node::File("same bytes"))])),
    ]);
    let outcome = scan("root", &tree);
    assert_eq!(outcome.exit_code, 0);
    assert_eq!(members(&outcome.report.content), vec![vec!["root/a.txt", "root/b/a.txt"]]);
    assert_eq!(members(&outcome.report.names), vec![vec!["root/a.txt", "root/b/a.txt"]]);
    assert_eq!(outcome.report.content[0].representative.name, "root/a.txt");
    assert_eq!(outcome.report.names[0].representative.name, "root/a.txt");
}

#[test]
fn different_bytes_and_names_give_no_group() {
    let tree = Node::Dir(vec![("x.txt", Node::File("hello")), ("y.txt", Node::File("world"))]);
    let outcome = scan("root", &tree);
    assert_eq!(outcome.exit_code, 0);
    assert!(outcome.report.content.is_empty());
    assert!(outcome.report.names.is_empty());
}

#[test]
fn a_hidden_directory_is_left_out() {
    let tree = Node::Dir(vec![
        (".hidden", Node::Dir(vec![("secret.txt", Node::File("same bytes"))])),
        ("visible.txt", Node::File("same bytes")),
    ]);
    let (walked, asked) = walk("root", &tree);
    assert_eq!(
        asked,
        vec![
            WalkAction::List("root".to_string()),
            WalkAction::Probe("root/visible.txt".to_string()),
        ]
    );
    let directory = walked.unwrap();
    assert_eq!(names(&visit_files(&directory).into_iter().cloned().collect()), vec![
        "root/visible.txt"
    ]);
    let outcome = scan("root", &tree);
    assert_eq!(outcome.exit_code, 0);
    assert!(outcome.report.content.is_empty());
    assert!(outcome.report.names.is_empty());
}

#[test]
fn a_hidden_file_is_left_out() {
    let tree = Node::Dir(vec![
        (".copy.txt", Node::File("same bytes")),
        ("copy.txt", Node::File("same bytes")),
    ]);
    let outcome = scan("root", &tree);
    assert!(outcome.report.content.is_empty());
    assert!(outcome.report.names.is_empty());
}

#[test]
fn same_stem_with_different_bytes_gives_a_name_group_only() {
    let tree =
        Node::Dir(vec![("photo.jpg", Node::File("jpeg")), ("photo.png", Node::File("png"))]);
    let outcome = scan("root", &tree);
    assert_eq!(outcome.exit_code, 0);
    assert!(outcome.report.content.is_empty());
    assert_eq!(members(&outcome.report.names), vec![vec!["root/photo.jpg", "root/photo.png"]]);
}

#[test]
fn an_empty_root_gives_nothing_and_exit_code_zero() {
    let tree = Node::Dir(vec![]);
    let (walked, asked) = walk("root", &tree);
    assert_eq!(asked, vec![WalkAction::List("root".to_string())]);
    assert_eq!(walked, Ok(Directory { name: "root".to_string(), entries: vec![] }));
    let outcome = scan("root", &tree);
    assert_eq!(outcome.exit_code, 0);
    assert!(outcome.report.content.is_empty());
    assert!(outcome.report.names.is_empty());
}

#[test]
fn a_missing_root_gives_exit_code_one() {
    let tree = Node::Gone;
    let (walked, asked) = walk("nowhere", &tree);
    assert_eq!(asked, vec![WalkAction::List("nowhere".to_string())]);
    assert_eq!(walked, Err(WalkError::RootUnreadable("nowhere".to_string())));
    let outcome = organize(&walked, &Vec::new());
    assert_eq!(outcome.exit_code, 1);
    assert!(outcome.report.content.is_empty());
    assert!(outcome.report.names.is_empty());
}

#[test]
fn a_symlink_is_recorded_and_never_entered_or_indexed() {
    let tree = Node::Dir(vec![
        ("data", Node::Dir(vec![("report.txt", Node::File("same bytes"))])),
        ("loop", Node::Link("..")),
        ("report", Node::Link("data/report.txt")),
    ]);
    let (walked, asked) = walk("root", &tree);
    assert_eq!(
        asked,
        vec![
            WalkAction::List("root".to_string()),
            WalkAction::Probe("root/data".to_string()),
            WalkAction::List("root/data".to_string()),
            WalkAction::Probe("root/data/report.txt".to_string()),
            WalkAction::Probe("root/loop".to_string()),
            WalkAction::Probe("root/report".to_string()),
        ]
    );
    let directory = walked.unwrap();
    assert_eq!(directory.entries.len(), 3);
    assert!(matches!(&directory.entries[1], FileTree::LinkNode(link)
        if link.name == "root/loop" && link.target == ".."));
    assert!(matches!(&directory.entries[2], FileTree::LinkNode(link)
        if link.name == "root/report" && link.target == "data/report.txt"));
    let outcome = scan("root", &tree);
    assert!(outcome.report.content.is_empty());
    assert!(outcome.report.names.is_empty());
}

#[test]
fn an_unreadable_entry_is_dropped_and_the_walk_goes_on() {
    let tree = Node::Dir(vec![
        ("a.txt", Node::File("one")),
        ("vanished", Node::Gone),
        ("b.txt", Node::File("two")),
    ]);
    let (walked, _) = walk("root", &tree);
    let directory = walked.unwrap();
    assert_eq!(
        directory,
        Directory {
            name: "root".to_string(),
            entries: vec![
                FileTree::FileNode(File { name: "root/a.txt".to_string(), metadata: meta(3) }),
                FileTree::FileNode(File { name: "root/b.txt".to_string(), metadata: meta(3) }),
            ],
        }
    );
}

#[test]
fn an_unlistable_subdirectory_ends_the_whole_walk() {
    let tree = Node::Dir(vec![
        ("a.txt", Node::File("one")),
        ("locked", Node::Locked),
        ("b.txt", Node::File("two")),
    ]);
    let (walked, asked) = walk("root", &tree);
    assert_eq!(walked, Err(WalkError::SubtreeUnreadable("root/locked".to_string())));
    assert_eq!(asked.last(), Some(&WalkAction::List("root/locked".to_string())));
    let outcome = organize(&walked, &Vec::new());
    assert_eq!(outcome.exit_code, 1);
    assert!(outcome.report.content.is_empty());
    assert!(outcome.report.names.is_empty());
}

#[test]
fn nested_directories_keep_their_children_in_listing_order() {
    let tree = Node::Dir(vec![
        ("z", Node::Dir(vec![
            ("inner", Node::Dir(vec![("deep.txt", Node::File("d"))])),
            ("first.txt", Node::File("f")),
        ])),
        ("empty", Node::Dir(vec![])),
        ("a.txt", Node::File("a")),
    ]);
    let (walked, _) = walk("root", &tree);
    let directory = walked.unwrap();
    assert_eq!(
        directory,
        Directory {
            name: "root".to_string(),
            entries: vec![
                FileTree::DirNode(Directory {
                    name: "root/z".to_string(),
                    entries: vec![
                        FileTree::DirNode(Directory {
                            name: "root/z/inner".to_string(),
                            entries: vec![FileTree::FileNode(File {
                                name: "root/z/inner/deep.txt".to_string(),
                                metadata: meta(1),
                            })],
                        }),
                        FileTree::FileNode(File {
                            name: "root/z/first.txt".to_string(),
                            metadata: meta(1),
                        }),
                    ],
                }),
                FileTree::DirNode(Directory { name: "root/empty".to_string(), entries: vec![] }),
                FileTree::FileNode(File { name: "root/a.txt".to_string(), metadata: meta(1) }),
            ],
        }
    );
    let files: Vec<File> = visit_files(&directory).into_iter().cloned().collect();
    assert_eq!(names(&files), vec!["root/z/inner/deep.txt", "root/z/first.txt", "root/a.txt"]);
}

#[test]
fn a_second_scan_of_the_same_tree_finds_the_same_groups() {
    let tree = Node::Dir(vec![
        ("a.txt", Node::File("same bytes")),
        ("b", Node::Dir(vec![
            ("a.md", Node::File("other bytes")),
            ("c.txt", Node::File("same bytes")),
        ])),
        ("c.log", Node::File("same bytes")),
    ]);
    let first = scan("root", &tree);
    let second = scan("root", &tree);
    assert_eq!(members(&first.report.content), members(&second.report.content));
    assert_eq!(members(&first.report.names), members(&second.report.names));
    assert_eq!(members(&first.report.content), vec![vec![
        "root/a.txt",
        "root/b/c.txt",
        "root/c.log"
    ]]);
    assert_eq!(members(&first.report.names), vec![
        vec!["root/a.txt", "root/b/a.md"],
        vec!["root/b/c.txt", "root/c.log"],
    ]);
}

#[test]
fn a_file_that_cannot_be_digested_keeps_its_place_by_name() {
    let directory = Directory {
        name: "root".to_string(),
        entries: vec![
            FileTree::FileNode(File { name: "root/a.txt".to_string(), metadata: meta(1) }),
            FileTree::FileNode(File { name: "root/a.bak".to_string(), metadata: meta(1) }),
            FileTree::FileNode(File { name: "root/b.txt".to_string(), metadata: meta(1) }),
        ],
    };
    let digests = vec![Some("f00d".to_string()), None, Some("f00d".to_string())];
    let outcome = organize(&Ok(directory), &digests);
    assert_eq!(outcome.exit_code, 0);
    assert_eq!(members(&outcome.report.content), vec![vec!["root/a.txt", "root/b.txt"]]);
    assert_eq!(members(&outcome.report.names), vec![vec!["root/a.txt", "root/a.bak"]]);
}

#[test]
fn a_hidden_root_is_walked_like_any_other() {
    let tree = Node::Dir(vec![
        ("a.txt", Node::File("same bytes")),
        (".cache", Node::Dir(vec![("a.txt", Node::File("same bytes"))])),
        ("b.txt", Node::File("same bytes")),
    ]);
    let outcome = scan(".config", &tree);
    assert_eq!(outcome.exit_code, 0);
    assert_eq!(members(&outcome.report.content), vec![vec![".config/a.txt", ".config/b.txt"]]);
    assert!(outcome.report.names.is_empty());
}

#[test]
fn an_entry_without_a_name_is_filtered_as_a_dot() {
    let walker = Walker::new("root".to_string(), should_skip);
    let walker = walker.step(WalkEvent::Listed(vec![
        "root/..".to_string(),
        "".to_string(),
        "root/a/".to_string(),
        "root/.b/".to_string(),
        "root/c".to_string(),
    ]));
    assert_eq!(walker.action(), WalkAction::Probe("root/a/".to_string()));
    let walker = walker.step(WalkEvent::Probed(Probe::Unreadable));
    assert_eq!(walker.action(), WalkAction::Probe("root/c".to_string()));
}

fn only_text_files(name: &str) -> bool {
    name.ends_with(".txt") || !name.contains('.')
}

#[test]
fn the_walk_visits_what_its_filter_keeps() {
    let tree = Node::Dir(vec![
        ("a.txt", Node::File("one")),
        ("a.log", Node::File("one")),
        (".hidden.txt", Node::File("one")),
        ("logs.d", Node::Dir(vec![("b.txt", Node::File("one"))])),
        ("docs", Node::Dir(vec![("c.txt", Node::File("one")), ("c.md", Node::File("one"))])),
    ]);
    let mut walker = Walker::new("root".to_string(), only_text_files);
    let mut asked = Vec::new();
    loop {
        let action = walker.action();
        if action == WalkAction::Stop {
            break;
        }
        let event = answer("root", &tree, &action);
        asked.push(action);
        walker = walker.step(event);
    }
    assert_eq!(
        asked,
        vec![
            WalkAction::List("root".to_string()),
            WalkAction::Probe("root/a.txt".to_string()),
            WalkAction::Probe("root/.hidden.txt".to_string()),
            WalkAction::Probe("root/docs".to_string()),
            WalkAction::List("root/docs".to_string()),
            WalkAction::Probe("root/docs/c.txt".to_string()),
        ]
    );
    let directory = walker.finish().unwrap().unwrap();
    let files: Vec<File> = visit_files(&directory).into_iter().cloned().collect();
    assert_eq!(names(&files), vec!["root/a.txt", "root/.hidden.txt", "root/docs/c.txt"]);
}

#[test]
fn events_that_answer_nothing_change_nothing() {
    let walker = Walker::new("root".to_string(), should_skip);
    let walker = walker.step(WalkEvent::Probed(Probe::Directory));
    assert_eq!(walker.action(), WalkAction::List("root".to_string()));
    let walker = walker.step(WalkEvent::Listed(vec!["root/a".to_string()]));
    assert_eq!(walker.action(), WalkAction::Probe("root/a".to_string()));
    let walker = walker.step(WalkEvent::ListFailed);
    let walker = walker.step(WalkEvent::Listed(vec![]));
    assert_eq!(walker.action(), WalkAction::Probe("root/a".to_string()));
    assert!(walker.finish().is_none());
    let walker = Walker::new("root".to_string(), should_skip).step(WalkEvent::Listed(vec![]));
    assert_eq!(walker.action(), WalkAction::Stop);
    let walker = walker.step(WalkEvent::ListFailed);
    assert_eq!(walker.finish(), Some(Ok(Directory { name: "root".to_string(), entries: vec![] })));
}
