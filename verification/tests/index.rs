//! The duplicate index, one file at a time.

use dupescan::file_tree::index::{Bucket, FileIndex};
use dupescan::file_tree::{visit_files, Directory, File, FileTree, Metadata, Symlink};
use dupescan::report::{duplicate_groups, report};
use dupescan::scan::{create_hash_index, create_name_index};

fn file(name: &str) -> File {
    let metadata = Metadata { size: 7, modified: 11, permissions: 0o600 };
    File { name: name.to_string(), metadata }
}

fn names(files: &Vec<File>) -> Vec<String> {
    files.iter().map(|file| file.name.clone()).collect()
}

fn keys(buckets: &Vec<Bucket>) -> Vec<String> {
    buckets.iter().map(|bucket| bucket.key.clone()).collect()
}

#[test]
fn identical_names_diff_path() {
    let mut file_index = FileIndex::new();

    file_index.store_name(&"test_files/file1.txt".to_string(), file("test_files/file1.txt"));
    file_index
        .store_name(&"test_files/foo/file1.txt".to_string(), file("test_files/foo/file1.txt"));

    // Test that the files were stored correctly
    assert_eq!(file_index.by_name(&String::from("file1")).unwrap().len(), 2);
}

#[test]
fn a_new_index_is_empty() {
    let file_index = FileIndex::new();
    assert!(file_index.get_hashes().is_empty());
    assert!(file_index.get_names().is_empty());
    assert!(file_index.by_hash(&"abc".to_string()).is_none());
    assert!(file_index.by_name(&"abc".to_string()).is_none());
}

#[test]
fn store_hash_appends_to_the_bucket_of_the_fingerprint() {
    let mut file_index = FileIndex::new();
    file_index.store_hash("aa".to_string(), file("one"));
    file_index.store_hash("bb".to_string(), file("two"));
    file_index.store_hash("aa".to_string(), file("three"));
    assert_eq!(names(file_index.by_hash(&"aa".to_string()).unwrap()), vec!["one", "three"]);
    assert_eq!(names(file_index.by_hash(&"bb".to_string()).unwrap()), vec!["two"]);
    assert!(file_index.by_hash(&"cc".to_string()).is_none());
    assert_eq!(keys(file_index.get_hashes()), vec!["aa", "bb"]);
    assert_eq!(file_index.by_hash(&"aa".to_string()).unwrap()[0], file("one"));
    assert!(file_index.get_names().is_empty());
}

#[test]
fn store_name_uses_the_stem_of_the_final_segment() {
    let mut file_index = FileIndex::new();
    file_index.store_name(&"a/report.pdf".to_string(), file("a/report.pdf"));
    file_index.store_name(&"b/report.txt".to_string(), file("b/report.txt"));
    file_index.store_name(&"b/summary.txt".to_string(), file("b/summary.txt"));
    assert_eq!(names(file_index.by_name(&"report".to_string()).unwrap()), vec![
        "a/report.pdf",
        "b/report.txt"
    ]);
    assert_eq!(names(file_index.by_name(&"summary".to_string()).unwrap()), vec!["b/summary.txt"]);
    assert!(file_index.by_name(&"report.pdf".to_string()).is_none());
    assert!(file_index.by_name(&"a/report.pdf".to_string()).is_none());
    assert_eq!(keys(file_index.get_names()), vec!["report", "summary"]);
    assert!(file_index.get_hashes().is_empty());
}

#[test]
fn store_name_sets_trailing_separators_and_dot_segments_aside() {
    let mut file_index = FileIndex::new();
    file_index.store_name(&"a/b/".to_string(), file("a/b/"));
    file_index.store_name(&"c/b.txt/.".to_string(), file("c/b.txt/."));
    file_index.store_name(&"a/.".to_string(), file("a/."));
    assert_eq!(names(file_index.by_name(&"b".to_string()).unwrap()), vec!["a/b/", "c/b.txt/."]);
    assert_eq!(names(file_index.by_name(&"a".to_string()).unwrap()), vec!["a/."]);
    assert!(file_index.by_name(&"".to_string()).is_none());
    assert!(file_index.by_name(&".".to_string()).is_none());
    assert_eq!(keys(file_index.get_names()), vec!["b", "a"]);
}

#[test]
fn every_bucket_has_its_own_key_and_every_file_one_place() {
    let mut file_index = FileIndex::new();
    let fingerprints = ["k1", "k2", "k1", "k3", "k2", "k1"];
    for (i, fingerprint) in fingerprints.iter().enumerate() {
        file_index.store_hash(fingerprint.to_string(), file(&format!("f{}", i)));
    }
    let buckets = file_index.get_hashes();
    assert_eq!(keys(buckets), vec!["k1", "k2", "k3"]);
    let sizes: Vec<usize> = buckets.iter().map(|bucket| bucket.files.len()).collect();
    assert_eq!(sizes, vec![3, 2, 1]);
    assert_eq!(names(&buckets[0].files), vec!["f0", "f2", "f5"]);
    assert_eq!(names(&buckets[1].files), vec!["f1", "f4"]);
    assert_eq!(names(&buckets[2].files), vec!["f3"]);
}

fn sample_tree() -> Directory {
    Directory {
        name: "top".to_string(),
        entries: vec![
            FileTree::FileNode(file("top/one.txt")),
            FileTree::DirNode(Directory {
                name: "top/sub".to_string(),
                entries: vec![
                    FileTree::LinkNode(Symlink {
                        name: "top/sub/one.lnk".to_string(),
                        target: "../one.txt".to_string(),
                        metadata: Metadata { size: 0, modified: 0, permissions: 0 },
                    }),
                    FileTree::FileNode(file("top/sub/one.md")),
                    FileTree::FileNode(file("top/sub/two.md")),
                ],
            }),
            FileTree::FileNode(file("top/two")),
        ],
    }
}

#[test]
fn visit_files_goes_depth_first_and_passes_over_links() {
    let tree = sample_tree();
    let files: Vec<File> = visit_files(&tree).into_iter().cloned().collect();
    assert_eq!(names(&files), vec!["top/one.txt", "top/sub/one.md", "top/sub/two.md", "top/two"]);
    assert_eq!(files[1], file("top/sub/one.md"));
}

#[test]
fn create_hash_index_records_each_file_under_its_fingerprint() {
    let tree = sample_tree();
    let mut file_index = FileIndex::new();
    let digests =
        vec![Some("x".to_string()), Some("y".to_string()), None, Some("x".to_string())];
    create_hash_index(&tree, &digests, &mut file_index);
    assert_eq!(keys(file_index.get_hashes()), vec!["x", "y"]);
    assert_eq!(names(file_index.by_hash(&"x".to_string()).unwrap()), vec![
        "top/one.txt",
        "top/two"
    ]);
    assert_eq!(names(file_index.by_hash(&"y".to_string()).unwrap()), vec!["top/sub/one.md"]);
    assert!(file_index.get_names().is_empty());
}

#[test]
fn create_hash_index_leaves_out_files_without_a_digest() {
    let tree = sample_tree();
    let mut file_index = FileIndex::new();
    let digests = vec![Some("x".to_string()), Some("x".to_string())];
    create_hash_index(&tree, &digests, &mut file_index);
    assert_eq!(keys(file_index.get_hashes()), vec!["x"]);
    assert_eq!(names(file_index.by_hash(&"x".to_string()).unwrap()), vec![
        "top/one.txt",
        "top/sub/one.md"
    ]);
    let mut file_index = FileIndex::new();
    create_hash_index(&tree, &Vec::new(), &mut file_index);
    assert!(file_index.get_hashes().is_empty());
}

#[test]
fn create_name_index_records_each_file_under_its_stem() {
    let tree = sample_tree();
    let mut file_index = FileIndex::new();
    create_name_index(&tree, &mut file_index);
    assert_eq!(keys(file_index.get_names()), vec!["one", "two"]);
    assert_eq!(names(file_index.by_name(&"one".to_string()).unwrap()), vec![
        "top/one.txt",
        "top/sub/one.md"
    ]);
    assert_eq!(names(file_index.by_name(&"two".to_string()).unwrap()), vec![
        "top/sub/two.md",
        "top/two"
    ]);
    assert!(file_index.get_hashes().is_empty());
}

#[test]
fn the_two_groupings_do_not_touch_each_other() {
    let tree = sample_tree();
    let mut file_index = FileIndex::new();
    create_name_index(&tree, &mut file_index);
    let digests = vec![Some("x".to_string()); 4];
    create_hash_index(&tree, &digests, &mut file_index);
    assert_eq!(keys(file_index.get_names()), vec!["one", "two"]);
    assert_eq!(keys(file_index.get_hashes()), vec!["x"]);
    assert_eq!(file_index.by_hash(&"x".to_string()).unwrap().len(), 4);
    assert!(file_index.by_hash(&"one".to_string()).is_none());
    assert!(file_index.by_name(&"x".to_string()).is_none());
}

#[test]
fn only_buckets_with_two_files_or_more_are_reported() {
    let mut file_index = FileIndex::new();
    file_index.store_hash("single".to_string(), file("s"));
    file_index.store_hash("pair".to_string(), file("p1"));
    file_index.store_hash("triple".to_string(), file("t1"));
    file_index.store_hash("pair".to_string(), file("p2"));
    file_index.store_hash("triple".to_string(), file("t2"));
    file_index.store_hash("triple".to_string(), file("t3"));
    let groups = duplicate_groups(file_index.get_hashes());
    assert_eq!(groups.len(), 2);
    assert_eq!(groups[0].representative, file("p1"));
    assert_eq!(names(&groups[0].members), vec!["p1", "p2"]);
    assert_eq!(groups[1].representative, file("t1"));
    assert_eq!(names(&groups[1].members), vec!["t1", "t2", "t3"]);
    assert!(duplicate_groups(&Vec::new()).is_empty());
}

#[test]
fn the_report_keeps_content_and_name_groups_apart() {
    let mut file_index = FileIndex::new();
    file_index.store_hash("h".to_string(), file("d/a.txt"));
    file_index.store_hash("h".to_string(), file("e/a.txt"));
    file_index.store_name(&"d/a.txt".to_string(), file("d/a.txt"));
    file_index.store_name(&"e/a.txt".to_string(), file("e/a.txt"));
    file_index.store_name(&"e/b.txt".to_string(), file("e/b.txt"));
    let found = report(&file_index);
    assert_eq!(found.content.len(), 1);
    assert_eq!(names(&found.content[0].members), vec!["d/a.txt", "e/a.txt"]);
    assert_eq!(found.names.len(), 1);
    assert_eq!(names(&found.names[0].members), vec!["d/a.txt", "e/a.txt"]);
}

#[test]
fn a_cloned_file_equals_the_original() {
    let original = file("x/y.z");
    let copy = original.clone();
    assert_eq!(copy, original);
    assert_eq!(copy.metadata, Metadata { size: 7, modified: 11, permissions: 0o600 });
}
