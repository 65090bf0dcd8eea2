use dirtree::file_tree::{FileTree, FsEntry};
use dirtree::utils::{read_gitignore, IgnoreSet};

fn file(path: &str, name: &str) -> FsEntry {
    FsEntry { path: path.to_string(), name: name.to_string(), is_dir: false, entries: Vec::new() }
}

fn dir(path: &str, name: &str, entries: Vec<FsEntry>) -> FsEntry {
    FsEntry { path: path.to_string(), name: name.to_string(), is_dir: true, entries }
}

/// The snapshot the tree-builder tests scan: a root holding `subdir` (with a
/// plain and a hidden file), a hidden directory, and a gitignore file.
fn create_test_environment() -> (FsEntry, IgnoreSet) {
    let root = dir(
        "/tmp/scan",
        "scan",
        vec![
            dir(
                "/tmp/scan/subdir",
                "subdir",
                vec![
                    file("/tmp/scan/subdir/file.txt", "file.txt"),
                    file("/tmp/scan/subdir/.hidden_file.txt", ".hidden_file.txt"),
                ],
            ),
            dir("/tmp/scan/.hidden_dir", ".hidden_dir", Vec::new()),
            file("/tmp/scan/.gitignore", ".gitignore"),
        ],
    );
    let mut ignore_set = IgnoreSet::new();
    ignore_set.insert("ignored_file.txt".to_string());
    (root, ignore_set)
}

#[test]
fn test_new_ignoring_hidden_files() {
    let (root, ignore_set) = create_test_environment();
    let file_tree = FileTree::new(&root, 2, &ignore_set, false, false);

    assert!(!file_tree.children.iter().any(|child| child.path.contains(".hidden")));
}

#[test]
fn test_new_with_git_ignore() {
    let (root, ignore_set) = create_test_environment();
    let file_tree = FileTree::new(&root, 2, &ignore_set, false, true);

    assert!(!file_tree.children.iter().any(|child| child.path.ends_with("ignored_file.txt")));
}

#[test]
fn test_new_with_depth_limit() {
    let (root, ignore_set) = create_test_environment();
    let file_tree = FileTree::new(&root, 0, &ignore_set, false, false);

    assert!(file_tree.children.is_empty());
}

#[test]
fn test_new_keeps_hidden_files_when_included() {
    let (root, ignore_set) = create_test_environment();
    let file_tree = FileTree::new(&root, 2, &ignore_set, true, false);

    assert!(file_tree.children.iter().any(|child| child.path.contains(".hidden_dir")));
    assert!(file_tree.children.iter().any(|child| child.path.contains(".gitignore")));
}

#[test]
fn test_new_filters_ignore_matched_entries() {
    let root = dir(
        "/tmp/x",
        "x",
        vec![
            file("/tmp/x/ignored_file.txt", "ignored_file.txt"),
            file("/tmp/x/kept.txt", "kept.txt"),
        ],
    );
    let ignore_set = read_gitignore(Some("ignored_file.txt\n"));

    let filtered = FileTree::new(&root, 1, &ignore_set, false, false);
    assert_eq!(filtered.children.len(), 1);
    assert_eq!(filtered.children[0].name, "kept.txt");

    let unfiltered = FileTree::new(&root, 1, &ignore_set, false, true);
    assert_eq!(unfiltered.children.len(), 2);
}

#[test]
fn test_new_sorts_directories_before_files() {
    let root = dir(
        "/tmp/x",
        "x",
        vec![
            file("/tmp/x/b.txt", "b.txt"),
            dir("/tmp/x/c_dir", "c_dir", Vec::new()),
            file("/tmp/x/a.txt", "a.txt"),
            dir("/tmp/x/a_dir", "a_dir", Vec::new()),
        ],
    );
    let ignore_set = IgnoreSet::new();
    let tree = FileTree::new(&root, 1, &ignore_set, false, false);

    let names: Vec<&str> = tree.children.iter().map(|c| c.name.as_str()).collect();
    assert_eq!(names, vec!["a_dir", "c_dir", "a.txt", "b.txt"]);
}

#[test]
fn test_new_sets_depths_from_zero() {
    let (root, ignore_set) = create_test_environment();
    let tree = FileTree::new(&root, 2, &ignore_set, false, false);

    assert_eq!(tree.depth, 0);
    assert_eq!(tree.children[0].depth, 1);
    assert_eq!(tree.children[0].children[0].depth, 2);
}

#[test]
fn test_new_twice_yields_identical_trees() {
    let (root, ignore_set) = create_test_environment();
    let first = FileTree::new(&root, 2, &ignore_set, false, false);
    let second = FileTree::new(&root, 2, &ignore_set, false, false);

    let mut text_first = String::new();
    first.build_string(&mut text_first, "  ", "- ");
    let mut text_second = String::new();
    second.build_string(&mut text_second, "  ", "- ");
    assert_eq!(text_first, text_second);
}
