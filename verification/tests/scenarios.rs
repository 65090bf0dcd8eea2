use dirtree::cli::Args;
use dirtree::file_tree::{FileTree, FsEntry};
use dirtree::utils::read_gitignore;

fn file(path: &str, name: &str) -> FsEntry {
    FsEntry { path: path.to_string(), name: name.to_string(), is_dir: false, entries: Vec::new() }
}

fn dir(path: &str, name: &str, entries: Vec<FsEntry>) -> FsEntry {
    FsEntry { path: path.to_string(), name: name.to_string(), is_dir: true, entries }
}

/// Root `/tmp/x` holding `sub/` (with `file.txt` and `.hidden.txt`) and
/// `.hidden_dir/`, with a gitignore naming `ignored.txt`.
fn scenario_root() -> FsEntry {
    dir(
        "/tmp/x",
        "x",
        vec![
            dir(
                "/tmp/x/sub",
                "sub",
                vec![
                    file("/tmp/x/sub/file.txt", "file.txt"),
                    file("/tmp/x/sub/.hidden.txt", ".hidden.txt"),
                ],
            ),
            dir("/tmp/x/.hidden_dir", ".hidden_dir", Vec::new()),
            file("/tmp/x/.gitignore", ".gitignore"),
        ],
    )
}

#[test]
fn scenario_depth_two_filters_hidden_entries() {
    let root = scenario_root();
    let ignore = read_gitignore(Some("ignored.txt\n"));
    let tree = FileTree::new(&root, 2, &ignore, false, false);

    assert_eq!(tree.children.len(), 1);
    assert_eq!(tree.children[0].name, "sub");
    assert!(tree.children[0].is_dir);
    assert_eq!(tree.children[0].children.len(), 1);
    assert_eq!(tree.children[0].children[0].name, "file.txt");
    assert!(!tree.children[0].children[0].is_dir);
}

#[test]
fn scenario_depth_zero_yields_no_children() {
    let root = scenario_root();
    let ignore = read_gitignore(Some("ignored.txt\n"));
    let tree = FileTree::new(&root, 0, &ignore, false, false);

    assert_eq!(tree.children.len(), 0);
}

#[test]
fn scenario_file_at_the_root_renders_without_indent() {
    let ignore = read_gitignore(None);
    let a = file("a.txt", "a.txt");
    let tree = FileTree::new(&a, 1, &ignore, false, false);

    let lines = tree.render_lines("  ", "* ");
    assert_eq!(lines.len(), 1);
    assert_eq!(lines[0].text, "* a.txt");
    assert!(!lines[0].is_dir);
}

#[test]
fn scenario_rendered_text_has_one_line_per_node() {
    let root = scenario_root();
    let ignore = read_gitignore(Some("ignored.txt\n"));
    let tree = FileTree::new(&root, 2, &ignore, true, false);

    let mut text = String::new();
    tree.build_string(&mut text, "  ", "- ");
    let lines: Vec<&str> = text.split('\n').collect();
    assert_eq!(lines.last(), Some(&""));
    let lines = &lines[..lines.len() - 1];

    fn count(t: &FileTree) -> usize {
        1 + t.children.iter().map(count).sum::<usize>()
    }
    assert_eq!(lines.len(), count(&tree));
}

#[test]
fn scenario_rendered_text_is_exact() {
    let root = scenario_root();
    let ignore = read_gitignore(Some("ignored.txt\n"));
    let tree = FileTree::new(&root, 2, &ignore, false, false);

    let mut text = String::new();
    tree.build_string(&mut text, "  ", "- ");
    assert_eq!(text, "- x/\n  - sub/\n    - file.txt\n");

    let lines = tree.render_lines("  ", "- ");
    assert_eq!(lines.len(), 3);
    assert_eq!(lines[0].text, "- x/");
    assert!(lines[0].is_dir);
    assert_eq!(lines[1].text, "  - sub/");
    assert_eq!(lines[2].text, "    - file.txt");
}

#[test]
fn scenario_build_string_appends_to_existing_text() {
    let ignore = read_gitignore(None);
    let a = file("a.txt", "a.txt");
    let tree = FileTree::new(&a, 1, &ignore, false, false);

    let mut text = String::from("before\n");
    tree.build_string(&mut text, "    ", "- ");
    assert_eq!(text, "before\n- a.txt\n");
}

#[test]
fn args_defaults_are_four_spaces_and_dash() {
    let args = Args {
        dir: None,
        spacer: None,
        include_hidden: false,
        git_ignored: false,
        copy: false,
        prefix: None,
        out_file: None,
    };
    assert_eq!(args.spacer_or_default(), "    ");
    assert_eq!(args.prefix_or_default(), "- ");

    let given = Args {
        dir: Some("/tmp".to_string()),
        spacer: Some("..".to_string()),
        include_hidden: true,
        git_ignored: true,
        copy: true,
        prefix: Some("> ".to_string()),
        out_file: Some("out.txt".to_string()),
    };
    assert_eq!(given.spacer_or_default(), "..");
    assert_eq!(given.prefix_or_default(), "> ");
}

#[test]
fn scenario_sibling_ties_break_by_path_order() {
    let root = dir(
        "/tmp/x",
        "x",
        vec![
            file("/tmp/x/bb", "bb"),
            file("/tmp/x/b", "b"),
            file("/tmp/x/ba", "ba"),
        ],
    );
    let ignore = read_gitignore(None);
    let tree = FileTree::new(&root, 1, &ignore, false, false);

    let names: Vec<&str> = tree.children.iter().map(|c| c.name.as_str()).collect();
    assert_eq!(names, vec!["b", "ba", "bb"]);
}
