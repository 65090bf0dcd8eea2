use dirtree::utils::read_gitignore;

#[test]
fn test_read_gitignore_with_valid_file() {
    let gitignore = read_gitignore(Some("target/\n*.log\n\n"));
    assert!(gitignore.contains("target/"));
    assert!(gitignore.contains("*.log"));
}

#[test]
fn test_read_gitignore_with_empty_file() {
    let gitignore = read_gitignore(Some(""));
    assert!(gitignore.is_empty());
}

#[test]
fn test_read_gitignore_with_non_existent_file() {
    let gitignore = read_gitignore(None);
    assert!(gitignore.is_empty());
}

#[test]
fn test_read_gitignore_with_file_having_empty_lines() {
    let gitignore = read_gitignore(Some("\n\nignored_file\n\n\n"));
    assert_eq!(gitignore.len(), 1);
    assert!(gitignore.contains("ignored_file"));
}

#[test]
fn test_read_gitignore_collapses_duplicates() {
    let gitignore = read_gitignore(Some("target/\ntarget/\n"));
    assert_eq!(gitignore.len(), 1);
    assert!(gitignore.contains("target/"));
}

#[test]
fn test_read_gitignore_keeps_lines_verbatim() {
    let gitignore = read_gitignore(Some("# comment\n  spaced  \n"));
    assert!(gitignore.contains("# comment"));
    assert!(gitignore.contains("  spaced  "));
    assert!(!gitignore.contains("spaced"));
    assert_eq!(gitignore.len(), 2);
}

#[test]
fn test_read_gitignore_strips_carriage_returns() {
    let gitignore = read_gitignore(Some("target/\r\n*.log\r\n"));
    assert!(gitignore.contains("target/"));
    assert!(gitignore.contains("*.log"));
    assert_eq!(gitignore.len(), 2);
}

#[test]
fn test_ignore_set_matches_by_substring() {
    let gitignore = read_gitignore(Some("ignored\n"));
    assert!(gitignore.matches("/tmp/x/sub/ignored_file.txt"));
    assert!(gitignore.matches("ignored"));
    assert!(!gitignore.matches("/tmp/x/sub/kept.txt"));
}
