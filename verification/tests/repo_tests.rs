use difflog::repo::{GitRepository, parse_git_version};

#[test]
fn test_parse_git_version() {
    let out = parse_git_version(b"git version 2.39.1\n").unwrap();
    assert_eq!(out, b"2.39.1".to_vec());
}

#[test]
fn test_parse_git_version_absent() {
    assert!(parse_git_version(b"no such word here\n").is_none());
    assert!(parse_git_version(b"").is_none());
}

#[test]
fn test_parse_git_version_at_end() {
    // Nothing after the word: the (empty) remainder loses no byte.
    let out = parse_git_version(b"git version ").unwrap();
    assert_eq!(out, b"".to_vec());
}

#[test]
fn test_repository_path() {
    let repo = GitRepository::new(String::from("."));
    assert_eq!(repo.path(), ".");
}
