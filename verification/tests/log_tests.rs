use difflog::log::GitLog;

fn lines(v: &[&str]) -> Vec<Vec<u8>> {
    let mut r = Vec::new();
    for s in v {
        r.push(s.as_bytes().to_vec());
    }
    r
}

#[test]
fn test_log_entry() {
    let input = lines(&[
        "",
        "abc123",
        "Author <a@b>",
        "2024-01-01",
        "first line",
        "second line",
        "==END==",
        "next987",
    ]);
    let (log, next) = GitLog::parse_entry(&input, 0).unwrap();
    assert_eq!(log.hash, b"abc123".to_vec());
    assert_eq!(log.author, b"Author <a@b>".to_vec());
    assert_eq!(log.date, b"2024-01-01".to_vec());
    assert_eq!(log.message, b"first linesecond line".to_vec());
    assert_eq!(next, 7);
}

#[test]
fn test_log_empty_message() {
    let input = lines(&["h", "a", "d", "==END=="]);
    let (log, next) = GitLog::parse_entry(&input, 0).unwrap();
    assert_eq!(log.hash, b"h".to_vec());
    assert_eq!(log.message, b"".to_vec());
    assert_eq!(next, 4);
}

#[test]
fn test_log_skips_blank_lines() {
    let input = lines(&["  \t ", "", "h", "a", "d", "==END=="]);
    let (log, _) = GitLog::parse_entry(&input, 0).unwrap();
    assert_eq!(log.hash, b"h".to_vec());
}

#[test]
fn test_log_truncated() {
    // The stream ends before the record is complete.
    assert!(GitLog::parse_entry(&lines(&[]), 0).is_none());
    assert!(GitLog::parse_entry(&lines(&["h", "a"]), 0).is_none());
    assert!(GitLog::parse_entry(&lines(&["h", "a", "d", "msg"]), 0).is_none());
}
