use difflog::offset::DiffOffset;
use difflog::patch::{LineKind, Patch};

const SHOULD_NORMALIZE_PATCH: &str = r#"-}
+
+ hello
+}"#;

const PATCH_SINGLE: &'static str = r#"@@ -1,8 +1,13 @@
+use std::future::Future;
 use std::io;
+use std::io::Error;
+use std::pin::Pin;
 
 use tokio::io::{AsyncBufReadExt, BufReader};
 use tokio::process::{Child, ChildStdout};
 
+use crate::util::iter::AsyncIterator;
+
 pub struct GitLogParser {
        child: Child,
        inner: BufReader<ChildStdout>,
@@ -21,10 +26,20 @@ macro_rules! read_or_none {
                if 0 == $self.inner.read_line(&mut $line).await? {
                        return Ok(None);
                }
-           let _ = $line.pop();
+               if $line.ends_with(|it:char| it.is_whitespace()) {
+               let _ = $line.pop();
+               }
     };
 }
 
+impl AsyncIterator<io::Error> for GitLogParser {
+       type Item = GitLog;"#;

#[test]
fn test_patch() {
    let patch = Patch::parse(PATCH_SINGLE.as_bytes().to_vec());
    assert!(patch.is_ok());
    let patch = patch.unwrap();
    assert_eq!(patch.patches(), 2);
    let inner = patch.get_patch(0);
    assert!(inner.is_some());
    let inner = inner.unwrap();
    assert!(inner.is_valid());
    println!("{:?}", inner);
    println!("{:#?}", patch);
}

#[test]
fn test_header_exact() {
    let off = DiffOffset::parse(b"@@ -1,8 +1,13 @@").unwrap();
    assert_eq!(off.source_start, 1);
    assert_eq!(off.source_lines, 8);
    assert_eq!(off.target_start, 1);
    assert_eq!(off.target_lines, 13);
}

#[test]
fn test_header_annotated_offsets() {
    // The annotation after the second `@@` must not alter the offsets.
    let patch = Patch::parse(PATCH_SINGLE.as_bytes().to_vec()).unwrap();
    let second = patch.get_patch(1).unwrap();
    assert_eq!(second.offset.source_start, 21);
    assert_eq!(second.offset.source_lines, 10);
    assert_eq!(second.offset.target_start, 26);
    assert_eq!(second.offset.target_lines, 20);
}

#[test]
fn test_header_missing_comma() {
    // The abbreviated single-line form is rejected.
    assert!(DiffOffset::parse(b"@@ -1 +1,4 @@").is_none());
    assert!(DiffOffset::parse(b"@@").is_none());
    assert!(DiffOffset::parse(b"@@ -a,b +1,4 @@").is_none());
}

#[test]
fn test_offset_is_zero() {
    let z = DiffOffset::default();
    assert!(z.is_zero());
    let off = DiffOffset::parse(b"@@ -1,8 +1,13 @@").unwrap();
    assert!(!off.is_zero());
}

fn scenario_a_patch() -> Patch {
    let mut text = String::from("@@ -1,1 +1,4 @@\n");
    text.push_str(SHOULD_NORMALIZE_PATCH);
    text.push('\n');
    Patch::parse(text.into_bytes()).unwrap()
}

#[test]
fn scenario_a_normalized_counts() {
    let mut patch = scenario_a_patch();
    assert_eq!(patch.patches(), 1);
    patch.normalize_patch(0);
    let info = patch.get_patch(0).unwrap();
    assert_eq!(info.source_lines(), 1);
    assert_eq!(info.output_lines(), 4);
    assert_eq!(info.patch_lines(), 4);
    assert!(info.is_valid());
}

#[test]
fn scenario_b_unclosed_header() {
    // A header that never closes its `@@` marker is malformed input, not a
    // partially built patch; the input comes back unchanged.
    let input = b"@@ -1,1 +1,4\n-x\n".to_vec();
    let r = Patch::parse(input.clone());
    assert!(r.is_err());
    assert_eq!(r.unwrap_err(), input);
}

#[test]
fn scenario_c_two_hunks_ordered() {
    let patch = Patch::parse(PATCH_SINGLE.as_bytes().to_vec()).unwrap();
    assert_eq!(patch.patches(), 2);
    let first = patch.get_patch(0).unwrap();
    let second = patch.get_patch(1).unwrap();
    // The second hunk's slice begins strictly after the first one's end.
    assert!(second.content_ptr > first.content_ptr + first.contents.len());
}

#[test]
fn scenario_d_out_of_range() {
    let patch = Patch::parse(PATCH_SINGLE.as_bytes().to_vec()).unwrap();
    assert!(patch.get_patch(2).is_none());
    assert!(patch.get_patch(99).is_none());
    assert!(patch.get_index(0, 999).is_none());
    assert!(patch.get_index(7, 0).is_none());
    let info = patch.get_patch(0).unwrap();
    assert!(info.get_line(999).is_none());
}

#[test]
fn test_get_index_and_get_line() {
    let patch = scenario_a_patch();
    assert_eq!(patch.get_index(0, 0).unwrap(), b"-}");
    assert_eq!(patch.get_index(0, 2).unwrap(), b"+ hello");
    let info = patch.get_patch(0).unwrap();
    assert_eq!(info.get_line(0).unwrap(), b"-}");
    assert_eq!(info.get_line(3).unwrap(), b"+}");
}

#[test]
fn test_line_accounting_identity() {
    // source_lines + added == patch_lines and output_lines + removed ==
    // patch_lines, on a real parsed hunk.
    let patch = Patch::parse(PATCH_SINGLE.as_bytes().to_vec()).unwrap();
    for h in 0..patch.patches() {
        let info = patch.get_patch(h).unwrap();
        let mut added = 0;
        let mut removed = 0;
        for l in info.index.iter() {
            match l.kind {
                LineKind::Added => added += 1,
                LineKind::Removed => removed += 1,
                LineKind::Context => {}
            }
        }
        assert_eq!(info.source_lines() + added, info.patch_lines());
        assert_eq!(info.output_lines() + removed, info.patch_lines());
    }
}

#[test]
fn test_normalize_rewrites_pair() {
    let mut patch = scenario_a_patch();
    {
        let info = patch.get_patch(0).unwrap();
        assert_eq!(info.index[0].kind, LineKind::Removed);
    }
    patch.normalize_patch(0);
    let info = patch.get_patch(0).unwrap();
    // The removed line became context, marker byte included; the added
    // line stayed as it was.
    assert_eq!(info.index[0].kind, LineKind::Context);
    assert_eq!(info.get_line(0).unwrap(), b" }");
    assert_eq!(info.index[3].kind, LineKind::Added);
    assert_eq!(info.get_line(3).unwrap(), b"+}");
}

#[test]
fn test_normalize_idempotent_concrete() {
    let mut once = scenario_a_patch();
    once.normalize_patch(0);
    let mut twice = scenario_a_patch();
    twice.normalize_patch(0);
    twice.normalize_patch(0);
    let a = once.get_patch(0).unwrap();
    let b = twice.get_patch(0).unwrap();
    assert_eq!(a.contents, b.contents);
    assert_eq!(a.index, b.index);
}

#[test]
fn test_normalize_preserves_layout() {
    let before = scenario_a_patch();
    let mut after = scenario_a_patch();
    after.normalize_patch(0);
    let a = before.get_patch(0).unwrap();
    let b = after.get_patch(0).unwrap();
    assert_eq!(a.contents.len(), b.contents.len());
    assert_eq!(a.index.len(), b.index.len());
    for (x, y) in a.index.iter().zip(b.index.iter()) {
        assert_eq!(x.start, y.start);
        assert_eq!(x.end, y.end);
    }
}

#[test]
fn test_normalize_small_hunk_no_op() {
    // A hunk of two lines or fewer is never rewritten.
    let mut patch = Patch::parse(b"@@ -1,1 +1,1 @@\n-}\n+}\n".to_vec()).unwrap();
    patch.normalize_patch(0);
    let info = patch.get_patch(0).unwrap();
    assert_eq!(info.index[0].kind, LineKind::Removed);
    assert_eq!(info.index[1].kind, LineKind::Added);
}

#[test]
fn test_normalize_out_of_range_no_op() {
    let mut patch = scenario_a_patch();
    patch.normalize_patch(7);
    let info = patch.get_patch(0).unwrap();
    assert_eq!(info.index[0].kind, LineKind::Removed);
}

#[test]
fn test_normalize_added_before_removed() {
    // The last added line may stand before the first removed one.
    let mut patch = Patch::parse(b"@@ -2,2 +1,2 @@\n+}\n x\n-}\n".to_vec()).unwrap();
    patch.normalize_patch(0);
    let info = patch.get_patch(0).unwrap();
    assert_eq!(info.index[0].kind, LineKind::Added);
    assert_eq!(info.index[2].kind, LineKind::Context);
}
