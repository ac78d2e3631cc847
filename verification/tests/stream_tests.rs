use difflog::scan::DiffError;
use difflog::stream::DiffStreamParser;
use difflog::util::split_lines;

const DIFF_MULTIPLE: &'static str = r#"diff --git a/src/git/log_parser.rs b/src/git/log_parser.rs
index c5a6ad4..8ea4982 100644
--- a/src/git/log_parser.rs
+++ b/src/git/log_parser.rs
@@ -15,10 +15,10 @@ pub struct GitLogParser {
 
 #[derive(Debug)]
 pub struct GitLog {
-       hash: String,
-       author: String,
-       message: String,
-       date: String,
+       pub     hash: String,
+       pub     author: String,
+       pub     message: String,
+       pub     date: String,
 }
 
 macro_rules! read_or_none {
@@ -35,7 +35,7 @@ macro_rules! read_or_none {
 impl AsyncIterator<io::Error> for GitLogParser {
        type Item = GitLog;
 
-       fn next<'a>(&'a mut self) -> Pin<Box<dyn Future<Output=Result<Option<Self::Item>, Error>> + Send + 'a>> {
+       fn next<'a>(&'a mut self) -> Pin<Box<dyn Future<Output=Result<Option<Self::Item>, Error>> + 'a>> {
                Box::pin(self.next_log())
        }
 }
diff --git a/src/main.rs b/src/main.rs
index 726c255..7e3af3f 100644
--- a/src/main.rs
+++ b/src/main.rs
@@ -1,7 +1,7 @@
 use bstr::ByteSlice;
 
 use crate::git::{check_git, GitRepository};
-use crate::util::iter::collect;
+use crate::util::iter::{AsyncIterator, collect};
 use crate::util::proc::{OutputMessage, RawOutputMessage, run_process};
 
 mod git;
@@ -11,7 +11,7 @@ mod util;
 async fn main() -> anyhow::Result<()> {
        tracing_subscriber::fmt().init();
        let mut log = GitRepository::new(".").log()?;
-       let res = collect(log).await?;
+       let res = log.filter(|_| true).collect().await?;
        println!("{res:?}");
        //println!("{:?}", log.next_log().await);
        check_git().await;
diff --git a/src/util/iter.rs b/src/util/iter.rs
index e84d72c..deb7906 100644
--- a/src/util/iter.rs
+++ b/src/util/iter.rs
@@ -1,14 +1,23 @@
 use std::error::Error;
 use std::future::Future;
+use std::marker::PhantomData;
 use std::pin::Pin;
 
-use thiserror::Error;
-
 // fine for internal use
 #[allow(clippy::type_complexity)]
 pub trait AsyncIterator<E: Error> {
        type Item;
-       fn next<'a>(&'a mut self) -> Pin<Box<dyn Future<Output=Result<Option<Self::Item>, E>> + Send + 'a>>;
+       fn next<'a>(&'a mut self) -> Pin<Box<dyn Future<Output=Result<Option<Self::Item>, E>> + 'a>>;
+       fn collect(self) -> Pin<Box<dyn Future<Output=Result<Vec<Self::Item>, E>>>>
+               where Self: 'static + Sized {
+               Box::pin(async move {
+                       collect(self).await
+               })
+       }
+       fn filter<F: Fn(&Self::Item) -> bool>(self, filter: F) -> AsyncIterFilter<Self::Item, F, E, Self>
+               where Self: 'static + Sized {
+               AsyncIterFilter::new(self, filter)
+       }
 }
 
 /// Attempt to collect async iterator; fail if any iterator return `Err(E)`
@@ -24,4 +33,55 @@ pub async fn collect<E, T, I: AsyncIterator<E, Item=T>>(mut iter: I) -> Result<V
                vec.push(res.unwrap());
        }
        Ok(vec)
+}
+
+pub struct AsyncIterFilter<T, F, E, I>
+       where F: Fn(&T) -> bool,
+             E: Error,
+             I: AsyncIterator<E, Item=T> {
+       iter: I,
+       cond: F,
+       typ: PhantomData<T>,
+       err: PhantomData<E>,
+}
+
+impl<T, F, E, I> AsyncIterFilter<T, F, E, I>
+       where F: Fn(&T) -> bool,
+             E: Error,
+             I: AsyncIterator<E, Item=T> {
+       pub fn new(iter: I, cond: F) -> Self {
+               Self {
+                       iter,
+                       cond,
+                       typ: Default::default(),
+                       err: Default::default(),
+               }
+       }
+}
+
+impl<E, T, I, F> AsyncIterator<E> for AsyncIterFilter<T, F, E, I>
+       where
+               F: Fn(&T) -> bool,
+               E: Error,
+               I: AsyncIterator<E, Item=T> {
+       type Item = T;
+
+       fn next<'a>(&'a mut self) -> Pin<Box<dyn Future<Output=Result<Option<Self::Item>, E>> + 'a>> {
+               Box::pin(async {
+                       loop {
+                               let buf = I::next(&mut self.iter).await?;
+                               match buf {
+                                       None => {
+                                               return Ok(None);
+                                       }
+                                       Some(val) => {
+                                               if (self.cond)(&val) {
+                                                       return Ok(Some(val));
+                                               }
+                                               drop(val);
+                                       }
+                               }
+                       }
+               })
+       }
 }
\ No newline at end of file
"#;

#[test]
fn test_stream_two_entries_then_bad_line() {
    let mut parser = DiffStreamParser::new(split_lines(DIFF_MULTIPLE.as_bytes()));

    let first = parser.next_diff().unwrap().unwrap();
    assert_eq!(
        first.command,
        b"diff --git a/src/git/log_parser.rs b/src/git/log_parser.rs".to_vec()
    );
    assert_eq!(first.index, b"index c5a6ad4..8ea4982 100644".to_vec());
    assert_eq!(first.source, b"a/src/git/log_parser.rs".to_vec());
    assert_eq!(first.target, b"b/src/git/log_parser.rs".to_vec());
    assert!(first.new_file.is_none());
    assert_eq!(first.diffs.patches(), 2);

    let second = parser.next_diff().unwrap().unwrap();
    assert_eq!(second.command, b"diff --git a/src/main.rs b/src/main.rs".to_vec());
    assert_eq!(second.source, b"a/src/main.rs".to_vec());
    assert_eq!(second.diffs.patches(), 2);

    // The third entry ends on a `\ No newline at end of file` note, whose
    // leading byte no line kind accepts.
    let third = parser.next_diff();
    assert_eq!(third.unwrap_err(), DiffError::LineMarker);
}

#[test]
fn test_stream_end() {
    let mut parser = DiffStreamParser::new(split_lines(b""));
    assert!(parser.next_diff().unwrap().is_none());
}

fn lines(v: &[&str]) -> Vec<Vec<u8>> {
    let mut r = Vec::new();
    for s in v {
        r.push(s.as_bytes().to_vec());
    }
    r
}

#[test]
fn test_stream_new_file_marker() {
    let mut parser = DiffStreamParser::new(lines(&[
        "diff --git a/x b/x",
        "new file mode 100644",
        "index 0000000..59ce2c5",
        "--- a/x",
        "+++ b/x",
        "@@ -0,0 +1,1 @@",
        "+hello",
    ]));
    let entry = parser.next_diff().unwrap().unwrap();
    assert_eq!(entry.new_file, Some(b"new file mode 100644".to_vec()));
    assert_eq!(entry.index, b"index 0000000..59ce2c5".to_vec());
    assert_eq!(entry.diffs.patches(), 1);
    assert_eq!(entry.diffs.get_index(0, 0).unwrap(), b"+hello");
    assert!(parser.next_diff().unwrap().is_none());
}

#[test]
fn test_stream_bad_source_marker() {
    let mut parser = DiffStreamParser::new(lines(&[
        "diff --git a/x b/x",
        "index 123",
        "*** a/x",
        "+++ b/x",
    ]));
    assert_eq!(parser.next_diff().unwrap_err(), DiffError::SourceMarker);
}

#[test]
fn test_stream_bad_target_marker() {
    let mut parser = DiffStreamParser::new(lines(&[
        "diff --git a/x b/x",
        "index 123",
        "--- a/x",
        "*** b/x",
    ]));
    assert_eq!(parser.next_diff().unwrap_err(), DiffError::TargetMarker);
}

#[test]
fn test_stream_bad_offset_header() {
    let mut parser = DiffStreamParser::new(lines(&[
        "diff --git a/x b/x",
        "index 123",
        "--- a/x",
        "+++ b/x",
        "@@ -x,y +1,1 @@",
        "+hello",
    ]));
    assert_eq!(parser.next_diff().unwrap_err(), DiffError::OffsetHeader);
}

#[test]
fn test_stream_unclosed_header() {
    let mut parser = DiffStreamParser::new(lines(&[
        "diff --git a/x b/x",
        "index 123",
        "--- a/x",
        "+++ b/x",
        "@@ -1,1 +1,1",
        "+hello",
    ]));
    assert_eq!(parser.next_diff().unwrap_err(), DiffError::HeaderClose);
}

#[test]
fn test_stream_truncated_preamble_is_end() {
    // The stream running out inside an entry's preamble counts as a clean
    // end of stream.
    let mut parser = DiffStreamParser::new(lines(&["diff --git a/x b/x", "index 123"]));
    assert!(parser.next_diff().unwrap().is_none());
}
