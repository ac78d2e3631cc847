//! The file-entry stream parser: it drives a buffered sequence of lines,
//! producing one `DiffInfo` per call, and reports end-of-stream and
//! malformed input as distinct outcomes.

use vstd::prelude::*;
use crate::patch::{Patch, PatchView};
use crate::scan::{DiffError, ScanResult, init_scan, scan_hunks, spec_scan};
use crate::util::{StringExt, copy_slice, spec_drop};

verus! {

/// The line after the command line that marks file creation: it begins
/// with the word `new`.
pub open spec fn starts_new(l: Seq<u8>) -> bool {
    l.len() >= 3 && l[0] == 110 && l[1] == 101 && l[2] == 119
}

/// The source-path marker `---`.
pub open spec fn starts_dashes(l: Seq<u8>) -> bool {
    l.len() >= 3 && l[0] == 45 && l[1] == 45 && l[2] == 45
}

/// The target-path marker `+++`.
pub open spec fn starts_pluses(l: Seq<u8>) -> bool {
    l.len() >= 3 && l[0] == 43 && l[1] == 43 && l[2] == 43
}

/// How one `next_diff` call ends: clean end of stream (also reached when
/// the stream runs out inside an entry's preamble), malformed input with
/// the position after it, or one decoded entry with the position of the
/// first unconsumed line.
pub enum EntryResult {
    End,
    Fail(DiffError, int),
    Good(DiffInfoView, int),
}

/// One file entry read from position `i`: the command line, the index line
/// (preceded, when present, by a `new ...` file-creation marker line), the
/// `---` and `+++` path lines, then the hunk scan up to a blank line, the
/// next `diff` line, or the end of the stream.
pub open spec fn spec_entry(lines: Seq<Seq<u8>>, i: int) -> EntryResult {
    if i >= lines.len() {
        EntryResult::End
    } else {
        let command = lines[i];
        if i + 1 >= lines.len() {
            EntryResult::End
        } else {
            let first = lines[i + 1];
            let has_new = starts_new(first);
            if has_new && i + 2 >= lines.len() {
                EntryResult::End
            } else {
                let new_file = if has_new {
                    Some(first)
                } else {
                    None
                };
                let index_line = if has_new {
                    lines[i + 2]
                } else {
                    first
                };
                let j = if has_new {
                    i + 3
                } else {
                    i + 2
                };
                if j >= lines.len() {
                    EntryResult::End
                } else {
                    let sl = lines[j];
                    if !starts_dashes(sl) {
                        EntryResult::Fail(DiffError::SourceMarker, j + 1)
                    } else if j + 1 >= lines.len() {
                        EntryResult::End
                    } else {
                        let tl = lines[j + 1];
                        if !starts_pluses(tl) {
                            EntryResult::Fail(DiffError::TargetMarker, j + 2)
                        } else {
                            match spec_scan(lines, j + 2, init_scan()) {
                                ScanResult::Fail(e, pos) => EntryResult::Fail(e, pos),
                                ScanResult::Done(pv, stop) => EntryResult::Good(
                                    DiffInfoView {
                                        command,
                                        source: spec_drop(sl, 4),
                                        target: spec_drop(tl, 4),
                                        new_file,
                                        index: index_line,
                                        diffs: pv,
                                    },
                                    stop,
                                ),
                            }
                        }
                    }
                }
            }
        }
    }
}

/// One record per changed file in the stream: the raw `diff` command line,
/// the object/mode `index` line, the optional file-creation marker line,
/// the `---`/`+++` path lines with their four-byte marker prefix stripped,
/// and the indexed patch data.
#[derive(Debug)]
pub struct DiffInfo {
    pub command: Vec<u8>,
    pub source: Vec<u8>,
    pub target: Vec<u8>,
    pub new_file: Option<Vec<u8>>,
    pub index: Vec<u8>,
    pub diffs: Patch,
}

/// Mathematical image of a `DiffInfo`.
#[verifier::ext_equal]
pub struct DiffInfoView {
    pub command: Seq<u8>,
    pub source: Seq<u8>,
    pub target: Seq<u8>,
    pub new_file: Option<Seq<u8>>,
    pub index: Seq<u8>,
    pub diffs: PatchView,
}

impl View for DiffInfo {
    type V = DiffInfoView;

    open spec fn view(&self) -> DiffInfoView {
        DiffInfoView {
            command: self.command@,
            source: self.source@,
            target: self.target@,
            new_file: match self.new_file {
                Some(v) => Some(v@),
                None => None,
            },
            index: self.index@,
            diffs: self.diffs@,
        }
    }
}

/// The pull-based stream parser over a buffered sequence of lines (each
/// line already stripped of its trailing newline).  One `next_diff` call
/// consumes one file entry.
pub struct DiffStreamParser {
    lines: Vec<Vec<u8>>,
    pos: usize,
}

impl DiffStreamParser {
    /// The lines the parser walks.
    pub closed spec fn spec_lines(&self) -> Seq<Seq<u8>> {
        self.lines.deep_view()
    }

    /// Index of the first unconsumed line.
    pub closed spec fn spec_pos(&self) -> int {
        self.pos as int
    }

    /// The position never runs past the line count.
    pub closed spec fn wf(&self) -> bool {
        self.pos <= self.lines@.len()
    }

    /// A parser positioned at the first line.
    pub fn new(lines: Vec<Vec<u8>>) -> (r: Self)
        ensures
            r.spec_lines() == lines.deep_view(),
            r.spec_pos() == 0,
            r.wf(),
    {
        DiffStreamParser { lines, pos: 0 }
    }

    /// Produce the next file entry, a clean end-of-stream signal, or a
    /// distinct malformed-input error (the conflation of the two in a
    /// single "no more data" answer is resolved here in favour of a tagged
    /// result).  On `Ok(Some(_))` the parser stands on the line that ended
    /// the entry, so the next call resumes from it; the stream running out
    /// inside an entry's preamble counts as a clean end.
    pub fn next_diff(&mut self) -> (r: Result<Option<DiffInfo>, DiffError>)
        requires
            old(self).wf(),
        ensures
            final(self).wf(),
            final(self).spec_lines() == old(self).spec_lines(),
            ({
                let res = spec_entry(old(self).spec_lines(), old(self).spec_pos());
                match res {
                    EntryResult::End => r == Ok::<Option<DiffInfo>, DiffError>(None)
                        && final(self).spec_pos() == old(self).spec_lines().len(),
                    EntryResult::Fail(e, p2) => r == Err::<Option<DiffInfo>, DiffError>(e)
                        && final(self).spec_pos() == p2,
                    EntryResult::Good(info, p2) => (match r {
                        Ok(Some(d)) => d@ == info && d@.diffs.wf(),
                        _ => false,
                    }) && final(self).spec_pos() == p2,
                }
            }),
    {
        let ghost lv = self.lines.deep_view();
        let i = self.pos;
        let n = self.lines.len();
        if i >= n {
            self.pos = n;
            return Ok(None);
        }
        proof {
            assert(lv[i as int] =~= self.lines@[i as int]@);
        }
        let command = copy_line(&self.lines[i]);
        if i + 1 >= n {
            self.pos = n;
            return Ok(None);
        }
        proof {
            assert(lv[i + 1] =~= self.lines@[i + 1]@);
        }
        let has_new = line_starts3(&self.lines[i + 1], 110, 101, 119);
        if has_new && i + 2 >= n {
            self.pos = n;
            return Ok(None);
        }
        let new_file: Option<Vec<u8>>;
        let index: Vec<u8>;
        let j: usize;
        if has_new {
            proof {
                assert(lv[i + 2] =~= self.lines@[i + 2]@);
            }
            new_file = Some(copy_line(&self.lines[i + 1]));
            index = copy_line(&self.lines[i + 2]);
            j = i + 3;
        } else {
            new_file = None;
            index = copy_line(&self.lines[i + 1]);
            j = i + 2;
        }
        if j >= n {
            self.pos = n;
            return Ok(None);
        }
        proof {
            assert(lv[j as int] =~= self.lines@[j as int]@);
        }
        if !line_starts3(&self.lines[j], 45, 45, 45) {
            self.pos = j + 1;
            return Err(DiffError::SourceMarker);
        }
        let source = drop_marker_copy(&self.lines[j]);
        if j + 1 >= n {
            self.pos = n;
            return Ok(None);
        }
        proof {
            assert(lv[j + 1] =~= self.lines@[j + 1]@);
        }
        if !line_starts3(&self.lines[j + 1], 43, 43, 43) {
            self.pos = j + 2;
            return Err(DiffError::TargetMarker);
        }
        let target = drop_marker_copy(&self.lines[j + 1]);
        match scan_hunks(&self.lines, j + 2) {
            Err(ep) => {
                self.pos = ep.1;
                Err(ep.0)
            },
            Ok(p) => {
                self.pos = p.1;
                let d = DiffInfo { command, source, target, new_file, index, diffs: p.0 };
                proof {
                    let res = spec_entry(lv, i as int);
                    assert(res is Good);
                    assert(d@ =~= res->Good_0);
                }
                Ok(Some(d))
            },
        }
    }
}

/// A fresh copy of one line.
fn copy_line(l: &Vec<u8>) -> (r: Vec<u8>)
    ensures
        r@ == l@,
{
    let r = copy_slice(l.as_slice(), 0, l.len());
    proof {
        assert(l@.subrange(0, l@.len() as int) =~= l@);
    }
    r
}

/// A fresh copy of a path line with its four-byte marker prefix removed.
fn drop_marker_copy(l: &Vec<u8>) -> (r: Vec<u8>)
    ensures
        r@ == spec_drop(l@, 4),
{
    let s = l.as_slice().drop(4);
    let r = copy_slice(s, 0, s.len());
    proof {
        assert(s@.subrange(0, s@.len() as int) =~= s@);
    }
    r
}

/// Whether a line begins with the three given bytes.
fn line_starts3(l: &Vec<u8>, a: u8, b: u8, c: u8) -> (r: bool)
    ensures
        r == (l@.len() >= 3 && l@[0] == a && l@[1] == b && l@[2] == c),
{
    l.len() >= 3 && l[0] == a && l[1] == b && l[2] == c
}

} // verus!
