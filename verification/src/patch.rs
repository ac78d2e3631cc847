//! The owned patch representation for one changed file and its zero-copy
//! query accessors.
//!
//! A `Patch` owns a raw byte buffer holding, in order, the content of every
//! classified body line of every hunk (each line followed by one newline
//! byte; the free-form text trailing an annotated hunk header is also kept in
//! the buffer, unindexed), together with an ordered index of hunks.  Every
//! indexed line is a half-open byte range `start..end` into the buffer,
//! whose first byte is the line's marker character.

use vstd::prelude::*;
use vstd::slice::slice_subrange;
use vstd::pervasive::VecAdditionalExecFns;
use crate::offset::DiffOffset;

verus! {

/// Classification of one diff body line, read off its marker character:
/// a space for context, `+` for an added line, `-` for a removed line.
#[derive(Debug, Clone, Copy, PartialEq, Eq, Structural)]
pub enum LineKind {
    Context,
    Added,
    Removed,
}

/// The marker byte that announces a line of kind `k`.
pub open spec fn marker(k: LineKind) -> u8 {
    match k {
        LineKind::Context => 32u8,
        LineKind::Added => 43u8,
        LineKind::Removed => 45u8,
    }
}

/// The kind a marker byte announces, if any.
pub open spec fn spec_kind_of(b: u8) -> Option<LineKind> {
    if b == 32 {
        Some(LineKind::Context)
    } else if b == 43 {
        Some(LineKind::Added)
    } else if b == 45 {
        Some(LineKind::Removed)
    } else {
        None
    }
}

/// One classified body line: its kind and the half-open byte range of its
/// content (marker included, newline excluded) in the owning buffer.
#[derive(Debug, Clone, Copy, PartialEq, Eq, Structural)]
pub struct PatchLine {
    pub kind: LineKind,
    pub start: usize,
    pub end: usize,
}

/// Mathematical image of one hunk: its header offsets and its lines.
#[verifier::ext_equal]
pub struct HunkView {
    pub offset: DiffOffset,
    pub lines: Seq<PatchLine>,
}

/// Mathematical image of a `Patch`: the raw buffer and the hunk index.
#[verifier::ext_equal]
pub struct PatchView {
    pub raw: Seq<u8>,
    pub hunks: Seq<HunkView>,
}

/// A line range is inside the buffer, non-empty, and begins with the marker
/// byte of its kind.
pub open spec fn line_ok(raw: Seq<u8>, l: PatchLine) -> bool {
    l.start < l.end <= raw.len() && raw[l.start as int] == marker(l.kind)
}

impl PatchView {
    /// Well-formedness: every indexed line is a valid marker-led range, and
    /// the ranges are strictly increasing in index order, within and across
    /// hunks (so distinct lines never overlap).
    pub open spec fn wf(self) -> bool {
        (forall|h: int, i: int|
            0 <= h < self.hunks.len() && 0 <= i < self.hunks[h].lines.len() ==> line_ok(
                self.raw,
                #[trigger] self.hunks[h].lines[i],
            )) && (forall|h1: int, i1: int, h2: int, i2: int|
            #![trigger self.hunks[h1].lines[i1], self.hunks[h2].lines[i2]]
            0 <= h1 < self.hunks.len() && 0 <= i1 < self.hunks[h1].lines.len() && 0 <= h2
                < self.hunks.len() && 0 <= i2 < self.hunks[h2].lines.len() && (h1 < h2 || (h1 == h2
                && i1 < i2)) ==> self.hunks[h1].lines[i1].end < self.hunks[h2].lines[i2].start)
    }

    /// First byte of hunk `h`'s slice: the start of its first line.
    pub open spec fn hunk_start(self, h: int) -> int {
        if self.hunks[h].lines.len() == 0 {
            0
        } else {
            self.hunks[h].lines[0].start as int
        }
    }

    /// One past the last byte of hunk `h`'s slice: the end of its last line.
    pub open spec fn hunk_end(self, h: int) -> int {
        if self.hunks[h].lines.len() == 0 {
            0
        } else {
            self.hunks[h].lines[self.hunks[h].lines.len() - 1].end as int
        }
    }

    /// The bytes of line `i` of hunk `h`, marker included.
    pub open spec fn line_text(self, h: int, i: int) -> Seq<u8> {
        self.raw.subrange(
            self.hunks[h].lines[i].start as int,
            self.hunks[h].lines[i].end as int,
        )
    }
}

/// Lines of the source version: context and removed lines.
pub open spec fn count_source(s: Seq<PatchLine>) -> int
    decreases s.len(),
{
    if s.len() == 0 {
        0
    } else {
        count_source(s.drop_last()) + if s.last().kind is Added {
            0int
        } else {
            1int
        }
    }
}

/// Lines of the target version: context and added lines.
pub open spec fn count_output(s: Seq<PatchLine>) -> int
    decreases s.len(),
{
    if s.len() == 0 {
        0
    } else {
        count_output(s.drop_last()) + if s.last().kind is Removed {
            0int
        } else {
            1int
        }
    }
}

/// Lines of kind `k`.
pub open spec fn count_kind(s: Seq<PatchLine>, k: LineKind) -> int
    decreases s.len(),
{
    if s.len() == 0 {
        0
    } else {
        count_kind(s.drop_last(), k) + if s.last().kind == k {
            1int
        } else {
            0int
        }
    }
}

pub proof fn lemma_counts_nonneg(s: Seq<PatchLine>)
    ensures
        count_source(s) >= 0,
        count_output(s) >= 0,
        count_kind(s, LineKind::Context) >= 0,
        count_kind(s, LineKind::Added) >= 0,
        count_kind(s, LineKind::Removed) >= 0,
    decreases s.len(),
{
    if s.len() > 0 {
        lemma_counts_nonneg(s.drop_last());
    }
}

/// The line-accounting identity: every line is counted once on the source
/// side or as an addition, and once on the output side or as a removal.
pub proof fn lemma_line_accounting(s: Seq<PatchLine>)
    ensures
        count_source(s) + count_kind(s, LineKind::Added) == s.len(),
        count_output(s) + count_kind(s, LineKind::Removed) == s.len(),
        count_source(s) == count_kind(s, LineKind::Context) + count_kind(s, LineKind::Removed),
        count_output(s) == count_kind(s, LineKind::Context) + count_kind(s, LineKind::Added),
    decreases s.len(),
{
    if s.len() > 0 {
        lemma_line_accounting(s.drop_last());
    }
}

/// One file's patch data: the concatenated raw hunk-body text and the
/// ordered index of hunks, each an offset quadruple with its classified
/// line ranges.
#[derive(Debug)]
pub struct Patch {
    raw_diff: Vec<u8>,
    index: Vec<(DiffOffset, Vec<PatchLine>)>,
}

impl View for Patch {
    type V = PatchView;

    closed spec fn view(&self) -> PatchView {
        PatchView {
            raw: self.raw_diff@,
            hunks: Seq::new(
                self.index@.len(),
                |h: int| HunkView { offset: self.index@[h].0, lines: self.index@[h].1@ },
            ),
        }
    }
}

/// A borrowed view of one hunk: its header offsets, its classified lines,
/// and the slice of raw text they cover.  Borrows from the owning `Patch`.
#[derive(Debug)]
pub struct PatchInfo<'a> {
    pub offset: &'a DiffOffset,
    pub index: &'a [PatchLine],
    /// Position of the slice's first byte in the owning buffer.
    pub content_ptr: usize,
    /// The hunk's span of the owning buffer.
    pub contents: &'a [u8],
}

impl<'a> PatchInfo<'a> {
    /// The hunk's classified lines.
    pub open spec fn lines(self) -> Seq<PatchLine> {
        self.index@
    }

    /// The hunk's slice of the raw buffer.
    pub open spec fn text(self) -> Seq<u8> {
        self.contents@
    }

    /// Buffer position of the slice's first byte.
    pub open spec fn base(self) -> int {
        self.content_ptr as int
    }

    /// Every line range sits inside the hunk's slice.
    pub open spec fn wf(self) -> bool {
        forall|i: int|
            0 <= i < self.lines().len() ==> self.base() <= (#[trigger] self.lines()[i]).start
                < self.lines()[i].end <= self.base() + self.text().len()
    }

    /// Whether the declared header counts match the actual line counts:
    /// the source count must equal the context-plus-removed lines, the
    /// target count the context-plus-added lines.
    pub open spec fn spec_is_valid(self) -> bool {
        count_source(self.lines()) == self.offset.source_lines && count_output(self.lines())
            == self.offset.target_lines
    }

    /// Count of lines that existed in the source version.
    pub fn source_lines(&self) -> (r: usize)
        ensures
            r == count_source(self.lines()),
    {
        let mut r: usize = 0;
        let mut i: usize = 0;
        proof {
            assert(self.lines().take(0) =~= Seq::<PatchLine>::empty());
        }
        while i < self.index.len()
            invariant
                0 <= i <= self.lines().len(),
                r == count_source(self.lines().take(i as int)),
                r <= i,
            decreases self.lines().len() - i,
        {
            proof {
                assert(self.lines().take(i + 1).drop_last() =~= self.lines().take(i as int));
                assert(self.lines().take(i + 1).last() == self.lines()[i as int]);
            }
            match self.index[i].kind {
                LineKind::Added => {
                },
                _ => {
                    r = r + 1;
                },
            }
            i = i + 1;
        }
        proof {
            assert(self.lines().take(self.lines().len() as int) =~= self.lines());
        }
        r
    }

    /// Count of lines that exist in the target version.
    pub fn output_lines(&self) -> (r: usize)
        ensures
            r == count_output(self.lines()),
    {
        let mut r: usize = 0;
        let mut i: usize = 0;
        proof {
            assert(self.lines().take(0) =~= Seq::<PatchLine>::empty());
        }
        while i < self.index.len()
            invariant
                0 <= i <= self.lines().len(),
                r == count_output(self.lines().take(i as int)),
                r <= i,
            decreases self.lines().len() - i,
        {
            proof {
                assert(self.lines().take(i + 1).drop_last() =~= self.lines().take(i as int));
                assert(self.lines().take(i + 1).last() == self.lines()[i as int]);
            }
            match self.index[i].kind {
                LineKind::Removed => {
                },
                _ => {
                    r = r + 1;
                },
            }
            i = i + 1;
        }
        proof {
            assert(self.lines().take(self.lines().len() as int) =~= self.lines());
        }
        r
    }

    /// Total count of classified lines in the hunk.
    pub fn patch_lines(&self) -> (r: usize)
        ensures
            r == self.lines().len(),
    {
        self.index.len()
    }

    /// The lazily checked consistency test: declared counts against actual.
    pub fn is_valid(&self) -> (r: bool)
        ensures
            r == self.spec_is_valid(),
    {
        let s = self.source_lines();
        let o = self.output_lines();
        proof {
            lemma_counts_nonneg(self.lines());
        }
        (s as u64) == self.offset.source_lines && (o as u64) == self.offset.target_lines
    }

    /// The bytes of line `line`, located relative to the hunk's own slice;
    /// `None` when the index is out of range.
    pub fn get_line(&self, line: usize) -> (r: Option<&[u8]>)
        requires
            self.wf(),
        ensures
            match r {
                Some(s) => line < self.lines().len() && s@ == self.text().subrange(
                    self.lines()[line as int].start - self.base(),
                    self.lines()[line as int].end - self.base(),
                ),
                None => line >= self.lines().len(),
            },
    {
        if line >= self.index.len() {
            return None;
        }
        let ptr = self.index[line];
        let content = self.content_ptr;
        Some(slice_subrange(self.contents, ptr.start - content, ptr.end - content))
    }
}

impl Patch {
    /// Assemble a patch from already-built parts.
    pub(crate) fn new_with_index(diff: Vec<u8>, index: Vec<(DiffOffset, Vec<PatchLine>)>) -> (r:
        Patch)
        ensures
            r@.raw == diff@,
            r@.hunks.len() == index@.len(),
            forall|h: int|
                0 <= h < index@.len() ==> (#[trigger] r@.hunks[h]).offset == index@[h].0
                    && r@.hunks[h].lines == index@[h].1@,
    {
        Patch { raw_diff: diff, index }
    }

    /// Number of recorded hunks.
    pub fn patches(&self) -> (r: usize)
        ensures
            r == self@.hunks.len(),
    {
        self.index.len()
    }

    /// A borrowed view of hunk `index`, or `None` when out of range.  Its
    /// text spans from the first line's start to the last line's end and is
    /// empty for a hunk without lines.
    pub fn get_patch<'a>(&'a self, index: usize) -> (r: Option<PatchInfo<'a>>)
        requires
            self@.wf(),
        ensures
            match r {
                Some(pi) => index < self@.hunks.len() && pi.wf() && *pi.offset
                    == self@.hunks[index as int].offset && pi.lines()
                    == self@.hunks[index as int].lines && pi.base() == self@.hunk_start(
                    index as int,
                ) && pi.text() == self@.raw.subrange(
                    self@.hunk_start(index as int),
                    self@.hunk_end(index as int),
                ),
                None => index >= self@.hunks.len(),
            },
    {
        if index >= self.index.len() {
            return None;
        }
        let entry = &self.index[index];
        let lines: &Vec<PatchLine> = &entry.1;
        let content_ptr: usize = if lines.len() == 0 {
            0
        } else {
            lines[0].start
        };
        let content_end: usize = if lines.len() == 0 {
            0
        } else {
            lines[lines.len() - 1].end
        };
        proof {
            assert(self@.hunks[index as int].lines == self.index@[index as int].1@);
            if lines@.len() > 0 {
                assert(line_ok(self@.raw, self@.hunks[index as int].lines[0]));
                assert(line_ok(
                    self@.raw,
                    self@.hunks[index as int].lines[self@.hunks[index as int].lines.len() - 1],
                ));
            }
        }
        let contents = slice_subrange(self.raw_diff.as_slice(), content_ptr, content_end);
        let r = PatchInfo { offset: &entry.0, index: lines.as_slice(), content_ptr, contents };
        proof {
            let v = self@;
            let h = index as int;
            assert forall|i: int| 0 <= i < r.lines().len() implies r.base()
                <= (#[trigger] r.lines()[i]).start < r.lines()[i].end <= r.base()
                + r.text().len() by {
                assert(line_ok(v.raw, v.hunks[h].lines[i]));
                if i > 0 {
                    assert(v.hunks[h].lines[0].end < v.hunks[h].lines[i].start);
                }
                if i < r.lines().len() - 1 {
                    assert(v.hunks[h].lines[i].end < v.hunks[h].lines[r.lines().len() - 1].start);
                    assert(line_ok(v.raw, v.hunks[h].lines[r.lines().len() - 1]));
                }
            }
        }
        Some(r)
    }

    /// The bytes of one classified line, or `None` when either index is out
    /// of range.
    pub fn get_index<'a>(&'a self, patch: usize, index: usize) -> (r: Option<&'a [u8]>)
        requires
            self@.wf(),
        ensures
            match r {
                Some(s) => patch < self@.hunks.len() && index
                    < self@.hunks[patch as int].lines.len() && s@ == self@.line_text(
                    patch as int,
                    index as int,
                ),
                None => patch >= self@.hunks.len() || index
                    >= self@.hunks[patch as int].lines.len(),
            },
    {
        if patch >= self.index.len() {
            return None;
        }
        let entry = &self.index[patch];
        if index >= entry.1.len() {
            return None;
        }
        let l = entry.1[index];
        proof {
            assert(line_ok(self@.raw, self@.hunks[patch as int].lines[index as int]));
        }
        Some(slice_subrange(self.raw_diff.as_slice(), l.start, l.end))
    }
}

/// Index of the first removed line, if any.
pub open spec fn first_removed(s: Seq<PatchLine>) -> Option<int>
    decreases s.len(),
{
    if s.len() == 0 {
        None
    } else if s[0].kind is Removed {
        Some(0)
    } else {
        match first_removed(s.skip(1)) {
            Some(j) => Some(j + 1),
            None => None,
        }
    }
}

/// Index of the last added line, if any.
pub open spec fn last_added(s: Seq<PatchLine>) -> Option<int>
    decreases s.len(),
{
    if s.len() == 0 {
        None
    } else if s.last().kind is Added {
        Some(s.len() - 1)
    } else {
        last_added(s.drop_last())
    }
}

pub proof fn lemma_first_removed(s: Seq<PatchLine>)
    ensures
        match first_removed(s) {
            Some(f) => 0 <= f < s.len() && s[f].kind is Removed && (forall|k: int|
                0 <= k < f ==> !((#[trigger] s[k]).kind is Removed)),
            None => forall|k: int| 0 <= k < s.len() ==> !((#[trigger] s[k]).kind is Removed),
        },
    decreases s.len(),
{
    if s.len() > 0 && !(s[0].kind is Removed) {
        lemma_first_removed(s.skip(1));
        match first_removed(s.skip(1)) {
            Some(j) => {
                assert(s.skip(1)[j] == s[j + 1]);
                assert forall|k: int| 0 <= k < j + 1 implies !((#[trigger] s[k]).kind
                    is Removed) by {
                    if k > 0 {
                        assert(s.skip(1)[k - 1] == s[k]);
                    }
                }
            },
            None => {
                assert forall|k: int| 0 <= k < s.len() implies !((#[trigger] s[k]).kind
                    is Removed) by {
                    if k > 0 {
                        assert(s.skip(1)[k - 1] == s[k]);
                    }
                }
            },
        }
    }
}

pub proof fn lemma_last_added(s: Seq<PatchLine>)
    ensures
        match last_added(s) {
            Some(l) => 0 <= l < s.len() && s[l].kind is Added && (forall|k: int|
                l < k < s.len() ==> !((#[trigger] s[k]).kind is Added)),
            None => forall|k: int| 0 <= k < s.len() ==> !((#[trigger] s[k]).kind is Added),
        },
    decreases s.len(),
{
    if s.len() > 0 && !(s.last().kind is Added) {
        lemma_last_added(s.drop_last());
        match last_added(s.drop_last()) {
            Some(l) => {
                assert(s.drop_last()[l] == s[l]);
                assert forall|k: int| l < k < s.len() implies !((#[trigger] s[k]).kind
                    is Added) by {
                    if k < s.len() - 1 {
                        assert(s.drop_last()[k] == s[k]);
                    }
                }
            },
            None => {
                assert forall|k: int| 0 <= k < s.len() implies !((#[trigger] s[k]).kind
                    is Added) by {
                    if k < s.len() - 1 {
                        assert(s.drop_last()[k] == s[k]);
                    }
                }
            },
        }
    }
}

/// A line's content with its leading marker byte excluded.
pub open spec fn line_tail(raw: Seq<u8>, l: PatchLine) -> Seq<u8> {
    raw.subrange(l.start + 1, l.end as int)
}

/// The remove/add pair the normalization heuristic rewrites in hunk `p`:
/// the first removed and the last added line, provided the hunk has more
/// than two lines, both exist, and their contents (markers excluded) are
/// equal character for character.
pub open spec fn norm_target(v: PatchView, p: int) -> Option<(int, int)> {
    if !(0 <= p < v.hunks.len()) {
        None
    } else {
        let lines = v.hunks[p].lines;
        if lines.len() <= 2 {
            None
        } else {
            match (first_removed(lines), last_added(lines)) {
                (Some(f), Some(l)) => if line_tail(v.raw, lines[f]) == line_tail(v.raw, lines[l]) {
                    Some((f, l))
                } else {
                    None
                },
                _ => None,
            }
        }
    }
}

/// What normalizing hunk `p` produces: when a target pair exists, the
/// removed line's marker byte becomes a space and the line is reclassified
/// as context, the added line staying as it is; otherwise nothing changes.
pub open spec fn spec_normalize(v: PatchView, p: int) -> PatchView {
    match norm_target(v, p) {
        None => v,
        Some((f, l)) => {
            let lines = v.hunks[p].lines;
            let nl = PatchLine { kind: LineKind::Context, start: lines[f].start, end: lines[f].end };
            PatchView {
                raw: v.raw.update(lines[f].start as int, 32u8),
                hunks: v.hunks.update(
                    p,
                    HunkView { offset: v.hunks[p].offset, lines: lines.update(f, nl) },
                ),
            }
        },
    }
}

/// Normalization never moves a byte: the raw buffer keeps its length, every
/// hunk keeps its offsets and its line count, and every line keeps its byte
/// range — only marker bytes and kind tags may change.
pub proof fn lemma_normalize_preserves_layout(v: PatchView, p: int)
    requires
        v.wf(),
    ensures
        spec_normalize(v, p).raw.len() == v.raw.len(),
        spec_normalize(v, p).hunks.len() == v.hunks.len(),
        forall|h: int|
            0 <= h < v.hunks.len() ==> (#[trigger] spec_normalize(v, p).hunks[h]).offset
                == v.hunks[h].offset && spec_normalize(v, p).hunks[h].lines.len()
                == v.hunks[h].lines.len(),
        forall|h: int, i: int|
            0 <= h < v.hunks.len() && 0 <= i < v.hunks[h].lines.len() ==> (
            #[trigger] spec_normalize(v, p).hunks[h].lines[i]).start == v.hunks[h].lines[i].start
                && spec_normalize(v, p).hunks[h].lines[i].end == v.hunks[h].lines[i].end,
{
    match norm_target(v, p) {
        None => {
        },
        Some((f, l)) => {
            let w = spec_normalize(v, p);
            lemma_first_removed(v.hunks[p].lines);
            lemma_last_added(v.hunks[p].lines);
            assert(line_ok(v.raw, v.hunks[p].lines[f]));
            assert forall|h: int, i: int|
                0 <= h < v.hunks.len() && 0 <= i < v.hunks[h].lines.len() implies (
            #[trigger] w.hunks[h].lines[i]).start == v.hunks[h].lines[i].start
                && w.hunks[h].lines[i].end == v.hunks[h].lines[i].end by {
                if h == p {
                    assert(w.hunks[h].lines == v.hunks[p].lines.update(
                        f,
                        PatchLine {
                            kind: LineKind::Context,
                            start: v.hunks[p].lines[f].start,
                            end: v.hunks[p].lines[f].end,
                        },
                    ));
                }
            }
        },
    }
}

/// Normalizing a hunk twice produces what normalizing it once does, as long
/// as the hunk does not hold a second removed line whose content also
/// matches the last added line's.
pub proof fn lemma_normalize_idempotent(v: PatchView, p: int)
    requires
        v.wf(),
        (match norm_target(v, p) {
            Some((f, l)) => forall|r: int|
                f < r < v.hunks[p].lines.len() && (#[trigger] v.hunks[p].lines[r]).kind is Removed
                    ==> line_tail(v.raw, v.hunks[p].lines[r]) != line_tail(
                    v.raw,
                    v.hunks[p].lines[l],
                ),
            None => true,
        }),
    ensures
        spec_normalize(spec_normalize(v, p), p) == spec_normalize(v, p),
{
    match norm_target(v, p) {
        None => {
        },
        Some((f, l)) => {
            let lines = v.hunks[p].lines;
            let v2 = spec_normalize(v, p);
            let lines2 = v2.hunks[p].lines;
            lemma_first_removed(lines);
            lemma_last_added(lines);
            assert(lines2 =~= lines.update(
                f,
                PatchLine { kind: LineKind::Context, start: lines[f].start, end: lines[f].end },
            ));
            // The added set is unchanged, so the last added line is still `l`.
            lemma_last_added(lines2);
            if last_added(lines2) is None {
                assert(lines2[l].kind is Added);
                assert(false);
            }
            let l2 = last_added(lines2)->0;
            assert(lines2[l].kind is Added);
            assert(l2 == l) by {
                if l2 < l {
                    assert(!(lines2[l].kind is Added));
                } else if l2 > l {
                    assert(lines2[l2].kind == lines[l2].kind);
                    assert(!(lines[l2].kind is Added));
                }
            }
            lemma_first_removed(lines2);
            match first_removed(lines2) {
                None => {
                    assert(norm_target(v2, p) is None);
                },
                Some(f2) => {
                    // The first removed line of the rewritten hunk lies past `f`.
                    assert(f2 != f);
                    assert(f2 > f) by {
                        if f2 < f {
                            assert(lines2[f2].kind == lines[f2].kind);
                            assert(!(lines[f2].kind is Removed));
                        }
                    }
                    assert(lines[f2].kind is Removed);
                    // Tails are read off ranges the marker rewrite does not touch.
                    assert(line_ok(v.raw, lines[f]));
                    assert(line_ok(v.raw, lines[f2]));
                    assert(line_ok(v.raw, lines[l]));
                    assert(lines[f].end < lines[f2].start);
                    assert(line_tail(v2.raw, lines2[f2]) =~= line_tail(v.raw, lines[f2]));
                    if l < f {
                        assert(lines[l].end < lines[f].start);
                    } else {
                        assert(lines[f].end < lines[l].start);
                    }
                    assert(line_tail(v2.raw, lines2[l]) =~= line_tail(v.raw, lines[l]));
                    assert(line_tail(v.raw, lines[f2]) != line_tail(v.raw, lines[l]));
                    assert(norm_target(v2, p) is None);
                },
            }
        },
    }
}

/// A patch with exactly one hunk whose declared header counts match its
/// actual line counts yields a valid hunk view: the scenario behind a
/// well-formed single-hunk diff.
pub proof fn lemma_single_hunk_valid<'a>(v: PatchView, pi: PatchInfo<'a>)
    requires
        v.hunks.len() == 1,
        pi.lines() == v.hunks[0].lines,
        *pi.offset == v.hunks[0].offset,
        count_source(v.hunks[0].lines) == v.hunks[0].offset.source_lines,
        count_output(v.hunks[0].lines) == v.hunks[0].offset.target_lines,
    ensures
        pi.spec_is_valid(),
{
}

impl Patch {
    /// The one-shot normalization heuristic on hunk `patch`: when the first
    /// removed line's content equals the last added line's (markers
    /// excluded) in a hunk of more than two lines, rewrite the removed
    /// line's marker byte to a space and reclassify it as context.  At most
    /// one pair is rewritten per invocation; out-of-range indices are a
    /// no-op.
    pub fn normalize_patch(&mut self, patch: usize)
        requires
            old(self)@.wf(),
        ensures
            final(self)@ == spec_normalize(old(self)@, patch as int),
            final(self)@.wf(),
    {
        let ghost v = self@;
        let ghost p = patch as int;
        if patch >= self.index.len() {
            return ;
        }
        let n = self.index[patch].1.len();
        let ghost lines = v.hunks[p].lines;
        proof {
            assert(lines == self.index@[p].1@);
        }
        if n <= 2 {
            return ;
        }
        // First pass: the first removed line.
        let mut i: usize = 0;
        let mut first_rem: usize = 0;
        let mut have_first = false;
        while i < n
            invariant
                0 <= i <= n,
                n == lines.len(),
                patch < self.index@.len(),
                self.index@[patch as int].1@ == lines,
                !have_first ==> forall|k: int| 0 <= k < i ==> !((#[trigger] lines[k]).kind is Removed),
                have_first ==> 0 <= first_rem < i && lines[first_rem as int].kind is Removed
                    && (forall|k: int|
                    0 <= k < first_rem ==> !((#[trigger] lines[k]).kind is Removed)),
            decreases n - i,
        {
            if !have_first {
                match self.index[patch].1[i].kind {
                    LineKind::Removed => {
                        first_rem = i;
                        have_first = true;
                    },
                    _ => {
                    },
                }
            }
            i = i + 1;
        }
        // Second pass: the last added line.
        let mut j: usize = 0;
        let mut last_add: usize = 0;
        let mut have_last = false;
        while j < n
            invariant
                0 <= j <= n,
                n == lines.len(),
                patch < self.index@.len(),
                self.index@[patch as int].1@ == lines,
                !have_last ==> forall|k: int| 0 <= k < j ==> !((#[trigger] lines[k]).kind is Added),
                have_last ==> 0 <= last_add < j && lines[last_add as int].kind is Added && (forall|
                    k: int,
                |
                    last_add < k < j ==> !((#[trigger] lines[k]).kind is Added)),
            decreases n - j,
        {
            match self.index[patch].1[j].kind {
                LineKind::Added => {
                    last_add = j;
                    have_last = true;
                },
                _ => {
                },
            }
            j = j + 1;
        }
        proof {
            lemma_first_removed(lines);
            lemma_last_added(lines);
        }
        if !have_first || !have_last {
            proof {
                if have_first {
                    assert(first_removed(lines) == Some(first_rem as int));
                }
                assert(norm_target(v, p) is None);
            }
            return ;
        }
        proof {
            assert(first_removed(lines) == Some(first_rem as int)) by {
                match first_removed(lines) {
                    Some(f0) => {
                        assert(!(f0 < first_rem));
                        assert(!(first_rem < f0));
                    },
                    None => {
                        assert(false);
                    },
                }
            }
            assert(last_added(lines) == Some(last_add as int)) by {
                match last_added(lines) {
                    Some(l0) => {
                        assert(!(l0 < last_add));
                        assert(!(last_add < l0));
                    },
                    None => {
                        assert(false);
                    },
                }
            }
        }
        let lf: PatchLine = self.index[patch].1[first_rem];
        let ll: PatchLine = self.index[patch].1[last_add];
        proof {
            assert(line_ok(v.raw, lines[first_rem as int]));
            assert(line_ok(v.raw, lines[last_add as int]));
        }
        let left = slice_subrange(self.raw_diff.as_slice(), lf.start + 1, lf.end);
        let right = slice_subrange(self.raw_diff.as_slice(), ll.start + 1, ll.end);
        if !crate::util::slices_eq(left, right) {
            proof {
                assert(norm_target(v, p) is None);
            }
            return ;
        }
        proof {
            assert(norm_target(v, p) == Some((first_rem as int, last_add as int)));
        }
        self.raw_diff.set(lf.start, 32u8);
        let pair = vstd::std_specs::vec::vec_index_mut(&mut self.index, patch);
        pair.1.set(
            first_rem,
            PatchLine { kind: LineKind::Context, start: lf.start, end: lf.end },
        );
        proof {
            let w = spec_normalize(v, p);
            assert(self@.raw =~= w.raw);
            assert(self@.hunks =~= w.hunks) by {
                assert forall|h: int| 0 <= h < self@.hunks.len() implies self@.hunks[h]
                    =~= w.hunks[h] by {
                    if h == p {
                        assert(self.index@[h].1@ =~= lines.update(
                            first_rem as int,
                            PatchLine { kind: LineKind::Context, start: lf.start, end: lf.end },
                        ));
                    }
                }
            }
            assert(self@ =~= w);
            // Well-formedness survives: only one marker byte changed, inside
            // the rewritten line's own range.
            assert forall|h: int, i: int|
                0 <= h < w.hunks.len() && 0 <= i < w.hunks[h].lines.len() implies line_ok(
                w.raw,
                #[trigger] w.hunks[h].lines[i],
            ) by {
                assert(line_ok(v.raw, v.hunks[h].lines[i]));
                if h == p && i == first_rem {
                } else {
                    if h < p || (h == p && i < first_rem) {
                        assert(v.hunks[h].lines[i].end < lines[first_rem as int].start);
                    } else {
                        assert(lines[first_rem as int].end < v.hunks[h].lines[i].start);
                    }
                }
            }
        }
    }
}

} // verus!
