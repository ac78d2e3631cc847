//! The hunk-scanning state machine shared by the in-memory patch parser and
//! the file-entry stream parser.
//!
//! The scan walks a sequence of lines.  A blank line or one starting with
//! `diff` ends the scan without being consumed.  A line starting with `@@`
//! opens a new hunk: the previously open hunk (if its offset is not the
//! zero sentinel) is closed, and the header is decoded — either the whole
//! line when it ends with `@@`, or, for an annotated header, the prefix up
//! to the first `@@` after the two leading characters, the remainder being
//! appended to the raw buffer without a line entry.  Any other line is a
//! body line: its first byte picks its kind, and its bytes (plus a newline)
//! go into the raw buffer under a fresh line entry.  When the scan stops,
//! the open hunk is appended unconditionally, so input without any header
//! yields one "hunk-less preamble" entry under the zero sentinel offset.

use vstd::prelude::*;
use vstd::slice::slice_subrange;
use crate::offset::{DiffOffset, render_header, spec_parse_offset};
use crate::patch::{
    HunkView, LineKind, Patch, PatchLine, PatchView, line_ok, marker, spec_kind_of,
};
use crate::util::push_bytes;

verus! {

/// Why a stream of diff text was rejected.
#[derive(Debug, Clone, Copy, PartialEq, Eq, Structural)]
pub enum DiffError {
    /// The line after the file-creation/index lines did not carry the
    /// `---` source-path marker.
    SourceMarker,
    /// The line after the source path did not carry the `+++` marker.
    TargetMarker,
    /// A hunk header whose range fields could not be decoded.
    OffsetHeader,
    /// A hunk header that never closes its `@@` marker.
    HeaderClose,
    /// A body line with an unrecognized leading character.
    LineMarker,
}

/// The all-zero sentinel offset.
pub open spec fn zero_off() -> DiffOffset {
    DiffOffset { source_start: 0, source_lines: 0, target_start: 0, target_lines: 0 }
}

/// `l` begins with the bytes of `p`.
pub open spec fn spec_starts_with(l: Seq<u8>, p: Seq<u8>) -> bool {
    l.len() >= p.len() && l.take(p.len() as int) == p
}

/// The bytes of the word `diff`.
pub open spec fn diff_word() -> Seq<u8> {
    seq![100u8, 105u8, 102u8, 102u8]
}

/// A line that ends the current file entry: blank, or the next `diff`
/// command line.
pub open spec fn is_boundary(l: Seq<u8>) -> bool {
    l.len() == 0 || spec_starts_with(l, diff_word())
}

/// A line that opens with the `@@` header marker.
pub open spec fn is_header_start(l: Seq<u8>) -> bool {
    l.len() >= 2 && l[0] == 64 && l[1] == 64
}

/// A header line whose last two bytes close the `@@` marker.
pub open spec fn header_ends_dd(l: Seq<u8>) -> bool {
    l.len() >= 2 && l[l.len() - 2] == 64 && l[l.len() - 1] == 64
}

/// First position `>= from` where two consecutive `@` bytes stand.
pub open spec fn spec_find_dd(l: Seq<u8>, from: int) -> Option<int>
    decreases l.len() - from,
{
    if from < 0 || from + 2 > l.len() {
        None
    } else if l[from] == 64 && l[from + 1] == 64 {
        Some(from)
    } else {
        spec_find_dd(l, from + 1)
    }
}

pub proof fn lemma_spec_find_dd(l: Seq<u8>, from: int)
    requires
        0 <= from,
    ensures
        match spec_find_dd(l, from) {
            Some(j) => from <= j && j + 2 <= l.len() && l[j] == 64 && l[j + 1] == 64 && (forall|
                k: int,
            |
                from <= k < j ==> !((#[trigger] l[k]) == 64 && l[k + 1] == 64)),
            None => forall|k: int|
                from <= k && k + 2 <= l.len() ==> !((#[trigger] l[k]) == 64 && l[k + 1] == 64),
        },
    decreases l.len() - from,
{
    if from + 2 <= l.len() && !(l[from] == 64 && l[from + 1] == 64) {
        lemma_spec_find_dd(l, from + 1);
    }
}

pub proof fn lemma_spec_find_dd_at(l: Seq<u8>, from: int, j: int)
    requires
        0 <= from <= j,
        j + 2 <= l.len(),
        l[j] == 64 && l[j + 1] == 64,
        forall|k: int| from <= k < j ==> !((#[trigger] l[k]) == 64 && l[k + 1] == 64),
    ensures
        spec_find_dd(l, from) == Some(j),
    decreases j - from,
{
    if from < j {
        lemma_spec_find_dd_at(l, from + 1, j);
    }
}

/// Decode a line that opens with `@@`: the offsets and the remainder the
/// scan owes to the raw buffer (non-empty only for annotated headers).
pub open spec fn spec_decode_header(l: Seq<u8>) -> Result<(DiffOffset, Seq<u8>), DiffError> {
    if header_ends_dd(l) {
        match spec_parse_offset(l) {
            Some(o) => Ok((o, Seq::empty())),
            None => Err(DiffError::OffsetHeader),
        }
    } else {
        match spec_find_dd(l, 2) {
            Some(j) => match spec_parse_offset(l.take(j + 2)) {
                Some(o) => Ok((o, l.skip(j + 2))),
                None => Err(DiffError::OffsetHeader),
            },
            None => Err(DiffError::HeaderClose),
        }
    }
}

/// Trailing annotation text after the second `@@` of a rendered header
/// never alters the decoded offsets: the decoder yields exactly the four
/// numbers the header was rendered from and, when the line does not close
/// on `@@`, hands the annotation back as the remainder.
pub proof fn lemma_header_annotation(a: u64, b: u64, c: u64, d: u64, tail: Seq<u8>)
    ensures
        spec_decode_header(render_header(a, b, c, d) + tail) matches Ok(p) && p.0 == (DiffOffset {
            source_start: a,
            source_lines: b,
            target_start: c,
            target_lines: d,
        }),
        !header_ends_dd(render_header(a, b, c, d) + tail) ==> spec_decode_header(
            render_header(a, b, c, d) + tail,
        ) == Ok::<_, DiffError>(
            (
                DiffOffset { source_start: a, source_lines: b, target_start: c, target_lines: d },
                tail,
            ),
        ),
{
    let l = render_header(a, b, c, d) + tail;
    let off = DiffOffset { source_start: a, source_lines: b, target_start: c, target_lines: d };
    crate::offset::lemma_render_header_parse(a, b, c, d, tail);
    if !header_ends_dd(l) {
        crate::offset::lemma_header_layout(a, b, c, d, tail);
        let da = crate::offset::dec_digits(a as nat);
        let db = crate::offset::dec_digits(b as nat);
        let dc = crate::offset::dec_digits(c as nat);
        let dd = crate::offset::dec_digits(d as nat);
        crate::offset::lemma_dec_digits(a as nat);
        crate::offset::lemma_dec_digits(b as nat);
        crate::offset::lemma_dec_digits(c as nat);
        crate::offset::lemma_dec_digits(d as nat);
        let la = da.len() as int;
        let lb = db.len() as int;
        let lc = dc.len() as int;
        let ld = dd.len() as int;
        let j = 9 + la + lb + lc + ld;
        assert(l[j] == crate::offset::header_byte(da, db, dc, dd, tail, j));
        assert(l[j + 1] == crate::offset::header_byte(da, db, dc, dd, tail, j + 1));
        assert forall|k: int| 2 <= k < j implies !((#[trigger] l[k]) == 64 && l[k + 1] == 64) by {
            assert(l[k] == crate::offset::header_byte(da, db, dc, dd, tail, k));
            if 4 <= k < 4 + la {
                assert(crate::util::is_dec_digit(da[k - 4]));
            } else if 5 + la <= k < 5 + la + lb {
                assert(crate::util::is_dec_digit(db[k - 5 - la]));
            } else if 7 + la + lb <= k < 7 + la + lb + lc {
                assert(crate::util::is_dec_digit(dc[k - 7 - la - lb]));
            } else if 8 + la + lb + lc <= k < 8 + la + lb + lc + ld {
                assert(crate::util::is_dec_digit(dd[k - 8 - la - lb - lc]));
            }
        }
        lemma_spec_find_dd_at(l, 2, j);
        crate::offset::lemma_header_layout(a, b, c, d, Seq::empty());
        assert(render_header(a, b, c, d) =~= render_header(a, b, c, d) + Seq::<u8>::empty());
        assert forall|k: int| 0 <= k < j + 2 implies l.take(j + 2)[k] == (render_header(a, b, c, d)
            + Seq::<u8>::empty())[k] by {
            assert(l.take(j + 2)[k] == l[k]);
            assert(l[k] == crate::offset::header_byte(da, db, dc, dd, tail, k));
            assert((render_header(a, b, c, d) + Seq::<u8>::empty())[k]
                == crate::offset::header_byte(da, db, dc, dd, Seq::empty(), k));
        }
        assert(l.take(j + 2) =~= render_header(a, b, c, d) + Seq::<u8>::empty());
        crate::offset::lemma_render_header_parse(a, b, c, d, Seq::empty());
        assert(crate::offset::spec_parse_offset(l.take(j + 2)) == Some(off));
        assert forall|k: int| 0 <= k < tail.len() implies l.skip(j + 2)[k] == tail[k] by {
            assert(l.skip(j + 2)[k] == l[j + 2 + k]);
            assert(l[j + 2 + k] == crate::offset::header_byte(da, db, dc, dd, tail, j + 2 + k));
        }
        assert(l.skip(j + 2) =~= tail);
    }
}

/// The scan's running state: closed hunks, the open hunk's lines, the open
/// offset, and the raw buffer built so far.
#[verifier::ext_equal]
pub struct ScanState {
    pub hunks: Seq<HunkView>,
    pub cur: Seq<PatchLine>,
    pub off: DiffOffset,
    pub raw: Seq<u8>,
}

/// How a scan ends: the assembled patch view and the index of the first
/// unconsumed line, or the error and the index of the offending line.
pub enum ScanResult {
    Done(PatchView, int),
    Fail(DiffError, int),
}

pub open spec fn init_scan() -> ScanState {
    ScanState { hunks: Seq::empty(), cur: Seq::empty(), off: zero_off(), raw: Seq::empty() }
}

/// Close the open hunk, unless its offset is still the zero sentinel (the
/// collected lines then stay with the hunk that the next header opens).
pub open spec fn push_hunk(st: ScanState) -> ScanState {
    if st.off != zero_off() {
        ScanState {
            hunks: st.hunks.push(HunkView { offset: st.off, lines: st.cur }),
            cur: Seq::empty(),
            off: st.off,
            raw: st.raw,
        }
    } else {
        st
    }
}

/// The patch view a stopped scan yields: the open hunk is appended
/// unconditionally.
pub open spec fn scan_finish(st: ScanState) -> PatchView {
    PatchView { raw: st.raw, hunks: st.hunks.push(HunkView { offset: st.off, lines: st.cur }) }
}

/// The scan itself, one line per step.
pub open spec fn spec_scan(lines: Seq<Seq<u8>>, i: int, st: ScanState) -> ScanResult
    decreases lines.len() - i,
    when i <= lines.len()
{
    if i >= lines.len() {
        ScanResult::Done(scan_finish(st), i)
    } else {
        let l = lines[i];
        if is_boundary(l) {
            ScanResult::Done(scan_finish(st), i)
        } else if is_header_start(l) {
            match spec_decode_header(l) {
                Err(e) => ScanResult::Fail(e, i),
                Ok((o, rem)) => {
                    let st1 = push_hunk(st);
                    spec_scan(
                        lines,
                        i + 1,
                        ScanState { hunks: st1.hunks, cur: st1.cur, off: o, raw: st1.raw + rem },
                    )
                },
            }
        } else {
            match spec_kind_of(l[0]) {
                None => ScanResult::Fail(DiffError::LineMarker, i),
                Some(k) => spec_scan(
                    lines,
                    i + 1,
                    ScanState {
                        hunks: st.hunks,
                        cur: st.cur.push(
                            PatchLine {
                                kind: k,
                                start: st.raw.len() as usize,
                                end: (st.raw.len() + l.len()) as usize,
                            },
                        ),
                        off: st.off,
                        raw: st.raw + l + seq![10u8],
                    },
                ),
            }
        }
    }
}

/// The hunk views of an index vector's contents.
pub open spec fn hunks_view(s: Seq<(DiffOffset, Vec<PatchLine>)>) -> Seq<HunkView> {
    Seq::new(s.len(), |h: int| HunkView { offset: s[h].0, lines: s[h].1@ })
}

/// Every line range of every hunk ends strictly below `bound`.
pub open spec fn all_ends_below(hs: Seq<HunkView>, bound: int) -> bool {
    forall|h: int, i: int|
        0 <= h < hs.len() && 0 <= i < hs[h].lines.len() ==> (#[trigger] hs[h].lines[i]).end < bound
}

/// The scan's well-formedness invariant over its running state: the closed
/// hunks with the open lines appended form a well-formed patch view, and
/// every recorded range ends strictly before the buffer's end (each body
/// line is followed by its newline byte).
pub open spec fn scan_wf(raw: Seq<u8>, hunks: Seq<HunkView>, cur: Seq<PatchLine>) -> bool {
    (PatchView { raw, hunks: hunks.push(HunkView { offset: zero_off(), lines: cur }) }).wf()
        && all_ends_below(hunks.push(HunkView { offset: zero_off(), lines: cur }), raw.len() as int)
}

proof fn lemma_scan_wf_offsets(raw: Seq<u8>, hunks: Seq<HunkView>, cur: Seq<PatchLine>, off: DiffOffset)
    requires
        scan_wf(raw, hunks, cur),
    ensures
        (PatchView { raw, hunks: hunks.push(HunkView { offset: off, lines: cur }) }).wf(),
        all_ends_below(hunks.push(HunkView { offset: off, lines: cur }), raw.len() as int),
{
    let a = hunks.push(HunkView { offset: zero_off(), lines: cur });
    let b = hunks.push(HunkView { offset: off, lines: cur });
    assert(a.len() == b.len());
    assert forall|h: int| 0 <= h < b.len() implies (#[trigger] b[h]).lines == a[h].lines by {}
    let w = PatchView { raw, hunks: b };
    let v = PatchView { raw, hunks: a };
    assert forall|h: int, i: int|
        0 <= h < w.hunks.len() && 0 <= i < w.hunks[h].lines.len() implies line_ok(
        w.raw,
        #[trigger] w.hunks[h].lines[i],
    ) && w.hunks[h].lines[i].end < raw.len() by {
        assert(line_ok(v.raw, v.hunks[h].lines[i]));
        assert(a[h].lines[i].end < raw.len());
    }
    assert forall|h1: int, i1: int, h2: int, i2: int|
        #![trigger w.hunks[h1].lines[i1], w.hunks[h2].lines[i2]]
        0 <= h1 < w.hunks.len() && 0 <= i1 < w.hunks[h1].lines.len() && 0 <= h2 < w.hunks.len()
            && 0 <= i2 < w.hunks[h2].lines.len() && (h1 < h2 || (h1 == h2 && i1 < i2)) implies
        w.hunks[h1].lines[i1].end < w.hunks[h2].lines[i2].start by {
        assert(v.hunks[h1].lines[i1].end < v.hunks[h2].lines[i2].start);
    }
}

proof fn lemma_scan_wf_push_hunk(raw: Seq<u8>, hunks: Seq<HunkView>, cur: Seq<PatchLine>, off: DiffOffset)
    requires
        scan_wf(raw, hunks, cur),
    ensures
        scan_wf(raw, hunks.push(HunkView { offset: off, lines: cur }), Seq::empty()),
{
    lemma_scan_wf_offsets(raw, hunks, cur, off);
    let hunks2 = hunks.push(HunkView { offset: off, lines: cur });
    let a = hunks2;
    let b = hunks2.push(HunkView { offset: zero_off(), lines: Seq::empty() });
    let v = PatchView { raw, hunks: a };
    let w = PatchView { raw, hunks: b };
    assert forall|h: int, i: int|
        0 <= h < w.hunks.len() && 0 <= i < w.hunks[h].lines.len() implies line_ok(
        w.raw,
        #[trigger] w.hunks[h].lines[i],
    ) && w.hunks[h].lines[i].end < raw.len() by {
        assert(h < a.len());
        assert(line_ok(v.raw, v.hunks[h].lines[i]));
        assert(all_ends_below(a, raw.len() as int));
        assert(a[h].lines[i].end < raw.len());
    }
    assert forall|h1: int, i1: int, h2: int, i2: int|
        #![trigger w.hunks[h1].lines[i1], w.hunks[h2].lines[i2]]
        0 <= h1 < w.hunks.len() && 0 <= i1 < w.hunks[h1].lines.len() && 0 <= h2 < w.hunks.len()
            && 0 <= i2 < w.hunks[h2].lines.len() && (h1 < h2 || (h1 == h2 && i1 < i2)) implies
        w.hunks[h1].lines[i1].end < w.hunks[h2].lines[i2].start by {
        assert(h1 < a.len() && h2 < a.len());
        assert(v.hunks[h1].lines[i1].end < v.hunks[h2].lines[i2].start);
    }
}

proof fn lemma_scan_wf_grow_raw(raw: Seq<u8>, hunks: Seq<HunkView>, cur: Seq<PatchLine>, more: Seq<u8>)
    requires
        scan_wf(raw, hunks, cur),
    ensures
        scan_wf(raw + more, hunks, cur),
{
    let a = hunks.push(HunkView { offset: zero_off(), lines: cur });
    let raw2 = raw + more;
    let v = PatchView { raw, hunks: a };
    let w = PatchView { raw: raw2, hunks: a };
    assert forall|h: int, i: int|
        0 <= h < w.hunks.len() && 0 <= i < w.hunks[h].lines.len() implies line_ok(
        w.raw,
        #[trigger] w.hunks[h].lines[i],
    ) && w.hunks[h].lines[i].end < raw2.len() by {
        assert(line_ok(v.raw, v.hunks[h].lines[i]));
        assert(a[h].lines[i].end < raw.len());
        assert(raw2[a[h].lines[i].start as int] == raw[a[h].lines[i].start as int]);
    }
}

proof fn lemma_scan_wf_push_line(
    raw: Seq<u8>,
    hunks: Seq<HunkView>,
    cur: Seq<PatchLine>,
    nl: PatchLine,
    lbytes: Seq<u8>,
)
    requires
        scan_wf(raw, hunks, cur),
        nl.start == raw.len(),
        nl.end == raw.len() + lbytes.len(),
        lbytes.len() > 0,
        lbytes[0] == marker(nl.kind),
    ensures
        scan_wf(raw + lbytes + seq![10u8], hunks, cur.push(nl)),
{
    let a = hunks.push(HunkView { offset: zero_off(), lines: cur });
    let b = hunks.push(HunkView { offset: zero_off(), lines: cur.push(nl) });
    let raw2 = raw + lbytes + seq![10u8];
    let v = PatchView { raw, hunks: a };
    let w = PatchView { raw: raw2, hunks: b };
    let last = b.len() - 1;
    assert forall|h: int, i: int|
        0 <= h < w.hunks.len() && 0 <= i < w.hunks[h].lines.len() implies line_ok(
        w.raw,
        #[trigger] w.hunks[h].lines[i],
    ) && w.hunks[h].lines[i].end < raw2.len() by {
        if h == last && i == cur.len() {
            assert(b[h].lines[i] == nl);
            assert(raw2[nl.start as int] == lbytes[0]);
        } else {
            assert(b[h].lines[i] == a[h].lines[i]);
            assert(line_ok(v.raw, v.hunks[h].lines[i]));
            assert(a[h].lines[i].end < raw.len());
            assert(raw2[a[h].lines[i].start as int] == raw[a[h].lines[i].start as int]);
        }
    }
    assert forall|h1: int, i1: int, h2: int, i2: int|
        #![trigger w.hunks[h1].lines[i1], w.hunks[h2].lines[i2]]
        0 <= h1 < w.hunks.len() && 0 <= i1 < w.hunks[h1].lines.len() && 0 <= h2 < w.hunks.len()
            && 0 <= i2 < w.hunks[h2].lines.len() && (h1 < h2 || (h1 == h2 && i1 < i2)) implies
        w.hunks[h1].lines[i1].end < w.hunks[h2].lines[i2].start by {
        if h2 == last && i2 == cur.len() {
            assert(b[h1].lines[i1] == a[h1].lines[i1]);
            assert(a[h1].lines[i1].end < raw.len());
        } else {
            assert(b[h1].lines[i1] == a[h1].lines[i1]);
            assert(b[h2].lines[i2] == a[h2].lines[i2]);
            assert(v.hunks[h1].lines[i1].end < v.hunks[h2].lines[i2].start);
        }
    }
}

/// Whether a line ends the current file entry.
pub fn is_boundary_line(l: &[u8]) -> (r: bool)
    ensures
        r == is_boundary(l@),
{
    if l.len() == 0 {
        return true;
    }
    if l.len() >= 4 && l[0] == 100 && l[1] == 105 && l[2] == 102 && l[3] == 102 {
        proof {
            assert(l@.take(4) =~= diff_word());
        }
        true
    } else {
        proof {
            if l@.len() >= 4 && l@.take(4) == diff_word() {
                assert(l@.take(4)[0] == 100 && l@.take(4)[1] == 105 && l@.take(4)[2] == 102
                    && l@.take(4)[3] == 102);
                assert(l@[0] == 100 && l@[1] == 105 && l@[2] == 102 && l@[3] == 102);
            }
        }
        false
    }
}

/// Find the first `@@` at a position `>= from`.
fn find_dd(l: &[u8], from: usize) -> (r: Option<usize>)
    ensures
        match r {
            Some(j) => spec_find_dd(l@, from as int) == Some(j as int) && from <= j && j + 2
                <= l@.len(),
            None => spec_find_dd(l@, from as int) is None,
        },
{
    let n = l.len();
    if n < 2 {
        proof {
            lemma_spec_find_dd(l@, from as int);
        }
        return None;
    }
    let mut i: usize = from;
    while i < n - 1
        invariant
            from <= i,
            n == l@.len(),
            n >= 2,
            forall|k: int| from <= k < i ==> !((#[trigger] l@[k]) == 64 && l@[k + 1] == 64),
        decreases n - i,
    {
        if l[i] == 64 && l[i + 1] == 64 {
            proof {
                lemma_spec_find_dd_at(l@, from as int, i as int);
            }
            return Some(i);
        }
        i = i + 1;
    }
    proof {
        lemma_spec_find_dd(l@, from as int);
    }
    None
}

/// Run the hunk scan over `lines` from position `start`: the assembled
/// patch with the index of the first unconsumed line, or the error with
/// the index of the line it arose on (that line is not consumed).
pub(crate) fn scan_hunks(lines: &Vec<Vec<u8>>, start: usize) -> (r: Result<
    (Patch, usize),
    (DiffError, usize),
>)
    requires
        start <= lines@.len(),
    ensures
        (match r {
            Ok(p) => spec_scan(lines.deep_view(), start as int, init_scan()) == ScanResult::Done(
                p.0@,
                p.1 as int,
            ) && p.0@.wf() && start <= p.1 <= lines@.len(),
            Err(e) => spec_scan(lines.deep_view(), start as int, init_scan()) == ScanResult::Fail(
                e.0,
                e.1 as int,
            ) && start <= e.1 < lines@.len(),
        }),
{
    let ghost lv = lines.deep_view();
    let mut i: usize = start;
    let mut raw: Vec<u8> = Vec::new();
    let mut hunks: Vec<(DiffOffset, Vec<PatchLine>)> = Vec::new();
    let mut cur: Vec<PatchLine> = Vec::new();
    let mut off: DiffOffset = DiffOffset {
        source_start: 0,
        source_lines: 0,
        target_start: 0,
        target_lines: 0,
    };
    let mut stopped = false;
    proof {
        assert(hunks_view(hunks@) =~= Seq::<HunkView>::empty());
        assert(ScanState { hunks: hunks_view(hunks@), cur: cur@, off: off, raw: raw@ }
            =~= init_scan());
        let a = hunks_view(hunks@).push(HunkView { offset: zero_off(), lines: cur@ });
        assert(forall|h: int, ii: int|
            0 <= h < a.len() && 0 <= ii < a[h].lines.len() ==> line_ok(
                raw@,
                #[trigger] a[h].lines[ii],
            ));
        assert(scan_wf(raw@, hunks_view(hunks@), cur@));
    }
    while !stopped && i < lines.len()
        invariant
            start <= i <= lv.len(),
            lv == lines.deep_view(),
            lines@.len() == lv.len(),
            scan_wf(raw@, hunks_view(hunks@), cur@),
            spec_scan(lv, start as int, init_scan()) == spec_scan(
                lv,
                i as int,
                ScanState { hunks: hunks_view(hunks@), cur: cur@, off: off, raw: raw@ },
            ),
            stopped ==> i < lv.len() && is_boundary(lv[i as int]),
        decreases 2 * (lv.len() - i) + (if stopped {
            0int
        } else {
            1int
        }),
    {
        let ghost st = ScanState { hunks: hunks_view(hunks@), cur: cur@, off: off, raw: raw@ };
        let line: &Vec<u8> = &lines[i];
        proof {
            assert(lv[i as int] =~= line@);
        }
        let ghost l = lv[i as int];
        if is_boundary_line(line.as_slice()) {
            stopped = true;
        } else if line.len() >= 2 && line[0] == 64 && line[1] == 64 {
            let nl = line.len();
            if line[nl - 2] == 64 && line[nl - 1] == 64 {
                // Exact header: the whole line is the token to decode.
                match DiffOffset::parse(line.as_slice()) {
                    None => {
                        proof {
                            assert(spec_decode_header(l) == Err::<(DiffOffset, Seq<u8>), _>(
                                DiffError::OffsetHeader,
                            ));
                            assert(spec_scan(lv, i as int, st) == ScanResult::Fail(
                                DiffError::OffsetHeader,
                                i as int,
                            ));
                        }
                        return Err((DiffError::OffsetHeader, i));
                    },
                    Some(o) => {
                        proof {
                            assert(spec_decode_header(l) == Ok::<_, DiffError>((
                                o,
                                Seq::<u8>::empty(),
                            )));
                        }
                        if !off.is_zero() {
                            let ghost oldhv = hunks_view(hunks@);
                            let ghost oldcur = cur@;
                            hunks.push((off, cur));
                            cur = Vec::new();
                            proof {
                                lemma_scan_wf_push_hunk(raw@, oldhv, oldcur, off);
                                assert(hunks_view(hunks@) =~= oldhv.push(
                                    HunkView { offset: off, lines: oldcur },
                                ));
                            }
                        }
                        off = o;
                        proof {
                            let st1 = push_hunk(st);
                            let st2 = ScanState {
                                hunks: hunks_view(hunks@),
                                cur: cur@,
                                off: off,
                                raw: raw@,
                            };
                            assert(st1.raw + Seq::<u8>::empty() =~= st1.raw);
                            assert(st2 =~= ScanState {
                                hunks: st1.hunks,
                                cur: st1.cur,
                                off: o,
                                raw: st1.raw + Seq::<u8>::empty(),
                            });
                            assert(spec_scan(lv, i as int, st) == spec_scan(lv, i + 1, st2));
                        }
                        i = i + 1;
                    },
                }
            } else {
                // Annotated header: decode up to the first closing `@@`,
                // the remainder goes to the raw buffer unindexed.
                proof {
                    assert(!header_ends_dd(l));
                }
                match find_dd(line.as_slice(), 2) {
                    None => {
                        proof {
                            assert(spec_scan(lv, i as int, st) == ScanResult::Fail(
                                DiffError::HeaderClose,
                                i as int,
                            ));
                        }
                        return Err((DiffError::HeaderClose, i));
                    },
                    Some(j) => {
                        let token = slice_subrange(line.as_slice(), 0, j + 2);
                        proof {
                            assert(token@ =~= l.take(j + 2));
                        }
                        match DiffOffset::parse(token) {
                            None => {
                                proof {
                                    assert(spec_scan(lv, i as int, st) == ScanResult::Fail(
                                        DiffError::OffsetHeader,
                                        i as int,
                                    ));
                                }
                                return Err((DiffError::OffsetHeader, i));
                            },
                            Some(o) => {
                                proof {
                                    assert(spec_decode_header(l) == Ok::<_, DiffError>((
                                        o,
                                        l.skip(j + 2),
                                    )));
                                }
                                if !off.is_zero() {
                                    let ghost oldhv = hunks_view(hunks@);
                                    let ghost oldcur = cur@;
                                    hunks.push((off, cur));
                                    cur = Vec::new();
                                    proof {
                                        lemma_scan_wf_push_hunk(raw@, oldhv, oldcur, off);
                                        assert(hunks_view(hunks@) =~= oldhv.push(
                                            HunkView { offset: off, lines: oldcur },
                                        ));
                                    }
                                }
                                off = o;
                                let rem = slice_subrange(line.as_slice(), j + 2, line.len());
                                let ghost raw_before = raw@;
                                push_bytes(&mut raw, rem);
                                proof {
                                    assert(rem@ =~= l.skip(j + 2));
                                    lemma_scan_wf_grow_raw(
                                        raw_before,
                                        hunks_view(hunks@),
                                        cur@,
                                        rem@,
                                    );
                                    let st1 = push_hunk(st);
                                    let st2 = ScanState {
                                        hunks: hunks_view(hunks@),
                                        cur: cur@,
                                        off: off,
                                        raw: raw@,
                                    };
                                    assert(st2 =~= ScanState {
                                        hunks: st1.hunks,
                                        cur: st1.cur,
                                        off: o,
                                        raw: st1.raw + l.skip(j + 2),
                                    });
                                    assert(spec_scan(lv, i as int, st) == spec_scan(
                                        lv,
                                        i + 1,
                                        st2,
                                    ));
                                }
                                i = i + 1;
                            },
                        }
                    },
                }
            }
        } else {
            // Body line: classify by the first byte and append.
            proof {
                assert(l.len() > 0);
            }
            match kind_of_byte(line[0]) {
                None => {
                    proof {
                        assert(spec_scan(lv, i as int, st) == ScanResult::Fail(
                            DiffError::LineMarker,
                            i as int,
                        ));
                    }
                    return Err((DiffError::LineMarker, i));
                },
                Some(k) => {
                    let s0 = raw.len();
                    let ghost raw_before = raw@;
                    push_bytes(&mut raw, line.as_slice());
                    let e0 = raw.len();
                    raw.push(10u8);
                    let nl_rec = PatchLine { kind: k, start: s0, end: e0 };
                    let ghost cur_before = cur@;
                    cur.push(nl_rec);
                    proof {
                        assert(raw@ =~= raw_before + l + seq![10u8]);
                        assert(l[0] == marker(k));
                        lemma_scan_wf_push_line(
                            raw_before,
                            hunks_view(hunks@),
                            cur_before,
                            nl_rec,
                            l,
                        );
                        let st2 = ScanState {
                            hunks: hunks_view(hunks@),
                            cur: cur@,
                            off: off,
                            raw: raw@,
                        };
                        assert(st2 =~= ScanState {
                            hunks: st.hunks,
                            cur: st.cur.push(
                                PatchLine {
                                    kind: k,
                                    start: st.raw.len() as usize,
                                    end: (st.raw.len() + l.len()) as usize,
                                },
                            ),
                            off: st.off,
                            raw: st.raw + l + seq![10u8],
                        });
                        assert(spec_scan(lv, i as int, st) == spec_scan(lv, i + 1, st2));
                    }
                    i = i + 1;
                },
            }
        }
    }
    let ghost stf = ScanState { hunks: hunks_view(hunks@), cur: cur@, off: off, raw: raw@ };
    proof {
        assert(spec_scan(lv, i as int, stf) == ScanResult::Done(scan_finish(stf), i as int));
        lemma_scan_wf_offsets(raw@, hunks_view(hunks@), cur@, off);
    }
    let ghost oldhv = hunks_view(hunks@);
    let ghost oldcur = cur@;
    let stop = i;
    hunks.push((off, cur));
    proof {
        assert(hunks_view(hunks@) =~= oldhv.push(HunkView { offset: off, lines: oldcur }));
    }
    let p = Patch::new_with_index(raw, hunks);
    proof {
        assert(p@.hunks =~= scan_finish(stf).hunks);
        assert(p@ =~= scan_finish(stf));
    }
    Ok((p, stop))
}

impl Patch {
    /// Parse the hunk text of one file entry (headers and body lines,
    /// without the `diff`/`index`/path preamble).  Malformed input —
    /// a header that cannot be decoded or never closes, or a body line
    /// with an unrecognized marker — hands the input back unchanged.
    /// Lines after a blank line or a `diff` line are ignored.
    pub fn parse(diff: Vec<u8>) -> (r: Result<Patch, Vec<u8>>)
        ensures
            ({
                let res = spec_scan(
                    crate::util::spec_split_lines(diff@),
                    0,
                    init_scan(),
                );
                match r {
                    Ok(p) => res is Done && p@ == res->Done_0 && p@.wf(),
                    Err(d) => res is Fail && d == diff,
                }
            }),
    {
        let lines = crate::util::split_lines(diff.as_slice());
        match scan_hunks(&lines, 0) {
            Ok(p) => Ok(p.0),
            Err(_) => Err(diff),
        }
    }
}

/// The kind a marker byte announces.
fn kind_of_byte(b: u8) -> (r: Option<LineKind>)
    ensures
        r == spec_kind_of(b),
{
    if b == 32 {
        Some(LineKind::Context)
    } else if b == 43 {
        Some(LineKind::Added)
    } else if b == 45 {
        Some(LineKind::Removed)
    } else {
        None
    }
}

} // verus!
