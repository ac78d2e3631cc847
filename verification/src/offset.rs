//! The hunk-header parser: decoding `@@ -A,B +C,D @@` header lines into the
//! four offsets of a hunk.

use vstd::prelude::*;
use vstd::slice::slice_subrange;
use crate::util::{find_byte, parse_u64, spec_find, spec_parse_u64};

verus! {

/// The four non-negative integers of one hunk header: where the hunk starts
/// and how many lines it covers, in the source and in the target version.
/// The all-zero value is a reserved sentinel meaning "no hunk opened yet".
#[derive(Debug, Clone, Copy, PartialEq, Eq, Structural)]
pub struct DiffOffset {
    pub source_start: u64,
    pub source_lines: u64,
    pub target_start: u64,
    pub target_lines: u64,
}

impl Default for DiffOffset {
    /// The sentinel value: all four fields zero.
    fn default() -> (r: Self)
        ensures
            r.spec_is_zero(),
    {
        DiffOffset { source_start: 0, source_lines: 0, target_start: 0, target_lines: 0 }
    }
}

/// The two whitespace-separated range fields of a header: the pieces between
/// the first and second space and between the second and third space (or the
/// line end), everything after a third space being ignored.
pub open spec fn spec_offset_sections(l: Seq<u8>) -> Option<(Seq<u8>, Seq<u8>)> {
    match spec_find(l, 0, 32u8) {
        None => None,
        Some(i1) => match spec_find(l, i1 + 1, 32u8) {
            None => None,
            Some(i2) => {
                let src = l.subrange(i1 + 1, i2);
                match spec_find(l, i2 + 1, 32u8) {
                    None => Some((src, l.subrange(i2 + 1, l.len() as int))),
                    Some(i3) => Some((src, l.subrange(i2 + 1, i3))),
                }
            },
        },
    }
}

/// `t` with its leading `-` and `+` sign characters removed.
pub open spec fn spec_strip_signs(t: Seq<u8>) -> Seq<u8>
    decreases t.len(),
{
    if t.len() > 0 && (t[0] == 43 || t[0] == 45) {
        spec_strip_signs(t.skip(1))
    } else {
        t
    }
}

/// One range field `-<start>,<len>` decoded into its two numbers: split at
/// the first comma, strip signs, and read each side as a decimal `u64`.
/// A field without a comma (the abbreviated single-line form `-1`) is
/// rejected, as is any non-numeric remainder.
pub open spec fn spec_parse_section(t: Seq<u8>) -> Option<(u64, u64)> {
    match spec_find(t, 0, 44u8) {
        None => None,
        Some(c) => {
            let start_part = spec_strip_signs(t.take(c));
            let count_part = spec_strip_signs(t.skip(c + 1));
            match (spec_parse_u64(start_part), spec_parse_u64(count_part)) {
                (Some(a), Some(b)) => Some((a, b)),
                _ => None,
            }
        },
    }
}

/// A whole header token decoded: both range fields must parse.
pub open spec fn spec_parse_offset(token: Seq<u8>) -> Option<DiffOffset> {
    match spec_offset_sections(token) {
        None => None,
        Some((src, tar)) => match (spec_parse_section(src), spec_parse_section(tar)) {
            (Some((ss, sl)), Some((ts, tl))) => Some(
                DiffOffset {
                    source_start: ss,
                    source_lines: sl,
                    target_start: ts,
                    target_lines: tl,
                },
            ),
            _ => None,
        },
    }
}

impl DiffOffset {
    /// The sentinel test: all four fields zero.
    pub open spec fn spec_is_zero(&self) -> bool {
        self.source_start == 0 && self.source_lines == 0 && self.target_start == 0
            && self.target_lines == 0
    }

    /// Whether this is the reserved "no hunk opened yet" sentinel.
    pub fn is_zero(&self) -> (r: bool)
        ensures
            r == self.spec_is_zero(),
    {
        self.source_start == 0 && self.source_lines == 0 && self.target_start == 0
            && self.target_lines == 0
    }

    /// Decode a header token of the form `@@ -A,B +C,D @@`.
    pub fn parse(token: &[u8]) -> (r: Option<Self>)
        ensures
            r == spec_parse_offset(token@),
    {
        let n = token.len();
        let i1 = match find_byte(token, 0, 32u8) {
            Some(i) => i,
            None => {
                return None;
            },
        };
        proof {
            crate::util::lemma_spec_find(token@, 0, 32u8);
        }
        let i2 = match find_byte(token, i1 + 1, 32u8) {
            Some(i) => i,
            None => {
                return None;
            },
        };
        proof {
            crate::util::lemma_spec_find(token@, i1 + 1, 32u8);
        }
        let src = slice_subrange(token, i1 + 1, i2);
        let tar = match find_byte(token, i2 + 1, 32u8) {
            Some(i3) => {
                proof {
                    crate::util::lemma_spec_find(token@, i2 + 1, 32u8);
                }
                slice_subrange(token, i2 + 1, i3)
            },
            None => slice_subrange(token, i2 + 1, n),
        };
        let (source_start, source_lines) = match Self::parse_section(src) {
            Some(p) => p,
            None => {
                return None;
            },
        };
        let (target_start, target_lines) = match Self::parse_section(tar) {
            Some(p) => p,
            None => {
                return None;
            },
        };
        Some(DiffOffset { source_start, source_lines, target_start, target_lines })
    }

    /// Decode one `-<start>,<len>` range field.
    fn parse_section(token: &[u8]) -> (r: Option<(u64, u64)>)
        ensures
            r == spec_parse_section(token@),
    {
        let n = token.len();
        let c = match find_byte(token, 0, 44u8) {
            Some(c) => c,
            None => {
                return None;
            },
        };
        proof {
            crate::util::lemma_spec_find(token@, 0, 44u8);
        }
        let start_part = strip_signs(slice_subrange(token, 0, c));
        let count_part = strip_signs(slice_subrange(token, c + 1, n));
        proof {
            assert(token@.subrange(0, c as int) =~= token@.take(c as int));
            assert(token@.subrange(c + 1, token@.len() as int) =~= token@.skip(c + 1));
        }
        let a = match parse_u64(start_part) {
            Some(a) => a,
            None => {
                return None;
            },
        };
        let b = match parse_u64(count_part) {
            Some(b) => b,
            None => {
                return None;
            },
        };
        Some((a, b))
    }
}

/// The decimal digits of `n`, most significant first.
pub open spec fn dec_digits(n: nat) -> Seq<u8>
    decreases n,
{
    if n < 10 {
        seq![(48 + n) as u8]
    } else {
        dec_digits(n / 10).push((48 + n % 10) as u8)
    }
}

pub proof fn lemma_dec_digits(n: nat)
    ensures
        dec_digits(n).len() > 0,
        crate::util::all_digits(dec_digits(n)),
        crate::util::dec_val(dec_digits(n)) == n,
    decreases n,
{
    if n < 10 {
        let s = dec_digits(n);
        assert(s =~= seq![(48 + n) as u8]);
        assert(s.drop_last() =~= Seq::<u8>::empty());
        assert(s.last() == (48 + n) as u8);
        assert(crate::util::dec_val(s) == crate::util::dec_val(Seq::<u8>::empty()) * 10 + s.last()
            - 48);
    } else {
        lemma_dec_digits(n / 10);
        let p = dec_digits(n / 10);
        let s = dec_digits(n);
        assert(s == p.push((48 + n % 10) as u8));
        assert(s.drop_last() =~= p);
        assert(s.last() == (48 + n % 10) as u8);
        assert(crate::util::dec_val(s) == crate::util::dec_val(p) * 10 + s.last() - 48);
        assert((n / 10) * 10 + n % 10 == n) by {
            vstd::arithmetic::div_mod::lemma_fundamental_div_mod(n as int, 10);
        }
        assert forall|k: int| 0 <= k < s.len() implies crate::util::is_dec_digit(
            #[trigger] s[k],
        ) by {
            if k < p.len() {
                assert(s[k] == p[k]);
            }
        }
    }
}

/// The bytes of the header line `@@ -a,b +c,d @@` for the four numbers.
pub open spec fn render_header(a: u64, b: u64, c: u64, d: u64) -> Seq<u8> {
    seq![64u8, 64u8, 32u8, 45u8] + dec_digits(a as nat) + seq![44u8] + dec_digits(b as nat)
        + seq![32u8, 43u8] + dec_digits(c as nat) + seq![44u8] + dec_digits(d as nat) + seq![
        32u8,
        64u8,
        64u8,
    ]
}

/// A rendered header decodes to exactly the four numbers it was rendered
/// from, whatever text follows it: the decoder reads only the two range
/// fields between the first three spaces.
pub proof fn lemma_render_header_parse(a: u64, b: u64, c: u64, d: u64, tail: Seq<u8>)
    ensures
        spec_parse_offset(render_header(a, b, c, d) + tail) == Some(
            DiffOffset { source_start: a, source_lines: b, target_start: c, target_lines: d },
        ),
{
    let da = dec_digits(a as nat);
    let db = dec_digits(b as nat);
    let dc = dec_digits(c as nat);
    let dd = dec_digits(d as nat);
    lemma_dec_digits(a as nat);
    lemma_dec_digits(b as nat);
    lemma_dec_digits(c as nat);
    lemma_dec_digits(d as nat);
    let la = da.len() as int;
    let lb = db.len() as int;
    let lc = dc.len() as int;
    let ld = dd.len() as int;
    let t = render_header(a, b, c, d) + tail;
    lemma_header_layout(a, b, c, d, tail);
    assert(t.len() == 11 + la + lb + lc + ld + tail.len());
    // The three spaces that bound the two range fields.
    crate::util::lemma_spec_find_at(t, 0, 32u8, 2);
    assert forall|k: int| 3 <= k < 5 + la + lb implies t[k] != 32u8 by {
        assert(t[k] == header_byte(da, db, dc, dd, tail, k));
    }
    crate::util::lemma_spec_find_at(t, 3, 32u8, 5 + la + lb);
    assert forall|k: int| 6 + la + lb <= k < 8 + la + lb + lc + ld implies t[k] != 32u8 by {
        assert(t[k] == header_byte(da, db, dc, dd, tail, k));
    }
    crate::util::lemma_spec_find_at(t, 6 + la + lb, 32u8, 8 + la + lb + lc + ld);
    let src = t.subrange(3, 5 + la + lb);
    let tar = t.subrange(6 + la + lb, 8 + la + lb + lc + ld);
    assert(spec_offset_sections(t) == Some((src, tar)));
    assert(src =~= seq![45u8] + da + seq![44u8] + db);
    assert(tar =~= seq![43u8] + dc + seq![44u8] + dd);
    lemma_section_roundtrip(45u8, da, db);
    lemma_section_roundtrip(43u8, dc, dd);
    assert(crate::util::spec_parse_u64(da) == Some(a));
    assert(crate::util::spec_parse_u64(db) == Some(b));
    assert(crate::util::spec_parse_u64(dc) == Some(c));
    assert(crate::util::spec_parse_u64(dd) == Some(d));
}

/// The byte at position `k` of a rendered header followed by `tail`,
/// spelled out piece by piece.
pub open spec fn header_byte(
    da: Seq<u8>,
    db: Seq<u8>,
    dc: Seq<u8>,
    dd: Seq<u8>,
    tail: Seq<u8>,
    k: int,
) -> u8 {
    let la = da.len() as int;
    let lb = db.len() as int;
    let lc = dc.len() as int;
    let ld = dd.len() as int;
    if k == 0 || k == 1 {
        64u8
    } else if k == 2 {
        32u8
    } else if k == 3 {
        45u8
    } else if k < 4 + la {
        da[k - 4]
    } else if k == 4 + la {
        44u8
    } else if k < 5 + la + lb {
        db[k - 5 - la]
    } else if k == 5 + la + lb {
        32u8
    } else if k == 6 + la + lb {
        43u8
    } else if k < 7 + la + lb + lc {
        dc[k - 7 - la - lb]
    } else if k == 7 + la + lb + lc {
        44u8
    } else if k < 8 + la + lb + lc + ld {
        dd[k - 8 - la - lb - lc]
    } else if k == 8 + la + lb + lc + ld {
        32u8
    } else if k == 9 + la + lb + lc + ld || k == 10 + la + lb + lc + ld {
        64u8
    } else {
        tail[k - 11 - la - lb - lc - ld]
    }
}

/// Where each byte of a rendered header (with trailing text) stands.
pub proof fn lemma_header_layout(a: u64, b: u64, c: u64, d: u64, tail: Seq<u8>)
    ensures
        (render_header(a, b, c, d) + tail).len() == 11 + dec_digits(a as nat).len() + dec_digits(
            b as nat,
        ).len() + dec_digits(c as nat).len() + dec_digits(d as nat).len() + tail.len(),
        forall|k: int|
            0 <= k < (render_header(a, b, c, d) + tail).len() ==> (render_header(a, b, c, d)
                + tail)[k] == header_byte(
                dec_digits(a as nat),
                dec_digits(b as nat),
                dec_digits(c as nat),
                dec_digits(d as nat),
                tail,
                k,
            ),
{
    let da = dec_digits(a as nat);
    let db = dec_digits(b as nat);
    let dc = dec_digits(c as nat);
    let dd = dec_digits(d as nat);
    lemma_dec_digits(a as nat);
    lemma_dec_digits(b as nat);
    lemma_dec_digits(c as nat);
    lemma_dec_digits(d as nat);
    let la = da.len() as int;
    let lb = db.len() as int;
    let lc = dc.len() as int;
    let ld = dd.len() as int;
    let s1 = seq![64u8, 64u8, 32u8, 45u8];
    let q1 = s1 + da;
    let q2 = q1 + seq![44u8];
    let q3 = q2 + db;
    let q4 = q3 + seq![32u8, 43u8];
    let q5 = q4 + dc;
    let q6 = q5 + seq![44u8];
    let q7 = q6 + dd;
    let q8 = q7 + seq![32u8, 64u8, 64u8];
    let t = q8 + tail;
    assert(render_header(a, b, c, d) == q8);
    assert(render_header(a, b, c, d) + tail == t);
    assert forall|k: int| 0 <= k < t.len() implies t[k] == header_byte(da, db, dc, dd, tail, k) by {
        if k < 4 {
            assert(q1[k] == s1[k]);
            assert(q2[k] == q1[k]);
            assert(q3[k] == q2[k]);
            assert(q4[k] == q3[k]);
            assert(q5[k] == q4[k]);
            assert(q6[k] == q5[k]);
            assert(q7[k] == q6[k]);
            assert(q8[k] == q7[k]);
            assert(t[k] == q8[k]);
        } else if k < 4 + la {
            assert(q1[k] == da[k - 4]);
            assert(q2[k] == q1[k]);
            assert(q3[k] == q2[k]);
            assert(q4[k] == q3[k]);
            assert(q5[k] == q4[k]);
            assert(q6[k] == q5[k]);
            assert(q7[k] == q6[k]);
            assert(q8[k] == q7[k]);
            assert(t[k] == q8[k]);
        } else if k < 5 + la {
            assert(q2[k] == 44u8);
            assert(q3[k] == q2[k]);
            assert(q4[k] == q3[k]);
            assert(q5[k] == q4[k]);
            assert(q6[k] == q5[k]);
            assert(q7[k] == q6[k]);
            assert(q8[k] == q7[k]);
            assert(t[k] == q8[k]);
        } else if k < 5 + la + lb {
            assert(q3[k] == db[k - 5 - la]);
            assert(q4[k] == q3[k]);
            assert(q5[k] == q4[k]);
            assert(q6[k] == q5[k]);
            assert(q7[k] == q6[k]);
            assert(q8[k] == q7[k]);
            assert(t[k] == q8[k]);
        } else if k < 7 + la + lb {
            assert(q4[k] == (if k == 5 + la + lb {
                32u8
            } else {
                43u8
            }));
            assert(q5[k] == q4[k]);
            assert(q6[k] == q5[k]);
            assert(q7[k] == q6[k]);
            assert(q8[k] == q7[k]);
            assert(t[k] == q8[k]);
        } else if k < 7 + la + lb + lc {
            assert(q5[k] == dc[k - 7 - la - lb]);
            assert(q6[k] == q5[k]);
            assert(q7[k] == q6[k]);
            assert(q8[k] == q7[k]);
            assert(t[k] == q8[k]);
        } else if k < 8 + la + lb + lc {
            assert(q6[k] == 44u8);
            assert(q7[k] == q6[k]);
            assert(q8[k] == q7[k]);
            assert(t[k] == q8[k]);
        } else if k < 8 + la + lb + lc + ld {
            assert(q7[k] == dd[k - 8 - la - lb - lc]);
            assert(q8[k] == q7[k]);
            assert(t[k] == q8[k]);
        } else if k < 11 + la + lb + lc + ld {
            assert(q8[k] == (if k == 8 + la + lb + lc + ld {
                32u8
            } else {
                64u8
            }));
            assert(t[k] == q8[k]);
        } else {
            assert(t[k] == tail[k - 11 - la - lb - lc - ld]);
        }
    }
}

/// One range field of the form `<sign><digits>,<digits>` decodes to the
/// two digit strings' values.
proof fn lemma_section_roundtrip(sign: u8, x: Seq<u8>, y: Seq<u8>)
    requires
        sign == 43 || sign == 45,
        x.len() > 0,
        y.len() > 0,
        crate::util::all_digits(x),
        crate::util::all_digits(y),
    ensures
        ({
            let s = seq![sign] + x + seq![44u8] + y;
            spec_parse_section(s) == (match (
                crate::util::spec_parse_u64(x),
                crate::util::spec_parse_u64(y),
            ) {
                (Some(a), Some(b)) => Some((a, b)),
                _ => None::<(u64, u64)>,
            })
        }),
{
    let s = seq![sign] + x + seq![44u8] + y;
    let lx = x.len() as int;
    assert(s.len() == 2 + lx + y.len());
    assert(s[1 + lx] == 44u8);
    assert forall|k: int| 0 <= k < 1 + lx implies s[k] != 44u8 by {
        if k == 0 {
        } else {
            assert(s[k] == x[k - 1]);
            assert(crate::util::is_dec_digit(x[k - 1]));
        }
    }
    crate::util::lemma_spec_find_at(s, 0, 44u8, 1 + lx);
    assert(s.take(1 + lx) =~= seq![sign] + x);
    assert(s.skip(2 + lx) =~= y);
    assert((seq![sign] + x).skip(1) =~= x);
    assert(spec_strip_signs(seq![sign] + x) == spec_strip_signs(x));
    assert(crate::util::is_dec_digit(x[0]));
    assert(spec_strip_signs(x) == x);
    assert(crate::util::is_dec_digit(y[0]));
    assert(spec_strip_signs(y) == y);
}

proof fn lemma_strip_signs_at(t: Seq<u8>, i: int)
    requires
        0 <= i <= t.len(),
        forall|k: int| 0 <= k < i ==> t[k] == 43 || t[k] == 45,
        i < t.len() ==> !(t[i] == 43 || t[i] == 45),
    ensures
        spec_strip_signs(t) == t.skip(i),
    decreases i,
{
    if i == 0 {
        assert(t.skip(0) =~= t);
    } else {
        lemma_strip_signs_at(t.skip(1), i - 1);
        assert(t.skip(1).skip(i - 1) =~= t.skip(i));
    }
}

/// Skip the leading `-` and `+` sign characters of a range field.
fn strip_signs(t: &[u8]) -> (r: &[u8])
    ensures
        r@ == spec_strip_signs(t@),
{
    let mut i: usize = 0;
    while i < t.len() && (t[i] == 43 || t[i] == 45)
        invariant
            0 <= i <= t@.len(),
            forall|k: int| 0 <= k < i ==> t@[k] == 43 || t@[k] == 45,
        decreases t@.len() - i,
    {
        i = i + 1;
    }
    proof {
        lemma_strip_signs_at(t@, i as int);
    }
    slice_subrange(t, i, t.len())
}

} // verus!

