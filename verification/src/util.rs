//! Byte-level helpers shared by the parsers: searching, slicing, decimal
//! parsing and line splitting.

use vstd::prelude::*;
use vstd::slice::slice_subrange;

verus! {

/// Index of the first occurrence of `b` in `s` at a position `>= from`,
/// or `None` if there is none.
pub open spec fn spec_find(s: Seq<u8>, from: int, b: u8) -> Option<int>
    decreases s.len() - from,
{
    if from < 0 || from >= s.len() {
        None
    } else if s[from] == b {
        Some(from)
    } else {
        spec_find(s, from + 1, b)
    }
}

/// What `spec_find` returns is the first occurrence at or after `from`.
pub proof fn lemma_spec_find(s: Seq<u8>, from: int, b: u8)
    requires
        0 <= from,
    ensures
        match spec_find(s, from, b) {
            Some(j) => from <= j < s.len() && s[j] == b && (forall|k: int|
                from <= k < j ==> s[k] != b),
            None => forall|k: int| from <= k < s.len() ==> s[k] != b,
        },
    decreases s.len() - from,
{
    if from < s.len() && s[from] != b {
        lemma_spec_find(s, from + 1, b);
    }
}

/// An occurrence with nothing before it pins `spec_find` down exactly.
pub proof fn lemma_spec_find_at(s: Seq<u8>, from: int, b: u8, j: int)
    requires
        0 <= from <= j < s.len(),
        s[j] == b,
        forall|k: int| from <= k < j ==> s[k] != b,
    ensures
        spec_find(s, from, b) == Some(j),
    decreases j - from,
{
    if from < j {
        lemma_spec_find_at(s, from + 1, b, j);
    }
}

/// All but the first `n` bytes; empty when the input is shorter than `n`.
pub open spec fn spec_drop(s: Seq<u8>, n: int) -> Seq<u8> {
    if s.len() < n {
        Seq::empty()
    } else {
        s.skip(n)
    }
}

/// All but the last `n` bytes; empty when the input is shorter than `n`.
pub open spec fn spec_drop_last(s: Seq<u8>, n: int) -> Seq<u8> {
    if s.len() < n {
        Seq::empty()
    } else {
        s.take(s.len() - n)
    }
}

/// Byte-string combinators, as the parsers use them: a total "drop `n` from
/// the front/back" that yields an empty slice instead of failing when the
/// input is too short.
pub trait StringExt {
    spec fn sview(&self) -> Seq<u8>;

    /// All but the first `n` bytes.
    fn drop(&self, n: usize) -> (r: &[u8])
        ensures
            r@ == spec_drop(self.sview(), n as int),
    ;

    /// All but the last `n` bytes.
    fn drop_last(&self, n: usize) -> (r: &[u8])
        ensures
            r@ == spec_drop_last(self.sview(), n as int),
    ;
}

impl StringExt for [u8] {
    open spec fn sview(&self) -> Seq<u8> {
        self@
    }

    fn drop(&self, n: usize) -> (r: &[u8]) {
        if self.len() < n {
            slice_subrange(self, 0, 0)
        } else {
            slice_subrange(self, n, self.len())
        }
    }

    fn drop_last(&self, n: usize) -> (r: &[u8]) {
        if self.len() < n {
            slice_subrange(self, 0, 0)
        } else {
            let off = self.len() - n;
            slice_subrange(self, 0, off)
        }
    }
}

/// Swap the bytes at positions `left` and `right`; out-of-range positions
/// leave the buffer unchanged.
pub fn swap_byte(text: &mut Vec<u8>, left: usize, right: usize)
    ensures
        final(text)@ == (if left < old(text)@.len() && right < old(text)@.len() {
            old(text)@.update(left as int, old(text)@[right as int]).update(
                right as int,
                old(text)@[left as int],
            )
        } else {
            old(text)@
        }),
{
    let _ = _swap_byte(text, left, right);
}

/// Checked worker for `swap_byte`: reports whether both positions were in
/// range, mutating only when they are.
fn _swap_byte(this: &mut Vec<u8>, left: usize, right: usize) -> (r: Option<()>)
    ensures
        (r is Some) == (left < old(this)@.len() && right < old(this)@.len()),
        final(this)@ == (if left < old(this)@.len() && right < old(this)@.len() {
            old(this)@.update(left as int, old(this)@[right as int]).update(
                right as int,
                old(this)@[left as int],
            )
        } else {
            old(this)@
        }),
{
    if left >= this.len() || right >= this.len() {
        return None;
    }
    let i = this[left];
    let j = this[right];
    this[right] = i;
    this[left] = j;
    Some(())
}

/// A copy of `s[from..to]` as a fresh vector.
pub fn copy_slice(s: &[u8], from: usize, to: usize) -> (r: Vec<u8>)
    requires
        from <= to <= s@.len(),
    ensures
        r@ == s@.subrange(from as int, to as int),
{
    let mut r: Vec<u8> = Vec::new();
    let mut i: usize = from;
    while i < to
        invariant
            from <= i <= to <= s@.len(),
            r@ == s@.subrange(from as int, i as int),
        decreases to - i,
    {
        r.push(s[i]);
        proof {
            assert(r@ =~= s@.subrange(from as int, i + 1 as int));
        }
        i = i + 1;
    }
    r
}

/// Append all of `src` to `dst`.
pub fn push_bytes(dst: &mut Vec<u8>, src: &[u8])
    ensures
        final(dst)@ == old(dst)@ + src@,
{
    let mut i: usize = 0;
    while i < src.len()
        invariant
            0 <= i <= src@.len(),
            dst@ == old(dst)@ + src@.take(i as int),
        decreases src@.len() - i,
    {
        dst.push(src[i]);
        proof {
            assert(old(dst)@ + src@.take(i + 1 as int) =~= (old(dst)@ + src@.take(
                i as int,
            )).push(src@[i as int]));
        }
        i = i + 1;
    }
    proof {
        assert(src@.take(src@.len() as int) =~= src@);
    }
}

/// Whether two byte slices hold the same bytes.
pub fn slices_eq(x: &[u8], y: &[u8]) -> (r: bool)
    ensures
        r == (x@ == y@),
{
    if x.len() != y.len() {
        proof {
            assert(x@ != y@);
        }
        return false;
    }
    let mut i: usize = 0;
    while i < x.len()
        invariant
            0 <= i <= x@.len(),
            x@.len() == y@.len(),
            forall|k: int| 0 <= k < i ==> x@[k] == y@[k],
        decreases x@.len() - i,
    {
        if x[i] != y[i] {
            return false;
        }
        i = i + 1;
    }
    proof {
        assert(x@ =~= y@);
    }
    true
}

/// Find the first occurrence of `b` in `s` at a position `>= from`.
pub fn find_byte(s: &[u8], from: usize, b: u8) -> (r: Option<usize>)
    ensures
        match r {
            Some(j) => from <= j && spec_find(s@, from as int, b) == Some(j as int),
            None => spec_find(s@, from as int, b) is None,
        },
{
    let mut i: usize = from;
    if i >= s.len() {
        proof {
            lemma_spec_find(s@, from as int, b);
        }
        return None;
    }
    while i < s.len()
        invariant
            from <= i <= s@.len(),
            forall|k: int| from <= k < i ==> s@[k] != b,
        decreases s@.len() - i,
    {
        if s[i] == b {
            proof {
                lemma_spec_find_at(s@, from as int, b, i as int);
            }
            return Some(i);
        }
        i = i + 1;
    }
    proof {
        lemma_spec_find(s@, from as int, b);
    }
    None
}

/// An ASCII decimal digit.
pub open spec fn is_dec_digit(b: u8) -> bool {
    48 <= b && b <= 57
}

/// Every byte of `s` is a decimal digit.
pub open spec fn all_digits(s: Seq<u8>) -> bool {
    forall|i: int| 0 <= i < s.len() ==> is_dec_digit(#[trigger] s[i])
}

/// Value of a digit string read in base ten.
pub open spec fn dec_val(s: Seq<u8>) -> int
    decreases s.len(),
{
    if s.len() == 0 {
        0
    } else {
        dec_val(s.drop_last()) * 10 + s.last() - 48
    }
}

pub proof fn lemma_dec_val_nonneg(s: Seq<u8>)
    requires
        all_digits(s),
    ensures
        dec_val(s) >= 0,
    decreases s.len(),
{
    if s.len() > 0 {
        assert(all_digits(s.drop_last()));
        lemma_dec_val_nonneg(s.drop_last());
    }
}

/// Reading more digits never shrinks the value.
pub proof fn lemma_dec_val_prefix_le(s: Seq<u8>, k: int)
    requires
        all_digits(s),
        0 <= k <= s.len(),
    ensures
        dec_val(s.take(k)) <= dec_val(s),
    decreases s.len() - k,
{
    if k == s.len() {
        assert(s.take(k) =~= s);
    } else {
        lemma_dec_val_prefix_le(s, k + 1);
        assert(s.take(k + 1).drop_last() =~= s.take(k));
        assert(all_digits(s.take(k)));
        lemma_dec_val_nonneg(s.take(k));
        assert(dec_val(s.take(k + 1)) == dec_val(s.take(k)) * 10 + s[k] - 48);
    }
}

/// What `u64` parsing yields on a digit string with its sign characters
/// already stripped: the base-ten value, provided the string is non-empty,
/// all digits, and the value fits.
pub open spec fn spec_parse_u64(s: Seq<u8>) -> Option<u64> {
    if s.len() > 0 && all_digits(s) && dec_val(s) <= u64::MAX {
        Some(dec_val(s) as u64)
    } else {
        None
    }
}

/// Parse an unsigned base-ten integer from `s`.
pub fn parse_u64(s: &[u8]) -> (r: Option<u64>)
    ensures
        r == spec_parse_u64(s@),
{
    if s.len() == 0 {
        return None;
    }
    let mut val: u64 = 0;
    let mut i: usize = 0;
    while i < s.len()
        invariant
            0 <= i <= s@.len(),
            all_digits(s@.take(i as int)),
            val == dec_val(s@.take(i as int)),
        decreases s@.len() - i,
    {
        let b = s[i];
        if b < 48 || b > 57 {
            return None;
        }
        let d = (b - 48) as u64;
        proof {
            assert(s@.take(i + 1).drop_last() =~= s@.take(i as int));
            assert(dec_val(s@.take(i + 1)) == dec_val(s@.take(i as int)) * 10 + s@[i as int] - 48);
            assert(all_digits(s@.take(i + 1)));
        }
        match val.checked_mul(10) {
            Some(v10) => {
                match v10.checked_add(d) {
                    Some(v) => {
                        val = v;
                    },
                    None => {
                        proof {
                            if all_digits(s@) {
                                lemma_dec_val_prefix_le(s@, i + 1);
                            }
                        }
                        return None;
                    },
                }
            },
            None => {
                proof {
                    if all_digits(s@) {
                        lemma_dec_val_prefix_le(s@, i + 1);
                    }
                }
                return None;
            },
        }
        i = i + 1;
    }
    proof {
        assert(s@.take(s@.len() as int) =~= s@);
    }
    Some(val)
}

/// The lines of `s`: maximal newline-free segments, a trailing newline
/// producing no extra empty line, matching how a line-by-line reader
/// hands the text out.
pub open spec fn spec_split_lines(s: Seq<u8>) -> Seq<Seq<u8>>
    decreases s.len(),
    when s.len() >= 0
    via spec_split_lines_decreases
{
    if s.len() == 0 {
        Seq::empty()
    } else {
        match spec_find(s, 0, 10u8) {
            Some(j) => seq![s.take(j)] + spec_split_lines(s.skip(j + 1)),
            None => seq![s],
        }
    }
}

#[via_fn]
proof fn spec_split_lines_decreases(s: Seq<u8>) {
    if s.len() > 0 {
        lemma_spec_find(s, 0, 10u8);
    }
}

/// Split `s` into its lines.
pub fn split_lines(s: &[u8]) -> (r: Vec<Vec<u8>>)
    ensures
        r.deep_view() == spec_split_lines(s@),
{
    let mut r: Vec<Vec<u8>> = Vec::new();
    let mut pos: usize = 0;
    proof {
        assert(r.deep_view() =~~= Seq::<Seq<u8>>::empty());
        assert(s@.skip(0) =~= s@);
        assert(Seq::<Seq<u8>>::empty() + spec_split_lines(s@) =~= spec_split_lines(s@));
    }
    while pos < s.len()
        invariant
            0 <= pos <= s@.len(),
            r.deep_view() + spec_split_lines(s@.skip(pos as int)) == spec_split_lines(s@),
        decreases s@.len() - pos,
    {
        let ghost rest = s@.skip(pos as int);
        match find_byte(s, pos, 10u8) {
            Some(j) => {
                proof {
                    lemma_spec_find(s@, pos as int, 10u8);
                    lemma_spec_find_at(rest, 0, 10u8, j - pos);
                    assert(rest.take(j - pos) =~= s@.subrange(pos as int, j as int));
                    assert(rest.skip(j - pos + 1) =~= s@.skip(j + 1));
                }
                let line = copy_slice(s, pos, j);
                let ghost old_r = r.deep_view();
                r.push(line);
                proof {
                    assert(r.deep_view() =~~= old_r.push(line@));
                    assert(old_r.push(line@) =~= old_r + seq![rest.take(j - pos)]);
                    assert(r.deep_view() + spec_split_lines(s@.skip(j + 1)) =~= spec_split_lines(
                        s@,
                    ));
                }
                pos = j + 1;
            },
            None => {
                proof {
                    lemma_spec_find(s@, pos as int, 10u8);
                    if rest.len() > 0 {
                        lemma_spec_find(rest, 0, 10u8);
                        if spec_find(rest, 0, 10u8) is Some {
                            let jj = spec_find(rest, 0, 10u8)->0;
                            assert(s@[pos + jj] == 10u8);
                        }
                    }
                    assert(spec_find(rest, 0, 10u8) is None);
                    assert(rest =~= s@.subrange(pos as int, s@.len() as int));
                }
                let line = copy_slice(s, pos, s.len());
                let ghost old_r = r.deep_view();
                r.push(line);
                proof {
                    assert(r.deep_view() =~~= old_r.push(line@));
                    assert(old_r.push(line@) =~= old_r + seq![rest]);
                    assert(spec_split_lines(s@.skip(s@.len() as int)) =~= Seq::<Seq<u8>>::empty());
                    assert(r.deep_view() + spec_split_lines(s@.skip(s@.len() as int))
                        =~= spec_split_lines(s@));
                }
                pos = s.len();
            },
        }
    }
    proof {
        assert(spec_split_lines(s@.skip(pos as int)) =~= Seq::<Seq<u8>>::empty());
        assert(r.deep_view() =~= spec_split_lines(s@));
    }
    r
}

} // verus!
