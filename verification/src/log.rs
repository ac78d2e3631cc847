//! The line-record parser for commit metadata: blank lines, then a hash,
//! an author and a date line, then message lines up to the `==END==`
//! terminator.

use vstd::prelude::*;
use crate::util::{copy_slice, push_bytes};

verus! {

/// One commit record.
#[derive(Debug)]
pub struct GitLog {
    pub hash: Vec<u8>,
    pub author: Vec<u8>,
    pub message: Vec<u8>,
    pub date: Vec<u8>,
}

/// Mathematical image of a `GitLog`.
#[verifier::ext_equal]
pub struct GitLogView {
    pub hash: Seq<u8>,
    pub author: Seq<u8>,
    pub message: Seq<u8>,
    pub date: Seq<u8>,
}

impl View for GitLog {
    type V = GitLogView;

    open spec fn view(&self) -> GitLogView {
        GitLogView {
            hash: self.hash@,
            author: self.author@,
            message: self.message@,
            date: self.date@,
        }
    }
}

/// An ASCII whitespace byte.
pub open spec fn is_ascii_space(b: u8) -> bool {
    b == 32 || b == 9 || b == 10 || b == 11 || b == 12 || b == 13
}

/// A line holding nothing but whitespace (an empty line included).
pub open spec fn is_blank(l: Seq<u8>) -> bool {
    forall|k: int| 0 <= k < l.len() ==> is_ascii_space(#[trigger] l[k])
}

/// The bytes of the record terminator `==END==`.
pub open spec fn end_word() -> Seq<u8> {
    seq![61u8, 61u8, 69u8, 78u8, 68u8, 61u8, 61u8]
}

/// First index `>= i` of a non-blank line, or the line count.
pub open spec fn skip_blank(lines: Seq<Seq<u8>>, i: int) -> int
    decreases lines.len() - i,
    when i <= lines.len()
{
    if i >= lines.len() {
        i
    } else if is_blank(lines[i]) {
        skip_blank(lines, i + 1)
    } else {
        i
    }
}

/// The concatenated message lines from `i` up to the terminator line, with
/// the index just past the terminator; `None` when the stream ends first.
pub open spec fn collect_msg(lines: Seq<Seq<u8>>, i: int) -> Option<(Seq<u8>, int)>
    decreases lines.len() - i,
    when i <= lines.len()
{
    if i >= lines.len() {
        None
    } else if lines[i] == end_word() {
        Some((Seq::empty(), i + 1))
    } else {
        match collect_msg(lines, i + 1) {
            Some((m, j)) => Some((lines[i] + m, j)),
            None => None,
        }
    }
}

/// One commit record read from position `i`: leading blank lines are
/// skipped, the next three lines are hash, author and date, and the
/// message is every following line up to `==END==`; `None` when the
/// stream ends before the record is complete.
pub open spec fn spec_parse_log(lines: Seq<Seq<u8>>, i: int) -> Option<(GitLogView, int)> {
    let h = skip_blank(lines, i);
    if h + 3 > lines.len() {
        None
    } else {
        match collect_msg(lines, h + 3) {
            Some((m, j)) => Some(
                (
                    GitLogView {
                        hash: lines[h],
                        author: lines[h + 1],
                        message: m,
                        date: lines[h + 2],
                    },
                    j,
                ),
            ),
            None => None,
        }
    }
}

/// Whether a line holds nothing but whitespace.
fn is_blank_line(l: &[u8]) -> (r: bool)
    ensures
        r == is_blank(l@),
{
    let mut k: usize = 0;
    while k < l.len()
        invariant
            0 <= k <= l@.len(),
            forall|m: int| 0 <= m < k ==> is_ascii_space(#[trigger] l@[m]),
        decreases l@.len() - k,
    {
        let b = l[k];
        if !(b == 32 || b == 9 || b == 10 || b == 11 || b == 12 || b == 13) {
            return false;
        }
        k = k + 1;
    }
    true
}

/// Whether a line is the `==END==` terminator.
fn is_end_line(l: &[u8]) -> (r: bool)
    ensures
        r == (l@ == end_word()),
{
    if l.len() == 7 && l[0] == 61 && l[1] == 61 && l[2] == 69 && l[3] == 78 && l[4] == 68 && l[5]
        == 61 && l[6] == 61 {
        proof {
            assert(l@ =~= end_word());
        }
        true
    } else {
        proof {
            if l@ == end_word() {
                assert(l@.len() == 7 && l@[0] == 61 && l@[1] == 61 && l@[2] == 69 && l@[3] == 78
                    && l@[4] == 68 && l@[5] == 61 && l@[6] == 61);
            }
        }
        false
    }
}

impl GitLog {
    /// Read one commit record from `lines` starting at `start`, returning
    /// it with the index of the first unconsumed line, or `None` when the
    /// stream ends before the record is complete.
    pub fn parse_entry(lines: &Vec<Vec<u8>>, start: usize) -> (r: Option<(GitLog, usize)>)
        requires
            start <= lines@.len(),
        ensures
            (match spec_parse_log(lines.deep_view(), start as int) {
                Some(gj) => r matches Some(e) && e.0@ == gj.0 && e.1 as int == gj.1 && start <= e.1
                    <= lines@.len(),
                None => r is None,
            }),
    {
        let ghost lv = lines.deep_view();
        let n = lines.len();
        let mut h = start;
        while h < n && is_blank_line(lines[h].as_slice())
            invariant
                start <= h <= n,
                n == lv.len(),
                lv == lines.deep_view(),
                skip_blank(lv, start as int) == skip_blank(lv, h as int),
            decreases n - h,
        {
            proof {
                assert(lv[h as int] =~= lines@[h as int]@);
            }
            h = h + 1;
        }
        proof {
            if h < n {
                assert(lv[h as int] =~= lines@[h as int]@);
            }
            assert(skip_blank(lv, h as int) == h as int);
        }
        if h >= n || h + 1 >= n || h + 2 >= n {
            return None;
        }
        let mut msg: Vec<u8> = Vec::new();
        let mut k = h + 3;
        loop
            invariant
                start <= h,
                h + 2 < n,
                h + 3 <= k <= n,
                n == lv.len(),
                lv == lines.deep_view(),
                skip_blank(lv, start as int) == h as int,
                (match collect_msg(lv, k as int) {
                    Some(mj) => collect_msg(lv, h + 3) matches Some(mj0) && mj0.0 == msg@ + mj.0
                        && mj0.1 == mj.1,
                    None => collect_msg(lv, h + 3) is None,
                }),
            decreases n - k,
        {
            if k >= n {
                return None;
            }
            proof {
                assert(lv[k as int] =~= lines@[k as int]@);
            }
            if is_end_line(lines[k].as_slice()) {
                proof {
                    assert(collect_msg(lv, k as int) == Some((Seq::<u8>::empty(), k + 1)));
                    assert(msg@ + Seq::<u8>::empty() =~= msg@);
                }
                let g = GitLog {
                    hash: copy_whole(&lines[h]),
                    author: copy_whole(&lines[h + 1]),
                    message: msg,
                    date: copy_whole(&lines[h + 2]),
                };
                proof {
                    assert(lv[h as int] =~= lines@[h as int]@);
                    assert(lv[h + 1] =~= lines@[h + 1]@);
                    assert(lv[h + 2] =~= lines@[h + 2]@);
                    assert(spec_parse_log(lv, start as int) matches Some(gj) && g@ =~= gj.0);
                }
                return Some((g, k + 1));
            }
            let ghost msg_before = msg@;
            push_bytes(&mut msg, lines[k].as_slice());
            proof {
                let step = collect_msg(lv, k as int);
                match collect_msg(lv, k + 1) {
                    Some((m2, j2)) => {
                        assert(step == Some((lv[k as int] + m2, j2)));
                        assert(msg_before + (lv[k as int] + m2) =~= msg@ + m2);
                    },
                    None => {
                    },
                }
            }
            k = k + 1;
        }
    }
}

/// A fresh copy of one line.
fn copy_whole(l: &Vec<u8>) -> (r: Vec<u8>)
    ensures
        r@ == l@,
{
    let r = copy_slice(l.as_slice(), 0, l.len());
    proof {
        assert(l@.subrange(0, l@.len() as int) =~= l@);
    }
    r
}

} // verus!
