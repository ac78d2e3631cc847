//! The repository handle and the version-output reader.

use vstd::prelude::*;
use vstd::slice::slice_subrange;
use crate::util::{StringExt, copy_slice, spec_drop_last};

verus! {

/// A repository, named by its working-tree path.  Running commands against
/// it is the surrounding application's business.
pub struct GitRepository(String);

impl GitRepository {
    /// The repository's path.
    pub closed spec fn path_view(&self) -> Seq<char> {
        self.0@
    }

    /// A handle for the repository at `path`.
    pub fn new(path: String) -> (r: Self)
        ensures
            r.path_view() == path@,
    {
        GitRepository(path)
    }

    /// The path the handle was created with.
    pub fn path(&self) -> (r: &str)
        ensures
            r@ == self.path_view(),
    {
        self.0.as_str()
    }
}

/// The bytes of `version ` (the word and its trailing space).
pub open spec fn version_word() -> Seq<u8> {
    seq![118u8, 101u8, 114u8, 115u8, 105u8, 111u8, 110u8, 32u8]
}

/// First position `>= from` where `version ` occurs in `s`.
pub open spec fn spec_find_version(s: Seq<u8>, from: int) -> Option<int>
    decreases s.len() - from,
{
    if from < 0 || from + 8 > s.len() {
        None
    } else if s.subrange(from, from + 8) == version_word() {
        Some(from)
    } else {
        spec_find_version(s, from + 1)
    }
}

proof fn lemma_find_version_at(s: Seq<u8>, from: int, j: int)
    requires
        0 <= from <= j,
        j + 8 <= s.len(),
        s.subrange(j, j + 8) == version_word(),
        forall|k: int| from <= k < j ==> #[trigger] s.subrange(k, k + 8) != version_word(),
    ensures
        spec_find_version(s, from) == Some(j),
    decreases j - from,
{
    if from < j {
        lemma_find_version_at(s, from + 1, j);
    }
}

proof fn lemma_find_version_none(s: Seq<u8>, from: int)
    requires
        0 <= from,
        forall|k: int| from <= k && k + 8 <= s.len() ==> #[trigger] s.subrange(k, k + 8)
            != version_word(),
    ensures
        spec_find_version(s, from) is None,
    decreases s.len() - from,
{
    if from + 8 <= s.len() {
        lemma_find_version_none(s, from + 1);
    }
}

/// Whether `version ` stands at position `j` of `s`.
fn version_at(s: &[u8], j: usize) -> (r: bool)
    requires
        j + 8 <= s@.len(),
    ensures
        r == (s@.subrange(j as int, j + 8) == version_word()),
{
    if s[j] == 118 && s[j + 1] == 101 && s[j + 2] == 114 && s[j + 3] == 115 && s[j + 4] == 105
        && s[j + 5] == 111 && s[j + 6] == 110 && s[j + 7] == 32 {
        proof {
            assert(s@.subrange(j as int, j + 8) =~= version_word());
        }
        true
    } else {
        proof {
            if s@.subrange(j as int, j + 8) == version_word() {
                assert(s@[j as int] == 118 && s@[j + 1] == 101 && s@[j + 2] == 114 && s@[j + 3]
                    == 115 && s@[j + 4] == 105 && s@[j + 5] == 111 && s@[j + 6] == 110 && s@[j + 7]
                    == 32) by {
                    assert(s@.subrange(j as int, j + 8)[0] == s@[j as int]);
                    assert(s@.subrange(j as int, j + 8)[1] == s@[j + 1]);
                    assert(s@.subrange(j as int, j + 8)[2] == s@[j + 2]);
                    assert(s@.subrange(j as int, j + 8)[3] == s@[j + 3]);
                    assert(s@.subrange(j as int, j + 8)[4] == s@[j + 4]);
                    assert(s@.subrange(j as int, j + 8)[5] == s@[j + 5]);
                    assert(s@.subrange(j as int, j + 8)[6] == s@[j + 6]);
                    assert(s@.subrange(j as int, j + 8)[7] == s@[j + 7]);
                }
            }
        }
        false
    }
}

/// Extract the version number from a version command's output: the bytes
/// after the first `version ` occurrence, with the final byte (the
/// trailing newline) removed; `None` when the word does not occur.
pub fn parse_git_version(out: &[u8]) -> (r: Option<Vec<u8>>)
    ensures
        (match spec_find_version(out@, 0) {
            Some(j) => r matches Some(v) && v@ == spec_drop_last(out@.skip(j + 8), 1),
            None => r is None,
        }),
{
    let n = out.len();
    if n < 8 {
        proof {
            lemma_find_version_none(out@, 0);
        }
        return None;
    }
    let mut j: usize = 0;
    while j <= n - 8
        invariant
            0 <= j <= n - 8 + 1,
            n == out@.len(),
            n >= 8,
            forall|k: int| 0 <= k < j ==> #[trigger] out@.subrange(k, k + 8) != version_word(),
        decreases n - j,
    {
        if version_at(out, j) {
            proof {
                lemma_find_version_at(out@, 0, j as int);
            }
            let rest = slice_subrange(out, j + 8, n);
            let tail = rest.drop_last(1);
            let v = copy_slice(tail, 0, tail.len());
            proof {
                assert(rest@ =~= out@.skip(j + 8));
                assert(v@ =~= tail@.subrange(0, tail@.len() as int));
                assert(v@ =~= spec_drop_last(out@.skip(j + 8), 1));
            }
            return Some(v);
        }
        j = j + 1;
    }
    proof {
        lemma_find_version_none(out@, 0);
    }
    None
}

} // verus!
