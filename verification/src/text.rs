//! Small verified string utilities shared across the crate: equality, search,
//! whitespace trimming and line scanning, over views of strings as sequences
//! of characters.

use vstd::prelude::*;
use vstd::string::StrSliceExecFns;

verus! {

/// The sequence of views of a sequence of strings.
pub open spec fn strs_view(s: Seq<String>) -> Seq<Seq<char>> {
    Seq::new(s.len(), |i: int| s[i]@)
}

/// ASCII whitespace, as this crate trims it.
pub open spec fn is_space(c: char) -> bool {
    c == ' ' || c == '\t' || c == '\n' || c == '\r'
}

/// `text` holds `pat` as a subsequence starting at position `i`.
pub open spec fn occurs_at(text: Seq<char>, pat: Seq<char>, i: int) -> bool {
    &&& 0 <= i
    &&& i + pat.len() <= text.len()
    &&& text.subrange(i, i + pat.len() as int) == pat
}

/// The position of the first occurrence of `pat` in `text`, or -1 if there is
/// none.
pub open spec fn spec_find(text: Seq<char>, pat: Seq<char>) -> int
    decreases text.len(),
{
    if text.len() < pat.len() {
        -1
    } else if text.subrange(0, pat.len() as int) == pat {
        0
    } else if text.len() == 0 {
        -1
    } else {
        let tail = spec_find(text.drop_first(), pat);
        if tail < 0 {
            -1
        } else {
            1 + tail
        }
    }
}

/// `text` with leading whitespace removed.
pub open spec fn trim_start_spec(s: Seq<char>) -> Seq<char>
    decreases s.len(),
{
    if s.len() > 0 && is_space(s[0]) {
        trim_start_spec(s.drop_first())
    } else {
        s
    }
}

/// `text` with trailing whitespace removed.
pub open spec fn trim_end_spec(s: Seq<char>) -> Seq<char>
    decreases s.len(),
{
    if s.len() > 0 && is_space(s.last()) {
        trim_end_spec(s.drop_last())
    } else {
        s
    }
}

/// `text` with whitespace removed from both ends.
pub open spec fn trim_spec(s: Seq<char>) -> Seq<char> {
    trim_end_spec(trim_start_spec(s))
}

/// The position of the first line break of `s`, or its length if it has none.
pub open spec fn first_nl(s: Seq<char>) -> nat
    decreases s.len(),
{
    if s.len() == 0 {
        0
    } else if s[0] == '\n' {
        0
    } else {
        1 + first_nl(s.drop_first())
    }
}

/// Character-for-character equality of two string slices.
pub fn str_eq(a: &str, b: &str) -> (r: bool)
    ensures
        r == (a@ == b@),
{
    let la = a.unicode_len();
    let lb = b.unicode_len();
    if la != lb {
        return false;
    }
    let mut i: usize = 0;
    while i < la
        invariant
            i <= la,
            la == a@.len(),
            lb == b@.len(),
            la == lb,
            forall|k: int| 0 <= k < i ==> a@[k] == b@[k],
        decreases la - i,
    {
        let ca = a.get_char(i);
        let cb = b.get_char(i);
        if ca != cb {
            return false;
        }
        i = i + 1;
    }
    proof {
        assert(a@ =~= b@);
    }
    true
}

fn is_space_exec(c: char) -> (b: bool)
    ensures
        b == is_space(c),
{
    c == ' ' || c == '\t' || c == '\n' || c == '\r'
}

/// Whether `pat` occurs in `text` at position `i`.
fn match_at(text: &str, pat: &str, i: usize) -> (b: bool)
    requires
        i + pat@.len() <= text@.len(),
        text@.len() <= usize::MAX,
    ensures
        b == occurs_at(text@, pat@, i as int),
{
    let p = pat.unicode_len();
    let mut k: usize = 0;
    while k < p
        invariant
            k <= p,
            p == pat@.len(),
            i + p <= text@.len(),
            text@.len() <= usize::MAX,
            forall|j: int| 0 <= j < k ==> text@[i + j] == pat@[j],
        decreases p - k,
    {
        let tc = text.get_char(i + k);
        let pc = pat.get_char(k);
        if tc != pc {
            proof {
                assert(text@.subrange(i as int, i + p) != pat@) by {
                    assert(text@.subrange(i as int, i + p)[k as int] != pat@[k as int]);
                }
            }
            return false;
        }
        k = k + 1;
    }
    proof {
        assert(text@.subrange(i as int, i + p) =~= pat@);
    }
    true
}

/// `spec_find` returns -1 exactly when the pattern occurs nowhere, and the
/// position of the first occurrence otherwise.
pub proof fn lemma_spec_find_props(text: Seq<char>, pat: Seq<char>)
    ensures
        spec_find(text, pat) == -1 || (0 <= spec_find(text, pat)
            && spec_find(text, pat) + pat.len() <= text.len()),
        spec_find(text, pat) >= 0 ==> occurs_at(text, pat, spec_find(text, pat)),
        spec_find(text, pat) >= 0 ==> forall|j: int|
            0 <= j < spec_find(text, pat) ==> !occurs_at(text, pat, j),
        spec_find(text, pat) == -1 ==> forall|j: int| !occurs_at(text, pat, j),
    decreases text.len(),
{
    if text.len() < pat.len() {
        assert forall|j: int| !occurs_at(text, pat, j) by {}
    } else if text.subrange(0, pat.len() as int) == pat {
        assert(occurs_at(text, pat, 0));
    } else {
        assert(pat.len() > 0) by {
            if pat.len() == 0 {
                assert(text.subrange(0, 0) =~= pat);
            }
        }
        let t1 = text.drop_first();
        lemma_spec_find_props(t1, pat);
        assert forall|j: int| 1 <= j implies (occurs_at(text, pat, j) <==> occurs_at(
            t1,
            pat,
            j - 1,
        )) by {
            if j + pat.len() <= text.len() {
                assert(t1.subrange(j - 1, j - 1 + pat.len() as int) =~= text.subrange(
                    j,
                    j + pat.len() as int,
                )) by {
                    assert forall|k: int| 0 <= k < pat.len()
                        implies #[trigger] t1.subrange(j - 1, j - 1 + pat.len() as int)[k]
                            == text.subrange(j, j + pat.len() as int)[k] by {
                        assert(t1[j - 1 + k] == text[j + k]);
                    }
                }
                assert(occurs_at(text, pat, j) <==> occurs_at(t1, pat, j - 1));
            }
        }
        assert(!occurs_at(text, pat, 0));
        let tail = spec_find(t1, pat);
        if tail < 0 {
            assert forall|j: int| !occurs_at(text, pat, j) by {
                if j >= 1 {
                    assert(!occurs_at(t1, pat, j - 1));
                }
            }
        } else {
            assert(occurs_at(text, pat, tail + 1));
            assert forall|j: int| 0 <= j < tail + 1 implies !occurs_at(text, pat, j) by {
                if j >= 1 {
                    assert(!occurs_at(t1, pat, j - 1));
                }
            }
        }
    }
}

/// The position of the first occurrence of `pat` in `text`, if it occurs.
pub fn find_str(text: &str, pat: &str) -> (r: Option<usize>)
    ensures
        match r {
            Some(i) => spec_find(text@, pat@) == i as int && occurs_at(text@, pat@, i as int),
            None => spec_find(text@, pat@) == -1,
        },
{
    let n = text.unicode_len();
    let p = pat.unicode_len();
    if p > n {
        proof {
            lemma_spec_find_props(text@, pat@);
        }
        return None;
    }
    if p == 0 {
        proof {
            assert(text@.subrange(0, 0) =~= pat@);
        }
        return Some(0);
    }
    let mut i: usize = 0;
    while i <= n - p
        invariant
            i <= n - p + 1,
            1 <= p <= n,
            n == text@.len(),
            p == pat@.len(),
            forall|j: int| 0 <= j < i ==> !occurs_at(text@, pat@, j),
        decreases n - i,
    {
        if match_at(text, pat, i) {
            proof {
                lemma_spec_find_props(text@, pat@);
                let f = spec_find(text@, pat@);
                if f == -1 {
                    assert(!occurs_at(text@, pat@, i as int));
                } else if f < i {
                    assert(!occurs_at(text@, pat@, f));
                } else if f > i {
                    assert(!occurs_at(text@, pat@, i as int));
                }
            }
            return Some(i);
        }
        i = i + 1;
    }
    proof {
        lemma_spec_find_props(text@, pat@);
        let f = spec_find(text@, pat@);
        if f >= 0 {
            assert(occurs_at(text@, pat@, f));
            assert(f <= n - p);
            assert(!occurs_at(text@, pat@, f));
        }
    }
    None
}

proof fn lemma_trim_start_at(s: Seq<char>, lo: int)
    requires
        0 <= lo <= s.len(),
        forall|k: int| 0 <= k < lo ==> is_space(#[trigger] s[k]),
        lo == s.len() || !is_space(s[lo]),
    ensures
        trim_start_spec(s) == s.subrange(lo, s.len() as int),
    decreases lo,
{
    if lo == 0 {
        assert(s.subrange(0, s.len() as int) =~= s);
    } else {
        assert(is_space(s[0]));
        let t = s.drop_first();
        assert forall|k: int| 0 <= k < lo - 1 implies is_space(#[trigger] t[k]) by {
            assert(t[k] == s[k + 1]);
        }
        lemma_trim_start_at(t, lo - 1);
        assert(t.subrange(lo - 1, t.len() as int) =~= s.subrange(lo, s.len() as int));
    }
}

proof fn lemma_trim_end_at(s: Seq<char>, hi: int)
    requires
        0 <= hi <= s.len(),
        forall|k: int| hi <= k < s.len() ==> is_space(#[trigger] s[k]),
        hi == 0 || !is_space(s[hi - 1]),
    ensures
        trim_end_spec(s) == s.subrange(0, hi),
    decreases s.len() - hi,
{
    if hi == s.len() {
        assert(s.subrange(0, s.len() as int) =~= s);
    } else {
        assert(is_space(s.last()));
        let t = s.drop_last();
        lemma_trim_end_at(t, hi);
        assert(t.subrange(0, hi) =~= s.subrange(0, hi));
    }
}

/// `s` with ASCII whitespace removed from both ends.
pub fn trim_str(s: &str) -> (r: String)
    ensures
        r@ == trim_spec(s@),
{
    let n = s.unicode_len();
    let mut lo: usize = 0;
    while lo < n && is_space_exec(s.get_char(lo))
        invariant
            lo <= n,
            n == s@.len(),
            forall|k: int| 0 <= k < lo ==> is_space(#[trigger] s@[k]),
        decreases n - lo,
    {
        lo = lo + 1;
    }
    proof {
        lemma_trim_start_at(s@, lo as int);
    }
    let mut hi: usize = n;
    while hi > lo && is_space_exec(s.get_char(hi - 1))
        invariant
            lo <= hi <= n,
            n == s@.len(),
            forall|k: int| hi <= k < n ==> is_space(#[trigger] s@[k]),
        decreases hi,
    {
        hi = hi - 1;
    }
    proof {
        let t = s@.subrange(lo as int, n as int);
        assert forall|k: int| hi - lo <= k < t.len() implies is_space(#[trigger] t[k]) by {
            assert(t[k] == s@[lo + k]);
        }
        if hi > lo {
            assert(t[hi - lo - 1] == s@[hi - 1]);
        }
        lemma_trim_end_at(t, hi - lo);
        assert(t.subrange(0, hi - lo) =~= s@.subrange(lo as int, hi as int));
    }
    let piece = s.substring_char(lo, hi);
    piece.to_owned()
}

/// The position of the first line break of `s` at or after `from`, or the
/// length of `s` if there is none.
pub fn next_nl(s: &str, from: usize) -> (p: usize)
    requires
        from <= s@.len(),
    ensures
        from <= p <= s@.len(),
        forall|k: int| from <= k < p ==> s@[k] != '\n',
        p < s@.len() ==> s@[p as int] == '\n',
{
    let n = s.unicode_len();
    let mut p: usize = from;
    while p < n && s.get_char(p) != '\n'
        invariant
            from <= p <= n,
            n == s@.len(),
            forall|k: int| from <= k < p ==> s@[k] != '\n',
        decreases n - p,
    {
        p = p + 1;
    }
    p
}

/// `first_nl` is pinned down by the characterization its callers establish.
pub proof fn lemma_first_nl_at(s: Seq<char>, q: int)
    requires
        0 <= q <= s.len(),
        forall|k: int| 0 <= k < q ==> s[k] != '\n',
        q == s.len() || s[q] == '\n',
    ensures
        first_nl(s) == q,
    decreases q,
{
    if q == 0 {
    } else {
        let t = s.drop_first();
        assert forall|k: int| 0 <= k < q - 1 implies t[k] != '\n' by {
            assert(t[k] == s[k + 1]);
        }
        if q - 1 < t.len() {
            assert(t[q - 1] == s[q]);
        }
        lemma_first_nl_at(t, q - 1);
    }
}

} // verus!
