//! Schema migrations: the record itself and the pure planning around it.
//!
//! A migration lives in a file named `<version>_<name>.sql`. Reading the
//! directory and executing the SQL are the caller's concern; parsing a file
//! stem, ordering migrations by version and selecting the ones not yet
//! applied are verified here.

use vstd::prelude::*;
use vstd::seq_lib::*;
use vstd::string::StrSliceExecFns;

use crate::text::find_str;
use crate::text::spec_find;

verus! {

broadcast use vstd::seq_lib::group_to_multiset_ensures;

/// One schema migration: its version, its name, and the SQL it runs.
pub struct Migration {
    pub version: i32,
    pub name: String,
    pub sql: String,
}

/// The mathematical value of a [`Migration`].
#[verifier::ext_equal]
pub struct MigrationModel {
    pub version: int,
    pub name: Seq<char>,
    pub sql: Seq<char>,
}

impl View for Migration {
    type V = MigrationModel;

    open spec fn view(&self) -> MigrationModel {
        MigrationModel { version: self.version as int, name: self.name@, sql: self.sql@ }
    }
}

/// The sequence of model values of a sequence of migrations.
pub open spec fn migs_view(s: Seq<Migration>) -> Seq<MigrationModel> {
    Seq::new(s.len(), |i: int| s[i]@)
}

/// A decimal digit.
pub open spec fn is_digit(c: char) -> bool {
    '0' <= c && c <= '9'
}

/// The value of one decimal digit.
pub open spec fn digit_val(c: char) -> int {
    c as int - '0' as int
}

/// Every character is a decimal digit.
pub open spec fn all_digits(s: Seq<char>) -> bool {
    forall|k: int| 0 <= k < s.len() ==> is_digit(#[trigger] s[k])
}

/// The value of a string of decimal digits.
pub open spec fn numeral_value(s: Seq<char>) -> int
    decreases s.len(),
{
    if s.len() == 0 {
        0
    } else {
        10 * numeral_value(s.drop_last()) + digit_val(s.last())
    }
}

/// The numeral is negated.
pub open spec fn numeral_negative(s: Seq<char>) -> bool {
    s.len() > 0 && s[0] == '-'
}

/// The digit part of a signed numeral: everything after an optional sign.
pub open spec fn numeral_digits(s: Seq<char>) -> Seq<char> {
    if s.len() > 0 && (s[0] == '-' || s[0] == '+') {
        s.drop_first()
    } else {
        s
    }
}

/// What a signed decimal numeral denotes: an optional sign, then at least one
/// digit, nothing else, and a value that fits a 32-bit signed integer.
pub open spec fn i32_numeral(s: Seq<char>) -> Option<int> {
    let digits = numeral_digits(s);
    if digits.len() > 0 && all_digits(digits) {
        let v = if numeral_negative(s) {
            -numeral_value(digits)
        } else {
            numeral_value(digits)
        };
        if -0x8000_0000 <= v <= 0x7fff_ffff {
            Some(v)
        } else {
            None
        }
    } else {
        None
    }
}

/// What a file stem parses to: the version before the first underscore and
/// the name after it, or nothing when either part is missing or malformed.
pub open spec fn stem_parsed(stem: Seq<char>) -> Option<MigrationModel> {
    let u = spec_find(stem, "_"@);
    if u < 0 {
        None
    } else {
        match i32_numeral(stem.subrange(0, u)) {
            Some(v) => Some(
                MigrationModel {
                    version: v,
                    name: stem.subrange(u + 1, stem.len() as int),
                    sql: Seq::empty(),
                },
            ),
            None => None,
        }
    }
}

proof fn lemma_numeral_nonneg(s: Seq<char>)
    requires
        all_digits(s),
    ensures
        numeral_value(s) >= 0,
    decreases s.len(),
{
    if s.len() > 0 {
        assert(all_digits(s.drop_last())) by {
            assert forall|k: int| 0 <= k < s.drop_last().len()
                implies is_digit(#[trigger] s.drop_last()[k]) by {
                assert(s.drop_last()[k] == s[k]);
            }
        }
        lemma_numeral_nonneg(s.drop_last());
        assert(is_digit(s.last()));
    }
}

/// A digit string is worth at least any of its prefixes.
proof fn lemma_numeral_prefix(s: Seq<char>, k: int)
    requires
        all_digits(s),
        0 <= k <= s.len(),
    ensures
        numeral_value(s) >= numeral_value(s.subrange(0, k)),
    decreases s.len() - k,
{
    if k == s.len() {
        assert(s.subrange(0, k) =~= s);
    } else {
        lemma_numeral_prefix(s, k + 1);
        let p1 = s.subrange(0, k + 1);
        assert(p1.drop_last() =~= s.subrange(0, k));
        assert(p1.last() == s[k]);
        assert(is_digit(s[k]));
        assert(all_digits(s.subrange(0, k))) by {
            assert forall|j: int| 0 <= j < k implies is_digit(#[trigger] s.subrange(0, k)[j]) by {
                assert(s.subrange(0, k)[j] == s[j]);
            }
        }
        lemma_numeral_nonneg(s.subrange(0, k));
    }
}

/// Parses a signed decimal numeral exactly when it denotes a 32-bit value.
pub fn parse_i32(s: &str) -> (r: Option<i32>)
    ensures
        match r {
            Some(v) => i32_numeral(s@) == Some(v as int),
            None => i32_numeral(s@) is None,
        },
{
    let n = s.unicode_len();
    if n == 0 {
        return None;
    }
    let c0 = s.get_char(0);
    let neg = c0 == '-';
    let start: usize = if c0 == '-' || c0 == '+' {
        1
    } else {
        0
    };
    if start == n {
        return None;
    }
    let ghost digits = numeral_digits(s@);
    proof {
        assert(digits =~= s@.subrange(start as int, n as int));
    }
    let mut i: usize = start;
    let mut acc: i64 = 0;
    while i < n
        invariant
            start <= i <= n,
            start <= 1,
            n == s@.len(),
            neg == numeral_negative(s@),
            digits == numeral_digits(s@),
            digits == s@.subrange(start as int, n as int),
            acc == numeral_value(s@.subrange(start as int, i as int)),
            0 <= acc <= 0x8000_0000i64,
            forall|k: int| start <= k < i ==> is_digit(#[trigger] s@[k]),
        decreases n - i,
    {
        let c = s.get_char(i);
        if !(c >= '0' && c <= '9') {
            proof {
                assert(digits[i - start] == s@[i as int]);
                assert(!all_digits(digits));
            }
            return None;
        }
        let d = (c as u32 - 48) as i64;
        let ghost pre = s@.subrange(start as int, i as int);
        let ghost pre1 = s@.subrange(start as int, i + 1 as int);
        proof {
            assert(pre1.drop_last() =~= pre);
            assert(pre1.last() == s@[i as int]);
            assert(digit_val(s@[i as int]) == d as int);
        }
        acc = acc * 10 + d;
        i = i + 1;
        if acc > 0x8000_0000i64 {
            // too large for a 32-bit value whatever comes next: the rest only
            // decides between "not a numeral" and "out of range", both None
            let ghost stop = i;
            while i < n
                invariant
                    stop <= i <= n,
                    start <= stop,
                    start <= 1,
                    n == s@.len(),
                    neg == numeral_negative(s@),
                    digits == numeral_digits(s@),
                    digits == s@.subrange(start as int, n as int),
                    numeral_value(s@.subrange(start as int, stop as int)) > 0x8000_0000,
                    forall|k: int| start <= k < i ==> is_digit(#[trigger] s@[k]),
                decreases n - i,
            {
                let c = s.get_char(i);
                if !(c >= '0' && c <= '9') {
                    proof {
                        assert(digits[i - start] == s@[i as int]);
                        assert(!all_digits(digits));
                    }
                    return None;
                }
                i = i + 1;
            }
            proof {
                assert(all_digits(digits)) by {
                    assert forall|k: int| 0 <= k < digits.len()
                        implies is_digit(#[trigger] digits[k]) by {
                        assert(digits[k] == s@[start + k]);
                    }
                }
                lemma_numeral_prefix(digits, stop - start);
                assert(s@.subrange(start as int, stop as int) =~= digits.subrange(
                    0,
                    stop - start,
                ));
                lemma_numeral_nonneg(digits);
            }
            return None;
        }
    }
    proof {
        assert(digits =~= s@.subrange(start as int, n as int));
        assert(all_digits(digits)) by {
            assert forall|k: int| 0 <= k < digits.len() implies is_digit(#[trigger] digits[k]) by {
                assert(digits[k] == s@[start + k]);
            }
        }
    }
    if neg {
        Some((-acc) as i32)
    } else {
        if acc > 0x7fff_ffffi64 {
            return None;
        }
        Some(acc as i32)
    }
}

impl Migration {
    /// Reads a migration out of a file stem of the form
    /// `<version>_<name>`, attaching the given SQL.
    pub fn from_stem(stem: &str, sql: String) -> (r: Option<Migration>)
        ensures
            r is Some <==> stem_parsed(stem@) is Some,
            r is Some ==> {
                &&& r->0@.version == stem_parsed(stem@)->0.version
                &&& r->0@.name == stem_parsed(stem@)->0.name
                &&& r->0@.sql == sql@
            },
    {
        let u = match find_str(stem, "_") {
            Some(u) => u,
            None => {
                return None;
            },
        };
        let n = stem.unicode_len();
        proof {
            reveal_strlit("_");
            assert(u + 1 <= n);
        }
        let version_str = stem.substring_char(0, u);
        let version = match parse_i32(version_str) {
            Some(v) => v,
            None => {
                return None;
            },
        };
        let name = stem.substring_char(u + 1, n).to_owned();
        Some(Migration { version, name, sql })
    }
}

/// Migrations stand in version order.
pub open spec fn sorted_by_version(s: Seq<MigrationModel>) -> bool {
    forall|i: int, j: int| 0 <= i < j < s.len() ==> (#[trigger] s[i]).version <= (#[trigger] s[j]).version
}

/// An applied-version list covers a version.
pub open spec fn version_applied(applied: Seq<i32>, v: int) -> bool {
    exists|k: int| 0 <= k < applied.len() && applied[k] == v
}

/// The predicate selecting migrations that still have to run.
pub open spec fn pending_pred(applied: Seq<i32>) -> spec_fn(MigrationModel) -> bool {
    |m: MigrationModel| !version_applied(applied, m.version)
}

/// Reorders migrations by ascending version; the migrations themselves are
/// kept exactly.
pub fn sort_migrations(v: Vec<Migration>) -> (r: Vec<Migration>)
    ensures
        migs_view(r@).to_multiset() == migs_view(v@).to_multiset(),
        sorted_by_version(migs_view(r@)),
{
    let ghost orig = migs_view(v@);
    let mut rest = v;
    let mut out: Vec<Migration> = Vec::new();
    proof {
        assert(migs_view(out@) =~= Seq::<MigrationModel>::empty());
        assert(migs_view(out@).to_multiset().add(migs_view(rest@).to_multiset())
            =~= orig.to_multiset());
    }
    while rest.len() > 0
        invariant
            migs_view(out@).to_multiset().add(migs_view(rest@).to_multiset())
                == orig.to_multiset(),
            sorted_by_version(migs_view(out@)),
            forall|a: MigrationModel, b: MigrationModel|
                #[trigger] migs_view(out@).contains(a) && #[trigger] migs_view(rest@).contains(b)
                    ==> a.version <= b.version,
        decreases rest.len(),
    {
        let ghost old_out = migs_view(out@);
        let ghost old_rest = migs_view(rest@);
        let ghost old_rest_s = rest@;
        let ghost old_out_s = out@;
        let m = min_version_index(&rest);
        let x = rest.remove(m);
        let ghost xm = x@;
        out.push(x);
        proof {
            lemma_migs_view_remove(old_rest_s, m as int);
            assert(migs_view(rest@) == old_rest.remove(m as int));
            lemma_migs_view_push(old_out_s, xm);
            assert(migs_view(out@) == old_out.push(xm)) by {
                assert(out@ == old_out_s.push(out@[old_out_s.len() as int]));
            }
            assert(old_rest[m as int] == xm);
            assert(old_rest.remove(m as int).to_multiset() =~= old_rest.to_multiset().remove(xm));
            assert(old_rest.contains(xm));
            assert(old_rest.to_multiset().count(xm) > 0);
            assert(migs_view(out@).to_multiset().add(migs_view(rest@).to_multiset())
                =~= orig.to_multiset());
            assert forall|a: MigrationModel, b: MigrationModel|
                #[trigger] migs_view(out@).contains(a) && #[trigger] migs_view(rest@).contains(b)
                implies a.version <= b.version by {
                let jb = choose|j: int| 0 <= j < migs_view(rest@).len() && migs_view(rest@)[j] == b;
                assert(old_rest.remove(m as int)[jb] == b);
                assert(old_rest.contains(b)) by {
                    if jb < m {
                        assert(old_rest[jb] == b);
                    } else {
                        assert(old_rest[jb + 1] == b);
                    }
                }
                let kb = choose|k: int| 0 <= k < old_rest.len() && old_rest[k] == b;
                if old_out.contains(a) {
                } else {
                    assert(a == xm);
                    assert(old_rest[m as int].version <= old_rest[kb].version);
                }
            }
            assert forall|i: int, j: int|
                0 <= i < j < migs_view(out@).len()
                implies (#[trigger] migs_view(out@)[i]).version
                    <= (#[trigger] migs_view(out@)[j]).version by {
                if j < old_out.len() {
                    assert(old_out[i].version <= old_out[j].version);
                } else {
                    assert(migs_view(out@)[j] == xm);
                    assert(old_out.contains(old_out[i]));
                    assert(old_rest.contains(xm));
                }
            }
        }
    }
    proof {
        assert(migs_view(rest@) =~= Seq::<MigrationModel>::empty());
        assert(migs_view(out@).to_multiset().add(migs_view(rest@).to_multiset())
            =~= migs_view(out@).to_multiset());
    }
    out
}

/// Keeps, in order, the migrations whose version the applied list does not
/// hold.
pub fn pending_migrations(migrations: Vec<Migration>, applied: &Vec<i32>) -> (r: Vec<Migration>)
    ensures
        migs_view(r@) == migs_view(migrations@).filter(pending_pred(applied@)),
{
    let ghost orig = migs_view(migrations@);
    let ghost n = migrations@.len() as int;
    let mut rest = migrations;
    let mut r: Vec<Migration> = Vec::new();
    let ghost mut done: int = 0;
    proof {
        reveal(Seq::filter);
        assert(migs_view(r@) =~= orig.subrange(0, 0).filter(pending_pred(applied@)));
        assert(migs_view(rest@) =~= orig.subrange(0, n));
        assert(orig.subrange(0, n) =~= orig);
    }
    while rest.len() > 0
        invariant
            0 <= done <= n,
            n == orig.len(),
            migs_view(rest@) == orig.subrange(done, n),
            migs_view(r@) == orig.subrange(0, done).filter(pending_pred(applied@)),
        decreases rest.len(),
    {
        proof {
            assert(migs_view(rest@).len() == rest@.len());
            assert(done < n);
        }
        let ghost prefix = orig.subrange(0, done);
        let ghost prefix1 = orig.subrange(0, done + 1);
        let ghost old_rs = r@;
        let ghost old_rest_s = rest@;
        let x = rest.remove(0);
        let ghost xm = x@;
        proof {
            assert(xm == migs_view(old_rest_s)[0]);
            assert(xm == orig[done]);
            lemma_migs_view_remove(old_rest_s, 0);
            assert(migs_view(rest@) =~= orig.subrange(done + 1, n));
        }
        let keep = !contains_version(applied, x.version);
        if keep {
            r.push(x);
            proof {
                lemma_migs_view_push(old_rs, xm);
                assert(r@ == old_rs.push(r@[old_rs.len() as int]));
                assert(migs_view(r@) == migs_view(old_rs).push(xm));
            }
        }
        proof {
            reveal(Seq::filter);
            assert(prefix1.drop_last() =~= prefix);
            assert(prefix1.last() == orig[done]);
            assert(migs_view(r@) =~= prefix1.filter(pending_pred(applied@)));
            done = done + 1;
        }
    }
    proof {
        assert(migs_view(rest@).len() == 0);
        assert(done == n);
        assert(orig.subrange(0, n) =~= orig);
    }
    r
}

fn contains_version(applied: &Vec<i32>, v: i32) -> (r: bool)
    ensures
        r == version_applied(applied@, v as int),
{
    let mut i: usize = 0;
    while i < applied.len()
        invariant
            i <= applied.len(),
            forall|k: int| 0 <= k < i ==> applied@[k] != v,
        decreases applied.len() - i,
    {
        if applied[i] == v {
            return true;
        }
        i = i + 1;
    }
    proof {
        assert forall|k: int| 0 <= k < applied@.len() implies #[trigger] applied@[k] as int
            != v as int by {
            assert(applied@[k] != v);
        }
    }
    false
}

fn min_version_index(v: &Vec<Migration>) -> (m: usize)
    requires
        v@.len() > 0,
    ensures
        m < v@.len(),
        forall|j: int| 0 <= j < v@.len()
            ==> migs_view(v@)[m as int].version <= (#[trigger] migs_view(v@)[j]).version,
{
    let mut m: usize = 0;
    let mut i: usize = 1;
    while i < v.len()
        invariant
            m < i <= v.len(),
            forall|j: int| 0 <= j < i
                ==> migs_view(v@)[m as int].version <= (#[trigger] migs_view(v@)[j]).version,
        decreases v.len() - i,
    {
        if v[i].version < v[m].version {
            m = i;
        }
        i = i + 1;
    }
    m
}

proof fn lemma_migs_view_push(s: Seq<Migration>, xm: MigrationModel)
    ensures
        forall|x: Migration| x@ == xm ==> migs_view(#[trigger] s.push(x)) == migs_view(s).push(xm),
{
    assert forall|x: Migration| x@ == xm implies migs_view(#[trigger] s.push(x)) == migs_view(
        s,
    ).push(xm) by {
        assert forall|k: int| 0 <= k < migs_view(s.push(x)).len()
            implies migs_view(s.push(x))[k] == migs_view(s).push(xm)[k] by {
            if k < s.len() {
                assert(s.push(x)[k] == s[k]);
            } else {
                assert(s.push(x)[k] == x);
            }
        }
        assert(migs_view(s.push(x)) =~= migs_view(s).push(xm));
    }
}

proof fn lemma_migs_view_remove(s: Seq<Migration>, i: int)
    requires
        0 <= i < s.len(),
    ensures
        migs_view(s.remove(i)) == migs_view(s).remove(i),
{
    assert forall|k: int| 0 <= k < migs_view(s.remove(i)).len()
        implies migs_view(s.remove(i))[k] == migs_view(s).remove(i)[k] by {
        if k < i {
            assert(s.remove(i)[k] == s[k]);
        } else {
            assert(s.remove(i)[k] == s[k + 1]);
        }
    }
    assert(migs_view(s.remove(i)) =~= migs_view(s).remove(i));
}

} // verus!
