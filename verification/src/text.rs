//! Character-sequence utilities shared by the classifier, the scanner and the
//! watcher pipeline: prefix/suffix tests, substring search, whitespace
//! trimming and lexicographic ordering.

use vstd::prelude::*;
use vstd::string::StrSliceExecFns;

verus! {

/// `p` is a prefix of `s`.
pub open spec fn is_prefix_of(p: Seq<char>, s: Seq<char>) -> bool {
    p.len() <= s.len() && s.subrange(0, p.len() as int) == p
}

/// `p` is a suffix of `s`.
pub open spec fn is_suffix_of(p: Seq<char>, s: Seq<char>) -> bool {
    p.len() <= s.len() && s.subrange(s.len() - p.len(), s.len() as int) == p
}

/// `pat` occurs in `s` starting at index `i`.
pub open spec fn occurs_at(s: Seq<char>, pat: Seq<char>, i: int) -> bool {
    0 <= i && i + pat.len() <= s.len() && s.subrange(i, i + pat.len()) == pat
}

/// Index of the first occurrence of `pat` in `s` at or after `i`.
pub open spec fn find_from(s: Seq<char>, pat: Seq<char>, i: int) -> Option<int>
    decreases s.len() - i + 1,
{
    if i < 0 || i + pat.len() > s.len() {
        None
    } else if occurs_at(s, pat, i) {
        Some(i)
    } else {
        find_from(s, pat, i + 1)
    }
}

/// `find_from` returns the first occurrence: a hit is an occurrence preceded
/// by none, and a miss means there is no occurrence at all.
pub proof fn lemma_find_from(s: Seq<char>, pat: Seq<char>, i: int)
    requires
        0 <= i,
    ensures
        match find_from(s, pat, i) {
            Some(j) => i <= j && occurs_at(s, pat, j) && (forall|k: int|
                i <= k < j ==> !occurs_at(s, pat, k)),
            None => forall|k: int| i <= k ==> !occurs_at(s, pat, k),
        },
    decreases s.len() - i + 1,
{
    if i + pat.len() > s.len() {
        assert forall|k: int| i <= k implies !occurs_at(s, pat, k) by {}
    } else if occurs_at(s, pat, i) {
    } else {
        lemma_find_from(s, pat, i + 1);
    }
}

/// Two string slices are equal exactly when their views are.
pub fn str_eq(a: &str, b: &str) -> (r: bool)
    ensures
        r == (a@ == b@),
{
    let na = a.unicode_len();
    let nb = b.unicode_len();
    if na != nb {
        return false;
    }
    let mut i: usize = 0;
    while i < na
        invariant
            na == a@.len(),
            na == b@.len(),
            i <= na,
            forall|k: int| 0 <= k < i ==> a@[k] == b@[k],
        decreases na - i,
    {
        if a.get_char(i) != b.get_char(i) {
            return false;
        }
        i += 1;
    }
    proof {
        assert(a@ =~= b@);
    }
    true
}

/// `s` starts with `p` exactly when `p@` is a prefix of `s@`.
pub fn str_starts_with(s: &str, p: &str) -> (r: bool)
    ensures
        r == is_prefix_of(p@, s@),
{
    let np = p.unicode_len();
    let ns = s.unicode_len();
    if np > ns {
        return false;
    }
    let mut i: usize = 0;
    while i < np
        invariant
            np == p@.len(),
            ns == s@.len(),
            np <= ns,
            i <= np,
            forall|k: int| 0 <= k < i ==> s@[k] == p@[k],
        decreases np - i,
    {
        if s.get_char(i) != p.get_char(i) {
            proof {
                if is_prefix_of(p@, s@) {
                    assert(s@.subrange(0, np as int)[i as int] == s@[i as int]);
                }
            }
            return false;
        }
        i += 1;
    }
    proof {
        assert(s@.subrange(0, np as int) =~= p@);
    }
    true
}

/// `s` ends with `p` exactly when `p@` is a suffix of `s@`.
pub fn str_ends_with(s: &str, p: &str) -> (r: bool)
    ensures
        r == is_suffix_of(p@, s@),
{
    let np = p.unicode_len();
    let ns = s.unicode_len();
    if np > ns {
        return false;
    }
    let off: usize = ns - np;
    let mut i: usize = 0;
    while i < np
        invariant
            np == p@.len(),
            ns == s@.len(),
            np <= ns,
            off == ns - np,
            i <= np,
            forall|k: int| 0 <= k < i ==> s@[off + k] == p@[k],
        decreases np - i,
    {
        if s.get_char(off + i) != p.get_char(i) {
            proof {
                if is_suffix_of(p@, s@) {
                    assert(s@.subrange(ns - np, ns as int)[i as int] == s@[off + i]);
                }
            }
            return false;
        }
        i += 1;
    }
    proof {
        assert(s@.subrange(ns - np, ns as int) =~= p@);
    }
    true
}

/// The characters between `at` and `at + pat.len()` in `s` are exactly `pat`.
pub fn range_matches(s: &str, at: usize, pat: &str) -> (r: bool)
    requires
        at + pat@.len() <= s@.len(),
    ensures
        r == occurs_at(s@, pat@, at as int),
{
    let np = pat.unicode_len();
    let ns = s.unicode_len();
    let mut i: usize = 0;
    while i < np
        invariant
            np == pat@.len(),
            ns == s@.len(),
            at + np <= ns,
            i <= np,
            forall|k: int| 0 <= k < i ==> s@[at + k] == pat@[k],
        decreases np - i,
    {
        if s.get_char(at + i) != pat.get_char(i) {
            proof {
                if occurs_at(s@, pat@, at as int) {
                    assert(s@.subrange(at as int, at + np)[i as int] == s@[at + i]);
                }
            }
            return false;
        }
        i += 1;
    }
    proof {
        assert(s@.subrange(at as int, at + np) =~= pat@);
    }
    true
}

/// First occurrence of `pat` in `s` at or after `from`, as `find_from` gives it.
pub fn find_str(s: &str, pat: &str, from: usize) -> (r: Option<usize>)
    ensures
        match r {
            Some(j) => find_from(s@, pat@, from as int) == Some(j as int),
            None => find_from(s@, pat@, from as int) is None,
        },
{
    let ns = s.unicode_len();
    let np = pat.unicode_len();
    if np > ns {
        return None;
    }
    let lim: usize = ns - np;
    if from > lim {
        return None;
    }
    let mut j: usize = from;
    while j <= lim
        invariant
            ns == s@.len(),
            np == pat@.len(),
            np <= ns,
            lim == ns - np,
            from <= j,
            j <= lim + 1,
            find_from(s@, pat@, from as int) == find_from(s@, pat@, j as int),
        decreases lim + 1 - j,
    {
        if range_matches(s, j, pat) {
            return Some(j);
        }
        proof {
            if np == 0 {
                assert(s@.subrange(j as int, j as int) =~= pat@);
            }
            assert(find_from(s@, pat@, j as int) == find_from(s@, pat@, j + 1));
        }
        j += 1;
    }
    None
}

/// Whitespace characters trimmed from line ends.
pub open spec fn is_space_char(c: char) -> bool {
    c == ' ' || c == '\t' || c == '\n' || c == '\r' || c == '\u{000B}' || c == '\u{000C}'
}

/// Executable counterpart of `is_space_char`.
pub fn is_space(c: char) -> (r: bool)
    ensures
        r == is_space_char(c),
{
    c == ' ' || c == '\t' || c == '\n' || c == '\r' || c == '\u{000B}' || c == '\u{000C}'
}

/// `s` without its leading whitespace.
pub open spec fn trim_start_spec(s: Seq<char>) -> Seq<char>
    decreases s.len(),
{
    if s.len() > 0 && is_space_char(s[0]) {
        trim_start_spec(s.drop_first())
    } else {
        s
    }
}

/// `s` without its trailing whitespace.
pub open spec fn trim_end_spec(s: Seq<char>) -> Seq<char>
    decreases s.len(),
{
    if s.len() > 0 && is_space_char(s.last()) {
        trim_end_spec(s.drop_last())
    } else {
        s
    }
}

/// `s` without leading and trailing whitespace.
pub open spec fn trim_spec(s: Seq<char>) -> Seq<char> {
    trim_end_spec(trim_start_spec(s))
}

/// If the first `m` characters are whitespace and the next one is not,
/// trimming the start drops exactly those `m` characters.
proof fn lemma_trim_start_at(s: Seq<char>, m: int)
    requires
        0 <= m <= s.len(),
        forall|k: int| 0 <= k < m ==> is_space_char(s[k]),
        m == s.len() || !is_space_char(s[m]),
    ensures
        trim_start_spec(s) == s.subrange(m, s.len() as int),
    decreases m,
{
    if m == 0 {
        assert(s.subrange(0, s.len() as int) =~= s);
    } else {
        lemma_trim_start_at(s.drop_first(), m - 1);
        assert(s.drop_first().subrange(m - 1, s.drop_first().len() as int) =~= s.subrange(
            m,
            s.len() as int,
        ));
    }
}

/// If the characters from `m` on are whitespace and the one before `m` is
/// not, trimming the end keeps exactly the first `m` characters.
proof fn lemma_trim_end_at(s: Seq<char>, m: int)
    requires
        0 <= m <= s.len(),
        forall|k: int| m <= k < s.len() ==> is_space_char(s[k]),
        m == 0 || !is_space_char(s[m - 1]),
    ensures
        trim_end_spec(s) == s.subrange(0, m),
    decreases s.len() - m,
{
    if m == s.len() {
        assert(s.subrange(0, s.len() as int) =~= s);
    } else {
        assert(s.last() == s[s.len() - 1]);
        lemma_trim_end_at(s.drop_last(), m);
        assert(s.drop_last().subrange(0, m) =~= s.subrange(0, m));
    }
}

/// Bounds of the whitespace-trimmed middle of `s[lo..hi]`.
pub fn trim_bounds(s: &str, lo: usize, hi: usize) -> (res: (usize, usize))
    requires
        lo <= hi,
        hi <= s@.len(),
    ensures
        lo <= res.0 <= res.1 <= hi,
        trim_spec(s@.subrange(lo as int, hi as int)) == s@.subrange(res.0 as int, res.1 as int),
{
    let mut a: usize = lo;
    while a < hi && is_space(s.get_char(a))
        invariant
            lo <= a <= hi,
            hi <= s@.len(),
            forall|k: int| lo <= k < a ==> is_space_char(s@[k]),
        decreases hi - a,
    {
        a += 1;
    }
    let mut b: usize = hi;
    while b > a && is_space(s.get_char(b - 1))
        invariant
            a <= b <= hi,
            hi <= s@.len(),
            forall|k: int| b <= k < hi ==> is_space_char(s@[k]),
        decreases b,
    {
        b -= 1;
    }
    proof {
        let sub = s@.subrange(lo as int, hi as int);
        assert forall|k: int| 0 <= k < a - lo implies is_space_char(sub[k]) by {
            assert(sub[k] == s@[lo + k]);
        }
        if a < hi {
            assert(sub[a - lo] == s@[a as int]);
        }
        lemma_trim_start_at(sub, a - lo);
        let t1 = sub.subrange(a - lo, sub.len() as int);
        assert(t1 =~= s@.subrange(a as int, hi as int));
        assert forall|k: int| b - a <= k < t1.len() implies is_space_char(t1[k]) by {
            assert(t1[k] == s@[a + k]);
        }
        if b > a {
            assert(t1[b - a - 1] == s@[b - 1]);
        }
        lemma_trim_end_at(t1, b - a);
        assert(t1.subrange(0, b - a) =~= s@.subrange(a as int, b as int));
    }
    (a, b)
}

/// The whitespace-trimmed middle of `s[lo..hi]` equals `pat`.
pub fn trimmed_range_eq(s: &str, lo: usize, hi: usize, pat: &str) -> (r: bool)
    requires
        lo <= hi,
        hi <= s@.len(),
    ensures
        r == (trim_spec(s@.subrange(lo as int, hi as int)) == pat@),
{
    let bounds = trim_bounds(s, lo, hi);
    let a = bounds.0;
    let b = bounds.1;
    let np = pat.unicode_len();
    if b - a != np {
        proof {
            assert(s@.subrange(a as int, b as int).len() == b - a);
        }
        return false;
    }
    let r = range_matches(s, a, pat);
    proof {
        assert(s@.subrange(a as int, a + np) =~= s@.subrange(a as int, b as int));
    }
    r
}

/// Lexicographic order on character sequences, by scalar value.
pub open spec fn lex_leq(a: Seq<char>, b: Seq<char>) -> bool
    decreases a.len(),
{
    if a.len() == 0 {
        true
    } else if b.len() == 0 {
        false
    } else if a[0] == b[0] {
        lex_leq(a.drop_first(), b.drop_first())
    } else {
        (a[0] as u32) < (b[0] as u32)
    }
}

/// Any two sequences are ordered one way or the other.
pub proof fn lemma_lex_total(a: Seq<char>, b: Seq<char>)
    ensures
        lex_leq(a, b) || lex_leq(b, a),
    decreases a.len(),
{
    if a.len() == 0 || b.len() == 0 {
    } else if a[0] == b[0] {
        lemma_lex_total(a.drop_first(), b.drop_first());
    } else {
        if (a[0] as u32) == (b[0] as u32) {
            vstd::utf8::char_u32_cast(a[0], a[0] as u32);
            vstd::utf8::char_u32_cast(b[0], b[0] as u32);
            assert(a[0] == b[0]);
        }
    }
}

/// Lexicographic order is transitive.
pub proof fn lemma_lex_trans(a: Seq<char>, b: Seq<char>, c: Seq<char>)
    requires
        lex_leq(a, b),
        lex_leq(b, c),
    ensures
        lex_leq(a, c),
    decreases a.len(),
{
    if a.len() == 0 {
    } else if b.len() == 0 {
    } else if c.len() == 0 {
    } else {
        if a[0] == b[0] && b[0] == c[0] {
            lemma_lex_trans(a.drop_first(), b.drop_first(), c.drop_first());
        }
    }
}

/// Executable lexicographic comparison of two string slices.
pub fn str_leq(a: &str, b: &str) -> (r: bool)
    ensures
        r == lex_leq(a@, b@),
{
    let na = a.unicode_len();
    let nb = b.unicode_len();
    proof {
        assert(a@.subrange(0, na as int) =~= a@);
        assert(b@.subrange(0, nb as int) =~= b@);
    }
    let mut i: usize = 0;
    while i < na && i < nb
        invariant
            na == a@.len(),
            nb == b@.len(),
            i <= na,
            i <= nb,
            lex_leq(a@, b@) == lex_leq(
                a@.subrange(i as int, na as int),
                b@.subrange(i as int, nb as int),
            ),
        decreases na - i,
    {
        let ca = a.get_char(i);
        let cb = b.get_char(i);
        proof {
            let ra = a@.subrange(i as int, na as int);
            let rb = b@.subrange(i as int, nb as int);
            assert(ra[0] == a@[i as int]);
            assert(rb[0] == b@[i as int]);
            if ca == cb {
                assert(ra.drop_first() =~= a@.subrange(i + 1, na as int));
                assert(rb.drop_first() =~= b@.subrange(i + 1, nb as int));
            }
        }
        if ca != cb {
            return (ca as u32) < (cb as u32);
        }
        i += 1;
    }
    proof {
        let ra = a@.subrange(i as int, na as int);
        let rb = b@.subrange(i as int, nb as int);
        if na <= nb {
            assert(ra.len() == 0);
        } else {
            assert(rb.len() == 0);
            assert(ra.len() > 0);
        }
    }
    na <= nb
}

} // verus!
