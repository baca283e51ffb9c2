//! Positions in a character sequence and the searches the lexer makes:
//! the line and column of a position, the first position at which a kind of
//! character stops a run, and the first occurrence of a pattern.
use vstd::prelude::*;
use crate::text::{is_white_space, is_whitespace};

verus! {

/// The line (from 1) of position `p`: one more than the line breaks before it.
pub open spec fn line_at(s: Seq<char>, p: int) -> int
    decreases p,
{
    if p <= 0 {
        1
    } else {
        line_at(s, p - 1) + (if s[p - 1] == '\n' {
            1int
        } else {
            0int
        })
    }
}

/// The column (from 1) of position `p`: one more than the characters since
/// the last line break before it.
pub open spec fn col_at(s: Seq<char>, p: int) -> int
    decreases p,
{
    if p <= 0 {
        1
    } else if s[p - 1] == '\n' {
        1
    } else {
        col_at(s, p - 1) + 1
    }
}

/// Line and column never exceed one more than the position.
pub proof fn lemma_line_col_bounds(s: Seq<char>, p: int)
    requires
        0 <= p,
    ensures
        1 <= line_at(s, p) <= p + 1,
        1 <= col_at(s, p) <= p + 1,
    decreases p,
{
    if p > 0 {
        lemma_line_col_bounds(s, p - 1);
    }
}

/// The kinds of character that end a run the lexer reads.
#[derive(Clone, Copy)]
pub enum Stop {
    /// `<`, which ends text.
    Lt,
    /// White space, `>` or `/`, which end a tag name.
    NameEnd,
    /// `=`, white space, `>` or `/`, which end an attribute name.
    KeyEnd,
    /// Anything but white space.
    NonSpace,
    /// White space.
    Space,
    /// The given character.
    Char(char),
}

/// Whether `c` ends a run of kind `k`.
pub open spec fn stops(k: Stop, c: char) -> bool {
    match k {
        Stop::Lt => c == '<',
        Stop::NameEnd => is_white_space(c) || c == '>' || c == '/',
        Stop::KeyEnd => c == '=' || is_white_space(c) || c == '>' || c == '/',
        Stop::NonSpace => !is_white_space(c),
        Stop::Space => is_white_space(c),
        Stop::Char(x) => c == x,
    }
}

/// The first position from `p` on whose character ends a run of kind `k`,
/// or the length of `s` if there is none.
pub open spec fn scan_to(s: Seq<char>, p: int, k: Stop) -> int
    decreases s.len() - p,
{
    if p < 0 || p >= s.len() {
        s.len() as int
    } else if stops(k, s[p]) {
        p
    } else {
        scan_to(s, p + 1, k)
    }
}

/// `scan_to` lands between its start and the end, passes only characters
/// that do not stop it, and stops on one that does.
pub proof fn lemma_scan_to(s: Seq<char>, p: int, k: Stop)
    requires
        0 <= p <= s.len(),
    ensures
        p <= scan_to(s, p, k) <= s.len(),
        forall|q: int| p <= q < scan_to(s, p, k) ==> !stops(k, #[trigger] s[q]),
        scan_to(s, p, k) < s.len() ==> stops(k, s[scan_to(s, p, k)]),
    decreases s.len() - p,
{
    if p < s.len() && !stops(k, s[p]) {
        lemma_scan_to(s, p + 1, k);
    }
}

/// Whether `pat` occurs in `s` at position `p`.
pub open spec fn starts_at(s: Seq<char>, p: int, pat: Seq<char>) -> bool {
    0 <= p && p + pat.len() <= s.len() && s.subrange(p, p + pat.len()) == pat
}

/// The first position from `p` on at which `pat` occurs in `s`, if any.
pub open spec fn find_at(s: Seq<char>, p: int, pat: Seq<char>) -> Option<int>
    decreases s.len() + 1 - p,
{
    if p < 0 || p + pat.len() > s.len() {
        None
    } else if starts_at(s, p, pat) {
        Some(p)
    } else {
        find_at(s, p + 1, pat)
    }
}

/// A found occurrence lies at or after the start and fits in `s`.
pub proof fn lemma_find_at(s: Seq<char>, p: int, pat: Seq<char>)
    requires
        0 <= p,
    ensures
        find_at(s, p, pat) matches Some(e) ==> p <= e && e + pat.len() <= s.len() && starts_at(
            s,
            e,
            pat,
        ),
    decreases s.len() + 1 - p,
{
    if p + pat.len() <= s.len() && !starts_at(s, p, pat) {
        lemma_find_at(s, p + 1, pat);
    }
}

/// Whether `c` ends a run of kind `k`.
pub(crate) fn hits(k: Stop, c: char) -> (r: bool)
    ensures
        r == stops(k, c),
{
    match k {
        Stop::Lt => c == '<',
        Stop::NameEnd => is_whitespace(c) || c == '>' || c == '/',
        Stop::KeyEnd => c == '=' || is_whitespace(c) || c == '>' || c == '/',
        Stop::NonSpace => !is_whitespace(c),
        Stop::Space => is_whitespace(c),
        Stop::Char(x) => c == x,
    }
}

/// The first position from `p` on whose character ends a run of kind `k`,
/// or `v.len()`.
pub(crate) fn scan_vec(v: &Vec<char>, p: usize, k: Stop) -> (r: usize)
    requires
        p <= v.len(),
    ensures
        r == scan_to(v@, p as int, k),
        p <= r <= v.len(),
{
    proof {
        lemma_scan_to(v@, p as int, k);
    }
    let mut q = p;
    while q < v.len() && !hits(k, v[q])
        invariant
            p <= q <= v.len(),
            scan_to(v@, p as int, k) == scan_to(v@, q as int, k),
        decreases v.len() - q,
    {
        q += 1;
    }
    q
}

/// Whether `pat` occurs in `v` at position `at`.
pub(crate) fn matches_at(v: &Vec<char>, at: usize, pat: &Vec<char>) -> (r: bool)
    requires
        at <= v.len(),
    ensures
        r == starts_at(v@, at as int, pat@),
{
    if pat.len() > v.len() - at {
        return false;
    }
    let mut j: usize = 0;
    while j < pat.len()
        invariant
            at + pat.len() <= v.len(),
            j <= pat.len(),
            forall|m: int| 0 <= m < j ==> v@[at + m] == pat@[m],
        decreases pat.len() - j,
    {
        if v[at + j] != pat[j] {
            assert(v@.subrange(at as int, at + pat.len())[j as int] != pat@[j as int]);
            return false;
        }
        j += 1;
    }
    assert(v@.subrange(at as int, at + pat.len()) =~= pat@);
    true
}

/// The first position from `at` on at which `pat` occurs in `v`, if any.
pub(crate) fn find_vec(v: &Vec<char>, at: usize, pat: &Vec<char>) -> (r: Option<usize>)
    requires
        at <= v.len(),
    ensures
        r matches Some(e) ==> find_at(v@, at as int, pat@) == Some(e as int),
        r is None ==> find_at(v@, at as int, pat@) is None,
{
    let mut p = at;
    while pat.len() <= v.len() - p
        invariant
            at <= p <= v.len(),
            find_at(v@, at as int, pat@) == find_at(v@, p as int, pat@),
        decreases v.len() - p,
    {
        if matches_at(v, p, pat) {
            return Some(p);
        }
        proof {
            if p == v.len() {
                assert(v@.subrange(p as int, p as int) =~= pat@);
            }
        }
        p += 1;
    }
    None
}

/// The line breaks in `t`.
pub open spec fn count_newlines(t: Seq<char>) -> int
    decreases t.len(),
{
    if t.len() == 0 {
        0
    } else {
        count_newlines(t.drop_last()) + (if t.last() == '\n' {
            1int
        } else {
            0int
        })
    }
}

/// `r` is the last line break before `q`.
pub open spec fn last_break_before(s: Seq<char>, r: int, q: int) -> bool {
    &&& 0 <= r < q
    &&& s[r] == '\n'
    &&& forall|j: int| r < j < q ==> s[j] != '\n'
}

/// Going from `p` to `q` adds to the line the line breaks passed; the column
/// counts on from that of `p` when none is passed, and from the last one passed
/// otherwise.
pub proof fn lemma_line_col_span(s: Seq<char>, p: int, q: int)
    requires
        0 <= p <= q <= s.len(),
    ensures
        line_at(s, q) == line_at(s, p) + count_newlines(s.subrange(p, q)),
        (forall|j: int| p <= j < q ==> s[j] != '\n') ==> col_at(s, q) == col_at(s, p) + (q - p),
        forall|r: int| p <= r && #[trigger] last_break_before(s, r, q) ==> col_at(s, q) == q - r,
    decreases q - p,
{
    if p < q {
        lemma_line_col_span(s, p, q - 1);
        assert(s.subrange(p, q).drop_last() =~= s.subrange(p, q - 1));
        assert forall|r: int| p <= r && #[trigger] last_break_before(s, r, q) implies col_at(s, q)
            == q - r by {
            if r < q - 1 {
                assert(s[q - 1] != '\n');
                assert(last_break_before(s, r, q - 1));
            }
        }
    }
}

/// The first occurrence of `pat` from `p` on is at `e` when it occurs at `e`
/// and at no position from `p` up to `e`.
pub proof fn lemma_find_at_first(s: Seq<char>, p: int, e: int, pat: Seq<char>)
    requires
        0 <= p <= e,
        starts_at(s, e, pat),
        forall|j: int| p <= j < e ==> !#[trigger] starts_at(s, j, pat),
    ensures
        find_at(s, p, pat) == Some(e),
    decreases e - p,
{
    if p < e {
        lemma_find_at_first(s, p + 1, e, pat);
    }
}

/// Whether line `l1`, column `c1` comes no later than line `l2`, column `c2`.
pub open spec fn pos_le(l1: int, c1: int, l2: int, c2: int) -> bool {
    l1 < l2 || (l1 == l2 && c1 <= c2)
}

/// Positions further on have later (or equal) lines and columns.
pub proof fn lemma_pos_monotone(s: Seq<char>, p: int, q: int)
    requires
        0 <= p <= q <= s.len(),
    ensures
        pos_le(line_at(s, p), col_at(s, p), line_at(s, q), col_at(s, q)),
    decreases q - p,
{
    if p < q {
        lemma_pos_monotone(s, p, q - 1);
    }
}

/// `scan_to` stops at the first position that stops it.
pub proof fn lemma_scan_to_first(s: Seq<char>, p: int, k: int, stop: Stop)
    requires
        0 <= p <= k <= s.len(),
        forall|j: int| p <= j < k ==> !stops(stop, #[trigger] s[j]),
        k == s.len() || stops(stop, s[k]),
    ensures
        scan_to(s, p, stop) == k,
    decreases k - p,
{
    if p < k {
        lemma_scan_to_first(s, p + 1, k, stop);
    }
}

} // verus!
