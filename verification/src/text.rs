//! Character-level helpers shared by the lexer, the tree builder and the
//! printer: whitespace, trimming, escaping, decimal rendering and the
//! conversions between `str`/`String` and character vectors.
use vstd::prelude::*;
use crate::scan::starts_at;

verus! {

/// The Unicode `White_Space` property, which `char::is_whitespace` tests.
pub open spec fn is_white_space(c: char) -> bool {
    let u = c as u32;
    ||| 0x09 <= u <= 0x0d
    ||| u == 0x20
    ||| u == 0x85
    ||| u == 0xa0
    ||| u == 0x1680
    ||| 0x2000 <= u <= 0x200a
    ||| u == 0x2028
    ||| u == 0x2029
    ||| u == 0x202f
    ||| u == 0x205f
    ||| u == 0x3000
}

/// Whether `c` has the Unicode `White_Space` property (as `char::is_whitespace`).
pub fn is_whitespace(c: char) -> (b: bool)
    ensures
        b == is_white_space(c),
{
    let u = c as u32;
    (0x09 <= u && u <= 0x0d) || u == 0x20 || u == 0x85 || u == 0xa0 || u == 0x1680 || (0x2000
        <= u && u <= 0x200a) || u == 0x2028 || u == 0x2029 || u == 0x202f || u == 0x205f || u
        == 0x3000
}

/// `s` without its leading white space.
pub open spec fn trim_start(s: Seq<char>) -> Seq<char>
    decreases s.len(),
{
    if s.len() > 0 && is_white_space(s[0]) {
        trim_start(s.drop_first())
    } else {
        s
    }
}

/// `s` without its trailing white space.
pub open spec fn trim_end(s: Seq<char>) -> Seq<char>
    decreases s.len(),
{
    if s.len() > 0 && is_white_space(s.last()) {
        trim_end(s.drop_last())
    } else {
        s
    }
}

/// `s` without leading and trailing white space (as `str::trim`).
pub open spec fn trim(s: Seq<char>) -> Seq<char> {
    trim_end(trim_start(s))
}

/// The entity that stands for `c` in escaped text, or `c` itself.
pub open spec fn escape_char(c: char) -> Seq<char> {
    if c == '&' {
        seq!['&', 'a', 'm', 'p', ';']
    } else if c == '<' {
        seq!['&', 'l', 't', ';']
    } else if c == '>' {
        seq!['&', 'g', 't', ';']
    } else if c == '"' {
        seq!['&', 'q', 'u', 'o', 't', ';']
    } else if c == '\'' {
        seq!['&', 'a', 'p', 'o', 's', ';']
    } else {
        seq![c]
    }
}

/// `s` with each of `& < > " '` replaced by its entity.
pub open spec fn escape(s: Seq<char>) -> Seq<char>
    decreases s.len(),
{
    if s.len() == 0 {
        Seq::empty()
    } else {
        escape(s.drop_last()) + escape_char(s.last())
    }
}

/// The decimal digit for `d < 10`.
pub open spec fn digit_char(d: nat) -> char {
    if d == 0 {
        '0'
    } else if d == 1 {
        '1'
    } else if d == 2 {
        '2'
    } else if d == 3 {
        '3'
    } else if d == 4 {
        '4'
    } else if d == 5 {
        '5'
    } else if d == 6 {
        '6'
    } else if d == 7 {
        '7'
    } else if d == 8 {
        '8'
    } else {
        '9'
    }
}

/// The decimal representation of `n`, without leading zeros.
pub open spec fn decimal(n: nat) -> Seq<char>
    decreases n,
{
    if n < 10 {
        seq![digit_char(n)]
    } else {
        decimal(n / 10).push(digit_char(n % 10))
    }
}

/// Appends `c` to `s` (`String::push`).
#[verifier::external_body]
pub(crate) fn push_char(s: &mut String, c: char)
    ensures
        final(s)@ == old(s)@.push(c),
{
    s.push(c);
}

/// The characters of `s`, in order.
pub(crate) fn chars_of(s: &str) -> (v: Vec<char>)
    ensures
        v@ == s@,
{
    let mut v: Vec<char> = Vec::new();
    for c in it: s.chars()
        invariant
            v@ == it.seq().take(it.index() as int),
            it.seq() == s@,
    {
        v.push(c);
    }
    v
}

/// A string made of `v[lo..hi]`.
pub(crate) fn string_of(v: &Vec<char>, lo: usize, hi: usize) -> (s: String)
    requires
        lo <= hi <= v.len(),
    ensures
        s@ == v@.subrange(lo as int, hi as int),
{
    let mut s = String::new();
    let mut i = lo;
    while i < hi
        invariant
            lo <= i <= hi <= v.len(),
            s@ == v@.subrange(lo as int, i as int),
        decreases hi - i,
    {
        push_char(&mut s, v[i]);
        i += 1;
        assert(s@ =~= v@.subrange(lo as int, i as int));
    }
    s
}

/// Appends every character of `v` to `out`.
pub(crate) fn push_chars(out: &mut String, v: &Vec<char>)
    ensures
        final(out)@ == old(out)@ + v@,
{
    let mut i: usize = 0;
    while i < v.len()
        invariant
            i <= v.len(),
            out@ == old(out)@ + v@.take(i as int),
        decreases v.len() - i,
    {
        push_char(out, v[i]);
        i += 1;
        assert(out@ =~= old(out)@ + v@.take(i as int));
    }
    assert(v@.take(v.len() as int) =~= v@);
}

/// Appends the characters of `s` to `out`.
pub(crate) fn push_str(out: &mut String, s: &str)
    ensures
        final(out)@ == old(out)@ + s@,
{
    let v = chars_of(s);
    push_chars(out, &v);
}

/// Whether the two character sequences are equal.
pub(crate) fn chars_eq(a: &Vec<char>, b: &Vec<char>) -> (r: bool)
    ensures
        r == (a@ == b@),
{
    if a.len() != b.len() {
        return false;
    }
    let mut i: usize = 0;
    while i < a.len()
        invariant
            a.len() == b.len(),
            i <= a.len(),
            a@.take(i as int) == b@.take(i as int),
        decreases a.len() - i,
    {
        if a[i] != b[i] {
            assert(a@[i as int] != b@[i as int]);
            return false;
        }
        assert(a@.take(i + 1) =~= a@.take(i as int).push(a@[i as int]));
        assert(b@.take(i + 1) =~= b@.take(i as int).push(b@[i as int]));
        i += 1;
    }
    assert(a@ =~= a@.take(a.len() as int));
    assert(b@ =~= b@.take(b.len() as int));
    true
}

/// Whether the two strings hold the same characters.
pub(crate) fn str_eq(a: &str, b: &str) -> (r: bool)
    ensures
        r == (a@ == b@),
{
    let va = chars_of(a);
    let vb = chars_of(b);
    chars_eq(&va, &vb)
}

proof fn lemma_trim_start_step(s: Seq<char>, lo: int, hi: int)
    requires
        0 <= lo < hi <= s.len(),
        is_white_space(s[lo]),
    ensures
        trim_start(s.subrange(lo, hi)) == trim_start(s.subrange(lo + 1, hi)),
{
    assert(s.subrange(lo, hi).drop_first() =~= s.subrange(lo + 1, hi));
}

proof fn lemma_trim_end_step(s: Seq<char>, lo: int, hi: int)
    requires
        0 <= lo < hi <= s.len(),
        is_white_space(s[hi - 1]),
    ensures
        trim_end(s.subrange(lo, hi)) == trim_end(s.subrange(lo, hi - 1)),
{
    assert(s.subrange(lo, hi).drop_last() =~= s.subrange(lo, hi - 1));
}

/// The bounds of `v[lo..hi]` with white space trimmed from both ends.
pub(crate) fn trim_bounds(v: &Vec<char>, lo: usize, hi: usize) -> (r: (usize, usize))
    requires
        lo <= hi <= v.len(),
    ensures
        lo <= r.0 <= r.1 <= hi,
        v@.subrange(r.0 as int, r.1 as int) == trim(v@.subrange(lo as int, hi as int)),
{
    let mut a = lo;
    while a < hi && is_whitespace(v[a])
        invariant
            lo <= a <= hi <= v.len(),
            trim_start(v@.subrange(lo as int, hi as int)) == trim_start(
                v@.subrange(a as int, hi as int),
            ),
        decreases hi - a,
    {
        proof {
            lemma_trim_start_step(v@, a as int, hi as int);
        }
        a += 1;
    }
    let mut b = hi;
    while b > a && is_whitespace(v[b - 1])
        invariant
            lo <= a <= b <= hi <= v.len(),
            trim_start(v@.subrange(lo as int, hi as int)) == v@.subrange(a as int, hi as int),
            trim(v@.subrange(lo as int, hi as int)) == trim_end(v@.subrange(a as int, b as int)),
        decreases b - a,
    {
        proof {
            lemma_trim_end_step(v@, a as int, b as int);
        }
        b -= 1;
    }
    (a, b)
}

/// `s` with white space trimmed from both ends (as `str::trim`).
pub fn trimmed(s: &str) -> (r: String)
    ensures
        r@ == trim(s@),
{
    let v = chars_of(s);
    let (a, b) = trim_bounds(&v, 0, v.len());
    assert(v@.subrange(0, v.len() as int) =~= v@);
    string_of(&v, a, b)
}

/// Appends the entity for `c`, or `c` itself, to `out`.
fn push_escaped_char(out: &mut String, c: char)
    ensures
        final(out)@ == old(out)@ + escape_char(c),
{
    let ghost start = out@;
    if c == '&' {
        push_char(out, '&');
        push_char(out, 'a');
        push_char(out, 'm');
        push_char(out, 'p');
        push_char(out, ';');
    } else if c == '<' {
        push_char(out, '&');
        push_char(out, 'l');
        push_char(out, 't');
        push_char(out, ';');
    } else if c == '>' {
        push_char(out, '&');
        push_char(out, 'g');
        push_char(out, 't');
        push_char(out, ';');
    } else if c == '"' {
        push_char(out, '&');
        push_char(out, 'q');
        push_char(out, 'u');
        push_char(out, 'o');
        push_char(out, 't');
        push_char(out, ';');
    } else if c == '\'' {
        push_char(out, '&');
        push_char(out, 'a');
        push_char(out, 'p');
        push_char(out, 'o');
        push_char(out, 's');
        push_char(out, ';');
    } else {
        push_char(out, c);
    }
    assert(out@ =~= start + escape_char(c));
}

/// Appends `escape(v[lo..hi])` to `out`.
pub(crate) fn push_escaped(out: &mut String, v: &Vec<char>, lo: usize, hi: usize)
    requires
        lo <= hi <= v.len(),
    ensures
        final(out)@ == old(out)@ + escape(v@.subrange(lo as int, hi as int)),
{
    let mut i = lo;
    while i < hi
        invariant
            lo <= i <= hi <= v.len(),
            out@ == old(out)@ + escape(v@.subrange(lo as int, i as int)),
        decreases hi - i,
    {
        let ghost before = out@;
        push_escaped_char(out, v[i]);
        assert(v@.subrange(lo as int, i + 1).drop_last() =~= v@.subrange(lo as int, i as int));
        i += 1;
        assert(out@ =~= old(out)@ + escape(v@.subrange(lo as int, i as int)));
    }
}

/// `input` with each of `& < > " '` replaced by its entity, so that the
/// result can stand in text or in a quoted attribute value.
pub fn escape_attr(input: &str) -> (r: String)
    ensures
        r@ == escape(input@),
{
    let v = chars_of(input);
    let mut out = String::new();
    push_escaped(&mut out, &v, 0, v.len());
    assert(v@.subrange(0, v.len() as int) =~= v@);
    assert(out@ =~= escape(input@));
    out
}

/// The digit character for `d < 10`.
fn digit(d: usize) -> (c: char)
    requires
        d < 10,
    ensures
        c == digit_char(d as nat),
{
    if d == 0 {
        '0'
    } else if d == 1 {
        '1'
    } else if d == 2 {
        '2'
    } else if d == 3 {
        '3'
    } else if d == 4 {
        '4'
    } else if d == 5 {
        '5'
    } else if d == 6 {
        '6'
    } else if d == 7 {
        '7'
    } else if d == 8 {
        '8'
    } else {
        '9'
    }
}

/// Appends the decimal representation of `n` to `out`.
pub(crate) fn push_decimal(out: &mut String, n: usize)
    ensures
        final(out)@ == old(out)@ + decimal(n as nat),
    decreases n,
{
    if n < 10 {
        push_char(out, digit(n));
        assert(out@ =~= old(out)@ + decimal(n as nat));
    } else {
        push_decimal(out, n / 10);
        push_char(out, digit(n % 10));
        assert(out@ =~= old(out)@ + decimal(n as nat));
    }
}

} // verus!
verus! {

/// A string holding the characters of `s`.
pub(crate) fn string_from(s: &str) -> (r: String)
    ensures
        r@ == s@,
{
    let mut r = String::new();
    push_str(&mut r, s);
    assert(r@ =~= s@);
    r
}

/// A copy of `v[lo..hi]`.
pub(crate) fn sub_vec(v: &Vec<char>, lo: usize, hi: usize) -> (r: Vec<char>)
    requires
        lo <= hi <= v.len(),
    ensures
        r@ == v@.subrange(lo as int, hi as int),
{
    let mut r: Vec<char> = Vec::new();
    let mut i = lo;
    while i < hi
        invariant
            lo <= i <= hi <= v.len(),
            r@ == v@.subrange(lo as int, i as int),
        decreases hi - i,
    {
        r.push(v[i]);
        i += 1;
        assert(r@ =~= v@.subrange(lo as int, i as int));
    }
    r
}

/// Whether `c` is one of the characters that escaping replaces, apart from `&`.
pub open spec fn is_markup_char(c: char) -> bool {
    c == '<' || c == '>' || c == '"' || c == '\''
}

/// Escaped text holds no `<`, `>`, `"` or `'`, so it cannot be read as
/// markup or end a quoted value; and text without any of `& < > " '` is
/// left as it is.
pub proof fn law_escape(s: Seq<char>)
    ensures
        forall|i: int| 0 <= i < escape(s).len() ==> !is_markup_char(#[trigger] escape(s)[i]),
        (forall|i: int| 0 <= i < s.len() ==> s[i] != '&' && !is_markup_char(#[trigger] s[i]))
            ==> escape(s) == s,
    decreases s.len(),
{
    if s.len() > 0 {
        law_escape(s.drop_last());
        let a = escape(s.drop_last());
        let b = escape_char(s.last());
        assert forall|i: int| 0 <= i < escape(s).len() implies !is_markup_char(
            #[trigger] escape(s)[i],
        ) by {
            if i < a.len() {
                assert(escape(s)[i] == a[i]);
            } else {
                assert(escape(s)[i] == b[i - a.len()]);
            }
        }
        if forall|i: int| 0 <= i < s.len() ==> s[i] != '&' && !is_markup_char(#[trigger] s[i]) {
            assert forall|i: int| 0 <= i < s.drop_last().len() implies s.drop_last()[i] != '&'
                && !is_markup_char(#[trigger] s.drop_last()[i]) by {
                assert(s.drop_last()[i] == s[i]);
            }
            assert(s[s.len() - 1] != '&' && !is_markup_char(s[s.len() - 1]));
            assert(s =~= s.drop_last().push(s.last()));
        }
    }
}

/// Text with the five entities that escaping writes (`&amp;`, `&lt;`,
/// `&gt;`, `&quot;`, `&apos;`) read back as the characters they stand for,
/// from left to right.
pub open spec fn unescape(s: Seq<char>) -> Seq<char>
    decreases s.len(),
{
    if s.len() == 0 {
        Seq::empty()
    } else if s.len() >= 5 && s.take(5) == seq!['&', 'a', 'm', 'p', ';'] {
        seq!['&'] + unescape(s.skip(5))
    } else if s.len() >= 4 && s.take(4) == seq!['&', 'l', 't', ';'] {
        seq!['<'] + unescape(s.skip(4))
    } else if s.len() >= 4 && s.take(4) == seq!['&', 'g', 't', ';'] {
        seq!['>'] + unescape(s.skip(4))
    } else if s.len() >= 6 && s.take(6) == seq!['&', 'q', 'u', 'o', 't', ';'] {
        seq!['"'] + unescape(s.skip(6))
    } else if s.len() >= 6 && s.take(6) == seq!['&', 'a', 'p', 'o', 's', ';'] {
        seq!['\''] + unescape(s.skip(6))
    } else {
        seq![s[0]] + unescape(s.drop_first())
    }
}

proof fn lemma_escape_front(s: Seq<char>)
    requires
        s.len() > 0,
    ensures
        escape(s) == escape_char(s[0]) + escape(s.drop_first()),
    decreases s.len(),
{
    if s.len() == 1 {
        assert(s.drop_last() =~= Seq::<char>::empty());
        assert(s.drop_first() =~= Seq::<char>::empty());
        assert(escape(s) =~= escape_char(s[0]) + escape(s.drop_first()));
    } else {
        lemma_escape_front(s.drop_last());
        assert(s.drop_last().drop_first() =~= s.drop_first().drop_last());
        assert(s.drop_first().last() == s.last());
        assert(escape(s) =~= escape_char(s[0]) + escape(s.drop_first()));
    }
}

proof fn lemma_unescape_entity(e: Seq<char>, rest: Seq<char>, c: char)
    requires
        e == escape_char(c),
    ensures
        unescape(e + rest) == seq![c] + unescape(rest),
{
    let x = e + rest;
    assert(x.take(e.len() as int) =~= e);
    assert(x.skip(e.len() as int) =~= rest);
    assert(x[0] == e[0]);
    if e.len() > 1 {
        assert(x[1] == e[1]);
        assert(x[2] == e[2]);
        assert(x[3] == e[3]);
    }
    if x.len() >= 5 {
        assert(x.take(5)[0] == x[0] && x.take(5)[1] == x[1] && x.take(5)[2] == x[2]);
    }
    if x.len() >= 4 {
        assert(x.take(4)[0] == x[0] && x.take(4)[1] == x[1]);
    }
    if x.len() >= 6 {
        assert(x.take(6)[0] == x[0] && x.take(6)[1] == x[1]);
    }
    if !is_markup_char(c) && c != '&' {
        assert(x.drop_first() =~= rest);
    }
}

/// Unescaping undoes escaping: `escape` loses nothing.
pub proof fn law_unescape_escape(s: Seq<char>)
    ensures
        unescape(escape(s)) == s,
    decreases s.len(),
{
    if s.len() > 0 {
        lemma_escape_front(s);
        law_unescape_escape(s.drop_first());
        lemma_unescape_entity(escape_char(s[0]), escape(s.drop_first()), s[0]);
        assert(s =~= seq![s[0]] + s.drop_first());
    }
}

/// Whether `c` is one of the five characters that escaping replaces.
pub open spec fn is_special(c: char) -> bool {
    c == '&' || is_markup_char(c)
}

/// Whether one of the five entities starts at position `i` of `s`.
pub open spec fn entity_at(s: Seq<char>, i: int) -> bool {
    ||| starts_at(s, i, escape_char('&'))
    ||| starts_at(s, i, escape_char('<'))
    ||| starts_at(s, i, escape_char('>'))
    ||| starts_at(s, i, escape_char('"'))
    ||| starts_at(s, i, escape_char('\''))
}

/// `s` with each occurrence of `pat` replaced by `rep`, scanning from the
/// left and not overlapping (as `str::replace`).
pub open spec fn replace_all(s: Seq<char>, pat: Seq<char>, rep: Seq<char>) -> Seq<char>
    decreases s.len(),
{
    if s.len() == 0 {
        Seq::empty()
    } else if pat.len() > 0 && starts_at(s, 0, pat) {
        rep + replace_all(s.skip(pat.len() as int), pat, rep)
    } else {
        seq![s[0]] + replace_all(s.drop_first(), pat, rep)
    }
}

/// Entities read back by replacing `&lt;`, `&gt;`, `&quot;` and `&apos;`,
/// then `&amp;`, each over the whole text.
pub open spec fn unescape_by_replace(s: Seq<char>) -> Seq<char> {
    let a = replace_all(s, escape_char('<'), seq!['<']);
    let b = replace_all(a, escape_char('>'), seq!['>']);
    let c = replace_all(b, escape_char('"'), seq!['"']);
    let d = replace_all(c, escape_char('\''), seq!['\'']);
    replace_all(d, escape_char('&'), seq!['&'])
}

/// `x` escaped, except that the characters in `done` are left as they are.
pub open spec fn stage(x: Seq<char>, done: Set<char>) -> Seq<char>
    decreases x.len(),
{
    if x.len() == 0 {
        Seq::empty()
    } else {
        (if done.contains(x[0]) {
            seq![x[0]]
        } else {
            escape_char(x[0])
        }) + stage(x.drop_first(), done)
    }
}

proof fn lemma_starts_shift(a: Seq<char>, b: Seq<char>, j: int, pat: Seq<char>)
    requires
        starts_at(b, j, pat),
    ensures
        starts_at(a + b, a.len() + j, pat),
{
    assert((a + b).subrange(a.len() + j, a.len() + j + pat.len()) =~= b.subrange(
        j,
        j + pat.len(),
    ));
}

proof fn lemma_starts_front(p: Seq<char>, t: Seq<char>)
    ensures
        starts_at(p + t, 0, p),
{
    assert((p + t).subrange(0, p.len() as int) =~= p);
}

/// Every `&` in escaped text starts one of the five entities.
pub proof fn law_escape_amp_entities(x: Seq<char>)
    ensures
        forall|i: int|
            0 <= i < escape(x).len() && #[trigger] escape(x)[i] == '&' ==> entity_at(
                escape(x),
                i,
            ),
    decreases x.len(),
{
    if x.len() > 0 {
        lemma_escape_front(x);
        law_escape_amp_entities(x.drop_first());
        let p = escape_char(x[0]);
        let r = escape(x.drop_first());
        assert forall|i: int|
            0 <= i < escape(x).len() && #[trigger] escape(x)[i] == '&' implies entity_at(
                escape(x),
                i,
            ) by {
            if i < p.len() {
                assert(escape(x)[i] == p[i]);
                assert(i == 0);
                lemma_starts_front(p, r);
            } else {
                let j = i - p.len();
                assert(escape(x)[i] == r[j]);
                assert(entity_at(r, j));
                if starts_at(r, j, escape_char('&')) {
                    lemma_starts_shift(p, r, j, escape_char('&'));
                } else if starts_at(r, j, escape_char('<')) {
                    lemma_starts_shift(p, r, j, escape_char('<'));
                } else if starts_at(r, j, escape_char('>')) {
                    lemma_starts_shift(p, r, j, escape_char('>'));
                } else if starts_at(r, j, escape_char('"')) {
                    lemma_starts_shift(p, r, j, escape_char('"'));
                } else {
                    lemma_starts_shift(p, r, j, escape_char('\''));
                }
            }
        }
    }
}

proof fn lemma_replace_plain(q: Seq<char>, t: Seq<char>, pat: Seq<char>, rep: Seq<char>)
    requires
        pat.len() > 0,
        pat[0] == '&',
        forall|i: int| 0 <= i < q.len() ==> #[trigger] q[i] != '&',
    ensures
        replace_all(q + t, pat, rep) == q + replace_all(t, pat, rep),
    decreases q.len(),
{
    if q.len() > 0 {
        let x = q + t;
        assert(x[0] == q[0]);
        if starts_at(x, 0, pat) {
            assert(x.subrange(0, pat.len() as int)[0] == x[0]);
        }
        assert(x.drop_first() =~= q.drop_first() + t);
        assert forall|i: int| 0 <= i < q.drop_first().len() implies #[trigger] q.drop_first()[i]
            != '&' by {
            assert(q.drop_first()[i] == q[i + 1]);
        }
        lemma_replace_plain(q.drop_first(), t, pat, rep);
        assert(seq![q[0]] + (q.drop_first() + replace_all(t, pat, rep)) =~= q + replace_all(
            t,
            pat,
            rep,
        ));
    }
}

proof fn lemma_replace_entity(c: char, c0: char, t: Seq<char>)
    requires
        is_special(c),
        is_special(c0),
    ensures
        replace_all(escape_char(c) + t, escape_char(c0), seq![c0]) == (if c == c0 {
            seq![c0]
        } else {
            escape_char(c)
        }) + replace_all(t, escape_char(c0), seq![c0]),
{
    let e = escape_char(c);
    let pat = escape_char(c0);
    let x = e + t;
    if c == c0 {
        lemma_starts_front(e, t);
        assert(x.skip(e.len() as int) =~= t);
    } else {
        assert(x[0] == e[0]);
        assert(x[1] == e[1]);
        assert(x[2] == e[2]);
        if starts_at(x, 0, pat) {
            let w = x.subrange(0, pat.len() as int);
            assert(w[1] == x[1] && w[2] == x[2]);
        }
        let q = e.drop_first();
        assert forall|i: int| 0 <= i < q.len() implies #[trigger] q[i] != '&' by {
            assert(q[i] == e[i + 1]);
        }
        lemma_replace_plain(q, t, pat, seq![c0]);
        assert(x.drop_first() =~= q + t);
        assert(seq![e[0]] + (q + replace_all(t, pat, seq![c0])) =~= e + replace_all(
            t,
            pat,
            seq![c0],
        ));
    }
}

proof fn lemma_replace_stage(x: Seq<char>, done: Set<char>, c0: char)
    requires
        is_special(c0),
        !done.contains(c0),
        !done.contains('&'),
    ensures
        replace_all(stage(x, done), escape_char(c0), seq![c0]) == stage(x, done.insert(c0)),
    decreases x.len(),
{
    if x.len() > 0 {
        let c = x[0];
        let pat = escape_char(c0);
        let t = stage(x.drop_first(), done);
        lemma_replace_stage(x.drop_first(), done, c0);
        if done.contains(c) {
            lemma_replace_plain(seq![c], t, pat, seq![c0]);
        } else if is_special(c) {
            lemma_replace_entity(c, c0, t);
        } else {
            assert(escape_char(c) == seq![c]);
            lemma_replace_plain(seq![c], t, pat, seq![c0]);
        }
    }
}

proof fn lemma_stage_none(x: Seq<char>)
    ensures
        stage(x, Set::empty()) == escape(x),
    decreases x.len(),
{
    if x.len() > 0 {
        lemma_escape_front(x);
        lemma_stage_none(x.drop_first());
    }
}

proof fn lemma_stage_all(x: Seq<char>, done: Set<char>)
    requires
        forall|c: char| is_special(c) ==> #[trigger] done.contains(c),
    ensures
        stage(x, done) == x,
    decreases x.len(),
{
    if x.len() > 0 {
        lemma_stage_all(x.drop_first(), done);
        if !is_special(x[0]) {
            assert(escape_char(x[0]) == seq![x[0]]);
        } else {
            assert(done.contains(x[0]));
        }
        assert(seq![x[0]] + x.drop_first() =~= x);
    }
}

/// Reading escaped text back by replacing `&lt;`, `&gt;`, `&quot;` and
/// `&apos;`, then `&amp;`, gives the text that was escaped: escaping is
/// one-to-one.
pub proof fn law_escape_replace_round_trip(x: Seq<char>)
    ensures
        unescape_by_replace(escape(x)) == x,
{
    let d0 = Set::<char>::empty();
    let d1 = d0.insert('<');
    let d2 = d1.insert('>');
    let d3 = d2.insert('"');
    let d4 = d3.insert('\'');
    let d5 = d4.insert('&');
    lemma_stage_none(x);
    lemma_replace_stage(x, d0, '<');
    lemma_replace_stage(x, d1, '>');
    lemma_replace_stage(x, d2, '"');
    lemma_replace_stage(x, d3, '\'');
    lemma_replace_stage(x, d4, '&');
    lemma_stage_all(x, d5);
}

/// `x` stands at position `a` of `r` with only white space before and after
/// it in `r`, and neither starts nor ends with white space.
pub open spec fn trimmed_at(r: Seq<char>, x: Seq<char>, a: int) -> bool {
    &&& 0 <= a
    &&& a + x.len() <= r.len()
    &&& r.subrange(a, a + x.len()) == x
    &&& forall|j: int| 0 <= j < a ==> is_white_space(#[trigger] r[j])
    &&& forall|j: int| a + x.len() <= j < r.len() ==> is_white_space(#[trigger] r[j])
    &&& x.len() > 0 ==> !is_white_space(x[0]) && !is_white_space(x.last())
}

/// `x` is `r` with the white space at its two ends removed.
pub open spec fn trimmed_piece(r: Seq<char>, x: Seq<char>) -> bool {
    exists|a: int| #[trigger] trimmed_at(r, x, a)
}

proof fn lemma_trim_start_at(r: Seq<char>) -> (a: int)
    ensures
        0 <= a <= r.len(),
        trim_start(r) == r.subrange(a, r.len() as int),
        forall|j: int| 0 <= j < a ==> is_white_space(#[trigger] r[j]),
        a < r.len() ==> !is_white_space(r[a]),
    decreases r.len(),
{
    if r.len() > 0 && is_white_space(r[0]) {
        let b = lemma_trim_start_at(r.drop_first());
        assert(r.drop_first().subrange(b, r.len() - 1) =~= r.subrange(b + 1, r.len() as int));
        assert forall|j: int| 0 <= j < b + 1 implies is_white_space(#[trigger] r[j]) by {
            if j > 0 {
                assert(r[j] == r.drop_first()[j - 1]);
            }
        }
        b + 1
    } else {
        assert(r.subrange(0, r.len() as int) =~= r);
        0
    }
}

proof fn lemma_trim_end_at(r: Seq<char>) -> (b: int)
    ensures
        0 <= b <= r.len(),
        trim_end(r) == r.subrange(0, b),
        forall|j: int| b <= j < r.len() ==> is_white_space(#[trigger] r[j]),
        b > 0 ==> !is_white_space(r[b - 1]),
    decreases r.len(),
{
    if r.len() > 0 && is_white_space(r.last()) {
        let b = lemma_trim_end_at(r.drop_last());
        assert(r.drop_last().subrange(0, b) =~= r.subrange(0, b));
        assert forall|j: int| b <= j < r.len() implies is_white_space(#[trigger] r[j]) by {
            if j < r.len() - 1 {
                assert(r[j] == r.drop_last()[j]);
            }
        }
        b
    } else {
        assert(r.subrange(0, r.len() as int) =~= r);
        r.len() as int
    }
}

/// `trim` removes the white space at the two ends of its argument and
/// nothing else.
pub proof fn lemma_trim_is_trimmed_piece(r: Seq<char>)
    ensures
        trimmed_piece(r, trim(r)),
{
    let a = lemma_trim_start_at(r);
    let y = r.subrange(a, r.len() as int);
    let b = lemma_trim_end_at(y);
    let x = trim(r);
    assert(x =~= r.subrange(a, a + b));
    assert forall|j: int| a + b <= j < r.len() implies is_white_space(#[trigger] r[j]) by {
        assert(r[j] == y[j - a]);
    }
    if b > 0 {
        assert(x[0] == r[a]);
        assert(x.last() == y[b - 1]);
    }
    assert(trimmed_at(r, x, a));
}

/// The value of a decimal digit character (by its code point).
pub open spec fn digit_value(c: char) -> int {
    (c as int) - ('0' as int)
}

/// The number that a string of decimal digits denotes, most significant first.
pub open spec fn digits_value(d: Seq<char>) -> int
    decreases d.len(),
{
    if d.len() == 0 {
        0
    } else {
        digits_value(d.drop_last()) * 10 + digit_value(d.last())
    }
}

proof fn lemma_digit_value(d: nat)
    requires
        d < 10,
    ensures
        digit_value(digit_char(d)) == d,
        '0' <= digit_char(d) <= '9',
{
}

/// Numbers are written in decimal: only the digits `0` to `9`, never with a
/// leading zero, and read back as the number written.
pub proof fn law_decimal(n: nat)
    ensures
        decimal(n).len() >= 1,
        forall|i: int| 0 <= i < decimal(n).len() ==> '0' <= #[trigger] decimal(n)[i] <= '9',
        decimal(n).len() > 1 ==> decimal(n)[0] != '0',
        digits_value(decimal(n)) == n,
    decreases n,
{
    if n >= 10 {
        law_decimal(n / 10);
        lemma_digit_value(n % 10);
        if n / 10 >= 10 {
            let m: nat = n / 10;
            law_decimal(m / 10);
            assert(decimal(m).len() == decimal(m / 10).len() + 1);
            assert(decimal(m)[0] != '0');
        } else {
            lemma_digit_value(n / 10);
            assert(decimal(n / 10)[0] == digit_char(n / 10));
            assert(digit_value('0') == 0);
            assert(decimal(n / 10)[0] != '0');
        }
        let d = decimal(n);
        assert(d.drop_last() =~= decimal(n / 10));
        assert(d[0] == decimal(n / 10)[0]);
        assert(d[0] != '0');
        assert forall|i: int| 0 <= i < d.len() implies '0' <= #[trigger] d[i] <= '9' by {
            if i < d.len() - 1 {
                assert(d[i] == decimal(n / 10)[i]);
            }
        }
        assert(d.last() == digit_char(n % 10));
        assert(digits_value(d) == digits_value(d.drop_last()) * 10 + digit_value(d.last()));
        assert(digits_value(d.drop_last()) == n / 10);
        assert(n == (n / 10) * 10 + n % 10);
    } else {
        lemma_digit_value(n);
        assert(decimal(n) == seq![digit_char(n)]);
        assert(decimal(n).len() == 1);
        assert(decimal(n).drop_last() =~= Seq::<char>::empty());
        assert(digits_value(decimal(n)) == digits_value(decimal(n).drop_last()) * 10
            + digit_value(decimal(n).last()));
        assert(digits_value(Seq::<char>::empty()) == 0);
    }
}

} // verus!
