//! The lexer: from text to tokens, each with the line and column of the
//! construct it came from.
use vstd::prelude::*;
use crate::text::{trimmed_piece, lemma_trim_is_trimmed_piece, trim, chars_of, string_of, string_from, sub_vec, trim_bounds, is_white_space};
use crate::scan::{
    line_at, col_at, lemma_line_col_bounds, Stop, stops, scan_to, lemma_scan_to, starts_at,
    find_at, lemma_find_at, scan_vec, matches_at, find_vec, pos_le, lemma_pos_monotone,
    count_newlines, last_break_before, lemma_line_col_span, lemma_scan_to_first, lemma_find_at_first,
};
use crate::syntax::{KindModel, TokenModel, ErrorModel, Token, TokenKind, XmlError, tokens_model};

verus! {

/// A token model with the given kind and position.
pub open spec fn tok(kind: KindModel, line: int, column: int) -> TokenModel {
    TokenModel { kind, line, column }
}

/// The target and the content of a processing instruction whose text
/// between `<?` and `?>` is `raw`: the target runs to the first white space,
/// the content is what follows that white space character, trimmed.
pub open spec fn pi_parts(raw: Seq<char>) -> (Seq<char>, Seq<char>) {
    let w = scan_to(raw, 0, Stop::Space);
    (raw.subrange(0, w), if w < raw.len() {
        trim(raw.subrange(w + 1, raw.len() as int))
    } else {
        Seq::empty()
    })
}

/// The tokens of the attribute list that starts at `p`, inside a tag that
/// opened at line `ln`, column `cl`, with the position after them: the
/// list ends at `>` (a `TagEnd`), at `/>` (a `SelfClosingEnd`), at a `/`
/// not followed by `>` (nothing), or at the end of the text. A name
/// followed by `=` takes the next character as its quote and runs to the
/// next such quote or the end; a name without `=` gives no token.
pub open spec fn lex_attrs(s: Seq<char>, p: int, ln: int, cl: int) -> Result<
    (Seq<TokenModel>, int),
    ErrorModel,
>
    decreases s.len() - p,
{
    if p < 0 || p > s.len() {
        Ok((Seq::empty(), p))
    } else {
        let w = scan_to(s, p, Stop::NonSpace);
        if w >= s.len() {
            Ok((Seq::empty(), s.len() as int))
        } else if s[w] == '>' {
            Ok((seq![tok(KindModel::TagEnd, ln, cl)], w + 1))
        } else if s[w] == '/' {
            if w + 1 < s.len() && s[w + 1] == '>' {
                Ok((seq![tok(KindModel::SelfClosingEnd, ln, cl)], w + 2))
            } else {
                Ok((Seq::empty(), w + 1))
            }
        } else {
            let k = scan_to(s, w, Stop::KeyEnd);
            let w2 = scan_to(s, k, Stop::NonSpace);
            proof {
                lemma_scan_to(s, p, Stop::NonSpace);
                lemma_scan_to(s, w, Stop::KeyEnd);
                lemma_scan_to(s, k, Stop::NonSpace);
            }
            if w2 < s.len() && s[w2] == '=' {
                let w3 = scan_to(s, w2 + 1, Stop::NonSpace);
                if w3 >= s.len() {
                    Err(ErrorModel::Syntax { line: ln, col: cl, message: "Expected quote"@ })
                } else {
                    let ve = scan_to(s, w3 + 1, Stop::Char(s[w3]));
                    proof {
                        lemma_scan_to(s, w2 + 1, Stop::NonSpace);
                        lemma_scan_to(s, w3 + 1, Stop::Char(s[w3]));
                    }
                    let next = if ve < s.len() {
                        ve + 1
                    } else {
                        s.len() as int
                    };
                    let t = tok(
                        KindModel::Attribute(s.subrange(w, k), s.subrange(w3 + 1, ve)),
                        ln,
                        cl,
                    );
                    match lex_attrs(s, next, ln, cl) {
                        Ok((ts, q)) => Ok((seq![t] + ts, q)),
                        Err(e) => Err(e),
                    }
                }
            } else {
                proof {
                    if k == w {
                        assert(stops(Stop::KeyEnd, s[w]));
                    }
                }
                lex_attrs(s, w2, ln, cl)
            }
        }
    }
}

/// The tokens of the markup construct that starts with `<` at `p`, with
/// the position after it, or the error it raises.
pub open spec fn lex_markup(s: Seq<char>, p: int) -> Result<(Seq<TokenModel>, int), ErrorModel> {
    let ln = line_at(s, p);
    let cl = col_at(s, p);
    if starts_at(s, p, "<!--"@) {
        match find_at(s, p + 4, "-->"@) {
            None => Err(ErrorModel::Syntax { line: ln, col: cl, message: "Unclosed comment"@ }),
            Some(e) => Ok((seq![tok(KindModel::Comment(s.subrange(p + 4, e)), ln, cl)], e + 3)),
        }
    } else if starts_at(s, p, "<![CDATA["@) {
        match find_at(s, p + 9, "]]>"@) {
            None => Err(ErrorModel::Syntax { line: ln, col: cl, message: "Unclosed CDATA"@ }),
            Some(e) => Ok((seq![tok(KindModel::CData(s.subrange(p + 9, e)), ln, cl)], e + 3)),
        }
    } else if starts_at(s, p, "<?"@) {
        match find_at(s, p + 2, "?>"@) {
            None => Err(ErrorModel::Syntax { line: ln, col: cl, message: "Unclosed PI"@ }),
            Some(e) => {
                let parts = pi_parts(s.subrange(p + 2, e));
                Ok(
                    (
                        seq![tok(KindModel::ProcessingInstruction(parts.0, parts.1), ln, cl)],
                        e + 2,
                    ),
                )
            },
        }
    } else if starts_at(s, p, "</"@) {
        let t = scan_to(s, p + 2, Stop::Char('>'));
        if t < s.len() {
            Ok((seq![tok(KindModel::TagClose(trim(s.subrange(p + 2, t))), ln, cl)], t + 1))
        } else {
            Ok((Seq::empty(), s.len() as int))
        }
    } else {
        let n = scan_to(s, p + 1, Stop::NameEnd);
        match lex_attrs(s, n, ln, cl) {
            Ok((ts, q)) => {
                let open = tok(KindModel::TagOpen(s.subrange(p + 1, n)), ln, cl);
                Ok((seq![open] + ts, q))
            },
            Err(e) => Err(e),
        }
    }
}

/// The tokens of the construct that starts at `p < s.len()`, with the
/// position after it: text runs to the next `<`; markup starts with `<`.
pub open spec fn lex_step(s: Seq<char>, p: int) -> Result<(Seq<TokenModel>, int), ErrorModel> {
    if s[p] != '<' {
        let q = scan_to(s, p, Stop::Lt);
        Ok((seq![tok(KindModel::Text(s.subrange(p, q)), line_at(s, p), col_at(s, p))], q))
    } else {
        lex_markup(s, p)
    }
}

/// The attribute list ends at or after its start, within the text.
pub proof fn lemma_lex_attrs_bounds(s: Seq<char>, p: int, ln: int, cl: int)
    requires
        0 <= p <= s.len(),
    ensures
        lex_attrs(s, p, ln, cl) matches Ok((_, q)) ==> p <= q <= s.len(),
    decreases s.len() - p,
{
    let w = scan_to(s, p, Stop::NonSpace);
    lemma_scan_to(s, p, Stop::NonSpace);
    if w < s.len() && s[w] != '>' && s[w] != '/' {
        let k = scan_to(s, w, Stop::KeyEnd);
        let w2 = scan_to(s, k, Stop::NonSpace);
        lemma_scan_to(s, w, Stop::KeyEnd);
        lemma_scan_to(s, k, Stop::NonSpace);
        if w2 < s.len() && s[w2] == '=' {
            let w3 = scan_to(s, w2 + 1, Stop::NonSpace);
            lemma_scan_to(s, w2 + 1, Stop::NonSpace);
            if w3 < s.len() {
                let ve = scan_to(s, w3 + 1, Stop::Char(s[w3]));
                lemma_scan_to(s, w3 + 1, Stop::Char(s[w3]));
                let next = if ve < s.len() {
                    ve + 1
                } else {
                    s.len() as int
                };
                lemma_lex_attrs_bounds(s, next, ln, cl);
            }
        } else {
            if k == w {
                assert(stops(Stop::KeyEnd, s[w]));
            }
            lemma_lex_attrs_bounds(s, w2, ln, cl);
        }
    }
}

/// Each construct moves past its start and stays within the text.
pub proof fn lemma_lex_step_advances(s: Seq<char>, p: int)
    requires
        0 <= p < s.len(),
    ensures
        lex_step(s, p) matches Ok((_, q)) ==> p < q <= s.len(),
{
    reveal_strlit("<!--");
    reveal_strlit("-->");
    reveal_strlit("<![CDATA[");
    reveal_strlit("]]>");
    reveal_strlit("<?");
    reveal_strlit("?>");
    reveal_strlit("</");
    if s[p] != '<' {
        lemma_scan_to(s, p, Stop::Lt);
    } else if starts_at(s, p, "<!--"@) {
        lemma_find_at(s, p + 4, "-->"@);
    } else if starts_at(s, p, "<![CDATA["@) {
        lemma_find_at(s, p + 9, "]]>"@);
    } else if starts_at(s, p, "<?"@) {
        lemma_find_at(s, p + 2, "?>"@);
    } else if starts_at(s, p, "</"@) {
        lemma_scan_to(s, p + 2, Stop::Char('>'));
    } else {
        lemma_scan_to(s, p + 1, Stop::NameEnd);
        lemma_lex_attrs_bounds(s, scan_to(s, p + 1, Stop::NameEnd), line_at(s, p), col_at(s, p));
    }
}

/// The tokens of `s` from position `p` on, or the first error.
pub open spec fn lex_from(s: Seq<char>, p: int) -> Result<Seq<TokenModel>, ErrorModel>
    decreases s.len() - p,
{
    if p < 0 || p >= s.len() {
        Ok(Seq::empty())
    } else {
        match lex_step(s, p) {
            Err(e) => Err(e),
            Ok((ts, q)) => {
                proof {
                    lemma_lex_step_advances(s, p);
                }
                match lex_from(s, q) {
                    Ok(rest) => Ok(ts + rest),
                    Err(e) => Err(e),
                }
            },
        }
    }
}

/// The tokens of the text `s`, or the first error.
pub open spec fn lex(s: Seq<char>) -> Result<Seq<TokenModel>, ErrorModel> {
    lex_from(s, 0)
}

/// `pre` in front of the tokens of `r`, or the error of `r`.
pub open spec fn prefixed(pre: Seq<TokenModel>, r: Result<Seq<TokenModel>, ErrorModel>) -> Result<
    Seq<TokenModel>,
    ErrorModel,
> {
    match r {
        Ok(rest) => Ok(pre + rest),
        Err(e) => Err(e),
    }
}

/// `pre` in front of the tokens of `r` (keeping its end position), or the error of `r`.
pub open spec fn prefixed_at(
    pre: Seq<TokenModel>,
    r: Result<(Seq<TokenModel>, int), ErrorModel>,
) -> Result<(Seq<TokenModel>, int), ErrorModel> {
    match r {
        Ok((ts, q)) => Ok((pre + ts, q)),
        Err(e) => Err(e),
    }
}

/// A cursor over the characters of the input, with the line and column of
/// its position.
struct Scanner {
    chars: Vec<char>,
    pos: usize,
    line: usize,
    col: usize,
}

impl Scanner {
    spec fn wf(&self) -> bool {
        &&& self.chars.len() < usize::MAX
        &&& self.pos <= self.chars.len()
        &&& self.line == line_at(self.chars@, self.pos as int)
        &&& self.col == col_at(self.chars@, self.pos as int)
    }

    fn new(input: &str) -> (r: Scanner)
        requires
            input@.len() < usize::MAX,
        ensures
            r.wf(),
            r.chars@ == input@,
            r.pos == 0,
            r.line == 1,
            r.col == 1,
    {
        Scanner { chars: chars_of(input), pos: 0, line: 1, col: 1 }
    }

    /// The character at the cursor, if any.
    fn peek(&self) -> (r: Option<char>)
        ensures
            r == (if self.pos < self.chars.len() {
                Some(self.chars@[self.pos as int])
            } else {
                None::<char>
            }),
    {
        if self.pos < self.chars.len() {
            Some(self.chars[self.pos])
        } else {
            None
        }
    }

    /// The position of the cursor, unless it is at the end.
    fn peek_pos(&self) -> (r: Option<usize>)
        ensures
            r == (if self.pos < self.chars.len() {
                Some(self.pos)
            } else {
                None::<usize>
            }),
    {
        if self.pos < self.chars.len() {
            Some(self.pos)
        } else {
            None
        }
    }

    /// Consumes the character at the cursor, if any, and returns it.
    fn advance(&mut self) -> (r: Option<char>)
        requires
            old(self).wf(),
        ensures
            final(self).wf(),
            final(self).chars == old(self).chars,
            old(self).pos < old(self).chars.len() ==> final(self).pos == old(self).pos + 1 && r
                == Some(old(self).chars@[old(self).pos as int]),
            old(self).pos >= old(self).chars.len() ==> final(self).pos == old(self).pos && r
                is None,
            r == Some('\n') ==> final(self).line == old(self).line + 1 && final(self).col == 1,
            r is Some && r != Some('\n') ==> final(self).line == old(self).line
                && final(self).col == old(self).col + 1,
            r is None ==> final(self).line == old(self).line && final(self).col == old(self).col,
    {
        if self.pos >= self.chars.len() {
            return None;
        }
        let c = self.chars[self.pos];
        proof {
            lemma_line_col_bounds(self.chars@, self.pos as int);
        }
        if c == '\n' {
            self.line += 1;
            self.col = 1;
        } else {
            self.col += 1;
        }
        self.pos += 1;
        Some(c)
    }

    /// Moves the cursor forward to `target`.
    fn skip_to(&mut self, target: usize)
        requires
            old(self).wf(),
        ensures
            final(self).wf(),
            final(self).chars == old(self).chars,
            final(self).pos == (if target <= old(self).pos {
                old(self).pos as int
            } else if target <= old(self).chars.len() {
                target as int
            } else {
                old(self).chars.len() as int
            }),
            final(self).line == old(self).line + count_newlines(
                old(self).chars@.subrange(old(self).pos as int, final(self).pos as int),
            ),
            (forall|j: int|
                old(self).pos <= j < final(self).pos ==> old(self).chars@[j] != '\n')
                ==> final(self).col == old(self).col + (final(self).pos - old(self).pos),
            forall|r: int|
                old(self).pos <= r && #[trigger] last_break_before(
                    old(self).chars@,
                    r,
                    final(self).pos as int,
                ) ==> final(self).col == final(self).pos - r,
    {
        loop
            invariant
                self.wf(),
                self.chars == old(self).chars,
                old(self).pos <= self.pos,
                target <= old(self).pos ==> self.pos == old(self).pos,
                target > old(self).pos ==> self.pos <= target,
            ensures
                self.wf(),
                self.chars == old(self).chars,
                self.pos == (if target <= old(self).pos {
                    old(self).pos as int
                } else if target <= old(self).chars.len() {
                    target as int
                } else {
                    old(self).chars.len() as int
                }),
            decreases self.chars.len() - self.pos,
        {
            match self.peek_pos() {
                Some(p) => {
                    if p >= target {
                        break;
                    }
                    self.advance();
                },
                None => break,
            }
        }
        proof {
            lemma_line_col_span(self.chars@, old(self).pos as int, self.pos as int);
        }
    }

    /// Whether `pat` occurs at position `at`.
    fn starts_with(&self, at: usize, pat: &str) -> (r: bool)
        requires
            at <= self.chars.len(),
        ensures
            r == starts_at(self.chars@, at as int, pat@),
    {
        let p = chars_of(pat);
        matches_at(&self.chars, at, &p)
    }

    /// The first position from `at` on at which `pat` occurs, if any.
    fn find_from(&self, at: usize, pat: &str) -> (r: Option<usize>)
        requires
            at <= self.chars.len(),
        ensures
            r matches Some(e) ==> find_at(self.chars@, at as int, pat@) == Some(e as int),
            r is None ==> find_at(self.chars@, at as int, pat@) is None,
    {
        let p = chars_of(pat);
        find_vec(&self.chars, at, &p)
    }
}

/// Appends a token of the given kind and position.
fn push_token(tokens: &mut Vec<Token>, kind: TokenKind, line: usize, column: usize)
    ensures
        tokens_model(final(tokens)@) == tokens_model(old(tokens)@).push(
            tok(kind@, line as int, column as int),
        ),
{
    let t = Token { kind, line, column };
    tokens.push(t);
    assert(tokens_model(tokens@) =~= tokens_model(old(tokens)@).push(t@));
}

/// The target and the content of a processing instruction whose text
/// between `<?` and `?>` is `raw`.
fn split_pi(raw: &Vec<char>) -> (r: (String, String))
    ensures
        (r.0@, r.1@) == pi_parts(raw@),
{
    let w = scan_vec(raw, 0, Stop::Space);
    let target = string_of(raw, 0, w);
    if w < raw.len() {
        let (a, b) = trim_bounds(raw, w + 1, raw.len());
        (target, string_of(raw, a, b))
    } else {
        (target, String::new())
    }
}

proof fn lemma_prefixed_at_assoc(
    a: Seq<TokenModel>,
    b: Seq<TokenModel>,
    r: Result<(Seq<TokenModel>, int), ErrorModel>,
)
    ensures
        prefixed_at(a, prefixed_at(b, r)) == prefixed_at(a + b, r),
{
    if let Ok((ts, q)) = r {
        assert(a + (b + ts) =~= (a + b) + ts);
    }
}

proof fn lemma_prefixed_assoc(
    a: Seq<TokenModel>,
    b: Seq<TokenModel>,
    r: Result<Seq<TokenModel>, ErrorModel>,
)
    ensures
        prefixed(a, prefixed(b, r)) == prefixed(a + b, r),
{
    if let Ok(rest) = r {
        assert(a + (b + rest) =~= (a + b) + rest);
    }
}

/// Reads the attribute list of a tag that opened at line `ln`, column `cl`.
fn read_attributes(sc: &mut Scanner, tokens: &mut Vec<Token>, ln: usize, cl: usize) -> (r: Result<
    (),
    XmlError,
>)
    requires
        old(sc).wf(),
    ensures
        final(sc).wf(),
        final(sc).chars == old(sc).chars,
        match lex_attrs(old(sc).chars@, old(sc).pos as int, ln as int, cl as int) {
            Ok((ts, q)) => r is Ok && final(sc).pos == q && tokens_model(final(tokens)@)
                == tokens_model(old(tokens)@) + ts,
            Err(e) => r matches Err(x) && x@ == e,
        },
{
    let ghost s = sc.chars@;
    let ghost p0 = sc.pos as int;
    let ghost base = tokens_model(tokens@);
    let ghost mut added: Seq<TokenModel> = Seq::empty();
    assert(base + added =~= base);
    loop
        invariant
            sc.wf(),
            sc.chars@ == s,
            sc.chars == old(sc).chars,
            s == old(sc).chars@,
            p0 == old(sc).pos,
            base == tokens_model(old(tokens)@),
            p0 <= sc.pos,
            tokens_model(tokens@) == base + added,
            lex_attrs(s, p0, ln as int, cl as int) == prefixed_at(
                added,
                lex_attrs(s, sc.pos as int, ln as int, cl as int),
            ),
        decreases sc.chars.len() - sc.pos,
    {
        let ghost p = sc.pos as int;
        let len = sc.chars.len();
        let w = scan_vec(&sc.chars, sc.pos, Stop::NonSpace);
        sc.skip_to(w);
        if w >= len {
            assert(added + Seq::<TokenModel>::empty() =~= added);
            return Ok(());
        }
        let c = sc.chars[w];
        if c == '>' {
            sc.advance();
            push_token(tokens, TokenKind::TagEnd, ln, cl);
            let ghost t = tok(KindModel::TagEnd, ln as int, cl as int);
            assert(base + added + seq![t] =~= (base + added).push(t));
            return Ok(());
        } else if c == '/' {
            sc.advance();
            if sc.pos < len && sc.chars[sc.pos] == '>' {
                sc.advance();
                push_token(tokens, TokenKind::SelfClosingEnd, ln, cl);
                let ghost t = tok(KindModel::SelfClosingEnd, ln as int, cl as int);
                assert(base + added + seq![t] =~= (base + added).push(t));
            } else {
                assert(added + Seq::<TokenModel>::empty() =~= added);
            }
            return Ok(());
        } else {
            let k = scan_vec(&sc.chars, w, Stop::KeyEnd);
            let w2 = scan_vec(&sc.chars, k, Stop::NonSpace);
            proof {
                lemma_scan_to(s, p, Stop::NonSpace);
                lemma_scan_to(s, w as int, Stop::KeyEnd);
                lemma_scan_to(s, k as int, Stop::NonSpace);
            }
            if w2 < len && sc.chars[w2] == '=' {
                let w3 = scan_vec(&sc.chars, w2 + 1, Stop::NonSpace);
                if w3 >= len {
                    let message = string_from("Expected quote");
                    return Err(XmlError::Syntax { line: ln, col: cl, message });
                }
                let quote = sc.chars[w3];
                let ve = scan_vec(&sc.chars, w3 + 1, Stop::Char(quote));
                let key = string_of(&sc.chars, w, k);
                let val = string_of(&sc.chars, w3 + 1, ve);
                let next = if ve < len {
                    ve + 1
                } else {
                    len
                };
                sc.skip_to(next);
                let ghost t = tok(KindModel::Attribute(key@, val@), ln as int, cl as int);
                push_token(tokens, TokenKind::Attribute(key, val), ln, cl);
                proof {
                    let rest = lex_attrs(s, next as int, ln as int, cl as int);
                    lemma_prefixed_at_assoc(added, seq![t], rest);
                    added = added + seq![t];
                    assert(base + added =~= (base + (added.drop_last())).push(t));
                }
            } else {
                proof {
                    if k == w {
                        assert(stops(Stop::KeyEnd, s[w as int]));
                    }
                }
                sc.skip_to(w2);
            }
        }
    }
}

/// Reads the markup construct that starts with `<` at the cursor.
fn read_markup(sc: &mut Scanner, tokens: &mut Vec<Token>) -> (r: Result<(), XmlError>)
    requires
        old(sc).wf(),
        old(sc).pos < old(sc).chars.len(),
        old(sc).chars@[old(sc).pos as int] == '<',
    ensures
        final(sc).wf(),
        final(sc).chars == old(sc).chars,
        match lex_markup(old(sc).chars@, old(sc).pos as int) {
            Ok((ts, q)) => r is Ok && final(sc).pos == q && tokens_model(final(tokens)@)
                == tokens_model(old(tokens)@) + ts,
            Err(e) => r matches Err(x) && x@ == e,
        },
{
    proof {
        reveal_strlit("<!--");
        reveal_strlit("-->");
        reveal_strlit("<![CDATA[");
        reveal_strlit("]]>");
        reveal_strlit("<?");
        reveal_strlit("?>");
        reveal_strlit("</");
    }
    let ghost s = sc.chars@;
    let ghost base = tokens_model(tokens@);
    let cur_line = sc.line;
    let cur_col = sc.col;
    let ghost ln = cur_line as int;
    let ghost cl = cur_col as int;
    let i = sc.pos;
    sc.advance();
    if sc.starts_with(i, "<!--") {
        sc.skip_to(i + 4);
        let start = i + 4;
        match sc.find_from(start, "-->") {
            None => {
                return Err(
                    XmlError::Syntax {
                        line: cur_line,
                        col: cur_col,
                        message: string_from("Unclosed comment"),
                    },
                );
            },
            Some(end) => {
                proof {
                    lemma_find_at(s, start as int, "-->"@);
                }
                let content = string_of(&sc.chars, start, end);
                sc.skip_to(end + 3);
                push_token(tokens, TokenKind::Comment(content), cur_line, cur_col);
                assert(tokens_model(tokens@) =~= base + seq![tok(KindModel::Comment(content@), ln, cl)]);
                Ok(())
            },
        }
    } else if sc.starts_with(i, "<![CDATA[") {
        sc.skip_to(i + 9);
        let start = i + 9;
        match sc.find_from(start, "]]>") {
            None => {
                return Err(
                    XmlError::Syntax {
                        line: cur_line,
                        col: cur_col,
                        message: string_from("Unclosed CDATA"),
                    },
                );
            },
            Some(end) => {
                proof {
                    lemma_find_at(s, start as int, "]]>"@);
                }
                let content = string_of(&sc.chars, start, end);
                sc.skip_to(end + 3);
                push_token(tokens, TokenKind::CData(content), cur_line, cur_col);
                assert(tokens_model(tokens@) =~= base + seq![tok(KindModel::CData(content@), ln, cl)]);
                Ok(())
            },
        }
    } else if sc.starts_with(i, "<?") {
        sc.skip_to(i + 2);
        let start = i + 2;
        match sc.find_from(start, "?>") {
            None => {
                return Err(
                    XmlError::Syntax {
                        line: cur_line,
                        col: cur_col,
                        message: string_from("Unclosed PI"),
                    },
                );
            },
            Some(end) => {
                proof {
                    lemma_find_at(s, start as int, "?>"@);
                }
                let raw = sub_vec(&sc.chars, start, end);
                let (target, content) = split_pi(&raw);
                sc.skip_to(end + 2);
                push_token(
                    tokens,
                    TokenKind::ProcessingInstruction(target, content),
                    cur_line,
                    cur_col,
                );
                let ghost t = tok(KindModel::ProcessingInstruction(target@, content@), ln, cl);
                assert(tokens_model(tokens@) =~= base + seq![t]);
                Ok(())
            },
        }
    } else if sc.starts_with(i, "</") {
        sc.advance();
        let t = scan_vec(&sc.chars, i + 2, Stop::Char('>'));
        if t < sc.chars.len() {
            let (a, b) = trim_bounds(&sc.chars, i + 2, t);
            let tag = string_of(&sc.chars, a, b);
            sc.skip_to(t + 1);
            push_token(tokens, TokenKind::TagClose(tag), cur_line, cur_col);
            assert(tokens_model(tokens@) =~= base + seq![tok(KindModel::TagClose(tag@), ln, cl)]);
        } else {
            sc.skip_to(t);
            assert(tokens_model(tokens@) =~= base + Seq::<TokenModel>::empty());
        }
        Ok(())
    } else {
        let n = scan_vec(&sc.chars, i + 1, Stop::NameEnd);
        let name = string_of(&sc.chars, i + 1, n);
        sc.skip_to(n);
        let ghost t = tok(KindModel::TagOpen(name@), ln, cl);
        push_token(tokens, TokenKind::TagOpen(name), cur_line, cur_col);
        let r = read_attributes(sc, tokens, cur_line, cur_col);
        proof {
            if let Ok((ts, q)) = lex_attrs(s, n as int, ln, cl) {
                assert(base.push(t) + ts =~= base + (seq![t] + ts));
            }
        }
        r
    }
}

/// The tokens of `input`, each with the line and column (from 1) of the
/// construct it came from, or the first error: a comment, CDATA section or
/// processing instruction left open, or an attribute `=` with nothing after it.
pub fn tokenize(input: &str) -> (r: Result<Vec<Token>, XmlError>)
    requires
        input@.len() < usize::MAX,
    ensures
        match r {
            Ok(ts) => lex(input@) == Ok::<Seq<TokenModel>, ErrorModel>(tokens_model(ts@)),
            Err(e) => lex(input@) == Err::<Seq<TokenModel>, ErrorModel>(e@),
        },
{
    let mut tokens: Vec<Token> = Vec::new();
    let mut sc = Scanner::new(input);
    let ghost s = input@;
    assert(lex(s) == prefixed(tokens_model(tokens@), lex_from(s, 0))) by {
        if let Ok(rest) = lex_from(s, 0) {
            assert(tokens_model(tokens@) + rest =~= rest);
        }
    }
    loop
        invariant
            sc.wf(),
            sc.chars@ == s,
            s == input@,
            lex(s) == prefixed(tokens_model(tokens@), lex_from(s, sc.pos as int)),
        ensures
            sc.pos == sc.chars.len(),
            lex(s) == prefixed(tokens_model(tokens@), lex_from(s, sc.pos as int)),
        decreases sc.chars.len() - sc.pos,
    {
        let ch = match sc.peek() {
            Some(c) => c,
            None => break,
        };
        let cur_line = sc.line;
        let cur_col = sc.col;
        let i = sc.peek_pos().unwrap();
        let ghost before = tokens_model(tokens@);
        proof {
            lemma_lex_step_advances(s, i as int);
        }
        if ch != '<' {
            let q = scan_vec(&sc.chars, i, Stop::Lt);
            let text = string_of(&sc.chars, i, q);
            sc.skip_to(q);
            push_token(&mut tokens, TokenKind::Text(text), cur_line, cur_col);
            proof {
                let ts = seq![tok(KindModel::Text(text@), cur_line as int, cur_col as int)];
                lemma_prefixed_assoc(before, ts, lex_from(s, q as int));
                assert(before.push(ts[0]) =~= before + ts);
            }
        } else {
            match read_markup(&mut sc, &mut tokens) {
                Err(e) => {
                    return Err(e);
                },
                Ok(()) => {
                    proof {
                        if let Ok((ts, q)) = lex_markup(s, i as int) {
                            lemma_prefixed_assoc(before, ts, lex_from(s, q));
                        }
                    }
                },
            }
        }
    }
    assert(tokens_model(tokens@) + Seq::<TokenModel>::empty() =~= tokens_model(tokens@));
    Ok(tokens)
}

/// Tokenizes `input` and hands each token, in order, to `callback`; returns
/// the tokenizer's error, before any call, when there is one.
pub fn stream_tokens(input: &str, mut callback: impl FnMut(Token)) -> (r: Result<(), XmlError>)
    requires
        input@.len() < usize::MAX,
        forall|t: Token| call_requires(callback, (t,)),
    ensures
        r is Ok <==> lex(input@) is Ok,
        r matches Err(e) ==> lex(input@) == Err::<Seq<TokenModel>, ErrorModel>(e@),
        r is Ok ==> exists|ts: Seq<Token>|
            lex(input@) == Ok::<Seq<TokenModel>, ErrorModel>(tokens_model(ts)) && forall|i: int|
                0 <= i < ts.len() ==> call_ensures(callback, (#[trigger] ts[i],), ()),
{
    let tokens = match tokenize(input) {
        Ok(ts) => ts,
        Err(e) => {
            return Err(e);
        },
    };
    let ghost cb0 = callback;
    let ghost ts = tokens@;
    for token in it: tokens
        invariant
            callback == cb0,
            it.seq() == ts,
            forall|t: Token| call_requires(callback, (t,)),
            forall|i: int| 0 <= i < it.index() ==> call_ensures(cb0, (#[trigger] ts[i],), ()),
    {
        callback(token);
    }
    assert(lex(input@) == Ok::<Seq<TokenModel>, ErrorModel>(tokens_model(ts)));
    Ok(())
}

/// Whether every text token of `ts` is non-empty and holds no `<`.
pub open spec fn text_tokens_plain(ts: Seq<TokenModel>) -> bool {
    forall|i: int|
        0 <= i < ts.len() ==> (#[trigger] ts[i].kind matches KindModel::Text(x) ==> x.len() > 0
            && forall|j: int| 0 <= j < x.len() ==> x[j] != '<')
}

/// Whether no token of `ts` is text.
pub open spec fn no_text_tokens(ts: Seq<TokenModel>) -> bool {
    forall|i: int| 0 <= i < ts.len() ==> !(#[trigger] ts[i].kind is Text)
}

proof fn lemma_lex_attrs_shape(s: Seq<char>, p: int, ln: int, cl: int)
    requires
        0 <= p <= s.len(),
    ensures
        lex_attrs(s, p, ln, cl) matches Ok((ts, _)) ==> no_text_tokens(ts),
        lex_attrs(s, p, ln, cl) matches Err(e) ==> e is Syntax,
    decreases s.len() - p,
{
    let w = scan_to(s, p, Stop::NonSpace);
    lemma_scan_to(s, p, Stop::NonSpace);
    if w < s.len() && s[w] != '>' && s[w] != '/' {
        let k = scan_to(s, w, Stop::KeyEnd);
        let w2 = scan_to(s, k, Stop::NonSpace);
        lemma_scan_to(s, w, Stop::KeyEnd);
        lemma_scan_to(s, k, Stop::NonSpace);
        if w2 < s.len() && s[w2] == '=' {
            let w3 = scan_to(s, w2 + 1, Stop::NonSpace);
            lemma_scan_to(s, w2 + 1, Stop::NonSpace);
            if w3 < s.len() {
                let ve = scan_to(s, w3 + 1, Stop::Char(s[w3]));
                lemma_scan_to(s, w3 + 1, Stop::Char(s[w3]));
                let next = if ve < s.len() {
                    ve + 1
                } else {
                    s.len() as int
                };
                lemma_lex_attrs_shape(s, next, ln, cl);
                if let Ok((ts, q)) = lex_attrs(s, next, ln, cl) {
                    let t = tok(
                        KindModel::Attribute(s.subrange(w, k), s.subrange(w3 + 1, ve)),
                        ln,
                        cl,
                    );
                    let all = seq![t] + ts;
                    assert forall|i: int| 0 <= i < all.len() implies !(#[trigger] all[i].kind is Text)
                    by {
                        if i > 0 {
                            assert(all[i] == ts[i - 1]);
                        }
                    }
                }
            }
        } else {
            if k == w {
                assert(stops(Stop::KeyEnd, s[w]));
            }
            lemma_lex_attrs_shape(s, w2, ln, cl);
        }
    }
}

proof fn lemma_lex_step_shape(s: Seq<char>, p: int)
    requires
        0 <= p < s.len(),
    ensures
        lex_step(s, p) matches Ok((ts, _)) ==> text_tokens_plain(ts),
        lex_step(s, p) matches Err(e) ==> e is Syntax,
{
    if s[p] != '<' {
        let q = scan_to(s, p, Stop::Lt);
        lemma_scan_to(s, p, Stop::Lt);
        assert(stops(Stop::Lt, s[p]) == false);
        let x = s.subrange(p, q);
        assert forall|j: int| 0 <= j < x.len() implies x[j] != '<' by {
            assert(x[j] == s[p + j]);
        }
    } else if !starts_at(s, p, "<!--"@) && !starts_at(s, p, "<![CDATA["@) && !starts_at(s, p, "<?"@)
        && !starts_at(s, p, "</"@) {
        let n = scan_to(s, p + 1, Stop::NameEnd);
        lemma_scan_to(s, p + 1, Stop::NameEnd);
        lemma_lex_attrs_shape(s, n, line_at(s, p), col_at(s, p));
        if let Ok((ts, q)) = lex_attrs(s, n, line_at(s, p), col_at(s, p)) {
            let open = tok(KindModel::TagOpen(s.subrange(p + 1, n)), line_at(s, p), col_at(s, p));
            let all = seq![open] + ts;
            assert forall|i: int| 0 <= i < all.len() implies !(#[trigger] all[i].kind is Text) by {
                if i > 0 {
                    assert(all[i] == ts[i - 1]);
                }
            }
        }
    }
}

proof fn lemma_lex_from_shape(s: Seq<char>, p: int)
    requires
        0 <= p,
    ensures
        lex_from(s, p) matches Ok(ts) ==> text_tokens_plain(ts),
        lex_from(s, p) matches Err(e) ==> e is Syntax,
    decreases s.len() - p,
{
    if p < s.len() {
        lemma_lex_step_shape(s, p);
        lemma_lex_step_advances(s, p);
        if let Ok((ts, q)) = lex_step(s, p) {
            lemma_lex_from_shape(s, q);
            if let Ok(rest) = lex_from(s, q) {
                let all = ts + rest;
                assert forall|i: int| 0 <= i < all.len() implies (#[trigger] all[i].kind matches
                    KindModel::Text(x) ==> x.len() > 0 && forall|j: int|
                        0 <= j < x.len() ==> x[j] != '<') by {
                    if i >= ts.len() {
                        assert(all[i] == rest[i - ts.len()]);
                    } else {
                        assert(all[i] == ts[i]);
                    }
                }
            }
        }
    }
}

/// The lexer fails only with a syntax error (an unclosed comment, CDATA
/// section or processing instruction, or an attribute `=` with nothing
/// after it), and every text token it yields is non-empty and holds no `<`:
/// text runs up to the next `<`.
pub proof fn law_lex_shape(s: Seq<char>)
    ensures
        lex(s) matches Ok(ts) ==> text_tokens_plain(ts),
        lex(s) matches Err(e) ==> e is Syntax,
{
    lemma_lex_from_shape(s, 0);
}

/// Text with no `<` in it is kept as it is, in one text token at line 1,
/// column 1 (no trimming, no entity decoding, white space kept); empty text
/// gives no token.
pub proof fn law_plain_text(s: Seq<char>)
    requires
        forall|i: int| 0 <= i < s.len() ==> s[i] != '<',
    ensures
        s.len() == 0 ==> lex(s) == Ok::<Seq<TokenModel>, ErrorModel>(Seq::empty()),
        s.len() > 0 ==> lex(s) == Ok::<Seq<TokenModel>, ErrorModel>(
            seq![tok(KindModel::Text(s), 1, 1)],
        ),
{
    if s.len() > 0 {
        lemma_scan_to(s, 0, Stop::Lt);
        let q = scan_to(s, 0, Stop::Lt);
        if q < s.len() {
            assert(stops(Stop::Lt, s[q]));
        }
        assert(s.subrange(0, s.len() as int) =~= s);
        assert(lex_from(s, s.len() as int) == Ok::<Seq<TokenModel>, ErrorModel>(Seq::empty()));
        let one = seq![tok(KindModel::Text(s), 1, 1)];
        assert(one + Seq::<TokenModel>::empty() =~= one);
    }
}

/// The token kinds that belong to an opening tag and follow its name.
pub open spec fn is_follower(k: KindModel) -> bool {
    k is Attribute || k is TagEnd || k is SelfClosingEnd
}

/// The token kinds that an attribute or the end of a tag may follow.
pub open spec fn is_leader(k: KindModel) -> bool {
    k is TagOpen || k is Attribute
}

/// Every attribute, `TagEnd` and `SelfClosingEnd` of `ts` comes right after
/// the opening tag it belongs to or after another attribute of it, at the same
/// line and column: the kinds read as
/// `(Text | Comment | CData | ProcessingInstruction | TagClose | TagOpen Attribute* (TagEnd | SelfClosingEnd)?)*`.
pub open spec fn well_grouped(ts: Seq<TokenModel>) -> bool {
    forall|i: int|
        0 <= i < ts.len() && #[trigger] is_follower(ts[i].kind) ==> i > 0 && is_leader(
            ts[i - 1].kind,
        ) && ts[i - 1].line == ts[i].line && ts[i - 1].column == ts[i].column
}

/// `ts` does not start with an attribute or the end of a tag.
pub open spec fn starts_free(ts: Seq<TokenModel>) -> bool {
    ts.len() > 0 ==> !is_follower(ts[0].kind)
}

/// Token `t` carries the line and column of position `q` of `s`, which is a
/// `<` unless `t` is text; text is the run of characters that starts at `q`.
pub open spec fn token_at(s: Seq<char>, t: TokenModel, q: int) -> bool {
    &&& 0 <= q < s.len()
    &&& t.line == line_at(s, q)
    &&& t.column == col_at(s, q)
    &&& (s[q] == '<' || t.kind is Text)
    &&& (t.kind matches KindModel::Text(x) ==> q + x.len() <= s.len() && s.subrange(
        q,
        q + x.len(),
    ) == x)
}

/// Token `t` carries the position of a construct start at or after `p`.
pub open spec fn at_construct(s: Seq<char>, t: TokenModel, p: int) -> bool {
    exists|q: int| p <= q && #[trigger] token_at(s, t, q)
}

/// Every token of `ts` carries the position of a construct start at or after `p`.
pub open spec fn at_constructs(s: Seq<char>, ts: Seq<TokenModel>, p: int) -> bool {
    forall|i: int| 0 <= i < ts.len() ==> at_construct(s, #[trigger] ts[i], p)
}

/// The positions of the tokens never go back.
pub open spec fn positions_ordered(ts: Seq<TokenModel>) -> bool {
    forall|i: int, j: int|
        0 <= i < j < ts.len() ==> pos_le(
            #[trigger] ts[i].line,
            ts[i].column,
            #[trigger] ts[j].line,
            ts[j].column,
        )
}

/// Some `=` at or after `p` is followed only by white space up to the end.
pub open spec fn bare_equals_from(s: Seq<char>, p: int) -> bool {
    exists|w: int|
        p <= w < s.len() && s[w] == '=' && forall|j: int|
            w < j < s.len() ==> is_white_space(#[trigger] s[j])
}

/// The error for an attribute `=` with nothing after it.
pub open spec fn expected_quote(ln: int, cl: int) -> ErrorModel {
    ErrorModel::Syntax { line: ln, col: cl, message: "Expected quote"@ }
}

/// The tokens of an attribute list: attributes, then at most one end of the
/// tag, all at line `ln`, column `cl`.
pub open spec fn attr_run(ts: Seq<TokenModel>, ln: int, cl: int) -> bool {
    &&& forall|i: int|
        0 <= i < ts.len() ==> is_follower(#[trigger] ts[i].kind) && ts[i].line == ln
            && ts[i].column == cl
    &&& forall|i: int| 0 <= i < ts.len() - 1 ==> #[trigger] ts[i].kind is Attribute
}

/// `e` is the error of the construct opening with `<` at `q`: it carries
/// that position, and its message names what went wrong there: a comment,
/// CDATA section or processing instruction with no end after it, or an
/// attribute `=` followed only by white space up to the end of the text.
pub open spec fn lex_error_at(s: Seq<char>, e: ErrorModel, q: int) -> bool {
    &&& 0 <= q < s.len()
    &&& s[q] == '<'
    &&& e matches ErrorModel::Syntax { line, col, message } && line == line_at(s, q) && col
        == col_at(s, q) && {
        ||| message == "Unclosed comment"@ && starts_at(s, q, "<!--"@) && find_at(
            s,
            q + 4,
            "-->"@,
        ) is None
        ||| message == "Unclosed CDATA"@ && starts_at(s, q, "<![CDATA["@) && find_at(
            s,
            q + 9,
            "]]>"@,
        ) is None
        ||| message == "Unclosed PI"@ && starts_at(s, q, "<?"@) && find_at(s, q + 2, "?>"@)
            is None
        ||| message == "Expected quote"@ && bare_equals_from(s, q + 1)
    }
}

proof fn lemma_lex_attrs_facts(s: Seq<char>, p: int, ln: int, cl: int)
    requires
        0 <= p <= s.len(),
    ensures
        lex_attrs(s, p, ln, cl) matches Ok((ts, _)) ==> attr_run(ts, ln, cl),
        lex_attrs(s, p, ln, cl) matches Err(e) ==> e == expected_quote(ln, cl)
            && bare_equals_from(s, p),
    decreases s.len() - p,
{
    let w = scan_to(s, p, Stop::NonSpace);
    lemma_scan_to(s, p, Stop::NonSpace);
    if w < s.len() && s[w] != '>' && s[w] != '/' {
        let k = scan_to(s, w, Stop::KeyEnd);
        let w2 = scan_to(s, k, Stop::NonSpace);
        lemma_scan_to(s, w, Stop::KeyEnd);
        lemma_scan_to(s, k, Stop::NonSpace);
        if w2 < s.len() && s[w2] == '=' {
            let w3 = scan_to(s, w2 + 1, Stop::NonSpace);
            lemma_scan_to(s, w2 + 1, Stop::NonSpace);
            if w3 < s.len() {
                let ve = scan_to(s, w3 + 1, Stop::Char(s[w3]));
                lemma_scan_to(s, w3 + 1, Stop::Char(s[w3]));
                let next = if ve < s.len() {
                    ve + 1
                } else {
                    s.len() as int
                };
                lemma_lex_attrs_facts(s, next, ln, cl);
                if let Ok((ts, q)) = lex_attrs(s, next, ln, cl) {
                    let t = tok(
                        KindModel::Attribute(s.subrange(w, k), s.subrange(w3 + 1, ve)),
                        ln,
                        cl,
                    );
                    let all = seq![t] + ts;
                    assert forall|i: int| 0 <= i < all.len() implies is_follower(
                        #[trigger] all[i].kind,
                    ) && all[i].line == ln && all[i].column == cl by {
                        if i > 0 {
                            assert(all[i] == ts[i - 1]);
                        }
                    }
                    assert forall|i: int| 0 <= i < all.len() - 1 implies #[trigger] all[i].kind
                        is Attribute by {
                        if i > 0 {
                            assert(all[i] == ts[i - 1]);
                        }
                    }
                }
            } else {
                assert forall|j: int| w2 < j < s.len() implies is_white_space(#[trigger] s[j]) by {
                    assert(!stops(Stop::NonSpace, s[j]));
                }
                assert(bare_equals_from(s, p));
            }
        } else {
            if k == w {
                assert(stops(Stop::KeyEnd, s[w]));
            }
            lemma_lex_attrs_facts(s, w2, ln, cl);
        }
    }
}

proof fn lemma_lex_step_facts(s: Seq<char>, p: int)
    requires
        0 <= p < s.len(),
    ensures
        lex_step(s, p) matches Ok((ts, _)) ==> {
            &&& well_grouped(ts)
            &&& starts_free(ts)
            &&& forall|i: int| 0 <= i < ts.len() ==> token_at(s, #[trigger] ts[i], p)
        },
        lex_step(s, p) matches Err(e) ==> lex_error_at(s, e, p),
{
    let ln = line_at(s, p);
    let cl = col_at(s, p);
    if s[p] != '<' {
        lemma_scan_to(s, p, Stop::Lt);
    }
    if s[p] == '<' && !starts_at(s, p, "<!--"@) && !starts_at(s, p, "<![CDATA["@) && !starts_at(
        s,
        p,
        "<?"@,
    ) && !starts_at(s, p, "</"@) {
        let n = scan_to(s, p + 1, Stop::NameEnd);
        lemma_scan_to(s, p + 1, Stop::NameEnd);
        lemma_lex_attrs_facts(s, n, ln, cl);
        if let Ok((ts, q)) = lex_attrs(s, n, ln, cl) {
            let open = tok(KindModel::TagOpen(s.subrange(p + 1, n)), ln, cl);
            let all = seq![open] + ts;
            assert forall|i: int| 0 <= i < all.len() && #[trigger] is_follower(all[i].kind) implies i
                > 0 && is_leader(all[i - 1].kind) && all[i - 1].line == all[i].line && all[i
                - 1].column == all[i].column by {
                assert(all[i] == ts[i - 1]);
                if i > 1 {
                    assert(all[i - 1] == ts[i - 2]);
                }
            }
            assert forall|i: int| 0 <= i < all.len() implies token_at(s, #[trigger] all[i], p) by {
                if i > 0 {
                    assert(all[i] == ts[i - 1]);
                }
            }
        }
    }
}

proof fn lemma_lex_from_facts(s: Seq<char>, p: int)
    requires
        0 <= p,
    ensures
        lex_from(s, p) matches Ok(ts) ==> {
            &&& well_grouped(ts)
            &&& starts_free(ts)
            &&& at_constructs(s, ts, p)
            &&& positions_ordered(ts)
        },
        lex_from(s, p) matches Err(e) ==> exists|q: int| p <= q && lex_error_at(s, e, q),
    decreases s.len() - p,
{
    if p < s.len() {
        lemma_lex_step_facts(s, p);
        lemma_lex_step_advances(s, p);
        if let Ok((ts, q)) = lex_step(s, p) {
            lemma_lex_from_facts(s, q);
            if let Ok(rest) = lex_from(s, q) {
                let all = ts + rest;
                let n = ts.len();
                assert forall|i: int| 0 <= i < all.len() && #[trigger] is_follower(all[i].kind)
                    implies i > 0 && is_leader(all[i - 1].kind) && all[i - 1].line == all[i].line
                    && all[i - 1].column == all[i].column by {
                    if i < n {
                        assert(all[i] == ts[i]);
                        assert(is_follower(ts[i].kind));
                        assert(all[i - 1] == ts[i - 1]);
                    } else {
                        assert(all[i] == rest[i - n]);
                        assert(is_follower(rest[i - n].kind));
                        assert(all[i - 1] == rest[i - n - 1]);
                    }
                }
                if n == 0 && rest.len() > 0 {
                    assert(all[0] == rest[0]);
                }
                assert forall|i: int| 0 <= i < all.len() implies at_construct(s, #[trigger] all[i], p)
                by {
                    if i < n {
                        assert(all[i] == ts[i]);
                        assert(token_at(s, ts[i], p));
                    } else {
                        assert(all[i] == rest[i - n]);
                        assert(at_construct(s, rest[i - n], q));
                        let r = choose|r: int| q <= r && #[trigger] token_at(s, rest[i - n], r);
                        assert(token_at(s, all[i], r));
                    }
                }
                assert forall|i: int, j: int| 0 <= i < j < all.len() implies pos_le(
                    #[trigger] all[i].line,
                    all[i].column,
                    #[trigger] all[j].line,
                    all[j].column,
                ) by {
                    if j < n {
                        assert(all[i] == ts[i] && all[j] == ts[j]);
                        assert(token_at(s, ts[i], p) && token_at(s, ts[j], p));
                    } else if i < n {
                        assert(all[i] == ts[i] && all[j] == rest[j - n]);
                        assert(token_at(s, ts[i], p));
                        assert(at_construct(s, rest[j - n], q));
                        let r = choose|r: int| q <= r && #[trigger] token_at(s, rest[j - n], r);
                        lemma_pos_monotone(s, p, r);
                    } else {
                        assert(all[i] == rest[i - n] && all[j] == rest[j - n]);
                        assert(pos_le(
                            rest[i - n].line,
                            rest[i - n].column,
                            rest[j - n].line,
                            rest[j - n].column,
                        ));
                    }
                }
            } else {
                let e = lex_from(s, q)->Err_0;
                let r = choose|r: int| q <= r && lex_error_at(s, e, r);
                assert(lex_error_at(s, e, r));
            }
        } else {
            assert(lex_error_at(s, lex_step(s, p)->Err_0, p));
        }
    }
}

/// The tokens of any text are grouped by tag (see `well_grouped`), each carries
/// the line and column of the construct it came from (a `<`, or the start of a
/// run of text), and their positions never go back. When lexing fails, the
/// error is a syntax error at the `<` of the construct that failed, with the
/// message for what went wrong there (see `lex_error_at`).
pub proof fn law_lex_tokens(s: Seq<char>)
    ensures
        lex(s) matches Ok(ts) ==> {
            &&& well_grouped(ts)
            &&& starts_free(ts)
            &&& at_constructs(s, ts, 0)
            &&& positions_ordered(ts)
        },
        lex(s) matches Err(e) ==> exists|q: int| lex_error_at(s, e, q),
{
    lemma_lex_from_facts(s, 0);
}

/// Whether one of the lexer's four causes of failure shows in `s` at a `<` at
/// `q`: a comment, CDATA section or processing instruction with no end after
/// it, or an attribute `=` after it followed only by white space.
pub open spec fn failure_cause_at(s: Seq<char>, q: int) -> bool {
    &&& 0 <= q < s.len()
    &&& s[q] == '<'
    &&& {
        ||| starts_at(s, q, "<!--"@) && find_at(s, q + 4, "-->"@) is None
        ||| starts_at(s, q, "<![CDATA["@) && find_at(s, q + 9, "]]>"@) is None
        ||| starts_at(s, q, "<?"@) && find_at(s, q + 2, "?>"@) is None
        ||| bare_equals_from(s, q + 1)
    }
}

/// The lexer fails only for its four causes: text in which none of them
/// shows anywhere always lexes.
pub proof fn law_lex_succeeds_without_causes(s: Seq<char>)
    requires
        forall|q: int| !#[trigger] failure_cause_at(s, q),
    ensures
        lex(s) is Ok,
{
    lemma_lex_from_facts(s, 0);
    if let Err(e) = lex(s) {
        let q = choose|q: int| 0 <= q && lex_error_at(s, e, q);
        assert(failure_cause_at(s, q));
    }
}

/// Whether `c` ends the name of an opening tag.
pub open spec fn ends_name(c: char) -> bool {
    is_white_space(c) || c == '>' || c == '/'
}

/// `t` and `c` split the text `raw` of a processing instruction: the target
/// `t` is everything before the first white space character (all of `raw`
/// when there is none), and the content `c` is everything after that
/// character with only the white space at its two ends removed (nothing
/// when there is no such character).
pub open spec fn pi_split(raw: Seq<char>, t: Seq<char>, c: Seq<char>) -> bool {
    &&& t.len() <= raw.len()
    &&& raw.subrange(0, t.len() as int) == t
    &&& forall|j: int| 0 <= j < t.len() ==> !is_white_space(#[trigger] raw[j])
    &&& if t.len() < raw.len() {
        is_white_space(raw[t.len() as int]) && trimmed_piece(
            raw.subrange(t.len() + 1int, raw.len() as int),
            c,
        )
    } else {
        c.len() == 0
    }
}

/// A processing instruction `<?raw?>` gives one token, at the `<`, whose
/// target and content split `raw` as `pi_split` says; lexing goes on after
/// the `?>`.
pub proof fn law_pi_token(s: Seq<char>, p: int, e: int)
    requires
        starts_at(s, p, "<?"@),
        find_at(s, p + 2, "?>"@) == Some(e),
    ensures
        lex_step(s, p) matches Ok((ts, q)) && {
            &&& q == e + 2
            &&& ts.len() == 1
            &&& ts[0].line == line_at(s, p)
            &&& ts[0].column == col_at(s, p)
            &&& (ts[0].kind matches KindModel::ProcessingInstruction(t, c) && pi_split(
                s.subrange(p + 2, e),
                t,
                c,
            ))
        },
{
    reveal_strlit("<!--");
    reveal_strlit("<![CDATA[");
    reveal_strlit("<?");
    lemma_find_at(s, p + 2, "?>"@);
    assert(s[p] == s.subrange(p, p + 2)[0]);
    assert(s[p + 1] == s.subrange(p, p + 2)[1]);
    if starts_at(s, p, "<!--"@) {
        assert(s.subrange(p, p + 4)[1] == s[p + 1]);
    }
    if starts_at(s, p, "<![CDATA["@) {
        assert(s.subrange(p, p + 9)[1] == s[p + 1]);
    }
    let raw = s.subrange(p + 2, e);
    let w = scan_to(raw, 0, Stop::Space);
    lemma_scan_to(raw, 0, Stop::Space);
    assert(raw.subrange(0, w) =~= raw.subrange(0, w));
    assert forall|j: int| 0 <= j < w implies !is_white_space(#[trigger] raw[j]) by {
        assert(!stops(Stop::Space, raw[j]));
    }
    if w < raw.len() {
        assert(stops(Stop::Space, raw[w]));
        lemma_trim_is_trimmed_piece(raw.subrange(w + 1, raw.len() as int));
    }
    let parts = pi_parts(raw);
    assert(parts.0.len() == w);
    assert(pi_split(raw, parts.0, parts.1));
}

/// The name of an opening tag is the whole run of characters after its `<`
/// up to the first white space, `>` or `/` (or the end of the text): the
/// first token of the construct is that name, at the `<`.
pub proof fn law_open_tag_name(s: Seq<char>, p: int)
    requires
        0 <= p < s.len(),
        s[p] == '<',
        !starts_at(s, p, "<!--"@),
        !starts_at(s, p, "<![CDATA["@),
        !starts_at(s, p, "<?"@),
        !starts_at(s, p, "</"@),
    ensures
        lex_step(s, p) matches Ok((ts, _)) ==> {
            &&& ts.len() >= 1
            &&& ts[0].line == line_at(s, p)
            &&& ts[0].column == col_at(s, p)
            &&& (ts[0].kind matches KindModel::TagOpen(name) && {
                &&& p + 1 + name.len() <= s.len()
                &&& s.subrange(p + 1, p + 1 + name.len()) == name
                &&& forall|j: int| p + 1 <= j < p + 1 + name.len() ==> !ends_name(#[trigger] s[j])
                &&& (p + 1 + name.len() == s.len() || ends_name(s[p + 1 + name.len()]))
            })
        },
{
    let n = scan_to(s, p + 1, Stop::NameEnd);
    lemma_scan_to(s, p + 1, Stop::NameEnd);
    assert forall|j: int| p + 1 <= j < n implies !ends_name(#[trigger] s[j]) by {
        assert(!stops(Stop::NameEnd, s[j]));
    }
    if n < s.len() {
        assert(stops(Stop::NameEnd, s[n]));
    }
}

/// A closing tag `</x>` gives one token, at the `<`, whose name is `x` with
/// the white space at its two ends removed; lexing goes on after the `>`.
pub proof fn law_close_tag_name(s: Seq<char>, p: int, t: int)
    requires
        starts_at(s, p, "</"@),
        p + 2 <= t < s.len(),
        s[t] == '>',
        forall|j: int| p + 2 <= j < t ==> s[j] != '>',
    ensures
        lex_step(s, p) matches Ok((ts, q)) && {
            &&& q == t + 1
            &&& ts.len() == 1
            &&& ts[0].line == line_at(s, p)
            &&& ts[0].column == col_at(s, p)
            &&& (ts[0].kind matches KindModel::TagClose(x) && trimmed_piece(s.subrange(p + 2, t), x))
        },
{
    reveal_strlit("<!--");
    reveal_strlit("<![CDATA[");
    reveal_strlit("<?");
    reveal_strlit("</");
    assert(s[p] == s.subrange(p, p + 2)[0]);
    assert(s[p + 1] == s.subrange(p, p + 2)[1]);
    if starts_at(s, p, "<!--"@) {
        assert(s.subrange(p, p + 4)[1] == s[p + 1]);
    }
    if starts_at(s, p, "<![CDATA["@) {
        assert(s.subrange(p, p + 9)[1] == s[p + 1]);
    }
    if starts_at(s, p, "<?"@) {
        assert(s.subrange(p, p + 2)[1] == s[p + 1]);
    }
    assert forall|j: int| p + 2 <= j < t implies !stops(Stop::Char('>'), #[trigger] s[j]) by {}
    lemma_scan_to_first(s, p + 2, t, Stop::Char('>'));
    lemma_trim_is_trimmed_piece(s.subrange(p + 2, t));
}

/// A closing tag with no `>` after it gives no token and ends the text.
pub proof fn law_unclosed_close_tag(s: Seq<char>, p: int)
    requires
        starts_at(s, p, "</"@),
        forall|j: int| p + 2 <= j < s.len() ==> s[j] != '>',
    ensures
        lex_step(s, p) == Ok::<(Seq<TokenModel>, int), ErrorModel>((Seq::empty(), s.len() as int)),
{
    reveal_strlit("<!--");
    reveal_strlit("<![CDATA[");
    reveal_strlit("<?");
    reveal_strlit("</");
    assert(s[p] == s.subrange(p, p + 2)[0]);
    assert(s[p + 1] == s.subrange(p, p + 2)[1]);
    if starts_at(s, p, "<!--"@) {
        assert(s.subrange(p, p + 4)[1] == s[p + 1]);
    }
    if starts_at(s, p, "<![CDATA["@) {
        assert(s.subrange(p, p + 9)[1] == s[p + 1]);
    }
    if starts_at(s, p, "<?"@) {
        assert(s.subrange(p, p + 2)[1] == s[p + 1]);
    }
    assert forall|j: int| p + 2 <= j < s.len() implies !stops(Stop::Char('>'), #[trigger] s[j]) by {}
    lemma_scan_to_first(s, p + 2, s.len() as int, Stop::Char('>'));
}

/// Text gives one token, at its first character, holding every character up
/// to the next `<` (or the end of the text) exactly as it stands; lexing goes
/// on at that `<`.
pub proof fn law_text_token(s: Seq<char>, p: int)
    requires
        0 <= p < s.len(),
        s[p] != '<',
    ensures
        lex_step(s, p) matches Ok((ts, q)) && {
            &&& p < q <= s.len()
            &&& ts == seq![tok(KindModel::Text(s.subrange(p, q)), line_at(s, p), col_at(s, p))]
            &&& forall|j: int| p <= j < q ==> #[trigger] s[j] != '<'
            &&& (q == s.len() || s[q] == '<')
        },
{
    lemma_scan_to(s, p, Stop::Lt);
    lemma_lex_step_advances(s, p);
}

/// Rules out the constructs tested before a comment or CDATA section when
/// the second character is `!`.
proof fn lemma_bang_start(s: Seq<char>, p: int)
    requires
        0 <= p,
        p + 2 <= s.len(),
        s[p] == '<',
        s[p + 1] == '!',
    ensures
        !starts_at(s, p, "<?"@),
        !starts_at(s, p, "</"@),
{
    reveal_strlit("<?");
    reveal_strlit("</");
    if starts_at(s, p, "<?"@) {
        assert(s.subrange(p, p + 2)[1] == s[p + 1]);
    }
    if starts_at(s, p, "</"@) {
        assert(s.subrange(p, p + 2)[1] == s[p + 1]);
    }
}

/// A comment `<!--x-->`, where `x` holds no `-->`, gives one token, at the
/// `<`, holding `x` exactly; lexing goes on after the `-->`.
pub proof fn law_comment_token(s: Seq<char>, p: int, e: int)
    requires
        starts_at(s, p, "<!--"@),
        p + 4 <= e,
        starts_at(s, e, "-->"@),
        forall|j: int| p + 4 <= j < e ==> !#[trigger] starts_at(s, j, "-->"@),
    ensures
        lex_step(s, p) == Ok::<(Seq<TokenModel>, int), ErrorModel>(
            (
                seq![tok(KindModel::Comment(s.subrange(p + 4, e)), line_at(s, p), col_at(s, p))],
                e + 3,
            ),
        ),
{
    reveal_strlit("<!--");
    reveal_strlit("-->");
    assert(s[p] == s.subrange(p, p + 4)[0]);
    lemma_find_at_first(s, p + 4, e, "-->"@);
}

/// A CDATA section `<![CDATA[x]]>`, where `x` holds no `]]>`, gives one
/// token, at the `<`, holding `x` exactly; lexing goes on after the `]]>`.
pub proof fn law_cdata_token(s: Seq<char>, p: int, e: int)
    requires
        starts_at(s, p, "<![CDATA["@),
        p + 9 <= e,
        starts_at(s, e, "]]>"@),
        forall|j: int| p + 9 <= j < e ==> !#[trigger] starts_at(s, j, "]]>"@),
    ensures
        lex_step(s, p) == Ok::<(Seq<TokenModel>, int), ErrorModel>(
            (
                seq![tok(KindModel::CData(s.subrange(p + 9, e)), line_at(s, p), col_at(s, p))],
                e + 3,
            ),
        ),
{
    reveal_strlit("<!--");
    reveal_strlit("<![CDATA[");
    reveal_strlit("]]>");
    assert(s[p] == s.subrange(p, p + 9)[0]);
    assert(s[p + 2] == s.subrange(p, p + 9)[2]);
    if starts_at(s, p, "<!--"@) {
        assert(s.subrange(p, p + 4)[2] == s[p + 2]);
    }
    lemma_find_at_first(s, p + 9, e, "]]>"@);
}

/// Whether `c` ends the name of an attribute.
pub open spec fn ends_key(c: char) -> bool {
    c == '=' || is_white_space(c) || c == '>' || c == '/'
}

/// An attribute `name = 'value'`: after white space from `p`, its name runs
/// from `w` up to the first `=`, white space, `>` or `/` (at `k`); white
/// space may follow, then `=` (at `w2`), more white space, and a quote
/// character (at `w3`), which the value runs up to (at `ve`, or the end of
/// the text). The first token of the attribute list is then that attribute,
/// with the name and the value exactly as they stand, followed by the tokens
/// of the rest of the list, which starts after the closing quote.
pub proof fn law_attribute_token(
    s: Seq<char>,
    p: int,
    w: int,
    k: int,
    w2: int,
    w3: int,
    ve: int,
    ln: int,
    cl: int,
)
    requires
        0 <= p <= w < s.len(),
        forall|j: int| p <= j < w ==> is_white_space(#[trigger] s[j]),
        !is_white_space(s[w]),
        s[w] != '>',
        s[w] != '/',
        w <= k <= w2 < w3 < ve <= s.len(),
        forall|j: int| w <= j < k ==> !ends_key(#[trigger] s[j]),
        ends_key(s[k]),
        forall|j: int| k <= j < w2 ==> is_white_space(#[trigger] s[j]),
        s[w2] == '=',
        forall|j: int| w2 < j < w3 ==> is_white_space(#[trigger] s[j]),
        !is_white_space(s[w3]),
        forall|j: int| w3 < j < ve ==> #[trigger] s[j] != s[w3],
        ve == s.len() || s[ve] == s[w3],
    ensures
        lex_attrs(s, p, ln, cl) == prefixed_at(
            seq![tok(KindModel::Attribute(s.subrange(w, k), s.subrange(w3 + 1, ve)), ln, cl)],
            lex_attrs(
                s,
                if ve < s.len() {
                    ve + 1
                } else {
                    s.len() as int
                },
                ln,
                cl,
            ),
        ),
{
    assert forall|j: int| p <= j < w implies !stops(Stop::NonSpace, #[trigger] s[j]) by {}
    lemma_scan_to_first(s, p, w, Stop::NonSpace);
    assert forall|j: int| w <= j < k implies !stops(Stop::KeyEnd, #[trigger] s[j]) by {}
    lemma_scan_to_first(s, w, k, Stop::KeyEnd);
    assert forall|j: int| k <= j < w2 implies !stops(Stop::NonSpace, #[trigger] s[j]) by {}
    lemma_scan_to_first(s, k, w2, Stop::NonSpace);
    assert forall|j: int| w2 + 1 <= j < w3 implies !stops(Stop::NonSpace, #[trigger] s[j]) by {}
    lemma_scan_to_first(s, w2 + 1, w3, Stop::NonSpace);
    assert forall|j: int| w3 + 1 <= j < ve implies !stops(Stop::Char(s[w3]), #[trigger] s[j]) by {}
    lemma_scan_to_first(s, w3 + 1, ve, Stop::Char(s[w3]));
}

} // verus!
