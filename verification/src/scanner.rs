use vstd::prelude::*;

use crate::error::{ErrorView, LoxError, ScanErrorKind};
use crate::text::{chars_of, string_from};
use crate::token::{identifier_type, keyword_type, token_spec, tokens_spec, Token, TokenSpec, TokenType};

verus! {

/// An ASCII decimal digit.
pub open spec fn is_digit(c: char) -> bool {
    '0' <= c && c <= '9'
}

/// An ASCII letter.
pub open spec fn is_alpha(c: char) -> bool {
    ('a' <= c && c <= 'z') || ('A' <= c && c <= 'Z')
}

/// An ASCII letter or digit.
pub open spec fn is_alnum(c: char) -> bool {
    is_alpha(c) || is_digit(c)
}

/// The first position from `pos` on that holds a line break, or the end of the source.
pub open spec fn comment_end(src: Seq<char>, pos: nat) -> nat
    decreases src.len() - pos,
{
    if pos >= src.len() || src[pos as int] == '\n' {
        pos
    } else {
        comment_end(src, pos + 1)
    }
}

/// The first position from `pos` on that holds no digit, or the end of the source.
pub open spec fn digits_end(src: Seq<char>, pos: nat) -> nat
    decreases src.len() - pos,
{
    if pos >= src.len() || !is_digit(src[pos as int]) {
        pos
    } else {
        digits_end(src, pos + 1)
    }
}

/// The first position from `pos` on that holds neither letter nor digit, or the end.
pub open spec fn word_end(src: Seq<char>, pos: nat) -> nat
    decreases src.len() - pos,
{
    if pos >= src.len() || !is_alnum(src[pos as int]) {
        pos
    } else {
        word_end(src, pos + 1)
    }
}

/// The first position from `pos` on that holds a double quote, or the end, with the line
/// counter advanced by the line breaks passed on the way.
pub open spec fn string_end(src: Seq<char>, pos: nat, line: nat) -> (nat, nat)
    decreases src.len() - pos,
{
    if pos >= src.len() || src[pos as int] == '"' {
        (pos, line)
    } else if src[pos as int] == '\n' {
        string_end(src, pos + 1, line + 1)
    } else {
        string_end(src, pos + 1, line)
    }
}

/// Position and line after the blanks, line breaks and `//` comments from `pos` on.
pub open spec fn skip_space(src: Seq<char>, pos: nat, line: nat) -> (nat, nat)
    decreases src.len() - pos,
{
    if pos >= src.len() {
        (pos, line)
    } else if src[pos as int] == ' ' || src[pos as int] == '\r' || src[pos as int] == '\t' {
        skip_space(src, pos + 1, line)
    } else if src[pos as int] == '\n' {
        skip_space(src, pos + 1, line + 1)
    } else if src[pos as int] == '/' && pos + 1 < src.len() && src[pos + 1int] == '/' {
        proof {
            lemma_comment_end_bounds(src, pos + 2);
        }
        skip_space(src, comment_end(src, pos + 2), line)
    } else {
        (pos, line)
    }
}

/// The kind of the token spelled by the one character `c`, if `c` alone makes one.
pub open spec fn single_char_type(c: char) -> Option<TokenType> {
    if c == '(' { Some(TokenType::LeftParen) }
    else if c == ')' { Some(TokenType::RightParen) }
    else if c == '{' { Some(TokenType::LeftBrace) }
    else if c == '}' { Some(TokenType::RightBrace) }
    else if c == ';' { Some(TokenType::Semicolon) }
    else if c == ',' { Some(TokenType::Comma) }
    else if c == '.' { Some(TokenType::Dot) }
    else if c == '-' { Some(TokenType::Minus) }
    else if c == '+' { Some(TokenType::Plus) }
    else if c == '*' { Some(TokenType::Star) }
    else if c == '/' { Some(TokenType::Slash) }
    else { None }
}

/// For `!`, `=`, `<` and `>`: the kinds of the token without and with a following `=`.
pub open spec fn pair_types(c: char) -> Option<(TokenType, TokenType)> {
    if c == '!' { Some((TokenType::Bang, TokenType::BangEqual)) }
    else if c == '=' { Some((TokenType::Equal, TokenType::EqualEqual)) }
    else if c == '<' { Some((TokenType::Less, TokenType::LessEqual)) }
    else if c == '>' { Some((TokenType::Greater, TokenType::GreaterEqual)) }
    else { None }
}

/// The end of a number literal whose first digit is at `start`: its digits, then, when a
/// dot follows that has a digit after it, the dot and the digits after it.
pub open spec fn number_end(src: Seq<char>, start: nat) -> nat {
    let int_end = digits_end(src, start + 1);
    if int_end + 1 < src.len() && src[int_end as int] == '.' && is_digit(src[int_end + 1int]) {
        digits_end(src, int_end + 2)
    } else {
        int_end
    }
}

/// What the scanner reads at `start` (where no blank is left), the line counter being
/// `line`: the kind of the token or the error, the end of its text, and the line after it.
pub open spec fn lex_at(src: Seq<char>, start: nat, line: nat) -> (Result<TokenType, ScanErrorKind>, nat, nat) {
    if start >= src.len() {
        (Ok(TokenType::Eof), start, line)
    } else {
        let c = src[start as int];
        if single_char_type(c) is Some {
            (Ok(single_char_type(c)->0), start + 1, line)
        } else if let Some((plain, with_equal)) = pair_types(c) {
            if start + 1 < src.len() && src[start + 1int] == '=' {
                (Ok(with_equal), start + 2, line)
            } else {
                (Ok(plain), start + 1, line)
            }
        } else if c == '"' {
            let (e, l) = string_end(src, start + 1, line);
            if e >= src.len() {
                (Err(ScanErrorKind::UnterminatedString), e, l)
            } else {
                (Ok(TokenType::String), e + 1, l)
            }
        } else if is_digit(c) {
            (Ok(TokenType::Number), number_end(src, start), line)
        } else if is_alpha(c) || c == '_' {
            let e = word_end(src, start + 1);
            (Ok(keyword_type(src.subrange(start as int, e as int))), e, line)
        } else {
            (Err(ScanErrorKind::UnexpectedCharacter), start + 1, line)
        }
    }
}

/// What the scanner reads from `pos` on: the start of the token after the blanks, what
/// `lex_at` reads there, its end and the line after it.
pub open spec fn next_token(src: Seq<char>, pos: nat, line: nat) -> (nat, Result<TokenType, ScanErrorKind>, nat, nat) {
    let (start, l) = skip_space(src, pos, line);
    let (kind, end, l2) = lex_at(src, start, l);
    (start, kind, end, l2)
}

pub proof fn lemma_comment_end_bounds(src: Seq<char>, pos: nat)
    ensures
        pos <= comment_end(src, pos),
        pos <= src.len() ==> comment_end(src, pos) <= src.len(),
    decreases src.len() - pos,
{
    if pos < src.len() && src[pos as int] != '\n' {
        lemma_comment_end_bounds(src, pos + 1);
    }
}

pub proof fn lemma_digits_end_bounds(src: Seq<char>, pos: nat)
    ensures
        pos <= digits_end(src, pos),
        pos <= src.len() ==> digits_end(src, pos) <= src.len(),
    decreases src.len() - pos,
{
    if pos < src.len() && is_digit(src[pos as int]) {
        lemma_digits_end_bounds(src, pos + 1);
    }
}

pub proof fn lemma_word_end_bounds(src: Seq<char>, pos: nat)
    ensures
        pos <= word_end(src, pos),
        pos <= src.len() ==> word_end(src, pos) <= src.len(),
    decreases src.len() - pos,
{
    if pos < src.len() && is_alnum(src[pos as int]) {
        lemma_word_end_bounds(src, pos + 1);
    }
}

pub proof fn lemma_string_end_bounds(src: Seq<char>, pos: nat, line: nat)
    ensures
        pos <= string_end(src, pos, line).0,
        pos <= src.len() ==> string_end(src, pos, line).0 <= src.len(),
        line <= string_end(src, pos, line).1 <= line + (string_end(src, pos, line).0 - pos),
    decreases src.len() - pos,
{
    if pos < src.len() && src[pos as int] != '"' {
        if src[pos as int] == '\n' {
            lemma_string_end_bounds(src, pos + 1, line + 1);
        } else {
            lemma_string_end_bounds(src, pos + 1, line);
        }
    }
}

pub proof fn lemma_skip_space_bounds(src: Seq<char>, pos: nat, line: nat)
    ensures
        pos <= skip_space(src, pos, line).0,
        pos <= src.len() ==> skip_space(src, pos, line).0 <= src.len(),
        line <= skip_space(src, pos, line).1 <= line + (skip_space(src, pos, line).0 - pos),
    decreases src.len() - pos,
{
    if pos < src.len() {
        let c = src[pos as int];
        if c == ' ' || c == '\r' || c == '\t' {
            lemma_skip_space_bounds(src, pos + 1, line);
        } else if c == '\n' {
            lemma_skip_space_bounds(src, pos + 1, line + 1);
        } else if c == '/' && pos + 1 < src.len() && src[pos + 1int] == '/' {
            lemma_comment_end_bounds(src, pos + 2);
            lemma_skip_space_bounds(src, comment_end(src, pos + 2), line);
        }
    }
}

/// The token text always lies inside the source, starts after the blanks and, but at the
/// end of the source, is not empty; the line counter grows by at most the characters read.
pub proof fn lemma_next_token_bounds(src: Seq<char>, pos: nat, line: nat)
    requires
        pos <= src.len(),
    ensures
        ({
            let (start, kind, end, l) = next_token(src, pos, line);
            &&& pos <= start <= end <= src.len()
            &&& line <= l <= line + (end - pos)
            &&& (start < src.len() ==> start < end)
            &&& (start == src.len() <==> kind == Ok::<TokenType, ScanErrorKind>(TokenType::Eof))
        }),
{
    lemma_skip_space_bounds(src, pos, line);
    let (start, l) = skip_space(src, pos, line);
    if start < src.len() {
        let c = src[start as int];
        if c == '"' {
            lemma_string_end_bounds(src, start + 1, l);
        } else if is_digit(c) {
            lemma_digits_end_bounds(src, start + 1);
            let int_end = digits_end(src, start + 1);
            if int_end + 1 < src.len() && src[int_end as int] == '.' && is_digit(src[int_end + 1int]) {
                lemma_digits_end_bounds(src, int_end + 2);
            }
        } else if is_alpha(c) || c == '_' {
            lemma_word_end_bounds(src, start + 1);
            let e = word_end(src, start + 1);
            let text = src.subrange(start as int, e as int);
            assert(keyword_type(text) != TokenType::Eof);
        }
    }
}

/// The tokens read one after the other from `pos` on, the line counter being `line`, up
/// to and with `Eof`; or the first error: its kind, the text read for it, and its line.
pub open spec fn tokens_from(src: Seq<char>, pos: nat, line: nat) -> Result<Seq<TokenSpec>, (ScanErrorKind, Seq<char>, nat)>
    decreases src.len() - pos,
{
    if pos > src.len() {
        Ok(Seq::empty())
    } else {
        let (start, kind, end, l) = next_token(src, pos, line);
        proof {
            lemma_next_token_bounds(src, pos, line);
        }
        match kind {
            Err(k) => Err((k, src.subrange(start as int, end as int), l)),
            Ok(t) => if t == TokenType::Eof {
                Ok(seq![(t, src.subrange(start as int, end as int), l)])
            } else {
                match tokens_from(src, end, l) {
                    Ok(rest) => Ok(seq![(t, src.subrange(start as int, end as int), l)] + rest),
                    Err(e) => Err(e),
                }
            },
        }
    }
}

/// The tokens read end with `Eof` and have it nowhere else.
pub proof fn lemma_tokens_end_with_eof(src: Seq<char>, pos: nat, line: nat)
    ensures
        tokens_from(src, pos, line) matches Ok(ts) ==> pos <= src.len() ==> {
            &&& ts.len() > 0
            &&& ts.last().0 == TokenType::Eof
            &&& forall|i: int| 0 <= i < ts.len() - 1 ==> (#[trigger] ts[i]).0 != TokenType::Eof
        },
    decreases src.len() - pos,
{
    if pos <= src.len() {
        lemma_next_token_bounds(src, pos, line);
        let (start, kind, end, l) = next_token(src, pos, line);
        if let Ok(t) = kind {
            if t != TokenType::Eof {
                lemma_tokens_end_with_eof(src, end, l);
                if let Ok(rest) = tokens_from(src, end, l) {
                    let ts = seq![(t, src.subrange(start as int, end as int), l)] + rest;
                    assert(ts.last() == rest.last());
                    assert forall|i: int| 0 <= i < ts.len() - 1 implies (#[trigger] ts[i]).0 != TokenType::Eof by {
                        if i > 0 {
                            assert(ts[i] == rest[i - 1]);
                        }
                    }
                }
            }
        }
    }
}

/// The tokens read from `pos` on when whatever does not read as a token is passed over:
/// a scan error consumes its text and reading goes on after it.
pub open spec fn tokens_passing_errors(src: Seq<char>, pos: nat, line: nat) -> Seq<TokenSpec>
    decreases src.len() - pos,
{
    if pos > src.len() {
        Seq::empty()
    } else {
        let (start, kind, end, l) = next_token(src, pos, line);
        proof {
            lemma_next_token_bounds(src, pos, line);
        }
        match kind {
            Err(_) => tokens_passing_errors(src, end, l),
            Ok(t) => if t == TokenType::Eof {
                seq![(t, src.subrange(start as int, end as int), l)]
            } else {
                seq![(t, src.subrange(start as int, end as int), l)] + tokens_passing_errors(src, end, l)
            },
        }
    }
}

/// The scan errors met from `pos` on when they are passed over, grouped by the token they
/// come before (one group per token of `tokens_passing_errors`); `pending` are errors met
/// before `pos` since the last token.
pub open spec fn scan_groups(src: Seq<char>, pos: nat, line: nat, pending: Seq<ErrorView>) -> Seq<Seq<ErrorView>>
    decreases src.len() - pos,
{
    if pos > src.len() {
        Seq::empty()
    } else {
        let (start, kind, end, l) = next_token(src, pos, line);
        proof {
            lemma_next_token_bounds(src, pos, line);
        }
        match kind {
            Err(k) => scan_groups(src, end, l, pending.push(ErrorView::Scan(k, src.subrange(start as int, end as int), l))),
            Ok(t) => if t == TokenType::Eof {
                seq![pending]
            } else {
                seq![pending] + scan_groups(src, end, l, Seq::empty())
            },
        }
    }
}

/// The tokens read with errors passed over end with `Eof` and have it nowhere else, and
/// there is one group of scan errors per token.
pub proof fn lemma_passing_tokens_end_with_eof(src: Seq<char>, pos: nat, line: nat, pending: Seq<ErrorView>)
    requires
        pos <= src.len(),
    ensures
        ({
            let ts = tokens_passing_errors(src, pos, line);
            &&& ts.len() > 0
            &&& ts.last().0 == TokenType::Eof
            &&& forall|i: int| 0 <= i < ts.len() - 1 ==> (#[trigger] ts[i]).0 != TokenType::Eof
            &&& scan_groups(src, pos, line, pending).len() == ts.len()
        }),
    decreases src.len() - pos,
{
    lemma_next_token_bounds(src, pos, line);
    let (start, kind, end, l) = next_token(src, pos, line);
    match kind {
        Err(k) => {
            lemma_passing_tokens_end_with_eof(src, end, l, pending.push(ErrorView::Scan(k, src.subrange(start as int, end as int), l)));
        },
        Ok(t) => {
            if t != TokenType::Eof {
                lemma_passing_tokens_end_with_eof(src, end, l, Seq::empty());
                let rest = tokens_passing_errors(src, end, l);
                let ts = seq![(t, src.subrange(start as int, end as int), l)] + rest;
                assert(ts.last() == rest.last());
                assert forall|i: int| 0 <= i < ts.len() - 1 implies (#[trigger] ts[i]).0 != TokenType::Eof by {
                    if i > 0 {
                        assert(ts[i] == rest[i - 1]);
                    }
                }
            }
        },
    }
}

/// A blank: a space, a tab, a carriage return or a line break.
pub open spec fn is_blank(c: char) -> bool {
    c == ' ' || c == '\t' || c == '\r' || c == '\n'
}

/// `s` without its blanks.
pub open spec fn non_blank(s: Seq<char>) -> Seq<char>
    decreases s.len(),
{
    if s.len() == 0 {
        s
    } else {
        (if is_blank(s[0]) { Seq::empty() } else { seq![s[0]] }) + non_blank(s.drop_first())
    }
}

/// How many line breaks `s` holds.
pub open spec fn newlines(s: Seq<char>) -> nat
    decreases s.len(),
{
    if s.len() == 0 {
        0
    } else {
        (if s[0] == '\n' { 1nat } else { 0nat }) + newlines(s.drop_first())
    }
}

/// The texts of the tokens `ts`, one after another.
pub open spec fn lexemes(ts: Seq<TokenSpec>) -> Seq<char>
    decreases ts.len(),
{
    if ts.len() == 0 {
        Seq::empty()
    } else {
        ts[0].1 + lexemes(ts.drop_first())
    }
}

/// Where each of the tokens read from `pos` on starts, up to the first scan error.
pub open spec fn token_starts(src: Seq<char>, pos: nat, line: nat) -> Seq<nat>
    decreases src.len() - pos,
{
    if pos > src.len() {
        Seq::empty()
    } else {
        let (start, kind, end, l) = next_token(src, pos, line);
        proof {
            lemma_next_token_bounds(src, pos, line);
        }
        match kind {
            Err(_) => Seq::empty(),
            Ok(t) => if t == TokenType::Eof {
                seq![start]
            } else {
                seq![start] + token_starts(src, end, l)
            },
        }
    }
}

/// From `pos` on, `src` holds no double quote (no string) and no `//` (no comment).
pub open spec fn plain_text(src: Seq<char>, pos: nat) -> bool {
    forall|i: int| pos <= i < src.len() ==> #[trigger] src[i] != '"'
        && !(src[i] == '/' && i + 1 < src.len() && src[i + 1] == '/')
}

proof fn lemma_non_blank_add(a: Seq<char>, b: Seq<char>)
    ensures
        non_blank(a + b) == non_blank(a) + non_blank(b),
        newlines(a + b) == newlines(a) + newlines(b),
    decreases a.len(),
{
    if a.len() == 0 {
        assert(a + b =~= b);
        assert(non_blank(a) + non_blank(b) =~= non_blank(b));
    } else {
        assert((a + b).drop_first() =~= a.drop_first() + b);
        lemma_non_blank_add(a.drop_first(), b);
        let h: Seq<char> = if is_blank(a[0]) { Seq::empty() } else { seq![a[0]] };
        assert(h + (non_blank(a.drop_first()) + non_blank(b)) =~= (h + non_blank(a.drop_first())) + non_blank(b));
    }
}

proof fn lemma_non_blank_solid(s: Seq<char>)
    requires
        forall|i: int| 0 <= i < s.len() ==> !is_blank(#[trigger] s[i]),
    ensures
        non_blank(s) == s,
        newlines(s) == 0,
    decreases s.len(),
{
    if s.len() > 0 {
        lemma_non_blank_solid(s.drop_first());
        assert(seq![s[0]] + s.drop_first() =~= s);
    }
}

/// The characters before `digits_end` are digits.
pub proof fn lemma_digits_run(src: Seq<char>, pos: nat)
    ensures
        forall|i: int| pos <= i < digits_end(src, pos) ==> is_digit(#[trigger] src[i]),
    decreases src.len() - pos,
{
    if pos < src.len() && is_digit(src[pos as int]) {
        lemma_digits_run(src, pos + 1);
    }
}

proof fn lemma_word_run(src: Seq<char>, pos: nat)
    ensures
        forall|i: int| pos <= i < word_end(src, pos) ==> is_alnum(#[trigger] src[i]),
    decreases src.len() - pos,
{
    if pos < src.len() && is_alnum(src[pos as int]) {
        lemma_word_run(src, pos + 1);
    }
}

/// `digits_end` stops at a character that is no digit, or at the end.
pub proof fn lemma_digits_end_stops(src: Seq<char>, pos: nat)
    ensures
        digits_end(src, pos) < src.len() ==> !is_digit(src[digits_end(src, pos) as int]),
    decreases src.len() - pos,
{
    if pos < src.len() && is_digit(src[pos as int]) {
        lemma_digits_end_stops(src, pos + 1);
    }
}

/// A number token is the longest number literal at its start: its text is digits with at
/// most one dot, which has digits on both sides; no digit follows it; and a dot with a
/// digit after it follows it only where its text already holds a dot. So `3.14` reads
/// whole, while `3.x` reads as `3` and a dot.
pub proof fn lemma_number_token(src: Seq<char>, start: nat, line: nat)
    requires
        start < src.len(),
        is_digit(src[start as int]),
    ensures
        ({
            let (kind, e, l) = lex_at(src, start, line);
            &&& kind == Ok::<TokenType, ScanErrorKind>(TokenType::Number)
            &&& l == line
            &&& start < e <= src.len()
            &&& forall|i: int| start <= i < e ==> is_digit(#[trigger] src[i]) || src[i] == '.'
            &&& is_digit(src[e - 1])
            &&& forall|i: int, j: int| start <= i < j < e && #[trigger] src[i] == '.' ==> #[trigger] src[j] != '.'
            &&& e < src.len() ==> !is_digit(src[e as int])
            &&& (e + 1 < src.len() && src[e as int] == '.' && is_digit(src[e + 1int]))
                ==> exists|i: int| start < i < e && #[trigger] src[i] == '.'
        }),
{
    lemma_digits_run(src, start + 1);
    lemma_digits_end_bounds(src, start + 1);
    lemma_digits_end_stops(src, start + 1);
    let int_end = digits_end(src, start + 1);
    if int_end + 1 < src.len() && src[int_end as int] == '.' && is_digit(src[int_end + 1int]) {
        lemma_digits_run(src, int_end + 2);
        lemma_digits_end_bounds(src, int_end + 2);
        lemma_digits_end_stops(src, int_end + 2);
        let e = digits_end(src, int_end + 2);
        assert(forall|i: int| start <= i < e && i != int_end ==> is_digit(#[trigger] src[i]));
        assert(src[int_end as int] == '.');
    } else {
        assert(forall|i: int| start <= i < int_end ==> is_digit(#[trigger] src[i]));
    }
}

/// `string_end` stops at the first double quote from `pos` on, or at the end.
pub proof fn lemma_string_end_first(src: Seq<char>, pos: nat, line: nat)
    requires
        pos <= src.len(),
    ensures
        ({
            let (e, l) = string_end(src, pos, line);
            &&& pos <= e <= src.len()
            &&& forall|i: int| pos <= i < e ==> #[trigger] src[i] != '"'
            &&& e < src.len() ==> src[e as int] == '"'
        }),
    decreases src.len() - pos,
{
    if pos < src.len() && src[pos as int] != '"' {
        lemma_string_end_first(src, pos + 1, if src[pos as int] == '\n' { line + 1 } else { line });
    }
}

/// The operators and strings the scanner reads: each single-character token is its one
/// character; `!`, `=`, `<` and `>` read together with a `=` right after them as `!=`,
/// `==`, `<=` and `>=`, and alone otherwise; a string runs to the next double quote,
/// which it includes, and without one it is unterminated.
pub proof fn lemma_operator_tokens(src: Seq<char>, start: nat, line: nat)
    requires
        start < src.len(),
    ensures
        ({
            let (k, e, l) = lex_at(src, start, line);
            let c = src[start as int];
            let eq = start + 1 < src.len() && src[start + 1int] == '=';
            let w: nat = if eq { 2 } else { 1 };
            &&& c == '(' ==> k == Ok::<TokenType, ScanErrorKind>(TokenType::LeftParen) && e == start + 1
            &&& c == ')' ==> k == Ok::<TokenType, ScanErrorKind>(TokenType::RightParen) && e == start + 1
            &&& c == '{' ==> k == Ok::<TokenType, ScanErrorKind>(TokenType::LeftBrace) && e == start + 1
            &&& c == '}' ==> k == Ok::<TokenType, ScanErrorKind>(TokenType::RightBrace) && e == start + 1
            &&& c == ';' ==> k == Ok::<TokenType, ScanErrorKind>(TokenType::Semicolon) && e == start + 1
            &&& c == ',' ==> k == Ok::<TokenType, ScanErrorKind>(TokenType::Comma) && e == start + 1
            &&& c == '.' ==> k == Ok::<TokenType, ScanErrorKind>(TokenType::Dot) && e == start + 1
            &&& c == '-' ==> k == Ok::<TokenType, ScanErrorKind>(TokenType::Minus) && e == start + 1
            &&& c == '+' ==> k == Ok::<TokenType, ScanErrorKind>(TokenType::Plus) && e == start + 1
            &&& c == '*' ==> k == Ok::<TokenType, ScanErrorKind>(TokenType::Star) && e == start + 1
            &&& c == '/' ==> k == Ok::<TokenType, ScanErrorKind>(TokenType::Slash) && e == start + 1
            &&& c == '!' ==> k == Ok::<TokenType, ScanErrorKind>(if eq { TokenType::BangEqual } else { TokenType::Bang }) && e == start + w
            &&& c == '=' ==> k == Ok::<TokenType, ScanErrorKind>(if eq { TokenType::EqualEqual } else { TokenType::Equal }) && e == start + w
            &&& c == '<' ==> k == Ok::<TokenType, ScanErrorKind>(if eq { TokenType::LessEqual } else { TokenType::Less }) && e == start + w
            &&& c == '>' ==> k == Ok::<TokenType, ScanErrorKind>(if eq { TokenType::GreaterEqual } else { TokenType::Greater }) && e == start + w
            &&& c == '"' && k is Ok ==> k == Ok::<TokenType, ScanErrorKind>(TokenType::String) && start + 2 <= e <= src.len()
                && src[e - 1] == '"' && forall|i: int| start < i < e - 1 ==> #[trigger] src[i] != '"'
            &&& c == '"' && k is Err ==> k == Err::<TokenType, ScanErrorKind>(ScanErrorKind::UnterminatedString)
                && forall|i: int| start < i < src.len() ==> #[trigger] src[i] != '"'
        }),
{
    if src[start as int] == '"' {
        lemma_string_end_first(src, start + 1, line);
    }
}

/// Without comments, what is skipped before a token is blanks only, and the line counts
/// the line breaks among them.
proof fn lemma_skip_plain(src: Seq<char>, pos: nat, line: nat)
    requires
        pos <= src.len(),
        plain_text(src, pos),
    ensures
        ({
            let (s, l) = skip_space(src, pos, line);
            &&& pos <= s <= src.len()
            &&& non_blank(src.subrange(pos as int, s as int)) == Seq::<char>::empty()
            &&& l == line + newlines(src.subrange(pos as int, s as int))
            &&& s < src.len() ==> !is_blank(src[s as int])
        }),
    decreases src.len() - pos,
{
    if pos < src.len() {
        let c = src[pos as int];
        assert(src[pos as int] != '"');
        if c == ' ' || c == '\r' || c == '\t' || c == '\n' {
            lemma_skip_plain(src, pos + 1, if c == '\n' { line + 1 } else { line });
            let (s, l) = skip_space(src, pos, line);
            assert(src.subrange(pos as int, s as int).drop_first() =~= src.subrange(pos + 1int, s as int));
        } else {
            assert(src.subrange(pos as int, pos as int) =~= Seq::<char>::empty());
        }
    } else {
        assert(src.subrange(pos as int, pos as int) =~= Seq::<char>::empty());
    }
}

/// Without strings, a token's text holds no blank and leaves the line as it is.
proof fn lemma_lex_plain(src: Seq<char>, start: nat, line: nat)
    requires
        start < src.len(),
        src[start as int] != '"',
        !is_blank(src[start as int]),
    ensures
        ({
            let (kind, end, l) = lex_at(src, start, line);
            kind is Ok ==> {
                &&& l == line
                &&& start < end <= src.len()
                &&& forall|i: int| start <= i < end ==> !is_blank(#[trigger] src[i])
            }
        }),
{
    let c = src[start as int];
    if is_digit(c) && single_char_type(c) is None && pair_types(c) is None {
        lemma_digits_run(src, start + 1);
        lemma_digits_end_bounds(src, start + 1);
        let int_end = digits_end(src, start + 1);
        if int_end + 1 < src.len() && src[int_end as int] == '.' && is_digit(src[int_end + 1int]) {
            lemma_digits_run(src, int_end + 2);
            lemma_digits_end_bounds(src, int_end + 2);
        }
    } else if (is_alpha(c) || c == '_') && single_char_type(c) is None && pair_types(c) is None {
        lemma_word_run(src, start + 1);
        lemma_word_end_bounds(src, start + 1);
    }
}

/// Where the source holds no string and no comment and reads into tokens, the tokens'
/// texts, one after another, are the source without its blanks; each token's text stands in
/// the source where the token starts; and a token's line is the first line plus the line
/// breaks before its start.
pub proof fn lemma_tokens_partition_text(src: Seq<char>, pos: nat, line: nat)
    requires
        pos <= src.len(),
        plain_text(src, pos),
        tokens_from(src, pos, line) is Ok,
    ensures
        ({
            let ts = tokens_from(src, pos, line)->Ok_0;
            let starts = token_starts(src, pos, line);
            &&& lexemes(ts) == non_blank(src.subrange(pos as int, src.len() as int))
            &&& starts.len() == ts.len()
            &&& forall|k: int| 0 <= k < ts.len() ==> {
                &&& pos <= #[trigger] starts[k] <= src.len()
                &&& starts[k] + ts[k].1.len() <= src.len()
                &&& src.subrange(starts[k] as int, starts[k] + ts[k].1.len() as int) == ts[k].1
                &&& ts[k].2 == line + newlines(src.subrange(pos as int, starts[k] as int))
            }
        }),
    decreases src.len() - pos,
{
    lemma_next_token_bounds(src, pos, line);
    lemma_skip_plain(src, pos, line);
    let (start, l0) = skip_space(src, pos, line);
    let (start1, kind, end, l) = next_token(src, pos, line);
    assert(start1 == start);
    let ts = tokens_from(src, pos, line)->Ok_0;
    let starts = token_starts(src, pos, line);
    let t = kind->Ok_0;
    let text = src.subrange(start as int, end as int);
    let before = src.subrange(pos as int, start as int);
    let after = src.subrange(end as int, src.len() as int);
    if start < src.len() {
        lemma_lex_plain(src, start, l0);
        lemma_non_blank_solid(text);
    } else {
        assert(text =~= Seq::<char>::empty());
        lemma_non_blank_solid(text);
    }
    assert(src.subrange(pos as int, src.len() as int) =~= before + text + after);
    lemma_non_blank_add(before + text, after);
    lemma_non_blank_add(before, text);
    if t == TokenType::Eof {
        assert(start == src.len());
        assert(after =~= Seq::<char>::empty());
        assert(ts =~= seq![(t, text, l)]);
        assert(lexemes(ts.drop_first()) == Seq::<char>::empty());
        assert(lexemes(ts) =~= text);
        assert(non_blank(after) == Seq::<char>::empty());
        assert(text.len() == 0);
        assert(non_blank(before + text + after) =~= Seq::<char>::empty());
        assert(src.subrange(start as int, start as int) =~= Seq::<char>::empty());
    } else {
        assert(pos < end);
        let rest = tokens_from(src, end, l)->Ok_0;
        let rstarts = token_starts(src, end, l);
        assert forall|i: int| end <= i < src.len() implies #[trigger] src[i] != '"'
            && !(src[i] == '/' && i + 1 < src.len() && src[i + 1] == '/') by {
            assert(src[i] != '"');
        }
        lemma_tokens_partition_text(src, end, l);
        assert(ts == seq![(t, text, l)] + rest);
        assert(ts.drop_first() =~= rest);
        assert(starts == seq![start] + rstarts);
        assert forall|k: int| 0 <= k < ts.len() implies {
            &&& pos <= #[trigger] starts[k] <= src.len()
            &&& starts[k] + ts[k].1.len() <= src.len()
            &&& src.subrange(starts[k] as int, starts[k] + ts[k].1.len() as int) == ts[k].1
            &&& ts[k].2 == line + newlines(src.subrange(pos as int, starts[k] as int))
        } by {
            if k == 0 {
                assert(ts[0] == (t, text, l));
            } else {
                assert(ts[k] == rest[k - 1]);
                assert(starts[k] == rstarts[k - 1]);
                let sk = starts[k];
                assert(src.subrange(pos as int, sk as int) =~= before + text + src.subrange(end as int, sk as int));
                lemma_non_blank_add(before + text, src.subrange(end as int, sk as int));
            }
        }
    }
}

/// Reads the tokens of a source text one at a time.
pub struct Scanner {
    source: Vec<char>,
    start: usize,
    current: usize,
    line: usize,
}

impl Scanner {
    /// The characters of the source.
    pub closed spec fn source(&self) -> Seq<char> {
        self.source@
    }

    /// The position of the next character to read.
    pub closed spec fn position(&self) -> nat {
        self.current as nat
    }

    /// The line the scanner is on.
    pub closed spec fn line(&self) -> nat {
        self.line as nat
    }

    /// The start of the last token read.
    pub closed spec fn token_start(&self) -> nat {
        self.start as nat
    }

    /// The scanner's positions lie within the source and the line counter cannot overflow.
    pub closed spec fn wf(&self) -> bool {
        &&& self.source@.len() < usize::MAX
        &&& self.start <= self.current <= self.source@.len()
        &&& 1 <= self.line <= self.current + 1
    }

    /// A well-formed scanner's positions lie within its source, and it can hold no more
    /// characters than `usize` counts.
    pub proof fn lemma_wf_bounds(&self)
        requires
            self.wf(),
        ensures
            self.token_start() <= self.position() <= self.source().len(),
            self.source().len() < usize::MAX,
            1 <= self.line(),
    {
    }

    /// A scanner at the start of `source`, on line 1.
    pub fn new(source: &str) -> (res: Self)
        requires
            source@.len() < usize::MAX,
        ensures
            res.wf(),
            res.source() == source@,
            res.position() == 0,
            res.token_start() == 0,
            res.line() == 1,
    {
        Scanner { source: chars_of(source), start: 0, current: 0, line: 1 }
    }

    /// Reads all the tokens from the position on, up to and with `Eof`; on the first error
    /// the error.
    pub fn scan(&mut self) -> (res: Result<Vec<Token>, LoxError>)
        requires
            old(self).wf(),
        ensures
            match tokens_from(old(self).source(), old(self).position(), old(self).line()) {
                Ok(ts) => res matches Ok(v) && tokens_spec(v@) == ts,
                Err((kind, text, line)) => res matches Err(LoxError::ScanError { kind: k, lexeme, line: l })
                    && k == kind && lexeme@ == text && l == line,
            },
    {
        let ghost src = self.source@;
        let mut tokens: Vec<Token> = Vec::new();
        loop
            invariant
                self.wf(),
                self.source@ == src,
                src == old(self).source@,
                tokens_from(src, old(self).current as nat, old(self).line as nat) == match tokens_from(src, self.current as nat, self.line as nat) {
                    Ok(rest) => Ok(tokens_spec(tokens@) + rest),
                    Err(e) => Err(e),
                },
            decreases src.len() - self.current,
        {
            let ghost (pos, line) = (self.current as nat, self.line as nat);
            proof {
                lemma_next_token_bounds(src, pos, line);
            }
            let ghost before = tokens@;
            let token = match self.scan_token() {
                Ok(t) => t,
                Err(e) => {
                    return Err(e);
                },
            };
            let is_eof = token.typ == TokenType::Eof;
            tokens.push(token);
            proof {
                let (start, kind, end, l) = next_token(src, pos, line);
                assert(tokens_spec(tokens@) =~= tokens_spec(before).push((kind->Ok_0, src.subrange(start as int, end as int), l)));
                if !is_eof {
                    match tokens_from(src, end, l) {
                        Ok(rest) => {
                            assert(tokens_spec(before) + (seq![(kind->Ok_0, src.subrange(start as int, end as int), l)] + rest)
                                =~= tokens_spec(tokens@) + rest);
                        },
                        Err(_) => {},
                    }
                } else {
                    assert(tokens_spec(before) + seq![(kind->Ok_0, src.subrange(start as int, end as int), l)] =~= tokens_spec(tokens@));
                }
            }
            if is_eof {
                return Ok(tokens);
            }
        }
    }

    fn is_at_end(&self) -> (res: bool)
        requires
            self.wf(),
        ensures
            res == (self.current >= self.source@.len()),
    {
        self.current >= self.source.len()
    }

    fn peek(&self) -> (res: Option<char>)
        requires
            self.wf(),
        ensures
            res == (if self.current < self.source@.len() { Some(self.source@[self.current as int]) } else { None::<char> }),
    {
        if self.current < self.source.len() {
            Some(self.source[self.current])
        } else {
            None
        }
    }

    fn peek_next(&self) -> (res: Option<char>)
        requires
            self.wf(),
        ensures
            res == (if self.current + 1 < self.source@.len() { Some(self.source@[self.current + 1]) } else { None::<char> }),
    {
        if self.current + 1 < self.source.len() {
            Some(self.source[self.current + 1])
        } else {
            None
        }
    }

    fn advance(&mut self) -> (res: char)
        requires
            old(self).wf(),
            old(self).current < old(self).source@.len(),
        ensures
            final(self).source == old(self).source,
            final(self).start == old(self).start,
            final(self).line == old(self).line,
            final(self).current == old(self).current + 1,
            res == old(self).source@[old(self).current as int],
    {
        self.current += 1;
        self.source[self.current - 1]
    }

    fn match_advance(&mut self, expected: char) -> (res: bool)
        requires
            old(self).wf(),
        ensures
            final(self).wf(),
            final(self).source == old(self).source,
            final(self).start == old(self).start,
            final(self).line == old(self).line,
            res == (old(self).current < old(self).source@.len() && old(self).source@[old(self).current as int] == expected),
            final(self).current == old(self).current + (if res { 1int } else { 0 }),
    {
        if self.is_at_end() {
            return false;
        }
        if self.source[self.current] != expected {
            return false;
        }
        self.current += 1;
        true
    }

    fn skip_whitespace(&mut self)
        requires
            old(self).wf(),
        ensures
            final(self).wf(),
            final(self).source@ == old(self).source@,
            final(self).start == old(self).start,
            (final(self).current as nat, final(self).line as nat) == skip_space(old(self).source@, old(self).current as nat, old(self).line as nat),
    {
        let ghost src = self.source@;
        let ghost start0 = self.start;
        let ghost target = skip_space(src, self.current as nat, self.line as nat);
        loop
            invariant
                self.wf(),
                self.source@ == src,
                src == old(self).source@,
                target == skip_space(old(self).source@, old(self).current as nat, old(self).line as nat),
                self.start == start0,
                start0 == old(self).start,
                skip_space(src, self.current as nat, self.line as nat) == target,
            decreases src.len() - self.current,
        {
            match self.peek() {
                Some(c) => {
                    if c == ' ' || c == '\r' || c == '\t' {
                        self.advance();
                    } else if c == '\n' {
                        self.advance();
                        self.line += 1;
                    } else if c == '/' {
                        let next_is_slash = match self.peek_next() {
                            Some(n) => n == '/',
                            None => false,
                        };
                        if next_is_slash {
                            let ghost p0 = self.current as nat;
                            assert(skip_space(src, p0, self.line as nat) == skip_space(src, comment_end(src, p0 + 2), self.line as nat));
                            self.advance();
                            self.advance();
                            let ghost from = self.current as nat;
                            let ghost line0 = self.line;
                            while self.current < self.source.len() && self.source[self.current] != '\n'
                                invariant
                                    self.wf(),
                                    self.line == line0,
                                    self.source@ == src,
                                    self.start == start0,
                                    from <= self.current,
                                    comment_end(src, self.current as nat) == comment_end(src, from),
                                decreases src.len() - self.current,
                            {
                                self.advance();
                            }
                            assert(comment_end(src, self.current as nat) == self.current as nat);
                        } else {
                            assert(skip_space(src, self.current as nat, self.line as nat) == (self.current as nat, self.line as nat));
                            return;
                        }
                    } else {
                        return;
                    }
                },
                None => {
                    return;
                },
            }
        }
    }

    fn make_token(&self, typ: TokenType) -> (res: Token)
        requires
            self.wf(),
        ensures
            res.typ == typ,
            res.lexeme@ == self.source@.subrange(self.start as int, self.current as int),
            res.line == self.line,
    {
        Token { typ, lexeme: string_from(&self.source, self.start, self.current), line: self.line }
    }

    fn error(&self, kind: ScanErrorKind) -> (res: LoxError)
        requires
            self.wf(),
        ensures
            res matches LoxError::ScanError { kind: k, lexeme, line } && k == kind
                && lexeme@ == self.source@.subrange(self.start as int, self.current as int)
                && line == self.line,
    {
        LoxError::ScanError { kind, lexeme: string_from(&self.source, self.start, self.current), line: self.line }
    }

    /// Reads the next token: skips blanks, line breaks and `//` comments, then reads the
    /// longest token that starts there (`Eof` at the end of the source). The token's text
    /// is the source between its start and the new position, and its line is the line the
    /// scanner is on after it. On an error the text read so far is reported.
    pub fn scan_token(&mut self) -> (res: Result<Token, LoxError>)
        requires
            old(self).wf(),
        ensures
            final(self).wf(),
            final(self).source() == old(self).source(),
            ({
                let (start, kind, end, line) = next_token(old(self).source(), old(self).position(), old(self).line());
                &&& final(self).token_start() == start
                &&& final(self).position() == end
                &&& final(self).line() == line
                &&& match res {
                    Ok(t) => kind == Ok::<TokenType, ScanErrorKind>(t.typ)
                        && t.lexeme@ == old(self).source().subrange(start as int, end as int)
                        && t.line == line,
                    Err(e) => e matches LoxError::ScanError { kind: k, lexeme, line: l }
                        && kind == Err::<TokenType, ScanErrorKind>(k)
                        && lexeme@ == old(self).source().subrange(start as int, end as int)
                        && l == line,
                }
            }),
    {
        let ghost src = self.source@;
        proof {
            lemma_next_token_bounds(src, self.current as nat, self.line as nat);
            lemma_skip_space_bounds(src, self.current as nat, self.line as nat);
        }
        self.skip_whitespace();
        self.start = self.current;
        let ghost s0 = self.start;
        let ghost l0 = self.line;

        if self.is_at_end() {
            return Ok(self.make_token(TokenType::Eof));
        }

        let c = self.advance();
        let token = if c == '(' {
            self.make_token(TokenType::LeftParen)
        } else if c == ')' {
            self.make_token(TokenType::RightParen)
        } else if c == '{' {
            self.make_token(TokenType::LeftBrace)
        } else if c == '}' {
            self.make_token(TokenType::RightBrace)
        } else if c == ';' {
            self.make_token(TokenType::Semicolon)
        } else if c == ',' {
            self.make_token(TokenType::Comma)
        } else if c == '.' {
            self.make_token(TokenType::Dot)
        } else if c == '-' {
            self.make_token(TokenType::Minus)
        } else if c == '+' {
            self.make_token(TokenType::Plus)
        } else if c == '*' {
            self.make_token(TokenType::Star)
        } else if c == '/' {
            self.make_token(TokenType::Slash)
        } else if c == '!' {
            let typ = if self.match_advance('=') { TokenType::BangEqual } else { TokenType::Bang };
            self.make_token(typ)
        } else if c == '=' {
            let typ = if self.match_advance('=') { TokenType::EqualEqual } else { TokenType::Equal };
            self.make_token(typ)
        } else if c == '<' {
            let typ = if self.match_advance('=') { TokenType::LessEqual } else { TokenType::Less };
            self.make_token(typ)
        } else if c == '>' {
            let typ = if self.match_advance('=') { TokenType::GreaterEqual } else { TokenType::Greater };
            self.make_token(typ)
        } else if c == '"' {
            let ghost from = (self.current as nat, self.line as nat);
            while self.current < self.source.len() && self.source[self.current] != '"'
                invariant
                    self.wf(),
                    self.source@ == src,
                    self.start == s0,
                    self.start < self.current,
                    string_end(src, self.current as nat, self.line as nat) == string_end(src, from.0, from.1),
                decreases src.len() - self.current,
            {
                let ch = self.advance();
                if ch == '\n' {
                    self.line += 1;
                }
            }
            assert(string_end(src, self.current as nat, self.line as nat) == (self.current as nat, self.line as nat));
            if self.is_at_end() {
                return Err(self.error(ScanErrorKind::UnterminatedString));
            }
            self.advance();
            self.make_token(TokenType::String)
        } else if '0' <= c && c <= '9' {
            let ghost from = self.current as nat;
            while self.current < self.source.len() && '0' <= self.source[self.current] && self.source[self.current] <= '9'
                invariant
                    self.wf(),
                    self.source@ == src,
                    self.start == s0,
                    self.line == l0,
                    self.start < self.current,
                    digits_end(src, self.current as nat) == digits_end(src, from),
                decreases src.len() - self.current,
            {
                self.advance();
            }
            assert(digits_end(src, self.current as nat) == self.current as nat);
            if self.current + 1 < self.source.len() && self.source[self.current] == '.'
                && '0' <= self.source[self.current + 1] && self.source[self.current + 1] <= '9'
            {
                self.advance();
                let ghost from2 = self.current as nat + 1;
                self.advance();
                while self.current < self.source.len() && '0' <= self.source[self.current] && self.source[self.current] <= '9'
                    invariant
                        self.wf(),
                        self.source@ == src,
                        self.start == s0,
                        self.line == l0,
                        self.start < self.current,
                        digits_end(src, self.current as nat) == digits_end(src, from2),
                    decreases src.len() - self.current,
                {
                    self.advance();
                }
                assert(digits_end(src, self.current as nat) == self.current as nat);
            }
            self.make_token(TokenType::Number)
        } else if ('a' <= c && c <= 'z') || ('A' <= c && c <= 'Z') || c == '_' {
            let ghost from = self.current as nat;
            while self.current < self.source.len()
                && (('a' <= self.source[self.current] && self.source[self.current] <= 'z')
                    || ('A' <= self.source[self.current] && self.source[self.current] <= 'Z')
                    || ('0' <= self.source[self.current] && self.source[self.current] <= '9'))
                invariant
                    self.wf(),
                    self.source@ == src,
                    self.start == s0,
                    self.line == l0,
                    self.start < self.current,
                    word_end(src, self.current as nat) == word_end(src, from),
                decreases src.len() - self.current,
            {
                self.advance();
            }
            assert(word_end(src, self.current as nat) == self.current as nat);
            let typ = identifier_type(&self.source, self.start, self.current);
            self.make_token(typ)
        } else {
            return Err(self.error(ScanErrorKind::UnexpectedCharacter));
        };
        Ok(token)
    }
}

} // verus!
