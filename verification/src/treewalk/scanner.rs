use vstd::prelude::*;

use crate::error::{LoxError, ScanErrorKind};
use crate::scanner::{comment_end, digits_end, is_alnum, is_alpha, is_digit, lemma_comment_end_bounds,
    lemma_digits_end_bounds, lemma_digits_end_stops, lemma_digits_run, lemma_string_end_bounds, lemma_string_end_first,
    pair_types, single_char_type, string_end};
use crate::text::{chars_of, string_from};
use crate::token::{identifier_type, keyword_type, token_spec, tokens_spec, Token, TokenSpec, TokenType};

verus! {

/// What one character of the source starts: a token of some kind, nothing (a blank, a
/// line break or a comment), or an error.
pub enum Lexed {
    Token(TokenType),
    Blank,
    Failed(ScanErrorKind),
}

/// The first position from `pos` on that holds neither letter, digit nor underscore.
pub open spec fn name_end(src: Seq<char>, pos: nat) -> nat
    decreases src.len() - pos,
{
    if pos >= src.len() || !(is_alnum(src[pos as int]) || src[pos as int] == '_') {
        pos
    } else {
        name_end(src, pos + 1)
    }
}

pub proof fn lemma_name_end_bounds(src: Seq<char>, pos: nat)
    ensures
        pos <= name_end(src, pos),
        pos <= src.len() ==> name_end(src, pos) <= src.len(),
    decreases src.len() - pos,
{
    if pos < src.len() && (is_alnum(src[pos as int]) || src[pos as int] == '_') {
        lemma_name_end_bounds(src, pos + 1);
    }
}

/// What the character at `start` starts (the line counter being `line`): the token kind,
/// nothing or the error, the position after it and the line there. A number is its
/// digits only; a name may hold underscores.
pub open spec fn lex_step(src: Seq<char>, start: nat, line: nat) -> (Lexed, nat, nat) {
    let c = src[start as int];
    if c == '/' {
        if start + 1 < src.len() && src[start + 1int] == '/' {
            (Lexed::Blank, comment_end(src, start + 2), line)
        } else {
            (Lexed::Token(TokenType::Slash), start + 1, line)
        }
    } else if single_char_type(c) is Some {
        (Lexed::Token(single_char_type(c)->0), start + 1, line)
    } else if let Some((plain, with_equal)) = pair_types(c) {
        if start + 1 < src.len() && src[start + 1int] == '=' {
            (Lexed::Token(with_equal), start + 2, line)
        } else {
            (Lexed::Token(plain), start + 1, line)
        }
    } else if c == '"' {
        let (e, l) = string_end(src, start + 1, line);
        if e >= src.len() {
            (Lexed::Failed(ScanErrorKind::UnterminatedString), e, l)
        } else {
            (Lexed::Token(TokenType::String), e + 1, l)
        }
    } else if is_digit(c) {
        (Lexed::Token(TokenType::Number), digits_end(src, start + 1), line)
    } else if is_alpha(c) || c == '_' {
        let e = name_end(src, start + 1);
        (Lexed::Token(keyword_type(src.subrange(start as int, e as int))), e, line)
    } else if c == ' ' || c == '\r' || c == '\t' {
        (Lexed::Blank, start + 1, line)
    } else if c == '\n' {
        (Lexed::Blank, start + 1, line + 1)
    } else {
        (Lexed::Failed(ScanErrorKind::UnexpectedCharacter), start + 1, line)
    }
}

/// A step reads at least one character and stays inside the source; the line counter
/// grows by at most the characters read.
pub proof fn lemma_lex_step_bounds(src: Seq<char>, start: nat, line: nat)
    requires
        start < src.len(),
    ensures
        start < lex_step(src, start, line).1 <= src.len(),
        line <= lex_step(src, start, line).2 <= line + (lex_step(src, start, line).1 - start),
{
    let c = src[start as int];
    if c == '/' {
        lemma_comment_end_bounds(src, start + 2);
    } else if c == '"' {
        lemma_string_end_bounds(src, start + 1, line);
    } else if is_digit(c) {
        lemma_digits_end_bounds(src, start + 1);
    } else if is_alpha(c) || c == '_' {
        lemma_name_end_bounds(src, start + 1);
    }
}

proof fn lemma_name_end_facts(src: Seq<char>, pos: nat)
    ensures
        forall|i: int| pos <= i < name_end(src, pos) ==> is_alnum(#[trigger] src[i]) || src[i] == '_',
        name_end(src, pos) < src.len() ==> !(is_alnum(src[name_end(src, pos) as int]) || src[name_end(src, pos) as int] == '_'),
    decreases src.len() - pos,
{
    if pos < src.len() && (is_alnum(src[pos as int]) || src[pos as int] == '_') {
        lemma_name_end_facts(src, pos + 1);
    }
}

/// What one step reads: `!`, `=`, `<` and `>` with a `=` right after them as `!=`, `==`,
/// `<=` and `>=`, else alone; `//` as a comment up to the line break; a number as all the
/// digits from its start; a name as all the letters, digits and underscores from its
/// start; a string up to the next double quote, which it includes (unterminated without
/// one); a line break as a blank that counts a line.
pub proof fn lemma_lex_step_tokens(src: Seq<char>, start: nat, line: nat)
    requires
        start < src.len(),
    ensures
        ({
            let (k, e, l) = lex_step(src, start, line);
            let c = src[start as int];
            let eq = start + 1 < src.len() && src[start + 1int] == '=';
            let w: nat = if eq { 2 } else { 1 };
            &&& c == '!' ==> k == Lexed::Token(if eq { TokenType::BangEqual } else { TokenType::Bang }) && e == start + w
            &&& c == '=' ==> k == Lexed::Token(if eq { TokenType::EqualEqual } else { TokenType::Equal }) && e == start + w
            &&& c == '<' ==> k == Lexed::Token(if eq { TokenType::LessEqual } else { TokenType::Less }) && e == start + w
            &&& c == '>' ==> k == Lexed::Token(if eq { TokenType::GreaterEqual } else { TokenType::Greater }) && e == start + w
            &&& c == '/' && start + 1 < src.len() && src[start + 1int] == '/' ==> k == Lexed::Blank && l == line
                && e == comment_end(src, start + 2)
            &&& c == '/' && !(start + 1 < src.len() && src[start + 1int] == '/') ==> k == Lexed::Token(TokenType::Slash) && e == start + 1
            &&& c == '\n' ==> k == Lexed::Blank && e == start + 1 && l == line + 1
            &&& is_digit(c) ==> k == Lexed::Token(TokenType::Number) && l == line && start < e <= src.len()
                && (forall|i: int| start <= i < e ==> is_digit(#[trigger] src[i]))
                && (e < src.len() ==> !is_digit(src[e as int]))
            &&& (is_alpha(c) || c == '_') ==> k == Lexed::Token(keyword_type(src.subrange(start as int, e as int)))
                && l == line && start < e <= src.len()
                && (forall|i: int| start <= i < e ==> is_alnum(#[trigger] src[i]) || src[i] == '_')
                && (e < src.len() ==> !(is_alnum(src[e as int]) || src[e as int] == '_'))
            &&& c == '"' && k is Token ==> k == Lexed::Token(TokenType::String) && start + 2 <= e <= src.len()
                && src[e - 1] == '"' && forall|i: int| start < i < e - 1 ==> #[trigger] src[i] != '"'
            &&& c == '"' && !(k is Token) ==> k == Lexed::Failed(ScanErrorKind::UnterminatedString)
                && forall|i: int| start < i < src.len() ==> #[trigger] src[i] != '"'
        }),
{
    let c = src[start as int];
    if c == '"' {
        lemma_string_end_first(src, start + 1, line);
    } else if is_digit(c) {
        lemma_digits_run(src, start + 1);
        lemma_digits_end_bounds(src, start + 1);
        lemma_digits_end_stops(src, start + 1);
    } else if is_alpha(c) || c == '_' {
        lemma_name_end_facts(src, start + 1);
        lemma_name_end_bounds(src, start + 1);
    }
}

/// The tokens of the source from `pos` on, the line counter being `line`, closed by
/// `Eof` on the last line; or the first error: its kind, the text read for it, and its line.
pub open spec fn scan_from(src: Seq<char>, pos: nat, line: nat) -> Result<Seq<TokenSpec>, (ScanErrorKind, Seq<char>, nat)>
    decreases src.len() - pos,
{
    if pos >= src.len() {
        Ok(seq![(TokenType::Eof, Seq::<char>::empty(), line)])
    } else {
        let (lexed, end, l) = lex_step(src, pos, line);
        proof {
            lemma_lex_step_bounds(src, pos, line);
        }
        match lexed {
            Lexed::Failed(kind) => Err((kind, src.subrange(pos as int, end as int), l)),
            Lexed::Blank => scan_from(src, end, l),
            Lexed::Token(kind) => match scan_from(src, end, l) {
                Ok(rest) => Ok(seq![(kind, src.subrange(pos as int, end as int), l)] + rest),
                Err(e) => Err(e),
            },
        }
    }
}

/// The token list ends with `Eof` and has it nowhere else, as the parser requires.
pub proof fn lemma_scan_ends_with_eof(src: Seq<char>, pos: nat, line: nat)
    ensures
        scan_from(src, pos, line) matches Ok(ts) ==> {
            &&& ts.len() > 0
            &&& ts.last().0 == TokenType::Eof
            &&& forall|i: int| 0 <= i < ts.len() - 1 ==> (#[trigger] ts[i]).0 != TokenType::Eof
        },
    decreases src.len() - pos,
{
    if pos < src.len() {
        lemma_lex_step_bounds(src, pos, line);
        let (lexed, end, l) = lex_step(src, pos, line);
        lemma_scan_ends_with_eof(src, end, l);
        if let Lexed::Token(kind) = lexed {
            let c = src[pos as int];
            if is_alpha(c) || c == '_' {
                let e = name_end(src, pos + 1);
                assert(keyword_type(src.subrange(pos as int, e as int)) != TokenType::Eof);
            }
            assert(kind != TokenType::Eof);
            if let Ok(rest) = scan_from(src, end, l) {
                let ts = seq![(kind, src.subrange(pos as int, end as int), l)] + rest;
                assert(ts.last() == rest.last());
                assert forall|i: int| 0 <= i < ts.len() - 1 implies (#[trigger] ts[i]).0 != TokenType::Eof by {
                    if i > 0 {
                        assert(ts[i] == rest[i - 1]);
                    }
                }
            }
        }
    }
}

/// Reads the whole source into a list of tokens.
pub struct Scanner {
    source: Vec<char>,
    tokens: Vec<Token>,
    start: usize,
    current: usize,
    line: usize,
}

impl Scanner {
    /// The characters of the source.
    pub closed spec fn source(&self) -> Seq<char> {
        self.source@
    }

    /// The tokens read so far.
    pub closed spec fn tokens(&self) -> Seq<Token> {
        self.tokens@
    }

    /// The position of the next character to read.
    pub closed spec fn position(&self) -> nat {
        self.current as nat
    }

    /// The line the scanner is on.
    pub closed spec fn line(&self) -> nat {
        self.line as nat
    }

    /// Where the token being read starts.
    pub closed spec fn token_start(&self) -> nat {
        self.start as nat
    }

    /// Positions within the source; a line counter that cannot overflow.
    pub closed spec fn wf(&self) -> bool {
        &&& self.source@.len() < usize::MAX
        &&& self.start <= self.current <= self.source@.len()
        &&& 1 <= self.line <= self.current + 1
    }

    /// A scanner at the start of `source`, on line 1, with no tokens yet.
    pub fn new(source: &str) -> (res: Self)
        requires
            source@.len() < usize::MAX,
        ensures
            res.wf(),
            res.source() == source@,
            res.position() == 0,
            res.token_start() == 0,
            res.line() == 1,
            res.tokens().len() == 0,
    {
        Scanner { source: chars_of(source), tokens: Vec::new(), start: 0, current: 0, line: 1 }
    }

    /// Reads all the tokens of the source, closed by `Eof`: exactly `scan_from` the start;
    /// on the first error the error, with the text read for it and its line.
    pub fn scan_tokens(&mut self) -> (res: Result<Vec<Token>, LoxError>)
        requires
            old(self).wf(),
            old(self).position() == 0,
            old(self).line() == 1,
            old(self).tokens().len() == 0,
        ensures
            match scan_from(old(self).source(), 0, 1) {
                Ok(ts) => res matches Ok(v) && tokens_spec(v@) == ts,
                Err((kind, text, line)) => res matches Err(LoxError::ScanError { kind: k, lexeme, line: l })
                    && k == kind && lexeme@ == text && l == line,
            },
    {
        let ghost src = self.source@;
        while !self.is_at_end()
            invariant
                self.wf(),
                self.source@ == src,
                src == old(self).source@,
                scan_from(src, 0, 1) == match scan_from(src, self.current as nat, self.line as nat) {
                    Ok(rest) => Ok(tokens_spec(self.tokens@) + rest),
                    Err(e) => Err(e),
                },
            decreases src.len() - self.current,
        {
            self.start = self.current;
            let ghost before = self.tokens@;
            let ghost (pos, line) = (self.current as nat, self.line as nat);
            proof {
                lemma_lex_step_bounds(src, pos, line);
            }
            match self.scan_token() {
                Ok(()) => {},
                Err(e) => {
                    return Err(e);
                },
            }
            proof {
                let (lexed, end, l) = lex_step(src, pos, line);
                if let Lexed::Token(kind) = lexed {
                    match scan_from(src, end, l) {
                        Ok(rest) => {
                            assert(tokens_spec(self.tokens@) =~= tokens_spec(before).push((kind, src.subrange(pos as int, end as int), l)));
                            assert(tokens_spec(before) + (seq![(kind, src.subrange(pos as int, end as int), l)] + rest)
                                =~= tokens_spec(self.tokens@) + rest);
                        },
                        Err(_) => {},
                    }
                }
            }
        }
        let eof = Token { typ: TokenType::Eof, lexeme: String::new(), line: self.line };
        self.tokens.push(eof);
        proof {
            assert(tokens_spec(self.tokens@) =~= tokens_spec(old(self).tokens@.take(0)) + tokens_spec(self.tokens@));
        }
        let mut out: Vec<Token> = Vec::new();
        std::mem::swap(&mut out, &mut self.tokens);
        proof {
            assert(tokens_spec(out@) =~= tokens_spec(out@.drop_last()) + seq![(TokenType::Eof, Seq::<char>::empty(), self.line as nat)]);
        }
        Ok(out)
    }

    /// Reads what starts at the token's start: a token, which is appended, or nothing (a
    /// blank, a line break, a comment), or an error, as `lex_step` says.
    fn scan_token(&mut self) -> (res: Result<(), LoxError>)
        requires
            old(self).wf(),
            old(self).start == old(self).current,
            old(self).current < old(self).source@.len(),
        ensures
            final(self).wf(),
            final(self).source@ == old(self).source@,
            ({
                let (lexed, end, l) = lex_step(old(self).source@, old(self).current as nat, old(self).line as nat);
                let text = old(self).source@.subrange(old(self).current as int, end as int);
                &&& final(self).current == end
                &&& final(self).line == l
                &&& match lexed {
                    Lexed::Token(kind) => res is Ok && final(self).tokens@.drop_last() == old(self).tokens@
                        && final(self).tokens@.len() == old(self).tokens@.len() + 1
                        && token_spec(final(self).tokens@.last()) == (kind, text, l),
                    Lexed::Blank => res is Ok && final(self).tokens@ == old(self).tokens@,
                    Lexed::Failed(k) => res matches Err(LoxError::ScanError { kind, lexeme, line })
                        && kind == k && lexeme@ == text && line == l,
                }
            }),
    {
        let ghost src = self.source@;
        let ghost s0 = self.start;
        let ghost l0 = self.line;
        proof {
            lemma_lex_step_bounds(src, s0 as nat, l0 as nat);
        }
        let c = self.advance_char();
        if c == '(' {
            self.add_token(TokenType::LeftParen);
        } else if c == ')' {
            self.add_token(TokenType::RightParen);
        } else if c == '{' {
            self.add_token(TokenType::LeftBrace);
        } else if c == '}' {
            self.add_token(TokenType::RightBrace);
        } else if c == ',' {
            self.add_token(TokenType::Comma);
        } else if c == '.' {
            self.add_token(TokenType::Dot);
        } else if c == '-' {
            self.add_token(TokenType::Minus);
        } else if c == '+' {
            self.add_token(TokenType::Plus);
        } else if c == ';' {
            self.add_token(TokenType::Semicolon);
        } else if c == '*' {
            self.add_token(TokenType::Star);
        } else if c == '!' {
            let typ = if self.match_char('=') { TokenType::BangEqual } else { TokenType::Bang };
            self.add_token(typ);
        } else if c == '=' {
            let typ = if self.match_char('=') { TokenType::EqualEqual } else { TokenType::Equal };
            self.add_token(typ);
        } else if c == '<' {
            let typ = if self.match_char('=') { TokenType::LessEqual } else { TokenType::Less };
            self.add_token(typ);
        } else if c == '>' {
            let typ = if self.match_char('=') { TokenType::GreaterEqual } else { TokenType::Greater };
            self.add_token(typ);
        } else if c == '/' {
            if self.match_char('/') {
                let ghost from = self.current as nat;
                while self.current < self.source.len() && self.source[self.current] != '\n'
                    invariant
                        self.wf(),
                        self.line == l0,
                        self.source@ == src,
                        self.tokens == old(self).tokens,
                        self.start == s0,
                        from <= self.current,
                        comment_end(src, self.current as nat) == comment_end(src, from),
                    decreases src.len() - self.current,
                {
                    self.advance_char();
                }
                assert(comment_end(src, self.current as nat) == self.current as nat);
            } else {
                self.add_token(TokenType::Slash);
            }
        } else if c == '"' {
            let ghost from = (self.current as nat, self.line as nat);
            while self.current < self.source.len() && self.source[self.current] != '"'
                invariant
                    self.wf(),
                    self.source@ == src,
                    self.tokens == old(self).tokens,
                    self.start == s0,
                    self.start < self.current,
                    string_end(src, self.current as nat, self.line as nat) == string_end(src, from.0, from.1),
                decreases src.len() - self.current,
            {
                let ch = self.advance_char();
                if ch == '\n' {
                    self.line += 1;
                }
            }
            assert(string_end(src, self.current as nat, self.line as nat) == (self.current as nat, self.line as nat));
            if self.is_at_end() {
                return Err(self.error(ScanErrorKind::UnterminatedString));
            }
            self.advance_char();
            self.add_token(TokenType::String);
        } else if '0' <= c && c <= '9' {
            let ghost from = self.current as nat;
            while self.current < self.source.len() && '0' <= self.source[self.current] && self.source[self.current] <= '9'
                invariant
                    self.wf(),
                    self.source@ == src,
                    self.tokens == old(self).tokens,
                    self.start == s0,
                    self.line == l0,
                    self.start < self.current,
                    digits_end(src, self.current as nat) == digits_end(src, from),
                decreases src.len() - self.current,
            {
                self.advance_char();
            }
            assert(digits_end(src, self.current as nat) == self.current as nat);
            self.add_token(TokenType::Number);
        } else if ('a' <= c && c <= 'z') || ('A' <= c && c <= 'Z') || c == '_' {
            let ghost from = self.current as nat;
            while self.current < self.source.len()
                && (('a' <= self.source[self.current] && self.source[self.current] <= 'z')
                    || ('A' <= self.source[self.current] && self.source[self.current] <= 'Z')
                    || ('0' <= self.source[self.current] && self.source[self.current] <= '9')
                    || self.source[self.current] == '_')
                invariant
                    self.wf(),
                    self.source@ == src,
                    self.tokens == old(self).tokens,
                    self.start == s0,
                    self.line == l0,
                    self.start < self.current,
                    name_end(src, self.current as nat) == name_end(src, from),
                decreases src.len() - self.current,
            {
                self.advance_char();
            }
            assert(name_end(src, self.current as nat) == self.current as nat);
            let typ = identifier_type(&self.source, self.start, self.current);
            self.add_token(typ);
        } else if c == ' ' || c == '\r' || c == '\t' {
        } else if c == '\n' {
            self.line += 1;
        } else {
            return Err(self.error(ScanErrorKind::UnexpectedCharacter));
        }
        Ok(())
    }

    fn is_at_end(&self) -> (res: bool)
        ensures
            res == (self.current >= self.source@.len()),
    {
        self.current >= self.source.len()
    }

    /// Reads one character; the caller makes sure there is one.
    fn advance_char(&mut self) -> (res: char)
        requires
            old(self).wf(),
            old(self).current < old(self).source@.len(),
        ensures
            final(self).wf(),
            final(self).source == old(self).source,
            final(self).tokens == old(self).tokens,
            final(self).start == old(self).start,
            final(self).line == old(self).line,
            final(self).current == old(self).current + 1,
            res == old(self).source@[old(self).current as int],
    {
        self.current += 1;
        self.source[self.current - 1]
    }

    /// Reads the next character if it is `expected`.
    fn match_char(&mut self, expected: char) -> (res: bool)
        requires
            old(self).wf(),
        ensures
            final(self).wf(),
            final(self).source == old(self).source,
            final(self).tokens == old(self).tokens,
            final(self).start == old(self).start,
            final(self).line == old(self).line,
            res == (old(self).current < old(self).source@.len() && old(self).source@[old(self).current as int] == expected),
            final(self).current == old(self).current + (if res { 1int } else { 0 }),
    {
        if self.is_at_end() {
            return false;
        }
        if self.source[self.current] != expected {
            return false;
        }
        self.current += 1;
        true
    }

    /// The next character, if any.
    fn peek_char(&self) -> (res: Option<char>)
        ensures
            res == (if self.current < self.source@.len() { Some(self.source@[self.current as int]) } else { None::<char> }),
    {
        if self.current < self.source.len() {
            Some(self.source[self.current])
        } else {
            None
        }
    }

    /// Appends a token of kind `typ` whose text is the source from the token's start to
    /// the position, on the current line.
    fn add_token(&mut self, typ: TokenType)
        requires
            old(self).wf(),
        ensures
            final(self).wf(),
            final(self).source == old(self).source,
            final(self).start == old(self).start,
            final(self).current == old(self).current,
            final(self).line == old(self).line,
            final(self).tokens@.len() == old(self).tokens@.len() + 1,
            final(self).tokens@.drop_last() == old(self).tokens@,
            token_spec(final(self).tokens@.last())
                == (typ, old(self).source@.subrange(old(self).start as int, old(self).current as int), old(self).line as nat),
    {
        let text = string_from(&self.source, self.start, self.current);
        self.tokens.push(Token { typ, lexeme: text, line: self.line });
        assert(self.tokens@.drop_last() =~= old(self).tokens@);
    }

    /// The error `kind` for the text read since the token's start, on the current line.
    fn error(&self, kind: ScanErrorKind) -> (res: LoxError)
        requires
            self.wf(),
        ensures
            res matches LoxError::ScanError { kind: k, lexeme, line } && k == kind
                && lexeme@ == self.source@.subrange(self.start as int, self.current as int)
                && line == self.line,
    {
        LoxError::ScanError { kind, lexeme: string_from(&self.source, self.start, self.current), line: self.line }
    }
}

} // verus!
