use vstd::prelude::*;

verus! {

/// The kinds of tokens of the Lox language.
#[derive(Clone, Copy, Debug, Hash, PartialEq, Eq, Structural)]
pub enum TokenType {
    // Single-character tokens.
    LeftParen,
    RightParen,
    LeftBrace,
    RightBrace,
    Comma,
    Dot,
    Minus,
    Plus,
    Semicolon,
    Slash,
    Star,
    // One or two character tokens.
    Bang,
    BangEqual,
    Equal,
    EqualEqual,
    Greater,
    GreaterEqual,
    Less,
    LessEqual,
    // Literals.
    Identifier,
    String,
    Number,
    // Keywords.
    And,
    Class,
    Else,
    False,
    Function,
    For,
    If,
    Nil,
    Or,
    Print,
    Return,
    Super,
    This,
    True,
    Var,
    While,
    Eof,
}

/// A token: its kind, the source text it was read from and the line it ends on.
#[derive(Clone, Debug, Hash, PartialEq, Eq)]
pub struct Token {
    pub typ: TokenType,
    pub lexeme: String,
    pub line: usize,
}

impl Token {
    /// A copy of the token.
    pub fn duplicate(&self) -> (res: Token)
        ensures
            res == *self,
    {
        Token { typ: self.typ, lexeme: self.lexeme.clone(), line: self.line }
    }
}

/// The number of token kinds.
pub const TOKEN_TYPE_COUNT: usize = 39;

impl TokenType {
    /// The position of the kind in the declaration order, from 0.
    pub open spec fn spec_index(self) -> nat {
        match self {
            TokenType::LeftParen => 0,
            TokenType::RightParen => 1,
            TokenType::LeftBrace => 2,
            TokenType::RightBrace => 3,
            TokenType::Comma => 4,
            TokenType::Dot => 5,
            TokenType::Minus => 6,
            TokenType::Plus => 7,
            TokenType::Semicolon => 8,
            TokenType::Slash => 9,
            TokenType::Star => 10,
            TokenType::Bang => 11,
            TokenType::BangEqual => 12,
            TokenType::Equal => 13,
            TokenType::EqualEqual => 14,
            TokenType::Greater => 15,
            TokenType::GreaterEqual => 16,
            TokenType::Less => 17,
            TokenType::LessEqual => 18,
            TokenType::Identifier => 19,
            TokenType::String => 20,
            TokenType::Number => 21,
            TokenType::And => 22,
            TokenType::Class => 23,
            TokenType::Else => 24,
            TokenType::False => 25,
            TokenType::Function => 26,
            TokenType::For => 27,
            TokenType::If => 28,
            TokenType::Nil => 29,
            TokenType::Or => 30,
            TokenType::Print => 31,
            TokenType::Return => 32,
            TokenType::Super => 33,
            TokenType::This => 34,
            TokenType::True => 35,
            TokenType::Var => 36,
            TokenType::While => 37,
            TokenType::Eof => 38,
        }
    }

    /// The kind at position `index` of the declaration order, if there is one.
    pub open spec fn spec_from_index(index: nat) -> Option<TokenType> {
        if index == 0 { Some(TokenType::LeftParen) }
        else if index == 1 { Some(TokenType::RightParen) }
        else if index == 2 { Some(TokenType::LeftBrace) }
        else if index == 3 { Some(TokenType::RightBrace) }
        else if index == 4 { Some(TokenType::Comma) }
        else if index == 5 { Some(TokenType::Dot) }
        else if index == 6 { Some(TokenType::Minus) }
        else if index == 7 { Some(TokenType::Plus) }
        else if index == 8 { Some(TokenType::Semicolon) }
        else if index == 9 { Some(TokenType::Slash) }
        else if index == 10 { Some(TokenType::Star) }
        else if index == 11 { Some(TokenType::Bang) }
        else if index == 12 { Some(TokenType::BangEqual) }
        else if index == 13 { Some(TokenType::Equal) }
        else if index == 14 { Some(TokenType::EqualEqual) }
        else if index == 15 { Some(TokenType::Greater) }
        else if index == 16 { Some(TokenType::GreaterEqual) }
        else if index == 17 { Some(TokenType::Less) }
        else if index == 18 { Some(TokenType::LessEqual) }
        else if index == 19 { Some(TokenType::Identifier) }
        else if index == 20 { Some(TokenType::String) }
        else if index == 21 { Some(TokenType::Number) }
        else if index == 22 { Some(TokenType::And) }
        else if index == 23 { Some(TokenType::Class) }
        else if index == 24 { Some(TokenType::Else) }
        else if index == 25 { Some(TokenType::False) }
        else if index == 26 { Some(TokenType::Function) }
        else if index == 27 { Some(TokenType::For) }
        else if index == 28 { Some(TokenType::If) }
        else if index == 29 { Some(TokenType::Nil) }
        else if index == 30 { Some(TokenType::Or) }
        else if index == 31 { Some(TokenType::Print) }
        else if index == 32 { Some(TokenType::Return) }
        else if index == 33 { Some(TokenType::Super) }
        else if index == 34 { Some(TokenType::This) }
        else if index == 35 { Some(TokenType::True) }
        else if index == 36 { Some(TokenType::Var) }
        else if index == 37 { Some(TokenType::While) }
        else if index == 38 { Some(TokenType::Eof) }
        else { None }
    }

    /// The position of the kind in the declaration order (`typ as usize`).
    pub fn index(self) -> (res: usize)
        ensures
            res == self.spec_index(),
    {
        match self {
            TokenType::LeftParen => 0,
            TokenType::RightParen => 1,
            TokenType::LeftBrace => 2,
            TokenType::RightBrace => 3,
            TokenType::Comma => 4,
            TokenType::Dot => 5,
            TokenType::Minus => 6,
            TokenType::Plus => 7,
            TokenType::Semicolon => 8,
            TokenType::Slash => 9,
            TokenType::Star => 10,
            TokenType::Bang => 11,
            TokenType::BangEqual => 12,
            TokenType::Equal => 13,
            TokenType::EqualEqual => 14,
            TokenType::Greater => 15,
            TokenType::GreaterEqual => 16,
            TokenType::Less => 17,
            TokenType::LessEqual => 18,
            TokenType::Identifier => 19,
            TokenType::String => 20,
            TokenType::Number => 21,
            TokenType::And => 22,
            TokenType::Class => 23,
            TokenType::Else => 24,
            TokenType::False => 25,
            TokenType::Function => 26,
            TokenType::For => 27,
            TokenType::If => 28,
            TokenType::Nil => 29,
            TokenType::Or => 30,
            TokenType::Print => 31,
            TokenType::Return => 32,
            TokenType::Super => 33,
            TokenType::This => 34,
            TokenType::True => 35,
            TokenType::Var => 36,
            TokenType::While => 37,
            TokenType::Eof => 38,
        }
    }

    /// The kind at position `value` of the declaration order; `None` past the last kind
    /// (where the conversion `TokenType::try_from(usize)` fails).
    pub fn from_index(value: usize) -> (res: Option<TokenType>)
        ensures
            res == TokenType::spec_from_index(value as nat),
    {
        if value == 0 { Some(TokenType::LeftParen) }
        else if value == 1 { Some(TokenType::RightParen) }
        else if value == 2 { Some(TokenType::LeftBrace) }
        else if value == 3 { Some(TokenType::RightBrace) }
        else if value == 4 { Some(TokenType::Comma) }
        else if value == 5 { Some(TokenType::Dot) }
        else if value == 6 { Some(TokenType::Minus) }
        else if value == 7 { Some(TokenType::Plus) }
        else if value == 8 { Some(TokenType::Semicolon) }
        else if value == 9 { Some(TokenType::Slash) }
        else if value == 10 { Some(TokenType::Star) }
        else if value == 11 { Some(TokenType::Bang) }
        else if value == 12 { Some(TokenType::BangEqual) }
        else if value == 13 { Some(TokenType::Equal) }
        else if value == 14 { Some(TokenType::EqualEqual) }
        else if value == 15 { Some(TokenType::Greater) }
        else if value == 16 { Some(TokenType::GreaterEqual) }
        else if value == 17 { Some(TokenType::Less) }
        else if value == 18 { Some(TokenType::LessEqual) }
        else if value == 19 { Some(TokenType::Identifier) }
        else if value == 20 { Some(TokenType::String) }
        else if value == 21 { Some(TokenType::Number) }
        else if value == 22 { Some(TokenType::And) }
        else if value == 23 { Some(TokenType::Class) }
        else if value == 24 { Some(TokenType::Else) }
        else if value == 25 { Some(TokenType::False) }
        else if value == 26 { Some(TokenType::Function) }
        else if value == 27 { Some(TokenType::For) }
        else if value == 28 { Some(TokenType::If) }
        else if value == 29 { Some(TokenType::Nil) }
        else if value == 30 { Some(TokenType::Or) }
        else if value == 31 { Some(TokenType::Print) }
        else if value == 32 { Some(TokenType::Return) }
        else if value == 33 { Some(TokenType::Super) }
        else if value == 34 { Some(TokenType::This) }
        else if value == 35 { Some(TokenType::True) }
        else if value == 36 { Some(TokenType::Var) }
        else if value == 37 { Some(TokenType::While) }
        else if value == 38 { Some(TokenType::Eof) }
        else { None }
    }
}

/// Converting a kind to its index and back gives the kind again, and every index below
/// the number of kinds is the index of exactly the kind it converts to.
pub proof fn lemma_token_type_index_roundtrip(typ: TokenType, index: nat)
    ensures
        TokenType::spec_from_index(typ.spec_index()) == Some(typ),
        typ.spec_index() < TOKEN_TYPE_COUNT,
        index < TOKEN_TYPE_COUNT <==> TokenType::spec_from_index(index) is Some,
        TokenType::spec_from_index(index) matches Some(t) ==> t.spec_index() == index,
{
}

/// The keyword kind spelled by `text`, or `Identifier` when `text` is no keyword.
pub open spec fn keyword_type(text: Seq<char>) -> TokenType {
    if text == seq!['a', 'n', 'd'] { TokenType::And }
    else if text == seq!['c', 'l', 'a', 's', 's'] { TokenType::Class }
    else if text == seq!['e', 'l', 's', 'e'] { TokenType::Else }
    else if text == seq!['f', 'a', 'l', 's', 'e'] { TokenType::False }
    else if text == seq!['f', 'o', 'r'] { TokenType::For }
    else if text == seq!['f', 'u', 'n'] { TokenType::Function }
    else if text == seq!['i', 'f'] { TokenType::If }
    else if text == seq!['n', 'i', 'l'] { TokenType::Nil }
    else if text == seq!['o', 'r'] { TokenType::Or }
    else if text == seq!['p', 'r', 'i', 'n', 't'] { TokenType::Print }
    else if text == seq!['r', 'e', 't', 'u', 'r', 'n'] { TokenType::Return }
    else if text == seq!['s', 'u', 'p', 'e', 'r'] { TokenType::Super }
    else if text == seq!['t', 'h', 'i', 's'] { TokenType::This }
    else if text == seq!['t', 'r', 'u', 'e'] { TokenType::True }
    else if text == seq!['v', 'a', 'r'] { TokenType::Var }
    else if text == seq!['w', 'h', 'i', 'l', 'e'] { TokenType::While }
    else { TokenType::Identifier }
}

/// The reserved words: each of the sixteen keywords reads as its own kind, and any other
/// text as an identifier.
pub proof fn lemma_keywords(text: Seq<char>)
    ensures
        keyword_type("and"@) == TokenType::And,
        keyword_type("class"@) == TokenType::Class,
        keyword_type("else"@) == TokenType::Else,
        keyword_type("false"@) == TokenType::False,
        keyword_type("for"@) == TokenType::For,
        keyword_type("fun"@) == TokenType::Function,
        keyword_type("if"@) == TokenType::If,
        keyword_type("nil"@) == TokenType::Nil,
        keyword_type("or"@) == TokenType::Or,
        keyword_type("print"@) == TokenType::Print,
        keyword_type("return"@) == TokenType::Return,
        keyword_type("super"@) == TokenType::Super,
        keyword_type("this"@) == TokenType::This,
        keyword_type("true"@) == TokenType::True,
        keyword_type("var"@) == TokenType::Var,
        keyword_type("while"@) == TokenType::While,
        keyword_type(text) != TokenType::Identifier ==> (text == "and"@ || text == "class"@ || text == "else"@ || text == "false"@ || text == "for"@ || text == "fun"@ || text == "if"@ || text == "nil"@ || text == "or"@ || text == "print"@ || text == "return"@ || text == "super"@ || text == "this"@ || text == "true"@ || text == "var"@ || text == "while"@),
{
    reveal_strlit("and");
    assert("and"@ =~= seq!['a', 'n', 'd']);
    reveal_strlit("class");
    assert("class"@ =~= seq!['c', 'l', 'a', 's', 's']);
    reveal_strlit("else");
    assert("else"@ =~= seq!['e', 'l', 's', 'e']);
    reveal_strlit("false");
    assert("false"@ =~= seq!['f', 'a', 'l', 's', 'e']);
    reveal_strlit("for");
    assert("for"@ =~= seq!['f', 'o', 'r']);
    reveal_strlit("fun");
    assert("fun"@ =~= seq!['f', 'u', 'n']);
    reveal_strlit("if");
    assert("if"@ =~= seq!['i', 'f']);
    reveal_strlit("nil");
    assert("nil"@ =~= seq!['n', 'i', 'l']);
    reveal_strlit("or");
    assert("or"@ =~= seq!['o', 'r']);
    reveal_strlit("print");
    assert("print"@ =~= seq!['p', 'r', 'i', 'n', 't']);
    reveal_strlit("return");
    assert("return"@ =~= seq!['r', 'e', 't', 'u', 'r', 'n']);
    reveal_strlit("super");
    assert("super"@ =~= seq!['s', 'u', 'p', 'e', 'r']);
    reveal_strlit("this");
    assert("this"@ =~= seq!['t', 'h', 'i', 's']);
    reveal_strlit("true");
    assert("true"@ =~= seq!['t', 'r', 'u', 'e']);
    reveal_strlit("var");
    assert("var"@ =~= seq!['v', 'a', 'r']);
    reveal_strlit("while");
    assert("while"@ =~= seq!['w', 'h', 'i', 'l', 'e']);
}

/// Whether `chars[start..end]` spells `word`.
fn spells(chars: &Vec<char>, start: usize, end: usize, word: &[char]) -> (res: bool)
    requires
        start <= end <= chars@.len(),
    ensures
        res == (chars@.subrange(start as int, end as int) == word@),
{
    if end - start != word.len() {
        return false;
    }
    let mut i: usize = 0;
    while i < word.len()
        invariant
            start <= end <= chars@.len(),
            end - start == word@.len(),
            0 <= i <= word@.len(),
            forall|k: int| 0 <= k < i ==> chars@[start + k] == word@[k],
        decreases word@.len() - i,
    {
        if chars[start + i] != word[i] {
            assert(chars@.subrange(start as int, end as int)[i as int] != word@[i as int]);
            return false;
        }
        i += 1;
    }
    assert(chars@.subrange(start as int, end as int) =~= word@);
    true
}

/// The kind of the word `chars[start..end]`: a keyword's kind, else `Identifier`
/// (the lookup in the table of keywords).
pub fn identifier_type(chars: &Vec<char>, start: usize, end: usize) -> (res: TokenType)
    requires
        start <= end <= chars@.len(),
    ensures
        res == keyword_type(chars@.subrange(start as int, end as int)),
{
    let ghost text = chars@.subrange(start as int, end as int);
    if spells(chars, start, end, &['a', 'n', 'd']) { return TokenType::And; }
    if spells(chars, start, end, &['c', 'l', 'a', 's', 's']) { return TokenType::Class; }
    if spells(chars, start, end, &['e', 'l', 's', 'e']) { return TokenType::Else; }
    if spells(chars, start, end, &['f', 'a', 'l', 's', 'e']) { return TokenType::False; }
    if spells(chars, start, end, &['f', 'o', 'r']) { return TokenType::For; }
    if spells(chars, start, end, &['f', 'u', 'n']) { return TokenType::Function; }
    if spells(chars, start, end, &['i', 'f']) { return TokenType::If; }
    if spells(chars, start, end, &['n', 'i', 'l']) { return TokenType::Nil; }
    if spells(chars, start, end, &['o', 'r']) { return TokenType::Or; }
    if spells(chars, start, end, &['p', 'r', 'i', 'n', 't']) { return TokenType::Print; }
    if spells(chars, start, end, &['r', 'e', 't', 'u', 'r', 'n']) { return TokenType::Return; }
    if spells(chars, start, end, &['s', 'u', 'p', 'e', 'r']) { return TokenType::Super; }
    if spells(chars, start, end, &['t', 'h', 'i', 's']) { return TokenType::This; }
    if spells(chars, start, end, &['t', 'r', 'u', 'e']) { return TokenType::True; }
    if spells(chars, start, end, &['v', 'a', 'r']) { return TokenType::Var; }
    if spells(chars, start, end, &['w', 'h', 'i', 'l', 'e']) { return TokenType::While; }
    TokenType::Identifier
}

/// A token as the scanner reads it: its kind, its text, and the line it ends on.
pub type TokenSpec = (TokenType, Seq<char>, nat);

/// A token seen as kind, text and line.
pub open spec fn token_spec(t: Token) -> TokenSpec {
    (t.typ, t.lexeme@, t.line as nat)
}

/// The tokens of `ts`, seen as kinds, texts and lines.
pub open spec fn tokens_spec(ts: Seq<Token>) -> Seq<TokenSpec> {
    ts.map_values(|t: Token| token_spec(t))
}

} // verus!
