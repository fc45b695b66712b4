use vstd::prelude::*;

use crate::precedence::Precedence;
use crate::token::TokenType;

verus! {

/// The parse functions of the compiler's rule table.
#[derive(Clone, Copy, Debug, PartialEq, Eq, Structural)]
pub enum ParseFnType {
    Grouping,
    Unary,
    Binary,
    Number,
    Literal,
    String,
    Variable,
    And,
    Or,
}

/// How a token kind takes part in an expression: what parses it at the start of an
/// expression, what parses it after a left operand, and how strongly it binds there.
#[derive(Clone, Copy, Debug)]
pub struct ParseRule {
    pub prefix: Option<ParseFnType>,
    pub infix: Option<ParseFnType>,
    pub precedence: Precedence,
}

/// The rule of `typ` in the compiler's table.
pub open spec fn spec_parse_rule(typ: TokenType) -> (Option<ParseFnType>, Option<ParseFnType>, Precedence) {
    match typ {
        TokenType::LeftParen => (Some(ParseFnType::Grouping), None, Precedence::Lowest),
        TokenType::Minus => (Some(ParseFnType::Unary), Some(ParseFnType::Binary), Precedence::Term),
        TokenType::Plus => (None, Some(ParseFnType::Binary), Precedence::Term),
        TokenType::Slash => (None, Some(ParseFnType::Binary), Precedence::Factor),
        TokenType::Star => (None, Some(ParseFnType::Binary), Precedence::Factor),
        TokenType::Bang => (Some(ParseFnType::Unary), None, Precedence::Lowest),
        TokenType::BangEqual => (None, Some(ParseFnType::Binary), Precedence::Equality),
        TokenType::EqualEqual => (None, Some(ParseFnType::Binary), Precedence::Equality),
        TokenType::Greater => (None, Some(ParseFnType::Binary), Precedence::Comparison),
        TokenType::GreaterEqual => (None, Some(ParseFnType::Binary), Precedence::Comparison),
        TokenType::Less => (None, Some(ParseFnType::Binary), Precedence::Comparison),
        TokenType::LessEqual => (None, Some(ParseFnType::Binary), Precedence::Comparison),
        TokenType::Identifier => (Some(ParseFnType::Variable), None, Precedence::Lowest),
        TokenType::String => (Some(ParseFnType::String), None, Precedence::Lowest),
        TokenType::Number => (Some(ParseFnType::Number), None, Precedence::Lowest),
        TokenType::False => (Some(ParseFnType::Literal), None, Precedence::Lowest),
        TokenType::Nil => (Some(ParseFnType::Literal), None, Precedence::Lowest),
        TokenType::True => (Some(ParseFnType::Literal), None, Precedence::Lowest),
        _ => (None, None, Precedence::Lowest),
    }
}

/// The rule of `typ` in the compiler's table.
pub fn get_parse_rule(typ: TokenType) -> (res: ParseRule)
    ensures
        (res.prefix, res.infix, res.precedence) == spec_parse_rule(typ),
{
    let none_rule = ParseRule { prefix: None, infix: None, precedence: Precedence::Lowest };
    match typ {
        TokenType::LeftParen => ParseRule { prefix: Some(ParseFnType::Grouping), infix: None, precedence: Precedence::Lowest },
        TokenType::Minus => ParseRule { prefix: Some(ParseFnType::Unary), infix: Some(ParseFnType::Binary), precedence: Precedence::Term },
        TokenType::Plus => ParseRule { prefix: None, infix: Some(ParseFnType::Binary), precedence: Precedence::Term },
        TokenType::Slash => ParseRule { prefix: None, infix: Some(ParseFnType::Binary), precedence: Precedence::Factor },
        TokenType::Star => ParseRule { prefix: None, infix: Some(ParseFnType::Binary), precedence: Precedence::Factor },
        TokenType::Bang => ParseRule { prefix: Some(ParseFnType::Unary), infix: None, precedence: Precedence::Lowest },
        TokenType::BangEqual => ParseRule { prefix: None, infix: Some(ParseFnType::Binary), precedence: Precedence::Equality },
        TokenType::EqualEqual => ParseRule { prefix: None, infix: Some(ParseFnType::Binary), precedence: Precedence::Equality },
        TokenType::Greater => ParseRule { prefix: None, infix: Some(ParseFnType::Binary), precedence: Precedence::Comparison },
        TokenType::GreaterEqual => ParseRule { prefix: None, infix: Some(ParseFnType::Binary), precedence: Precedence::Comparison },
        TokenType::Less => ParseRule { prefix: None, infix: Some(ParseFnType::Binary), precedence: Precedence::Comparison },
        TokenType::LessEqual => ParseRule { prefix: None, infix: Some(ParseFnType::Binary), precedence: Precedence::Comparison },
        TokenType::Identifier => ParseRule { prefix: Some(ParseFnType::Variable), infix: None, precedence: Precedence::Lowest },
        TokenType::String => ParseRule { prefix: Some(ParseFnType::String), infix: None, precedence: Precedence::Lowest },
        TokenType::Number => ParseRule { prefix: Some(ParseFnType::Number), infix: None, precedence: Precedence::Lowest },
        TokenType::False => ParseRule { prefix: Some(ParseFnType::Literal), infix: None, precedence: Precedence::Lowest },
        TokenType::Nil => ParseRule { prefix: Some(ParseFnType::Literal), infix: None, precedence: Precedence::Lowest },
        TokenType::True => ParseRule { prefix: Some(ParseFnType::Literal), infix: None, precedence: Precedence::Lowest },
        _ => none_rule,
    }
}

/// Exactly the tokens with an infix rule bind more strongly than `Lowest`, and `Eof` has
/// no rule at all, so an expression never starts or continues at the end of the source.
pub proof fn lemma_parse_rule_shape(typ: TokenType)
    ensures
        spec_parse_rule(typ).1 is Some <==> spec_parse_rule(typ).2 != Precedence::Lowest,
        typ == TokenType::Eof ==> spec_parse_rule(typ).0 is None && spec_parse_rule(typ).1 is None,
{
}

} // verus!
