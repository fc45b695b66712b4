use vstd::prelude::*;

use crate::compiler::trim_quotes;
use crate::token::{Token, TokenType};
use crate::treewalk::ast::{Expr, Literal, Stmt};
use crate::treewalk::parser::{sync_from, Expected, ParseError, ParseErrorKind};

verus! {

/// A syntax tree as the grammar describes it: an expression.
pub enum ExprTree {
    Assign(Token, Box<ExprTree>),
    Binary(Token, Box<ExprTree>, Box<ExprTree>),
    /// The closing parenthesis, the callee and the arguments.
    Call(Token, Box<ExprTree>, Seq<ExprTree>),
    Grouping(Box<ExprTree>),
    /// A number literal, by its token.
    Number(Token),
    /// A string literal, by its token (whose text is quoted).
    Str(Token),
    Bool(bool),
    Nil,
    Logical(Token, Box<ExprTree>, Box<ExprTree>),
    Unary(Token, Box<ExprTree>),
    Variable(Token),
}

/// A syntax tree as the grammar describes it: a statement.
pub enum StmtTree {
    Block(Seq<StmtTree>),
    Expression(ExprTree),
    /// The name, the parameters and the body (a block).
    Function(Token, Seq<Token>, Box<StmtTree>),
    If(ExprTree, Option<Box<StmtTree>>, Option<Box<StmtTree>>),
    Print(ExprTree),
    Variable(Token, Option<ExprTree>),
    While(ExprTree, Option<Box<StmtTree>>),
}

/// The expression `e` is the tree `t`: the same nodes, tokens and literals (a string
/// literal holding the text of its token without the quotes).
pub open spec fn expr_is(e: Expr, t: ExprTree) -> bool
    decreases t,
{
    match t {
        ExprTree::Assign(name, value) => e matches Expr::Assign(d) && d.name == name && expr_is(*d.value, *value),
        ExprTree::Binary(op, left, right) => e matches Expr::Binary(d) && d.operator == op
            && expr_is(*d.left, *left) && expr_is(*d.right, *right),
        ExprTree::Call(paren, callee, args) => e matches Expr::Call(d) && d.operator == paren
            && expr_is(*d.callee, *callee) && d.arguments@.len() == args.len()
            && forall|i: int| 0 <= i < args.len() ==> expr_is(#[trigger] d.arguments@[i], args[i]),
        ExprTree::Grouping(inner) => e matches Expr::Grouping(d) && expr_is(*d.expression, *inner),
        ExprTree::Number(tok) => e matches Expr::Literal(d) && d.value matches Literal::Number(n) && n@ == tok.lexeme@,
        ExprTree::Str(tok) => e matches Expr::Literal(d) && d.value matches Literal::String(s) && s@ == trim_quotes(tok.lexeme@),
        ExprTree::Bool(b) => e matches Expr::Literal(d) && d.value == Literal::Bool(b),
        ExprTree::Nil => e matches Expr::Literal(d) && d.value == Literal::Nil,
        ExprTree::Logical(op, left, right) => e matches Expr::Logical(d) && d.operator == op
            && expr_is(*d.left, *left) && expr_is(*d.right, *right),
        ExprTree::Unary(op, right) => e matches Expr::Unary(d) && d.operator == op && expr_is(*d.right, *right),
        ExprTree::Variable(name) => e matches Expr::Variable(d) && d.name == name,
    }
}

/// The optional statement `s` is the optional tree `t`.
pub open spec fn branch_is(s: Option<Box<Stmt>>, t: Option<Box<StmtTree>>) -> bool
    decreases t,
{
    match t {
        Some(tb) => s matches Some(sb) && stmt_is(*sb, *tb),
        None => s is None,
    }
}

/// The statement `s` is the tree `t`.
pub open spec fn stmt_is(s: Stmt, t: StmtTree) -> bool
    decreases t,
{
    match t {
        StmtTree::Block(ts) => s matches Stmt::Block(d) && d.statements@.len() == ts.len()
            && forall|i: int| 0 <= i < ts.len() ==> stmt_is(#[trigger] d.statements@[i], ts[i]),
        StmtTree::Expression(e) => s matches Stmt::Expression(d) && expr_is(d.expression, e),
        StmtTree::Function(name, params, body) => s matches Stmt::Function(d) && d.name == name
            && d.params@ == params && stmt_is(*d.body, *body),
        StmtTree::If(c, then_branch, else_branch) => s matches Stmt::If(d) && expr_is(d.condition, c)
            && branch_is(d.then_branch, then_branch) && branch_is(d.else_branch, else_branch),
        StmtTree::Print(e) => s matches Stmt::Print(d) && expr_is(d.expression, e),
        StmtTree::Variable(name, init) => s matches Stmt::Variable(d) && d.name == name && match init {
            Some(i) => d.initializer matches Some(v) && expr_is(v, i),
            None => d.initializer is None,
        },
        StmtTree::While(c, body) => s matches Stmt::While(d) && expr_is(d.condition, c) && branch_is(d.body, body),
    }
}

/// The kind of the token at `p` (`Eof` past the end).
pub open spec fn kind_at(ts: Seq<Token>, p: nat) -> TokenType {
    if p < ts.len() { ts[p as int].typ } else { TokenType::Eof }
}

/// The token before `p`, if there is one.
pub open spec fn token_before(ts: Seq<Token>, p: nat) -> Option<Token> {
    if 0 < p <= ts.len() { Some(ts[p - 1]) } else { None }
}

/// The error for a missing token `expected` at `p`.
pub open spec fn missing(ts: Seq<Token>, p: nat, expected: Expected) -> ParseError {
    ParseError { kind: ParseErrorKind::Expected(expected), at: token_before(ts, p) }
}

/// Where a parse of `ts` from some position stands: a result and the position after it.
pub type Parsed<T> = (Result<T, ParseError>, nat);

/// Requires a token of kind `typ` at `p`.
pub open spec fn consume_at(ts: Seq<Token>, p: nat, typ: TokenType, expected: Expected) -> Parsed<Token> {
    if kind_at(ts, p) == typ {
        (Ok(ts[p as int]), p + 1)
    } else {
        (Err(missing(ts, p, expected)), p)
    }
}

/// expression -> assignment
#[verifier::opaque]
pub open spec fn expression_from(ts: Seq<Token>, p: nat) -> Parsed<ExprTree>
    decreases ts.len() - p, 18nat,
{
    assignment_from(ts, p)
}

/// assignment -> logic_or ('=' logic_or)?
#[verifier::opaque]
pub open spec fn assignment_from(ts: Seq<Token>, p: nat) -> Parsed<ExprTree>
    decreases ts.len() - p, 17nat,
{
    let (r, q) = logic_or_from(ts, p);
    match r {
        Err(e) => (Err(e), q),
        Ok(target) => if kind_at(ts, q) == TokenType::Equal && p <= q < ts.len() {
            let (v, q2) = logic_or_from(ts, q + 1);
            match v {
                Err(e) => (Err(e), q2),
                Ok(value) => match target {
                    ExprTree::Variable(name) => (Ok(ExprTree::Assign(name, Box::new(value))), q2),
                    _ => (Err(ParseError { kind: ParseErrorKind::InvalidAssignmentTarget, at: Some(ts[q as int]) }), q2),
                },
            }
        } else {
            (Ok(target), q)
        },
    }
}

/// logic_or -> logic_and ('or' logic_and)*
#[verifier::opaque]
pub open spec fn logic_or_from(ts: Seq<Token>, p: nat) -> Parsed<ExprTree>
    decreases ts.len() - p, 16nat,
{
    let (r, q) = logic_and_from(ts, p);
    match r {
        Err(e) => (Err(e), q),
        Ok(left) => if p <= q <= ts.len() { logic_or_rest(ts, q, left) } else { (Ok(left), q) },
    }
}

/// The `('or' logic_and)*` after `left`.
#[verifier::opaque]
pub open spec fn logic_or_rest(ts: Seq<Token>, q: nat, left: ExprTree) -> Parsed<ExprTree>
    decreases ts.len() - q, 15nat,
{
    if kind_at(ts, q) == TokenType::Or && q < ts.len() {
        let (r, q2) = logic_and_from(ts, q + 1);
        match r {
            Err(e) => (Err(e), q2),
            Ok(right) => if q < q2 <= ts.len() {
                logic_or_rest(ts, q2, ExprTree::Logical(ts[q as int], Box::new(left), Box::new(right)))
            } else {
                (Ok(left), q2)
            },
        }
    } else {
        (Ok(left), q)
    }
}

/// logic_and -> equality ('and' equality)*
#[verifier::opaque]
pub open spec fn logic_and_from(ts: Seq<Token>, p: nat) -> Parsed<ExprTree>
    decreases ts.len() - p, 14nat,
{
    let (r, q) = equality_from(ts, p);
    match r {
        Err(e) => (Err(e), q),
        Ok(left) => if p <= q <= ts.len() { logic_and_rest(ts, q, left) } else { (Ok(left), q) },
    }
}

/// The `('and' equality)*` after `left`.
#[verifier::opaque]
pub open spec fn logic_and_rest(ts: Seq<Token>, q: nat, left: ExprTree) -> Parsed<ExprTree>
    decreases ts.len() - q, 13nat,
{
    if kind_at(ts, q) == TokenType::And && q < ts.len() {
        let (r, q2) = equality_from(ts, q + 1);
        match r {
            Err(e) => (Err(e), q2),
            Ok(right) => if q < q2 <= ts.len() {
                logic_and_rest(ts, q2, ExprTree::Logical(ts[q as int], Box::new(left), Box::new(right)))
            } else {
                (Ok(left), q2)
            },
        }
    } else {
        (Ok(left), q)
    }
}

/// equality -> comparison (('!=' | '==') comparison)*
#[verifier::opaque]
pub open spec fn equality_from(ts: Seq<Token>, p: nat) -> Parsed<ExprTree>
    decreases ts.len() - p, 12nat,
{
    let (r, q) = comparison_from(ts, p);
    match r {
        Err(e) => (Err(e), q),
        Ok(left) => if p <= q <= ts.len() { equality_rest(ts, q, left) } else { (Ok(left), q) },
    }
}

/// The `(('!=' | '==') comparison)*` after `left`.
#[verifier::opaque]
pub open spec fn equality_rest(ts: Seq<Token>, q: nat, left: ExprTree) -> Parsed<ExprTree>
    decreases ts.len() - q, 11nat,
{
    let k = kind_at(ts, q);
    if (k == TokenType::BangEqual || k == TokenType::EqualEqual) && q < ts.len() {
        let (r, q2) = comparison_from(ts, q + 1);
        match r {
            Err(e) => (Err(e), q2),
            Ok(right) => if q < q2 <= ts.len() {
                equality_rest(ts, q2, ExprTree::Binary(ts[q as int], Box::new(left), Box::new(right)))
            } else {
                (Ok(left), q2)
            },
        }
    } else {
        (Ok(left), q)
    }
}

/// comparison -> term (('>' | '>=' | '<' | '<=') term)*
#[verifier::opaque]
pub open spec fn comparison_from(ts: Seq<Token>, p: nat) -> Parsed<ExprTree>
    decreases ts.len() - p, 10nat,
{
    let (r, q) = term_from(ts, p);
    match r {
        Err(e) => (Err(e), q),
        Ok(left) => if p <= q <= ts.len() { comparison_rest(ts, q, left) } else { (Ok(left), q) },
    }
}

/// The `(('>' | '>=' | '<' | '<=') term)*` after `left`.
#[verifier::opaque]
pub open spec fn comparison_rest(ts: Seq<Token>, q: nat, left: ExprTree) -> Parsed<ExprTree>
    decreases ts.len() - q, 9nat,
{
    let k = kind_at(ts, q);
    if (k == TokenType::Greater || k == TokenType::GreaterEqual || k == TokenType::Less || k == TokenType::LessEqual)
        && q < ts.len() {
        let (r, q2) = term_from(ts, q + 1);
        match r {
            Err(e) => (Err(e), q2),
            Ok(right) => if q < q2 <= ts.len() {
                comparison_rest(ts, q2, ExprTree::Binary(ts[q as int], Box::new(left), Box::new(right)))
            } else {
                (Ok(left), q2)
            },
        }
    } else {
        (Ok(left), q)
    }
}

/// term -> factor (('+' | '-') factor)*
#[verifier::opaque]
pub open spec fn term_from(ts: Seq<Token>, p: nat) -> Parsed<ExprTree>
    decreases ts.len() - p, 8nat,
{
    let (r, q) = factor_from(ts, p);
    match r {
        Err(e) => (Err(e), q),
        Ok(left) => if p <= q <= ts.len() { term_rest(ts, q, left) } else { (Ok(left), q) },
    }
}

/// The `(('+' | '-') factor)*` after `left`.
#[verifier::opaque]
pub open spec fn term_rest(ts: Seq<Token>, q: nat, left: ExprTree) -> Parsed<ExprTree>
    decreases ts.len() - q, 7nat,
{
    let k = kind_at(ts, q);
    if (k == TokenType::Plus || k == TokenType::Minus) && q < ts.len() {
        let (r, q2) = factor_from(ts, q + 1);
        match r {
            Err(e) => (Err(e), q2),
            Ok(right) => if q < q2 <= ts.len() {
                term_rest(ts, q2, ExprTree::Binary(ts[q as int], Box::new(left), Box::new(right)))
            } else {
                (Ok(left), q2)
            },
        }
    } else {
        (Ok(left), q)
    }
}

/// factor -> unary (('*' | '/') unary)*
#[verifier::opaque]
pub open spec fn factor_from(ts: Seq<Token>, p: nat) -> Parsed<ExprTree>
    decreases ts.len() - p, 6nat,
{
    let (r, q) = unary_from(ts, p);
    match r {
        Err(e) => (Err(e), q),
        Ok(left) => if p <= q <= ts.len() { factor_rest(ts, q, left) } else { (Ok(left), q) },
    }
}

/// The `(('*' | '/') unary)*` after `left`.
#[verifier::opaque]
pub open spec fn factor_rest(ts: Seq<Token>, q: nat, left: ExprTree) -> Parsed<ExprTree>
    decreases ts.len() - q, 5nat,
{
    let k = kind_at(ts, q);
    if (k == TokenType::Slash || k == TokenType::Star) && q < ts.len() {
        let (r, q2) = unary_from(ts, q + 1);
        match r {
            Err(e) => (Err(e), q2),
            Ok(right) => if q < q2 <= ts.len() {
                factor_rest(ts, q2, ExprTree::Binary(ts[q as int], Box::new(left), Box::new(right)))
            } else {
                (Ok(left), q2)
            },
        }
    } else {
        (Ok(left), q)
    }
}

/// unary -> ('-' | '!') unary | call
#[verifier::opaque]
pub open spec fn unary_from(ts: Seq<Token>, p: nat) -> Parsed<ExprTree>
    decreases ts.len() - p, 4nat,
{
    let k = kind_at(ts, p);
    if (k == TokenType::Minus || k == TokenType::Bang) && p < ts.len() {
        let (r, q) = unary_from(ts, p + 1);
        match r {
            Err(e) => (Err(e), q),
            Ok(right) => (Ok(ExprTree::Unary(ts[p as int], Box::new(right))), q),
        }
    } else {
        call_from(ts, p)
    }
}

/// call -> primary ('(' arguments? ')')*
#[verifier::opaque]
pub open spec fn call_from(ts: Seq<Token>, p: nat) -> Parsed<ExprTree>
    decreases ts.len() - p, 3nat,
{
    let (r, q) = primary_from(ts, p);
    match r {
        Err(e) => (Err(e), q),
        Ok(callee) => if p <= q <= ts.len() { call_rest(ts, q, callee) } else { (Ok(callee), q) },
    }
}

/// The calls `('(' arguments? ')')*` of `callee`.
#[verifier::opaque]
pub open spec fn call_rest(ts: Seq<Token>, q: nat, callee: ExprTree) -> Parsed<ExprTree>
    decreases ts.len() - q, 2nat,
{
    if kind_at(ts, q) == TokenType::LeftParen && q < ts.len() {
        let (a, q2) = if kind_at(ts, q + 1) == TokenType::RightParen {
            (Ok(Seq::empty()), q + 1)
        } else {
            arguments_from(ts, q + 1, Seq::empty())
        };
        match a {
            Err(e) => (Err(e), q2),
            Ok(args) => {
                let (c, q3) = consume_at(ts, q2, TokenType::RightParen, Expected::RightParenAfterArguments);
                match c {
                    Err(e) => (Err(e), q3),
                    Ok(paren) => if args.len() >= 255 {
                        (Err(ParseError { kind: ParseErrorKind::TooManyArguments, at: Some(paren) }), q3)
                    } else if q < q3 <= ts.len() {
                        call_rest(ts, q3, ExprTree::Call(paren, Box::new(callee), args))
                    } else {
                        (Ok(callee), q3)
                    },
                }
            },
        }
    } else {
        (Ok(callee), q)
    }
}

/// arguments -> expression (',' expression)* ; `acc` holds those already read.
#[verifier::opaque]
pub open spec fn arguments_from(ts: Seq<Token>, p: nat, acc: Seq<ExprTree>) -> Parsed<Seq<ExprTree>>
    decreases ts.len() - p, 19nat,
{
    let (r, q) = expression_from(ts, p);
    match r {
        Err(e) => (Err(e), q),
        Ok(arg) => if kind_at(ts, q) == TokenType::Comma && p <= q < ts.len() {
            arguments_from(ts, q + 1, acc.push(arg))
        } else {
            (Ok(acc.push(arg)), q)
        },
    }
}

/// primary -> 'false' | 'true' | 'nil' | number | string | identifier | '(' expression ')'
#[verifier::opaque]
pub open spec fn primary_from(ts: Seq<Token>, p: nat) -> Parsed<ExprTree>
    decreases ts.len() - p, 1nat,
{
    let k = kind_at(ts, p);
    if k == TokenType::False {
        (Ok(ExprTree::Bool(false)), p + 1)
    } else if k == TokenType::True {
        (Ok(ExprTree::Bool(true)), p + 1)
    } else if k == TokenType::Nil {
        (Ok(ExprTree::Nil), p + 1)
    } else if k == TokenType::Number {
        (Ok(ExprTree::Number(ts[p as int])), p + 1)
    } else if k == TokenType::String {
        (Ok(ExprTree::Str(ts[p as int])), p + 1)
    } else if k == TokenType::Identifier {
        (Ok(ExprTree::Variable(ts[p as int])), p + 1)
    } else if k == TokenType::LeftParen && p < ts.len() {
        let (r, q) = expression_from(ts, p + 1);
        match r {
            Err(e) => (Err(e), q),
            Ok(inner) => {
                let (c, q2) = consume_at(ts, q, TokenType::RightParen, Expected::RightParenAfterGrouping);
                match c {
                    Err(e) => (Err(e), q2),
                    Ok(_) => (Ok(ExprTree::Grouping(Box::new(inner))), q2),
                }
            },
        }
    } else {
        (Err(ParseError { kind: ParseErrorKind::ExpectExpression, at: token_before(ts, p) }), p)
    }
}

/// A statement parse: the result, the position after it, and the errors reported (and
/// recovered from) inside it on the way.
pub type Stepped = (Result<StmtTree, ParseError>, nat, Seq<ParseError>);

/// Where the parser resumes after an error at `q`: one token on, then up to the next
/// statement.
pub open spec fn recover(ts: Seq<Token>, q: nat) -> nat {
    sync_from(ts, if kind_at(ts, q) == TokenType::Eof { q } else { q + 1 })
}

/// stmt -> var_declaration | fun_declaration | statement ; on an error the parser reports
/// it, recovers, and gives no statement.
#[verifier::opaque]
pub open spec fn stmt_from(ts: Seq<Token>, p: nat) -> (Option<StmtTree>, nat, Seq<ParseError>)
    decreases ts.len() - p, 20nat,
{
    let k = kind_at(ts, p);
    let (r, q, errs) = if k == TokenType::Var && p < ts.len() {
        var_decl_from(ts, p + 1)
    } else if k == TokenType::Function && p < ts.len() {
        fun_decl_from(ts, p + 1)
    } else {
        statement_from(ts, p)
    };
    match r {
        Ok(s) => (Some(s), q, errs),
        Err(e) => (None, recover(ts, q), errs.push(e)),
    }
}

/// var_declaration -> 'var' identifier ('=' expression)? ';' ; from after `var`.
#[verifier::opaque]
pub open spec fn var_decl_from(ts: Seq<Token>, p: nat) -> Stepped
    decreases ts.len() - p, 15nat,
{
    let (n, q) = consume_at(ts, p, TokenType::Identifier, Expected::VariableName);
    match n {
        Err(e) => (Err(e), q, Seq::empty()),
        Ok(name) => if kind_at(ts, q) == TokenType::Equal && q < ts.len() {
            let (r, q2) = expression_from(ts, q + 1);
            match r {
                Err(e) => (Err(e), q2, Seq::empty()),
                Ok(init) => {
                    let (c, q3) = consume_at(ts, q2, TokenType::Semicolon, Expected::SemicolonAfterVariableDeclaration);
                    match c {
                        Err(e) => (Err(e), q3, Seq::empty()),
                        Ok(_) => (Ok(StmtTree::Variable(name, Some(init))), q3, Seq::empty()),
                    }
                },
            }
        } else {
            let (c, q3) = consume_at(ts, q, TokenType::Semicolon, Expected::SemicolonAfterVariableDeclaration);
            match c {
                Err(e) => (Err(e), q3, Seq::empty()),
                Ok(_) => (Ok(StmtTree::Variable(name, None)), q3, Seq::empty()),
            }
        },
    }
}

/// parameters -> identifier (',' identifier)* ; `acc` holds those already read, and more
/// than 256 are refused.
pub open spec fn params_from(ts: Seq<Token>, p: nat, acc: Seq<Token>) -> Parsed<Seq<Token>>
    decreases ts.len() - p,
{
    if acc.len() > 255 {
        (Err(ParseError { kind: ParseErrorKind::TooManyParameters, at: None }), p)
    } else {
        let (t, q) = consume_at(ts, p, TokenType::Identifier, Expected::ParameterName);
        match t {
            Err(e) => (Err(e), q),
            Ok(tok) => if kind_at(ts, q) == TokenType::Comma && q < ts.len() {
                params_from(ts, q + 1, acc.push(tok))
            } else {
                (Ok(acc.push(tok)), q)
            },
        }
    }
}

/// fun_declaration -> 'fun' identifier '(' parameters? ')' block ; from after `fun`.
#[verifier::opaque]
pub open spec fn fun_decl_from(ts: Seq<Token>, p: nat) -> Stepped
    decreases ts.len() - p, 15nat,
{
    let (n, q) = consume_at(ts, p, TokenType::Identifier, Expected::FunctionName);
    match n {
        Err(e) => (Err(e), q, Seq::empty()),
        Ok(name) => {
            let (c, q1) = consume_at(ts, q, TokenType::LeftParen, Expected::LeftParenAfterFunctionName);
            match c {
                Err(e) => (Err(e), q1, Seq::empty()),
                Ok(_) => {
                    let (ps, q2) = if kind_at(ts, q1) == TokenType::RightParen {
                        (Ok(Seq::empty()), q1)
                    } else {
                        params_from(ts, q1, Seq::empty())
                    };
                    match ps {
                        Err(e) => (Err(e), q2, Seq::empty()),
                        Ok(params) => {
                            let (c2, q3) = consume_at(ts, q2, TokenType::RightParen, Expected::RightParenAfterParameters);
                            match c2 {
                                Err(e) => (Err(e), q3, Seq::empty()),
                                Ok(_) => {
                                    let (c3, q4) = consume_at(ts, q3, TokenType::LeftBrace, Expected::LeftBraceBeforeFunctionBody);
                                    match c3 {
                                        Err(e) => (Err(e), q4, Seq::empty()),
                                        Ok(_) => if p < q4 <= ts.len() {
                                            let (b, q5, errs) = block_from(ts, q4);
                                            match b {
                                                Err(e) => (Err(e), q5, errs),
                                                Ok(body) => (Ok(StmtTree::Function(name, params, Box::new(body))), q5, errs),
                                            }
                                        } else {
                                            (Err(missing(ts, q4, Expected::LeftBraceBeforeFunctionBody)), q4, Seq::empty())
                                        },
                                    }
                                },
                            }
                        },
                    }
                },
            }
        },
    }
}

/// statement -> print | block | while | if | for | expression_statement
#[verifier::opaque]
pub open spec fn statement_from(ts: Seq<Token>, p: nat) -> Stepped
    decreases ts.len() - p, 14nat,
{
    let k = kind_at(ts, p);
    if k == TokenType::Print && p < ts.len() {
        print_from(ts, p + 1)
    } else if k == TokenType::LeftBrace && p < ts.len() {
        block_from(ts, p + 1)
    } else if k == TokenType::While && p < ts.len() {
        while_from(ts, p + 1)
    } else if k == TokenType::If && p < ts.len() {
        if_from(ts, p + 1)
    } else if k == TokenType::For && p < ts.len() {
        for_from(ts, p + 1)
    } else {
        expression_statement_from(ts, p)
    }
}

/// print -> 'print' expression ';' ; from after `print`.
#[verifier::opaque]
pub open spec fn print_from(ts: Seq<Token>, p: nat) -> Stepped
    decreases ts.len() - p, 13nat,
{
    let (r, q) = expression_from(ts, p);
    match r {
        Err(e) => (Err(e), q, Seq::empty()),
        Ok(e) => {
            let (c, q2) = consume_at(ts, q, TokenType::Semicolon, Expected::SemicolonAfterPrintValue);
            match c {
                Err(err) => (Err(err), q2, Seq::empty()),
                Ok(_) => (Ok(StmtTree::Print(e)), q2, Seq::empty()),
            }
        },
    }
}

/// expression_statement -> expression ';'
#[verifier::opaque]
pub open spec fn expression_statement_from(ts: Seq<Token>, p: nat) -> Stepped
    decreases ts.len() - p, 12nat,
{
    let (r, q) = expression_from(ts, p);
    match r {
        Err(e) => (Err(e), q, Seq::empty()),
        Ok(e) => {
            let (c, q2) = consume_at(ts, q, TokenType::Semicolon, Expected::SemicolonAfterExpression);
            match c {
                Err(err) => (Err(err), q2, Seq::empty()),
                Ok(_) => (Ok(StmtTree::Expression(e)), q2, Seq::empty()),
            }
        },
    }
}

/// block -> '{' stmt* '}' ; from after `{`.
#[verifier::opaque]
pub open spec fn block_from(ts: Seq<Token>, p: nat) -> Stepped
    decreases ts.len() - p + 1, 13nat,
{
    block_rest(ts, p, Seq::empty(), Seq::empty())
}

/// The rest of a block from `p`, the statements `acc` read and the errors `errs` reported
/// before.
#[verifier::opaque]
pub open spec fn block_rest(ts: Seq<Token>, p: nat, acc: Seq<StmtTree>, errs: Seq<ParseError>) -> Stepped
    decreases ts.len() - p + 1, 12nat,
{
    let k = kind_at(ts, p);
    if k != TokenType::Eof && k != TokenType::RightBrace {
        let (o, q, e2) = stmt_from(ts, p);
        let acc2 = match o {
            Some(s) => acc.push(s),
            None => acc,
        };
        if p < q <= ts.len() {
            block_rest(ts, q, acc2, errs + e2)
        } else {
            (Ok(StmtTree::Block(acc2)), q, errs + e2)
        }
    } else {
        let (c, q) = consume_at(ts, p, TokenType::RightBrace, Expected::RightBraceAfterBlock);
        match c {
            Err(e) => (Err(e), q, errs),
            Ok(_) => (Ok(StmtTree::Block(acc)), q, errs),
        }
    }
}

/// while -> 'while' '(' expression ')' statement ; from after `while`.
#[verifier::opaque]
pub open spec fn while_from(ts: Seq<Token>, p: nat) -> Stepped
    decreases ts.len() - p, 13nat,
{
    let (c, q) = consume_at(ts, p, TokenType::LeftParen, Expected::LeftParenAfterWhile);
    match c {
        Err(e) => (Err(e), q, Seq::empty()),
        Ok(_) => {
            let (r, q1) = expression_from(ts, q);
            match r {
                Err(e) => (Err(e), q1, Seq::empty()),
                Ok(cond) => {
                    let (c2, q2) = consume_at(ts, q1, TokenType::RightParen, Expected::RightParenAfterWhileCondition);
                    match c2 {
                        Err(e) => (Err(e), q2, Seq::empty()),
                        Ok(_) => if p < q2 <= ts.len() {
                            let (o, q3, errs) = stmt_from(ts, q2);
                            (Ok(StmtTree::While(cond, match o { Some(b) => Some(Box::new(b)), None => None })), q3, errs)
                        } else {
                            (Err(missing(ts, q2, Expected::RightParenAfterWhileCondition)), q2, Seq::empty())
                        },
                    }
                },
            }
        },
    }
}

/// if -> 'if' '(' expression ')' statement ('else' statement)? ; from after `if`.
#[verifier::opaque]
pub open spec fn if_from(ts: Seq<Token>, p: nat) -> Stepped
    decreases ts.len() - p, 13nat,
{
    let (c, q) = consume_at(ts, p, TokenType::LeftParen, Expected::LeftParenAfterIf);
    match c {
        Err(e) => (Err(e), q, Seq::empty()),
        Ok(_) => {
            let (r, q1) = expression_from(ts, q);
            match r {
                Err(e) => (Err(e), q1, Seq::empty()),
                Ok(cond) => {
                    let (c2, q2) = consume_at(ts, q1, TokenType::RightParen, Expected::RightParenAfterIfCondition);
                    match c2 {
                        Err(e) => (Err(e), q2, Seq::empty()),
                        Ok(_) => if p < q2 <= ts.len() {
                            let (then_branch, q3, e1) = stmt_from(ts, q2);
                            let then_box = match then_branch { Some(b) => Some(Box::new(b)), None => None };
                            if kind_at(ts, q3) == TokenType::Else && p <= q3 < ts.len() {
                                let (else_branch, q4, e2) = stmt_from(ts, q3 + 1);
                                let else_box = match else_branch { Some(b) => Some(Box::new(b)), None => None };
                                (Ok(StmtTree::If(cond, then_box, else_box)), q4, e1 + e2)
                            } else {
                                (Ok(StmtTree::If(cond, then_box, None)), q3, e1)
                            }
                        } else {
                            (Err(missing(ts, q2, Expected::RightParenAfterIfCondition)), q2, Seq::empty())
                        },
                    }
                },
            }
        },
    }
}

/// for -> 'for' '(' (var_declaration | expression_statement | ';') expression? ';'
/// expression? ')' statement ; from after `for`. The loop is a `while` over the body
/// followed by the increment, while the condition (or `true`) holds, in a block after
/// the initializer.
#[verifier::opaque]
pub open spec fn for_from(ts: Seq<Token>, p: nat) -> Stepped
    decreases ts.len() - p, 13nat,
{
    let (c, q0) = consume_at(ts, p, TokenType::LeftParen, Expected::LeftParenAfterFor);
    match c {
        Err(e) => (Err(e), q0, Seq::empty()),
        Ok(_) => {
            let (init, q1, _) = if kind_at(ts, q0) == TokenType::Semicolon {
                (Ok(None), q0 + 1, Seq::<ParseError>::empty())
            } else if kind_at(ts, q0) == TokenType::Var {
                let (r, q, e) = var_decl_from(ts, q0 + 1);
                (match r { Ok(s) => Ok(Some(s)), Err(err) => Err(err) }, q, e)
            } else {
                let (r, q, e) = expression_statement_from(ts, q0);
                (match r { Ok(s) => Ok(Some(s)), Err(err) => Err(err) }, q, e)
            };
            match init {
                Err(e) => (Err(e), q1, Seq::empty()),
                Ok(init) => if p <= q1 <= ts.len() {
                    let (cond, q2) = if kind_at(ts, q1) != TokenType::Semicolon {
                        let (r, q) = expression_from(ts, q1);
                        (match r { Ok(e) => Ok(Some(e)), Err(err) => Err(err) }, q)
                    } else {
                        (Ok(None), q1)
                    };
                    match cond {
                        Err(e) => (Err(e), q2, Seq::empty()),
                        Ok(cond) => {
                            let (c2, q3) = consume_at(ts, q2, TokenType::Semicolon, Expected::SemicolonAfterLoopCondition);
                            match c2 {
                                Err(e) => (Err(e), q3, Seq::empty()),
                                Ok(_) => if p <= q3 <= ts.len() {
                                    let (inc, q4) = if kind_at(ts, q3) != TokenType::RightParen {
                                        let (r, q) = expression_from(ts, q3);
                                        (match r { Ok(e) => Ok(Some(e)), Err(err) => Err(err) }, q)
                                    } else {
                                        (Ok(None), q3)
                                    };
                                    match inc {
                                        Err(e) => (Err(e), q4, Seq::empty()),
                                        Ok(inc) => {
                                            let (c3, q5) = consume_at(ts, q4, TokenType::RightParen, Expected::RightParenAfterForClauses);
                                            match c3 {
                                                Err(e) => (Err(e), q5, Seq::empty()),
                                                Ok(_) => if p < q5 <= ts.len() {
                                                    let (b, q6, errs) = statement_from(ts, q5);
                                                    match b {
                                                        Err(e) => (Err(e), q6, errs),
                                                        Ok(body) => {
                                                            let body1 = match inc {
                                                                Some(i) => StmtTree::Block(seq![body, StmtTree::Expression(i)]),
                                                                None => body,
                                                            };
                                                            let body2 = StmtTree::While(match cond {
                                                                Some(c) => c,
                                                                None => ExprTree::Bool(true),
                                                            }, Some(Box::new(body1)));
                                                            let body3 = match init {
                                                                Some(i) => StmtTree::Block(seq![i, body2]),
                                                                None => body2,
                                                            };
                                                            (Ok(body3), q6, errs)
                                                        },
                                                    }
                                                } else {
                                                    (Err(missing(ts, q5, Expected::RightParenAfterForClauses)), q5, Seq::empty())
                                                },
                                            }
                                        },
                                    }
                                } else {
                                    (Err(missing(ts, q3, Expected::SemicolonAfterLoopCondition)), q3, Seq::empty())
                                },
                            }
                        },
                    }
                } else {
                    (Err(missing(ts, q1, Expected::LeftParenAfterFor)), q1, Seq::empty())
                },
            }
        },
    }
}

/// program -> stmt* ; the statements that parsed and the errors reported, up to `Eof`.
#[verifier::opaque]
pub open spec fn program_from(ts: Seq<Token>, p: nat) -> (Seq<StmtTree>, Seq<ParseError>)
    decreases ts.len() - p,
{
    if kind_at(ts, p) == TokenType::Eof {
        (Seq::empty(), Seq::empty())
    } else {
        let (o, q, errs) = stmt_from(ts, p);
        let first = match o {
            Some(s) => seq![s],
            None => Seq::empty(),
        };
        if p < q <= ts.len() {
            let (rest, errs2) = program_from(ts, q);
            (first + rest, errs + errs2)
        } else {
            (first, errs)
        }
    }
}

/// One step of `expression_from`.
pub proof fn lemma_expression_from(ts: Seq<Token>, p: nat)
    ensures
        expression_from(ts, p) == ({
            assignment_from(ts, p)
        }),
{
    reveal(expression_from);
    reveal(assignment_from);
}

/// One step of `assignment_from`.
pub proof fn lemma_assignment_from(ts: Seq<Token>, p: nat)
    ensures
        assignment_from(ts, p) == ({
            let (r, q) = logic_or_from(ts, p);
            match r {
                Err(e) => (Err(e), q),
                Ok(target) => if kind_at(ts, q) == TokenType::Equal && p <= q < ts.len() {
                    let (v, q2) = logic_or_from(ts, q + 1);
                    match v {
                        Err(e) => (Err(e), q2),
                        Ok(value) => match target {
                            ExprTree::Variable(name) => (Ok(ExprTree::Assign(name, Box::new(value))), q2),
                            _ => (Err(ParseError { kind: ParseErrorKind::InvalidAssignmentTarget, at: Some(ts[q as int]) }), q2),
                        },
                    }
                } else {
                    (Ok(target), q)
                },
            }
        }),
{
    reveal(assignment_from);
    reveal(logic_or_from);
}

/// One step of `logic_or_from`.
pub proof fn lemma_logic_or_from(ts: Seq<Token>, p: nat)
    ensures
        logic_or_from(ts, p) == ({
            let (r, q) = logic_and_from(ts, p);
            match r {
                Err(e) => (Err(e), q),
                Ok(left) => if p <= q <= ts.len() { logic_or_rest(ts, q, left) } else { (Ok(left), q) },
            }
        }),
{
    reveal(logic_or_from);
    reveal(logic_or_rest);
    reveal(logic_and_from);
}

/// One step of `logic_or_rest`.
pub proof fn lemma_logic_or_rest(ts: Seq<Token>, q: nat, left: ExprTree)
    ensures
        logic_or_rest(ts, q, left) == ({
            if kind_at(ts, q) == TokenType::Or && q < ts.len() {
                let (r, q2) = logic_and_from(ts, q + 1);
                match r {
                    Err(e) => (Err(e), q2),
                    Ok(right) => if q < q2 <= ts.len() {
                        logic_or_rest(ts, q2, ExprTree::Logical(ts[q as int], Box::new(left), Box::new(right)))
                    } else {
                        (Ok(left), q2)
                    },
                }
            } else {
                (Ok(left), q)
            }
        }),
{
    reveal(logic_or_rest);
    reveal(logic_and_from);
}

/// One step of `logic_and_from`.
pub proof fn lemma_logic_and_from(ts: Seq<Token>, p: nat)
    ensures
        logic_and_from(ts, p) == ({
            let (r, q) = equality_from(ts, p);
            match r {
                Err(e) => (Err(e), q),
                Ok(left) => if p <= q <= ts.len() { logic_and_rest(ts, q, left) } else { (Ok(left), q) },
            }
        }),
{
    reveal(logic_and_from);
    reveal(logic_and_rest);
    reveal(equality_from);
}

/// One step of `logic_and_rest`.
pub proof fn lemma_logic_and_rest(ts: Seq<Token>, q: nat, left: ExprTree)
    ensures
        logic_and_rest(ts, q, left) == ({
            if kind_at(ts, q) == TokenType::And && q < ts.len() {
                let (r, q2) = equality_from(ts, q + 1);
                match r {
                    Err(e) => (Err(e), q2),
                    Ok(right) => if q < q2 <= ts.len() {
                        logic_and_rest(ts, q2, ExprTree::Logical(ts[q as int], Box::new(left), Box::new(right)))
                    } else {
                        (Ok(left), q2)
                    },
                }
            } else {
                (Ok(left), q)
            }
        }),
{
    reveal(logic_and_rest);
    reveal(equality_from);
}

/// One step of `equality_from`.
pub proof fn lemma_equality_from(ts: Seq<Token>, p: nat)
    ensures
        equality_from(ts, p) == ({
            let (r, q) = comparison_from(ts, p);
            match r {
                Err(e) => (Err(e), q),
                Ok(left) => if p <= q <= ts.len() { equality_rest(ts, q, left) } else { (Ok(left), q) },
            }
        }),
{
    reveal(equality_from);
    reveal(equality_rest);
    reveal(comparison_from);
}

/// One step of `equality_rest`.
pub proof fn lemma_equality_rest(ts: Seq<Token>, q: nat, left: ExprTree)
    ensures
        equality_rest(ts, q, left) == ({
            let k = kind_at(ts, q);
            if (k == TokenType::BangEqual || k == TokenType::EqualEqual) && q < ts.len() {
                let (r, q2) = comparison_from(ts, q + 1);
                match r {
                    Err(e) => (Err(e), q2),
                    Ok(right) => if q < q2 <= ts.len() {
                        equality_rest(ts, q2, ExprTree::Binary(ts[q as int], Box::new(left), Box::new(right)))
                    } else {
                        (Ok(left), q2)
                    },
                }
            } else {
                (Ok(left), q)
            }
        }),
{
    reveal(equality_rest);
    reveal(comparison_from);
}

/// One step of `comparison_from`.
pub proof fn lemma_comparison_from(ts: Seq<Token>, p: nat)
    ensures
        comparison_from(ts, p) == ({
            let (r, q) = term_from(ts, p);
            match r {
                Err(e) => (Err(e), q),
                Ok(left) => if p <= q <= ts.len() { comparison_rest(ts, q, left) } else { (Ok(left), q) },
            }
        }),
{
    reveal(comparison_from);
    reveal(comparison_rest);
    reveal(term_from);
}

/// One step of `comparison_rest`.
pub proof fn lemma_comparison_rest(ts: Seq<Token>, q: nat, left: ExprTree)
    ensures
        comparison_rest(ts, q, left) == ({
            let k = kind_at(ts, q);
            if (k == TokenType::Greater || k == TokenType::GreaterEqual || k == TokenType::Less || k == TokenType::LessEqual)
                && q < ts.len() {
                let (r, q2) = term_from(ts, q + 1);
                match r {
                    Err(e) => (Err(e), q2),
                    Ok(right) => if q < q2 <= ts.len() {
                        comparison_rest(ts, q2, ExprTree::Binary(ts[q as int], Box::new(left), Box::new(right)))
                    } else {
                        (Ok(left), q2)
                    },
                }
            } else {
                (Ok(left), q)
            }
        }),
{
    reveal(comparison_rest);
    reveal(term_from);
}

/// One step of `term_from`.
pub proof fn lemma_term_from(ts: Seq<Token>, p: nat)
    ensures
        term_from(ts, p) == ({
            let (r, q) = factor_from(ts, p);
            match r {
                Err(e) => (Err(e), q),
                Ok(left) => if p <= q <= ts.len() { term_rest(ts, q, left) } else { (Ok(left), q) },
            }
        }),
{
    reveal(term_from);
    reveal(term_rest);
    reveal(factor_from);
}

/// One step of `term_rest`.
pub proof fn lemma_term_rest(ts: Seq<Token>, q: nat, left: ExprTree)
    ensures
        term_rest(ts, q, left) == ({
            let k = kind_at(ts, q);
            if (k == TokenType::Plus || k == TokenType::Minus) && q < ts.len() {
                let (r, q2) = factor_from(ts, q + 1);
                match r {
                    Err(e) => (Err(e), q2),
                    Ok(right) => if q < q2 <= ts.len() {
                        term_rest(ts, q2, ExprTree::Binary(ts[q as int], Box::new(left), Box::new(right)))
                    } else {
                        (Ok(left), q2)
                    },
                }
            } else {
                (Ok(left), q)
            }
        }),
{
    reveal(term_rest);
    reveal(factor_from);
}

/// One step of `factor_from`.
pub proof fn lemma_factor_from(ts: Seq<Token>, p: nat)
    ensures
        factor_from(ts, p) == ({
            let (r, q) = unary_from(ts, p);
            match r {
                Err(e) => (Err(e), q),
                Ok(left) => if p <= q <= ts.len() { factor_rest(ts, q, left) } else { (Ok(left), q) },
            }
        }),
{
    reveal(factor_from);
    reveal(factor_rest);
    reveal(unary_from);
}

/// One step of `factor_rest`.
pub proof fn lemma_factor_rest(ts: Seq<Token>, q: nat, left: ExprTree)
    ensures
        factor_rest(ts, q, left) == ({
            let k = kind_at(ts, q);
            if (k == TokenType::Slash || k == TokenType::Star) && q < ts.len() {
                let (r, q2) = unary_from(ts, q + 1);
                match r {
                    Err(e) => (Err(e), q2),
                    Ok(right) => if q < q2 <= ts.len() {
                        factor_rest(ts, q2, ExprTree::Binary(ts[q as int], Box::new(left), Box::new(right)))
                    } else {
                        (Ok(left), q2)
                    },
                }
            } else {
                (Ok(left), q)
            }
        }),
{
    reveal(factor_rest);
    reveal(unary_from);
}

/// One step of `unary_from`.
pub proof fn lemma_unary_from(ts: Seq<Token>, p: nat)
    ensures
        unary_from(ts, p) == ({
            let k = kind_at(ts, p);
            if (k == TokenType::Minus || k == TokenType::Bang) && p < ts.len() {
                let (r, q) = unary_from(ts, p + 1);
                match r {
                    Err(e) => (Err(e), q),
                    Ok(right) => (Ok(ExprTree::Unary(ts[p as int], Box::new(right))), q),
                }
            } else {
                call_from(ts, p)
            }
        }),
{
    reveal(unary_from);
    reveal(call_from);
}

/// One step of `call_from`.
pub proof fn lemma_call_from(ts: Seq<Token>, p: nat)
    ensures
        call_from(ts, p) == ({
            let (r, q) = primary_from(ts, p);
            match r {
                Err(e) => (Err(e), q),
                Ok(callee) => if p <= q <= ts.len() { call_rest(ts, q, callee) } else { (Ok(callee), q) },
            }
        }),
{
    reveal(call_from);
    reveal(call_rest);
    reveal(primary_from);
}

/// One step of `call_rest`.
pub proof fn lemma_call_rest(ts: Seq<Token>, q: nat, callee: ExprTree)
    ensures
        call_rest(ts, q, callee) == ({
            if kind_at(ts, q) == TokenType::LeftParen && q < ts.len() {
                let (a, q2) = if kind_at(ts, q + 1) == TokenType::RightParen {
                    (Ok(Seq::empty()), q + 1)
                } else {
                    arguments_from(ts, q + 1, Seq::empty())
                };
                match a {
                    Err(e) => (Err(e), q2),
                    Ok(args) => {
                        let (c, q3) = consume_at(ts, q2, TokenType::RightParen, Expected::RightParenAfterArguments);
                        match c {
                            Err(e) => (Err(e), q3),
                            Ok(paren) => if args.len() >= 255 {
                                (Err(ParseError { kind: ParseErrorKind::TooManyArguments, at: Some(paren) }), q3)
                            } else if q < q3 <= ts.len() {
                                call_rest(ts, q3, ExprTree::Call(paren, Box::new(callee), args))
                            } else {
                                (Ok(callee), q3)
                            },
                        }
                    },
                }
            } else {
                (Ok(callee), q)
            }
        }),
{
    reveal(call_rest);
    reveal(arguments_from);
}

/// One step of `arguments_from`.
pub proof fn lemma_arguments_from(ts: Seq<Token>, p: nat, acc: Seq<ExprTree>)
    ensures
        arguments_from(ts, p, acc) == ({
            let (r, q) = expression_from(ts, p);
            match r {
                Err(e) => (Err(e), q),
                Ok(arg) => if kind_at(ts, q) == TokenType::Comma && p <= q < ts.len() {
                    arguments_from(ts, q + 1, acc.push(arg))
                } else {
                    (Ok(acc.push(arg)), q)
                },
            }
        }),
{
    reveal(arguments_from);
    reveal(expression_from);
}

/// One step of `primary_from`.
pub proof fn lemma_primary_from(ts: Seq<Token>, p: nat)
    ensures
        primary_from(ts, p) == ({
            let k = kind_at(ts, p);
            if k == TokenType::False {
                (Ok(ExprTree::Bool(false)), p + 1)
            } else if k == TokenType::True {
                (Ok(ExprTree::Bool(true)), p + 1)
            } else if k == TokenType::Nil {
                (Ok(ExprTree::Nil), p + 1)
            } else if k == TokenType::Number {
                (Ok(ExprTree::Number(ts[p as int])), p + 1)
            } else if k == TokenType::String {
                (Ok(ExprTree::Str(ts[p as int])), p + 1)
            } else if k == TokenType::Identifier {
                (Ok(ExprTree::Variable(ts[p as int])), p + 1)
            } else if k == TokenType::LeftParen && p < ts.len() {
                let (r, q) = expression_from(ts, p + 1);
                match r {
                    Err(e) => (Err(e), q),
                    Ok(inner) => {
                        let (c, q2) = consume_at(ts, q, TokenType::RightParen, Expected::RightParenAfterGrouping);
                        match c {
                            Err(e) => (Err(e), q2),
                            Ok(_) => (Ok(ExprTree::Grouping(Box::new(inner))), q2),
                        }
                    },
                }
            } else {
                (Err(ParseError { kind: ParseErrorKind::ExpectExpression, at: token_before(ts, p) }), p)
            }
        }),
{
    reveal(primary_from);
    reveal(expression_from);
}

/// One step of `stmt_from`.
pub proof fn lemma_stmt_from(ts: Seq<Token>, p: nat)
    ensures
        stmt_from(ts, p) == ({
            let k = kind_at(ts, p);
            let (r, q, errs) = if k == TokenType::Var && p < ts.len() {
                var_decl_from(ts, p + 1)
            } else if k == TokenType::Function && p < ts.len() {
                fun_decl_from(ts, p + 1)
            } else {
                statement_from(ts, p)
            };
            match r {
                Ok(s) => (Some(s), q, errs),
                Err(e) => (None, recover(ts, q), errs.push(e)),
            }
        }),
{
    reveal(stmt_from);
    reveal(var_decl_from);
    reveal(fun_decl_from);
    reveal(statement_from);
}

/// One step of `var_decl_from`.
pub proof fn lemma_var_decl_from(ts: Seq<Token>, p: nat)
    ensures
        var_decl_from(ts, p) == ({
            let (n, q) = consume_at(ts, p, TokenType::Identifier, Expected::VariableName);
            match n {
                Err(e) => (Err(e), q, Seq::<ParseError>::empty()),
                Ok(name) => if kind_at(ts, q) == TokenType::Equal && q < ts.len() {
                    let (r, q2) = expression_from(ts, q + 1);
                    match r {
                        Err(e) => (Err(e), q2, Seq::empty()),
                        Ok(init) => {
                            let (c, q3) = consume_at(ts, q2, TokenType::Semicolon, Expected::SemicolonAfterVariableDeclaration);
                            match c {
                                Err(e) => (Err(e), q3, Seq::empty()),
                                Ok(_) => (Ok(StmtTree::Variable(name, Some(init))), q3, Seq::empty()),
                            }
                        },
                    }
                } else {
                    let (c, q3) = consume_at(ts, q, TokenType::Semicolon, Expected::SemicolonAfterVariableDeclaration);
                    match c {
                        Err(e) => (Err(e), q3, Seq::empty()),
                        Ok(_) => (Ok(StmtTree::Variable(name, None)), q3, Seq::empty()),
                    }
                },
            }
        }),
{
    reveal(var_decl_from);
    reveal(expression_from);
}

/// One step of `fun_decl_from`.
pub proof fn lemma_fun_decl_from(ts: Seq<Token>, p: nat)
    ensures
        fun_decl_from(ts, p) == ({
            let (n, q) = consume_at(ts, p, TokenType::Identifier, Expected::FunctionName);
            match n {
                Err(e) => (Err(e), q, Seq::empty()),
                Ok(name) => {
                    let (c, q1) = consume_at(ts, q, TokenType::LeftParen, Expected::LeftParenAfterFunctionName);
                    match c {
                        Err(e) => (Err(e), q1, Seq::empty()),
                        Ok(_) => {
                            let (ps, q2) = if kind_at(ts, q1) == TokenType::RightParen {
                                (Ok(Seq::empty()), q1)
                            } else {
                                params_from(ts, q1, Seq::empty())
                            };
                            match ps {
                                Err(e) => (Err(e), q2, Seq::empty()),
                                Ok(params) => {
                                    let (c2, q3) = consume_at(ts, q2, TokenType::RightParen, Expected::RightParenAfterParameters);
                                    match c2 {
                                        Err(e) => (Err(e), q3, Seq::empty()),
                                        Ok(_) => {
                                            let (c3, q4) = consume_at(ts, q3, TokenType::LeftBrace, Expected::LeftBraceBeforeFunctionBody);
                                            match c3 {
                                                Err(e) => (Err(e), q4, Seq::empty()),
                                                Ok(_) => if p < q4 <= ts.len() {
                                                    let (b, q5, errs) = block_from(ts, q4);
                                                    match b {
                                                        Err(e) => (Err(e), q5, errs),
                                                        Ok(body) => (Ok(StmtTree::Function(name, params, Box::new(body))), q5, errs),
                                                    }
                                                } else {
                                                    (Err(missing(ts, q4, Expected::LeftBraceBeforeFunctionBody)), q4, Seq::empty())
                                                },
                                            }
                                        },
                                    }
                                },
                            }
                        },
                    }
                },
            }
        }),
{
    reveal(fun_decl_from);
    reveal(block_from);
}

/// One step of `statement_from`.
pub proof fn lemma_statement_from(ts: Seq<Token>, p: nat)
    ensures
        statement_from(ts, p) == ({
            let k = kind_at(ts, p);
            if k == TokenType::Print && p < ts.len() {
                print_from(ts, p + 1)
            } else if k == TokenType::LeftBrace && p < ts.len() {
                block_from(ts, p + 1)
            } else if k == TokenType::While && p < ts.len() {
                while_from(ts, p + 1)
            } else if k == TokenType::If && p < ts.len() {
                if_from(ts, p + 1)
            } else if k == TokenType::For && p < ts.len() {
                for_from(ts, p + 1)
            } else {
                expression_statement_from(ts, p)
            }
        }),
{
    reveal(statement_from);
    reveal(print_from);
    reveal(expression_statement_from);
    reveal(block_from);
    reveal(while_from);
    reveal(if_from);
    reveal(for_from);
}

/// One step of `print_from`.
pub proof fn lemma_print_from(ts: Seq<Token>, p: nat)
    ensures
        print_from(ts, p) == ({
            let (r, q) = expression_from(ts, p);
            match r {
                Err(e) => (Err(e), q, Seq::<ParseError>::empty()),
                Ok(e) => {
                    let (c, q2) = consume_at(ts, q, TokenType::Semicolon, Expected::SemicolonAfterPrintValue);
                    match c {
                        Err(err) => (Err(err), q2, Seq::empty()),
                        Ok(_) => (Ok(StmtTree::Print(e)), q2, Seq::empty()),
                    }
                },
            }
        }),
{
    reveal(print_from);
    reveal(expression_from);
}

/// One step of `expression_statement_from`.
pub proof fn lemma_expression_statement_from(ts: Seq<Token>, p: nat)
    ensures
        expression_statement_from(ts, p) == ({
            let (r, q) = expression_from(ts, p);
            match r {
                Err(e) => (Err(e), q, Seq::<ParseError>::empty()),
                Ok(e) => {
                    let (c, q2) = consume_at(ts, q, TokenType::Semicolon, Expected::SemicolonAfterExpression);
                    match c {
                        Err(err) => (Err(err), q2, Seq::empty()),
                        Ok(_) => (Ok(StmtTree::Expression(e)), q2, Seq::empty()),
                    }
                },
            }
        }),
{
    reveal(expression_statement_from);
    reveal(expression_from);
}

/// One step of `block_from`.
pub proof fn lemma_block_from(ts: Seq<Token>, p: nat)
    ensures
        block_from(ts, p) == ({
            block_rest(ts, p, Seq::empty(), Seq::empty())
        }),
{
    reveal(block_from);
    reveal(block_rest);
}

/// One step of `block_rest`.
pub proof fn lemma_block_rest(ts: Seq<Token>, p: nat, acc: Seq<StmtTree>, errs: Seq<ParseError>)
    ensures
        block_rest(ts, p, acc, errs) == ({
            let k = kind_at(ts, p);
            if k != TokenType::Eof && k != TokenType::RightBrace {
                let (o, q, e2) = stmt_from(ts, p);
                let acc2 = match o {
                    Some(s) => acc.push(s),
                    None => acc,
                };
                if p < q <= ts.len() {
                    block_rest(ts, q, acc2, errs + e2)
                } else {
                    (Ok(StmtTree::Block(acc2)), q, errs + e2)
                }
            } else {
                let (c, q) = consume_at(ts, p, TokenType::RightBrace, Expected::RightBraceAfterBlock);
                match c {
                    Err(e) => (Err(e), q, errs),
                    Ok(_) => (Ok(StmtTree::Block(acc)), q, errs),
                }
            }
        }),
{
    reveal(block_rest);
    reveal(stmt_from);
}

/// One step of `while_from`.
pub proof fn lemma_while_from(ts: Seq<Token>, p: nat)
    ensures
        while_from(ts, p) == ({
            let (c, q) = consume_at(ts, p, TokenType::LeftParen, Expected::LeftParenAfterWhile);
            match c {
                Err(e) => (Err(e), q, Seq::empty()),
                Ok(_) => {
                    let (r, q1) = expression_from(ts, q);
                    match r {
                        Err(e) => (Err(e), q1, Seq::empty()),
                        Ok(cond) => {
                            let (c2, q2) = consume_at(ts, q1, TokenType::RightParen, Expected::RightParenAfterWhileCondition);
                            match c2 {
                                Err(e) => (Err(e), q2, Seq::empty()),
                                Ok(_) => if p < q2 <= ts.len() {
                                    let (o, q3, errs) = stmt_from(ts, q2);
                                    (Ok(StmtTree::While(cond, match o { Some(b) => Some(Box::new(b)), None => None })), q3, errs)
                                } else {
                                    (Err(missing(ts, q2, Expected::RightParenAfterWhileCondition)), q2, Seq::empty())
                                },
                            }
                        },
                    }
                },
            }
        }),
{
    reveal(while_from);
    reveal(expression_from);
    reveal(stmt_from);
}

/// One step of `if_from`.
pub proof fn lemma_if_from(ts: Seq<Token>, p: nat)
    ensures
        if_from(ts, p) == ({
            let (c, q) = consume_at(ts, p, TokenType::LeftParen, Expected::LeftParenAfterIf);
            match c {
                Err(e) => (Err(e), q, Seq::empty()),
                Ok(_) => {
                    let (r, q1) = expression_from(ts, q);
                    match r {
                        Err(e) => (Err(e), q1, Seq::empty()),
                        Ok(cond) => {
                            let (c2, q2) = consume_at(ts, q1, TokenType::RightParen, Expected::RightParenAfterIfCondition);
                            match c2 {
                                Err(e) => (Err(e), q2, Seq::empty()),
                                Ok(_) => if p < q2 <= ts.len() {
                                    let (then_branch, q3, e1) = stmt_from(ts, q2);
                                    let then_box = match then_branch { Some(b) => Some(Box::new(b)), None => None };
                                    if kind_at(ts, q3) == TokenType::Else && p <= q3 < ts.len() {
                                        let (else_branch, q4, e2) = stmt_from(ts, q3 + 1);
                                        let else_box = match else_branch { Some(b) => Some(Box::new(b)), None => None };
                                        (Ok(StmtTree::If(cond, then_box, else_box)), q4, e1 + e2)
                                    } else {
                                        (Ok(StmtTree::If(cond, then_box, None)), q3, e1)
                                    }
                                } else {
                                    (Err(missing(ts, q2, Expected::RightParenAfterIfCondition)), q2, Seq::empty())
                                },
                            }
                        },
                    }
                },
            }
        }),
{
    reveal(if_from);
    reveal(expression_from);
    reveal(stmt_from);
}

/// One step of `for_from`.
pub proof fn lemma_for_from(ts: Seq<Token>, p: nat)
    ensures
        for_from(ts, p) == ({
            let (c, q0) = consume_at(ts, p, TokenType::LeftParen, Expected::LeftParenAfterFor);
            match c {
                Err(e) => (Err(e), q0, Seq::empty()),
                Ok(_) => {
                    let (init, q1, _) = if kind_at(ts, q0) == TokenType::Semicolon {
                        (Ok(None), q0 + 1, Seq::<ParseError>::empty())
                    } else if kind_at(ts, q0) == TokenType::Var {
                        let (r, q, e) = var_decl_from(ts, q0 + 1);
                        (match r { Ok(s) => Ok(Some(s)), Err(err) => Err(err) }, q, e)
                    } else {
                        let (r, q, e) = expression_statement_from(ts, q0);
                        (match r { Ok(s) => Ok(Some(s)), Err(err) => Err(err) }, q, e)
                    };
                    match init {
                        Err(e) => (Err(e), q1, Seq::empty()),
                        Ok(init) => if p <= q1 <= ts.len() {
                            let (cond, q2) = if kind_at(ts, q1) != TokenType::Semicolon {
                                let (r, q) = expression_from(ts, q1);
                                (match r { Ok(e) => Ok(Some(e)), Err(err) => Err(err) }, q)
                            } else {
                                (Ok(None), q1)
                            };
                            match cond {
                                Err(e) => (Err(e), q2, Seq::empty()),
                                Ok(cond) => {
                                    let (c2, q3) = consume_at(ts, q2, TokenType::Semicolon, Expected::SemicolonAfterLoopCondition);
                                    match c2 {
                                        Err(e) => (Err(e), q3, Seq::empty()),
                                        Ok(_) => if p <= q3 <= ts.len() {
                                            let (inc, q4) = if kind_at(ts, q3) != TokenType::RightParen {
                                                let (r, q) = expression_from(ts, q3);
                                                (match r { Ok(e) => Ok(Some(e)), Err(err) => Err(err) }, q)
                                            } else {
                                                (Ok(None), q3)
                                            };
                                            match inc {
                                                Err(e) => (Err(e), q4, Seq::empty()),
                                                Ok(inc) => {
                                                    let (c3, q5) = consume_at(ts, q4, TokenType::RightParen, Expected::RightParenAfterForClauses);
                                                    match c3 {
                                                        Err(e) => (Err(e), q5, Seq::empty()),
                                                        Ok(_) => if p < q5 <= ts.len() {
                                                            let (b, q6, errs) = statement_from(ts, q5);
                                                            match b {
                                                                Err(e) => (Err(e), q6, errs),
                                                                Ok(body) => {
                                                                    let body1 = match inc {
                                                                        Some(i) => StmtTree::Block(seq![body, StmtTree::Expression(i)]),
                                                                        None => body,
                                                                    };
                                                                    let body2 = StmtTree::While(match cond {
                                                                        Some(c) => c,
                                                                        None => ExprTree::Bool(true),
                                                                    }, Some(Box::new(body1)));
                                                                    let body3 = match init {
                                                                        Some(i) => StmtTree::Block(seq![i, body2]),
                                                                        None => body2,
                                                                    };
                                                                    (Ok(body3), q6, errs)
                                                                },
                                                            }
                                                        } else {
                                                            (Err(missing(ts, q5, Expected::RightParenAfterForClauses)), q5, Seq::empty())
                                                        },
                                                    }
                                                },
                                            }
                                        } else {
                                            (Err(missing(ts, q3, Expected::SemicolonAfterLoopCondition)), q3, Seq::empty())
                                        },
                                    }
                                },
                            }
                        } else {
                            (Err(missing(ts, q1, Expected::LeftParenAfterFor)), q1, Seq::empty())
                        },
                    }
                },
            }
        }),
{
    reveal(for_from);
    reveal(expression_from);
    reveal(var_decl_from);
    reveal(statement_from);
    reveal(expression_statement_from);
}

/// One step of `program_from`.
pub proof fn lemma_program_from(ts: Seq<Token>, p: nat)
    ensures
        program_from(ts, p) == ({
            if kind_at(ts, p) == TokenType::Eof {
                (Seq::empty(), Seq::empty())
            } else {
                let (o, q, errs) = stmt_from(ts, p);
                let first = match o {
                    Some(s) => seq![s],
                    None => Seq::empty(),
                };
                if p < q <= ts.len() {
                    let (rest, errs2) = program_from(ts, q);
                    (first + rest, errs + errs2)
                } else {
                    (first, errs)
                }
            }
        }),
{
    reveal(program_from);
    reveal(stmt_from);
}

/// How loosely an operator token binds: `or` loosest, then `and`, equality, comparison,
/// `+` and `-`, `*` and `/`; any other token binds like an operand.
pub open spec fn op_level(k: TokenType) -> nat {
    if k == TokenType::Or { 1 }
    else if k == TokenType::And { 2 }
    else if k == TokenType::EqualEqual || k == TokenType::BangEqual { 3 }
    else if k == TokenType::Greater || k == TokenType::GreaterEqual || k == TokenType::Less || k == TokenType::LessEqual { 4 }
    else if k == TokenType::Plus || k == TokenType::Minus { 5 }
    else if k == TokenType::Star || k == TokenType::Slash { 6 }
    else { 8 }
}

/// How loosely a tree binds at its top: an assignment loosest, a binary or logical node
/// as its operator, a unary node next, and calls, groupings and single tokens tightest.
pub open spec fn tree_level(t: ExprTree) -> nat {
    match t {
        ExprTree::Assign(_, _) => 0,
        ExprTree::Binary(op, _, _) => op_level(op.typ),
        ExprTree::Logical(op, _, _) => op_level(op.typ),
        ExprTree::Unary(_, _) => 7,
        _ => 8,
    }
}

/// The tree respects precedence and associativity: each operator's left operand binds at
/// least as tightly as it and its right operand strictly more tightly (operators of one
/// level group to the left); a unary operator's operand and a callee bind tightly; the
/// insides of parentheses, assigned values and arguments are whole expressions.
pub open spec fn leveled(t: ExprTree) -> bool
    decreases t,
{
    match t {
        ExprTree::Assign(_, v) => leveled(*v),
        ExprTree::Binary(op, l, r) => leveled(*l) && leveled(*r)
            && tree_level(*l) >= op_level(op.typ) && tree_level(*r) > op_level(op.typ),
        ExprTree::Logical(op, l, r) => leveled(*l) && leveled(*r)
            && tree_level(*l) >= op_level(op.typ) && tree_level(*r) > op_level(op.typ),
        ExprTree::Unary(_, r) => leveled(*r) && tree_level(*r) >= 7,
        ExprTree::Call(_, c, args) => leveled(*c) && tree_level(*c) == 8
            && forall|i: int| 0 <= i < args.len() ==> leveled(#[trigger] args[i]),
        ExprTree::Grouping(inner) => leveled(*inner),
        _ => true,
    }
}

/// An expression parses into a tree that respects precedence and associativity: `1 - 2 - 3`
/// is `(1 - 2) - 3`, `1 + 2 * 3` is `1 + (2 * 3)`, `-a * b` is `(-a) * b`.
pub proof fn lemma_expression_leveled(ts: Seq<Token>, p: nat)
    ensures
        expression_from(ts, p).0 matches Ok(t) ==> leveled(t),
    decreases ts.len() - p, 18nat,
{
    lemma_expression_from(ts, p);
    lemma_assignment_leveled(ts, p);
}

/// An assignment parses into a leveled tree.
pub proof fn lemma_assignment_leveled(ts: Seq<Token>, p: nat)
    ensures
        assignment_from(ts, p).0 matches Ok(t) ==> leveled(t),
    decreases ts.len() - p, 17nat,
{
    lemma_assignment_from(ts, p);
    lemma_logic_or_from_leveled(ts, p);
    let (r, q) = logic_or_from(ts, p);
    if let Ok(target) = r {
        if kind_at(ts, q) == TokenType::Equal && p <= q < ts.len() {
            lemma_logic_or_from_leveled(ts, q + 1);
        }
    }
}

/// The `logic_or` level parses into a leveled tree that binds at least as tightly as it.
pub proof fn lemma_logic_or_from_leveled(ts: Seq<Token>, p: nat)
    ensures
        logic_or_from(ts, p).0 matches Ok(t) ==> leveled(t) && tree_level(t) >= 1,
    decreases ts.len() - p, 16nat,
{
    lemma_logic_or_from(ts, p);
    lemma_logic_and_from_leveled(ts, p);
    let (r, q) = logic_and_from(ts, p);
    if let Ok(left) = r {
        if p <= q <= ts.len() {
            lemma_logic_or_rest_leveled(ts, q, left);
        }
    }
}

/// The operators of the `logic_or` level after a left operand group to the left.
pub proof fn lemma_logic_or_rest_leveled(ts: Seq<Token>, q: nat, left: ExprTree)
    requires
        leveled(left),
        tree_level(left) >= 1,
    ensures
        logic_or_rest(ts, q, left).0 matches Ok(t) ==> leveled(t) && tree_level(t) >= 1,
    decreases ts.len() - q, 15nat,
{
    lemma_logic_or_rest(ts, q, left);
    if kind_at(ts, q) == TokenType::Or && q < ts.len() {
        lemma_logic_and_from_leveled(ts, q + 1);
        let (r, q2) = logic_and_from(ts, q + 1);
        if let Ok(right) = r {
            if q < q2 <= ts.len() {
                let node = ExprTree::Logical(ts[q as int], Box::new(left), Box::new(right));
                assert(leveled(node));
                lemma_logic_or_rest_leveled(ts, q2, node);
            }
        }
    }
}

/// The `logic_and` level parses into a leveled tree that binds at least as tightly as it.
pub proof fn lemma_logic_and_from_leveled(ts: Seq<Token>, p: nat)
    ensures
        logic_and_from(ts, p).0 matches Ok(t) ==> leveled(t) && tree_level(t) >= 2,
    decreases ts.len() - p, 14nat,
{
    lemma_logic_and_from(ts, p);
    lemma_equality_from_leveled(ts, p);
    let (r, q) = equality_from(ts, p);
    if let Ok(left) = r {
        if p <= q <= ts.len() {
            lemma_logic_and_rest_leveled(ts, q, left);
        }
    }
}

/// The operators of the `logic_and` level after a left operand group to the left.
pub proof fn lemma_logic_and_rest_leveled(ts: Seq<Token>, q: nat, left: ExprTree)
    requires
        leveled(left),
        tree_level(left) >= 2,
    ensures
        logic_and_rest(ts, q, left).0 matches Ok(t) ==> leveled(t) && tree_level(t) >= 2,
    decreases ts.len() - q, 13nat,
{
    lemma_logic_and_rest(ts, q, left);
    if kind_at(ts, q) == TokenType::And && q < ts.len() {
        lemma_equality_from_leveled(ts, q + 1);
        let (r, q2) = equality_from(ts, q + 1);
        if let Ok(right) = r {
            if q < q2 <= ts.len() {
                let node = ExprTree::Logical(ts[q as int], Box::new(left), Box::new(right));
                assert(leveled(node));
                lemma_logic_and_rest_leveled(ts, q2, node);
            }
        }
    }
}

/// The `equality` level parses into a leveled tree that binds at least as tightly as it.
pub proof fn lemma_equality_from_leveled(ts: Seq<Token>, p: nat)
    ensures
        equality_from(ts, p).0 matches Ok(t) ==> leveled(t) && tree_level(t) >= 3,
    decreases ts.len() - p, 12nat,
{
    lemma_equality_from(ts, p);
    lemma_comparison_from_leveled(ts, p);
    let (r, q) = comparison_from(ts, p);
    if let Ok(left) = r {
        if p <= q <= ts.len() {
            lemma_equality_rest_leveled(ts, q, left);
        }
    }
}

/// The operators of the `equality` level after a left operand group to the left.
pub proof fn lemma_equality_rest_leveled(ts: Seq<Token>, q: nat, left: ExprTree)
    requires
        leveled(left),
        tree_level(left) >= 3,
    ensures
        equality_rest(ts, q, left).0 matches Ok(t) ==> leveled(t) && tree_level(t) >= 3,
    decreases ts.len() - q, 11nat,
{
    lemma_equality_rest(ts, q, left);
    if (kind_at(ts, q) == TokenType::BangEqual || kind_at(ts, q) == TokenType::EqualEqual) && q < ts.len() {
        lemma_comparison_from_leveled(ts, q + 1);
        let (r, q2) = comparison_from(ts, q + 1);
        if let Ok(right) = r {
            if q < q2 <= ts.len() {
                let node = ExprTree::Binary(ts[q as int], Box::new(left), Box::new(right));
                assert(leveled(node));
                lemma_equality_rest_leveled(ts, q2, node);
            }
        }
    }
}

/// The `comparison` level parses into a leveled tree that binds at least as tightly as it.
pub proof fn lemma_comparison_from_leveled(ts: Seq<Token>, p: nat)
    ensures
        comparison_from(ts, p).0 matches Ok(t) ==> leveled(t) && tree_level(t) >= 4,
    decreases ts.len() - p, 10nat,
{
    lemma_comparison_from(ts, p);
    lemma_term_from_leveled(ts, p);
    let (r, q) = term_from(ts, p);
    if let Ok(left) = r {
        if p <= q <= ts.len() {
            lemma_comparison_rest_leveled(ts, q, left);
        }
    }
}

/// The operators of the `comparison` level after a left operand group to the left.
pub proof fn lemma_comparison_rest_leveled(ts: Seq<Token>, q: nat, left: ExprTree)
    requires
        leveled(left),
        tree_level(left) >= 4,
    ensures
        comparison_rest(ts, q, left).0 matches Ok(t) ==> leveled(t) && tree_level(t) >= 4,
    decreases ts.len() - q, 9nat,
{
    lemma_comparison_rest(ts, q, left);
    if (kind_at(ts, q) == TokenType::Greater || kind_at(ts, q) == TokenType::GreaterEqual || kind_at(ts, q) == TokenType::Less || kind_at(ts, q) == TokenType::LessEqual) && q < ts.len() {
        lemma_term_from_leveled(ts, q + 1);
        let (r, q2) = term_from(ts, q + 1);
        if let Ok(right) = r {
            if q < q2 <= ts.len() {
                let node = ExprTree::Binary(ts[q as int], Box::new(left), Box::new(right));
                assert(leveled(node));
                lemma_comparison_rest_leveled(ts, q2, node);
            }
        }
    }
}

/// The `term` level parses into a leveled tree that binds at least as tightly as it.
pub proof fn lemma_term_from_leveled(ts: Seq<Token>, p: nat)
    ensures
        term_from(ts, p).0 matches Ok(t) ==> leveled(t) && tree_level(t) >= 5,
    decreases ts.len() - p, 8nat,
{
    lemma_term_from(ts, p);
    lemma_factor_from_leveled(ts, p);
    let (r, q) = factor_from(ts, p);
    if let Ok(left) = r {
        if p <= q <= ts.len() {
            lemma_term_rest_leveled(ts, q, left);
        }
    }
}

/// The operators of the `term` level after a left operand group to the left.
pub proof fn lemma_term_rest_leveled(ts: Seq<Token>, q: nat, left: ExprTree)
    requires
        leveled(left),
        tree_level(left) >= 5,
    ensures
        term_rest(ts, q, left).0 matches Ok(t) ==> leveled(t) && tree_level(t) >= 5,
    decreases ts.len() - q, 7nat,
{
    lemma_term_rest(ts, q, left);
    if (kind_at(ts, q) == TokenType::Plus || kind_at(ts, q) == TokenType::Minus) && q < ts.len() {
        lemma_factor_from_leveled(ts, q + 1);
        let (r, q2) = factor_from(ts, q + 1);
        if let Ok(right) = r {
            if q < q2 <= ts.len() {
                let node = ExprTree::Binary(ts[q as int], Box::new(left), Box::new(right));
                assert(leveled(node));
                lemma_term_rest_leveled(ts, q2, node);
            }
        }
    }
}

/// The `factor` level parses into a leveled tree that binds at least as tightly as it.
pub proof fn lemma_factor_from_leveled(ts: Seq<Token>, p: nat)
    ensures
        factor_from(ts, p).0 matches Ok(t) ==> leveled(t) && tree_level(t) >= 6,
    decreases ts.len() - p, 6nat,
{
    lemma_factor_from(ts, p);
    lemma_unary_from_leveled(ts, p);
    let (r, q) = unary_from(ts, p);
    if let Ok(left) = r {
        if p <= q <= ts.len() {
            lemma_factor_rest_leveled(ts, q, left);
        }
    }
}

/// The operators of the `factor` level after a left operand group to the left.
pub proof fn lemma_factor_rest_leveled(ts: Seq<Token>, q: nat, left: ExprTree)
    requires
        leveled(left),
        tree_level(left) >= 6,
    ensures
        factor_rest(ts, q, left).0 matches Ok(t) ==> leveled(t) && tree_level(t) >= 6,
    decreases ts.len() - q, 5nat,
{
    lemma_factor_rest(ts, q, left);
    if (kind_at(ts, q) == TokenType::Slash || kind_at(ts, q) == TokenType::Star) && q < ts.len() {
        lemma_unary_from_leveled(ts, q + 1);
        let (r, q2) = unary_from(ts, q + 1);
        if let Ok(right) = r {
            if q < q2 <= ts.len() {
                let node = ExprTree::Binary(ts[q as int], Box::new(left), Box::new(right));
                assert(leveled(node));
                lemma_factor_rest_leveled(ts, q2, node);
            }
        }
    }
}

/// A unary expression parses into a leveled tree that binds at least as tightly as `-`.
pub proof fn lemma_unary_from_leveled(ts: Seq<Token>, p: nat)
    ensures
        unary_from(ts, p).0 matches Ok(t) ==> leveled(t) && tree_level(t) >= 7,
    decreases ts.len() - p, 4nat,
{
    lemma_unary_from(ts, p);
    let k = kind_at(ts, p);
    if (k == TokenType::Minus || k == TokenType::Bang) && p < ts.len() {
        lemma_unary_from_leveled(ts, p + 1);
    } else {
        lemma_call_from_leveled(ts, p);
    }
}

/// A call parses into a leveled tree that binds tightly.
pub proof fn lemma_call_from_leveled(ts: Seq<Token>, p: nat)
    ensures
        call_from(ts, p).0 matches Ok(t) ==> leveled(t) && tree_level(t) == 8,
    decreases ts.len() - p, 3nat,
{
    lemma_call_from(ts, p);
    lemma_primary_from_leveled(ts, p);
    let (r, q) = primary_from(ts, p);
    if let Ok(callee) = r {
        if p <= q <= ts.len() {
            lemma_call_rest_leveled(ts, q, callee);
        }
    }
}

/// Calls after a callee nest to the left.
pub proof fn lemma_call_rest_leveled(ts: Seq<Token>, q: nat, callee: ExprTree)
    requires
        leveled(callee),
        tree_level(callee) == 8,
    ensures
        call_rest(ts, q, callee).0 matches Ok(t) ==> leveled(t) && tree_level(t) == 8,
    decreases ts.len() - q, 2nat,
{
    lemma_call_rest(ts, q, callee);
    if kind_at(ts, q) == TokenType::LeftParen && q < ts.len() {
        let (a, q2) = if kind_at(ts, q + 1) == TokenType::RightParen {
            (Ok(Seq::<ExprTree>::empty()), q + 1)
        } else {
            arguments_from(ts, q + 1, Seq::empty())
        };
        if kind_at(ts, q + 1) != TokenType::RightParen {
            lemma_arguments_leveled(ts, q + 1, Seq::empty());
        }
        if let Ok(args) = a {
            let (c, q3) = consume_at(ts, q2, TokenType::RightParen, Expected::RightParenAfterArguments);
            if let Ok(paren) = c {
                if args.len() < 255 && q < q3 <= ts.len() {
                    let node = ExprTree::Call(paren, Box::new(callee), args);
                    assert(leveled(node));
                    lemma_call_rest_leveled(ts, q3, node);
                }
            }
        }
    }
}

/// Arguments parse into leveled trees.
pub proof fn lemma_arguments_leveled(ts: Seq<Token>, p: nat, acc: Seq<ExprTree>)
    requires
        forall|i: int| 0 <= i < acc.len() ==> leveled(#[trigger] acc[i]),
    ensures
        arguments_from(ts, p, acc).0 matches Ok(args) ==> forall|i: int| 0 <= i < args.len() ==> leveled(#[trigger] args[i]),
    decreases ts.len() - p, 19nat,
{
    lemma_arguments_from(ts, p, acc);
    lemma_expression_leveled(ts, p);
    let (r, q) = expression_from(ts, p);
    if let Ok(arg) = r {
        assert(forall|i: int| 0 <= i < acc.push(arg).len() ==> leveled(#[trigger] acc.push(arg)[i]));
        if kind_at(ts, q) == TokenType::Comma && p <= q < ts.len() {
            lemma_arguments_leveled(ts, q + 1, acc.push(arg));
        }
    }
}

/// A primary expression parses into a leveled tree that binds tightly.
pub proof fn lemma_primary_from_leveled(ts: Seq<Token>, p: nat)
    ensures
        primary_from(ts, p).0 matches Ok(t) ==> leveled(t) && tree_level(t) == 8,
    decreases ts.len() - p, 1nat,
{
    lemma_primary_from(ts, p);
    if kind_at(ts, p) == TokenType::LeftParen && p < ts.len() {
        lemma_expression_leveled(ts, p + 1);
    }
}

} // verus!
