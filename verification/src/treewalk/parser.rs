use vstd::prelude::*;

use crate::compiler::trim_quotes_of;
use crate::token::{Token, TokenType};
use crate::treewalk::grammar::{
    arguments_from, assignment_from, call_from, call_rest, comparison_from, comparison_rest, equality_from,
    equality_rest, expr_is, expression_from, factor_from, factor_rest, lemma_arguments_from,
    lemma_assignment_from, lemma_call_from, lemma_call_rest, lemma_comparison_from, lemma_comparison_rest,
    lemma_equality_from, lemma_equality_rest, lemma_expression_from, lemma_factor_from, lemma_factor_rest,
    lemma_logic_and_from, lemma_logic_and_rest, lemma_logic_or_from, lemma_logic_or_rest, lemma_primary_from,
    lemma_term_from, lemma_term_rest, lemma_unary_from, logic_and_from, logic_and_rest, logic_or_from,
    logic_or_rest, primary_from, term_from, term_rest, unary_from, kind_at, ExprTree,
    block_from, block_rest, expression_statement_from, for_from, fun_decl_from, if_from, lemma_block_from,
    lemma_block_rest, lemma_expression_statement_from, lemma_for_from, lemma_fun_decl_from, lemma_if_from,
    lemma_print_from, lemma_program_from, lemma_statement_from, lemma_stmt_from, lemma_var_decl_from,
    lemma_while_from, params_from, print_from, program_from, statement_from, stmt_from, stmt_is,
    var_decl_from, while_from, StmtTree,
};
use crate::treewalk::ast::{Expr, Literal, Stmt};

verus! {

/// The token the parser required and did not find.
#[derive(Clone, Copy, Debug, PartialEq, Eq, Structural)]
pub enum Expected {
    FunctionName,
    LeftParenAfterFunctionName,
    ParameterName,
    RightParenAfterParameters,
    LeftBraceBeforeFunctionBody,
    VariableName,
    SemicolonAfterVariableDeclaration,
    LeftParenAfterFor,
    SemicolonAfterLoopCondition,
    RightParenAfterForClauses,
    LeftParenAfterWhile,
    RightParenAfterWhileCondition,
    LeftParenAfterIf,
    RightParenAfterIfCondition,
    RightBraceAfterBlock,
    SemicolonAfterPrintValue,
    SemicolonAfterExpression,
    RightParenAfterArguments,
    RightParenAfterGrouping,
}

/// Why the parser rejected a statement.
#[derive(Clone, Copy, Debug, PartialEq, Eq, Structural)]
pub enum ParseErrorKind {
    /// A required token is missing.
    Expected(Expected),
    /// A function declared with more than 256 parameters.
    TooManyParameters,
    /// A call with 255 arguments or more.
    TooManyArguments,
    /// An `=` after something that is no variable.
    InvalidAssignmentTarget,
    /// A token that starts no expression.
    ExpectExpression,
}

/// A parse error and the token it is reported at, if any.
#[derive(Clone, Debug)]
pub struct ParseError {
    pub kind: ParseErrorKind,
    pub at: Option<Token>,
}

/// The kinds of the binary operators of arithmetic, comparison and equality.
pub open spec fn is_binary_operator(t: TokenType) -> bool {
    t == TokenType::BangEqual || t == TokenType::EqualEqual || t == TokenType::Greater
        || t == TokenType::GreaterEqual || t == TokenType::Less || t == TokenType::LessEqual
        || t == TokenType::Plus || t == TokenType::Minus || t == TokenType::Slash || t == TokenType::Star
}

/// The keywords that start a statement (where error recovery stops).
pub open spec fn starts_statement(t: TokenType) -> bool {
    t == TokenType::Class || t == TokenType::Function || t == TokenType::Var || t == TokenType::For
        || t == TokenType::If || t == TokenType::While || t == TokenType::Print || t == TokenType::Return
}

/// Every operator node of `e` holds an operator of its kind, every name is an identifier,
/// and every call has fewer than 255 arguments.
pub open spec fn expr_wf(e: Expr) -> bool
    decreases e,
{
    match e {
        Expr::Assign(d) => d.name.typ == TokenType::Identifier && expr_wf(*d.value),
        Expr::Binary(d) => is_binary_operator(d.operator.typ) && expr_wf(*d.left) && expr_wf(*d.right),
        Expr::Call(d) => d.operator.typ == TokenType::RightParen && d.arguments@.len() < 255 && expr_wf(*d.callee)
            && forall|i: int| 0 <= i < d.arguments@.len() ==> expr_wf(#[trigger] d.arguments@[i]),
        Expr::Get(d) => expr_wf(*d.object),
        Expr::Grouping(d) => expr_wf(*d.expression),
        Expr::Literal(_) => true,
        Expr::Logical(d) => (d.operator.typ == TokenType::And || d.operator.typ == TokenType::Or)
            && expr_wf(*d.left) && expr_wf(*d.right),
        Expr::SetField(d) => expr_wf(*d.object) && expr_wf(*d.value),
        Expr::Super(_) => true,
        Expr::This(_) => true,
        Expr::Unary(d) => (d.operator.typ == TokenType::Minus || d.operator.typ == TokenType::Bang) && expr_wf(*d.right),
        Expr::Variable(d) => d.name.typ == TokenType::Identifier,
    }
}

/// Every expression of `s` is well formed and every declared name is an identifier.
pub open spec fn stmt_wf(s: Stmt) -> bool
    decreases s,
{
    match s {
        Stmt::Block(d) => forall|i: int| 0 <= i < d.statements@.len() ==> stmt_wf(#[trigger] d.statements@[i]),
        Stmt::Class(d) => d.name.typ == TokenType::Identifier && expr_wf(d.superclass)
            && forall|i: int| 0 <= i < d.methods@.len() ==> stmt_wf(#[trigger] d.methods@[i]),
        Stmt::Expression(d) => expr_wf(d.expression),
        Stmt::Function(d) => d.name.typ == TokenType::Identifier && d.params@.len() <= 256
            && (forall|i: int| 0 <= i < d.params@.len() ==> (#[trigger] d.params@[i]).typ == TokenType::Identifier)
            && stmt_wf(*d.body),
        Stmt::If(d) => expr_wf(d.condition)
            && (d.then_branch matches Some(b) ==> stmt_wf(*b))
            && (d.else_branch matches Some(b) ==> stmt_wf(*b)),
        Stmt::Print(d) => expr_wf(d.expression),
        Stmt::Return(d) => d.value matches Some(v) ==> expr_wf(v),
        Stmt::Variable(d) => d.name.typ == TokenType::Identifier && (d.initializer matches Some(v) ==> expr_wf(v)),
        Stmt::While(d) => expr_wf(d.condition) && (d.body matches Some(b) ==> stmt_wf(*b)),
    }
}

/// Where error recovery stops, looking from position `q` on: at the end, after a `;`, or
/// before a keyword that starts a statement.
pub open spec fn sync_from(ts: Seq<Token>, q: nat) -> nat
    decreases ts.len() - q,
{
    if q >= ts.len() || ts[q as int].typ == TokenType::Eof || (q > 0 && ts[q - 1].typ == TokenType::Semicolon)
        || starts_statement(ts[q as int].typ) {
        q
    } else {
        sync_from(ts, q + 1)
    }
}

pub proof fn lemma_sync_from_bounds(ts: Seq<Token>, q: nat, eof: nat)
    requires
        q <= eof < ts.len(),
        ts[eof as int].typ == TokenType::Eof,
    ensures
        q <= sync_from(ts, q) <= eof,
    decreases ts.len() - q,
{
    if !(ts[q as int].typ == TokenType::Eof || (q > 0 && ts[q - 1].typ == TokenType::Semicolon) || starts_statement(ts[q as int].typ)) {
        lemma_sync_from_bounds(ts, q + 1, eof);
    }
}

/// `res` is the parse `expected`: the same tree, or the same error.
pub open spec fn expr_parsed(res: Result<Expr, ParseError>, expected: Result<ExprTree, ParseError>) -> bool {
    match expected {
        Ok(t) => res matches Ok(e) && expr_is(e, t),
        Err(err) => res == Err::<Expr, ParseError>(err),
    }
}

/// `res` is the statement parse `expected`: the same tree, or the same error.
pub open spec fn stmt_parsed(res: Result<Stmt, ParseError>, expected: Result<StmtTree, ParseError>) -> bool {
    match expected {
        Ok(t) => res matches Ok(s) && stmt_is(s, t),
        Err(err) => res == Err::<Stmt, ParseError>(err),
    }
}

/// A recursive-descent parser from tokens to statements. A statement that does not parse
/// is reported and skipped: the parser resumes at the next statement.
pub struct Parser {
    tokens: Vec<Token>,
    current: usize,
    errors: Vec<ParseError>,
    /// Where an `Eof` stands that parsing reaches at the latest.
    eof: Ghost<nat>,
}

impl Parser {
    /// The tokens.
    pub closed spec fn tokens(&self) -> Seq<Token> {
        self.tokens@
    }

    /// The position of the next token.
    pub closed spec fn position(&self) -> nat {
        self.current as nat
    }

    /// The errors reported so far, in order.
    pub closed spec fn reported(&self) -> Seq<ParseError> {
        self.errors@
    }

    /// An `Eof` stands at or after the position; the position stays at the first one.
    pub closed spec fn wf(&self) -> bool {
        &&& self.eof@ < self.tokens@.len()
        &&& self.tokens@[self.eof@ as int].typ == TokenType::Eof
        &&& self.current <= self.eof@
    }

    /// The next token is `Eof`.
    pub closed spec fn at_end(&self) -> bool {
        self.tokens@[self.current as int].typ == TokenType::Eof
    }

    /// The kind of the next token.
    pub closed spec fn next_kind(&self) -> TokenType {
        self.tokens@[self.current as int].typ
    }

    /// Tokens not yet consumed.
    pub closed spec fn remaining(&self) -> nat {
        (self.tokens@.len() - self.current) as nat
    }

    /// A token has been consumed, or one can be.
    pub closed spec fn started(&self) -> bool {
        self.current > 0 || !self.at_end()
    }

    /// What every parse step keeps: the invariant, the tokens, the position never going
    /// back, the reported errors.
    pub closed spec fn keeps(&self, next: &Parser) -> bool {
        &&& next.wf()
        &&& next.tokens@ == self.tokens@
        &&& self.current <= next.current
        &&& self.errors@.len() <= next.errors@.len()
        &&& (self.started() ==> next.started())
    }

    /// The step consumed at least one token.
    pub closed spec fn consumed(&self, next: &Parser) -> bool {
        self.current < next.current
    }

    /// A parser at the start of a copy of `tokens`; it can parse when they hold an `Eof`.
    pub fn new(tokens: &Vec<Token>) -> (res: Parser)
        ensures
            (exists|i: int| 0 <= i < tokens@.len() && #[trigger] tokens@[i].typ == TokenType::Eof) ==> res.wf(),
            res.tokens() == tokens@,
            res.position() == 0,
            res.reported().len() == 0,
    {
        let mut copy: Vec<Token> = Vec::new();
        let mut i: usize = 0;
        while i < tokens.len()
            invariant
                i <= tokens@.len(),
                copy@ == tokens@.take(i as int),
            decreases tokens@.len() - i,
        {
            copy.push(tokens[i].duplicate());
            assert(copy@ =~= tokens@.take(i + 1));
            i += 1;
        }
        assert(copy@ =~= tokens@);
        Parser {
            tokens: copy,
            current: 0,
            errors: Vec::new(),
            eof: Ghost(choose|i: nat| i < tokens@.len() && #[trigger] tokens@[i as int].typ == TokenType::Eof),
        }
    }

    /// The errors reported so far.
    pub fn errors(&self) -> (res: &Vec<ParseError>)
        ensures
            res@ == self.reported(),
    {
        &self.errors
    }

    /// program -> stmt* ; the statements that parsed, in order, up to `Eof`. A statement
    /// that does not parse is reported (see `errors`) and skipped.
    pub fn parse(&mut self) -> (res: Vec<Stmt>)
        requires
            old(self).wf(),
        ensures
            final(self).wf(),
            final(self).at_end(),
            final(self).tokens() == old(self).tokens(),
            res@.len() == program_from(old(self).tokens(), old(self).position()).0.len(),
            forall|i: int| 0 <= i < res@.len()
                ==> stmt_is(#[trigger] res@[i], program_from(old(self).tokens(), old(self).position()).0[i]),
            final(self).reported() == old(self).reported() + program_from(old(self).tokens(), old(self).position()).1,
            forall|i: int| 0 <= i < res@.len() ==> stmt_wf(#[trigger] res@[i]),
    {
        let ghost ts = self.tokens@;
        let ghost p0 = self.current as nat;
        let ghost mut trees: Seq<StmtTree> = Seq::empty();
        let ghost mut errs: Seq<ParseError> = Seq::empty();
        let mut stmts: Vec<Stmt> = Vec::new();
        proof {
            assert(trees + program_from(ts, p0).0 =~= program_from(ts, p0).0);
            assert(errs + program_from(ts, p0).1 =~= program_from(ts, p0).1);
            assert(old(self).errors@ + errs =~= old(self).errors@);
        }
        while !self.is_at_end()
            invariant
                self.wf(),
                self.tokens@ == ts,
                ts == old(self).tokens@,
                p0 == old(self).current,
                self.errors@ == old(self).errors@ + errs,
                program_from(ts, p0).0 == trees + program_from(ts, self.current as nat).0,
                program_from(ts, p0).1 == errs + program_from(ts, self.current as nat).1,
                stmts@.len() == trees.len(),
                forall|i: int| 0 <= i < stmts@.len() ==> stmt_is(#[trigger] stmts@[i], trees[i]),
                forall|i: int| 0 <= i < stmts@.len() ==> stmt_wf(#[trigger] stmts@[i]),
            decreases self.remaining(),
        {
            let ghost p = self.current as nat;
            proof {
                lemma_program_from(ts, p);
            }
            let next = self.parse_stmt();
            let ghost first: Seq<StmtTree> = match stmt_from(ts, p).0 {
                Some(t) => seq![t],
                None => Seq::empty(),
            };
            let ghost e = stmt_from(ts, p).2;
            let ghost q = self.current as nat;
            proof {
                assert(trees + (first + program_from(ts, q).0) =~= (trees + first) + program_from(ts, q).0);
                assert(errs + (e + program_from(ts, q).1) =~= (errs + e) + program_from(ts, q).1);
                assert(old(self).errors@ + errs + e =~= old(self).errors@ + (errs + e));
                trees = trees + first;
                errs = errs + e;
            }
            match next {
                Some(s) => {
                    stmts.push(s);
                },
                None => {},
            }
        }
        proof {
            lemma_program_from(ts, self.current as nat);
            assert(trees + Seq::<StmtTree>::empty() =~= trees);
            assert(errs + Seq::<ParseError>::empty() =~= errs);
        }
        stmts
    }

    /// stmt -> var_declaration | fun_declaration | statement ; an error is reported, the
    /// parser recovers, and no statement is returned.
    fn parse_stmt(&mut self) -> (res: Option<Stmt>)
        requires
            old(self).wf(),
            old(self).started(),
        ensures
            old(self).keeps(final(self)),
            !old(self).at_end() ==> old(self).consumed(final(self)),
            res matches Some(s) ==> stmt_wf(s),
            final(self).current == stmt_from(old(self).tokens@, old(self).current as nat).1,
            final(self).errors@ == old(self).errors@ + stmt_from(old(self).tokens@, old(self).current as nat).2,
            match stmt_from(old(self).tokens@, old(self).current as nat).0 {
                Some(t) => res matches Some(s) && stmt_is(s, t),
                None => res is None,
            },
        decreases old(self).remaining(), 20nat,
    {
        proof {
            lemma_stmt_from(self.tokens@, self.current as nat);
        }
        let result = if self.match_advance(&[TokenType::Var]) {
            self.parse_var_declaration()
        } else if self.match_advance(&[TokenType::Function]) {
            self.parse_fun_declaration()
        } else {
            self.parse_statement()
        };
        match result {
            Ok(s) => Some(s),
            Err(e) => {
                let ghost before = self.errors@;
                self.errors.push(e);
                proof {
                    assert(self.errors@ =~= before.push(e));
                }
                self.synchronize();
                None
            },
        }
    }

    /// fun_declaration -> 'fun' identifier '(' parameters? ')' block ; after `fun`.
    fn parse_fun_declaration(&mut self) -> (res: Result<Stmt, ParseError>)
        requires
            old(self).wf(),
            old(self).current > 0,
        ensures
            old(self).keeps(final(self)),
            res matches Ok(s) ==> stmt_wf(s),
            final(self).current == fun_decl_from(old(self).tokens@, old(self).current as nat).1,
            final(self).errors@ == old(self).errors@ + fun_decl_from(old(self).tokens@, old(self).current as nat).2,
            stmt_parsed(res, fun_decl_from(old(self).tokens@, old(self).current as nat).0),
        decreases old(self).remaining(), 15nat,
    {
        proof {
            lemma_fun_decl_from(self.tokens@, self.current as nat);
        }
        let ghost ts = self.tokens@;
        let ghost p0 = self.current as nat;
        let name = self.consume(TokenType::Identifier, Expected::FunctionName)?;
        self.consume(TokenType::LeftParen, Expected::LeftParenAfterFunctionName)?;
        let ghost q1 = self.current as nat;
        let mut params: Vec<Token> = Vec::new();
        if !self.check(TokenType::RightParen) {
            loop
                invariant_except_break
                    params_from(ts, q1, Seq::empty()) == params_from(ts, self.current as nat, params@),
                invariant
                    old(self).keeps(self),
                    self.errors@ == old(self).errors@,
                    ts == old(self).tokens@,
                    p0 == old(self).current,
                    q1 == p0 + 2,
                    kind_at(ts, p0) == TokenType::Identifier,
                    kind_at(ts, p0 + 1) == TokenType::LeftParen,
                    kind_at(ts, q1) != TokenType::RightParen,
                    q1 <= self.current,
                    params@.len() <= 256,
                    forall|i: int| 0 <= i < params@.len() ==> (#[trigger] params@[i]).typ == TokenType::Identifier,
                ensures
                    params_from(ts, q1, Seq::empty()) == (Ok::<Seq<Token>, ParseError>(params@), self.current as nat),
                decreases self.remaining(),
            {
                proof {
                    lemma_fun_decl_from(ts, p0);
                }
                if params.len() > 255 {
                    return Err(ParseError { kind: ParseErrorKind::TooManyParameters, at: None });
                }
                let p = self.consume(TokenType::Identifier, Expected::ParameterName)?;
                params.push(p);
                if !self.match_advance(&[TokenType::Comma]) {
                    break;
                }
            }
        }
        self.consume(TokenType::RightParen, Expected::RightParenAfterParameters)?;
        self.consume(TokenType::LeftBrace, Expected::LeftBraceBeforeFunctionBody)?;
        let body = self.parse_block_statements()?;
        Ok(Stmt::function(name, params, body))
    }

    /// var_declaration -> 'var' identifier ('=' expression)? ';' ; after `var`.
    fn parse_var_declaration(&mut self) -> (res: Result<Stmt, ParseError>)
        requires
            old(self).wf(),
            old(self).current > 0,
        ensures
            old(self).keeps(final(self)),
            res matches Ok(s) ==> stmt_wf(s),
            final(self).current == var_decl_from(old(self).tokens@, old(self).current as nat).1,
            final(self).errors@ == old(self).errors@ + var_decl_from(old(self).tokens@, old(self).current as nat).2,
            stmt_parsed(res, var_decl_from(old(self).tokens@, old(self).current as nat).0),
        decreases old(self).remaining(), 15nat,
    {
        proof {
            lemma_var_decl_from(self.tokens@, self.current as nat);
        }
        let name = self.consume(TokenType::Identifier, Expected::VariableName)?;
        if self.match_advance(&[TokenType::Equal]) {
            let initializer = self.parse_experssion()?;
            self.consume(TokenType::Semicolon, Expected::SemicolonAfterVariableDeclaration)?;
            Ok(Stmt::variable(name, Some(initializer)))
        } else {
            self.consume(TokenType::Semicolon, Expected::SemicolonAfterVariableDeclaration)?;
            Ok(Stmt::variable(name, None))
        }
    }

    /// statement -> print | block | while | if | for | expression_statement
    fn parse_statement(&mut self) -> (res: Result<Stmt, ParseError>)
        requires
            old(self).wf(),
            old(self).started(),
        ensures
            old(self).keeps(final(self)),
            res is Ok ==> old(self).consumed(final(self)),
            res matches Ok(s) ==> stmt_wf(s),
            final(self).current == statement_from(old(self).tokens@, old(self).current as nat).1,
            final(self).errors@ == old(self).errors@ + statement_from(old(self).tokens@, old(self).current as nat).2,
            stmt_parsed(res, statement_from(old(self).tokens@, old(self).current as nat).0),
        decreases old(self).remaining(), 14nat,
    {
        proof {
            lemma_statement_from(self.tokens@, self.current as nat);
        }
        if self.match_advance(&[TokenType::Print]) {
            self.parse_print_statements()
        } else if self.match_advance(&[TokenType::LeftBrace]) {
            self.parse_block_statements()
        } else if self.match_advance(&[TokenType::While]) {
            self.parse_while_statements()
        } else if self.match_advance(&[TokenType::If]) {
            self.parse_if_statements()
        } else if self.match_advance(&[TokenType::For]) {
            self.parse_for_statements()
        } else {
            self.parse_expression_statement()
        }
    }

    /// for -> 'for' '(' (var_declaration | expression_statement | ';') expression? ';'
    /// expression? ')' statement ; after `for`. Desugared to a `while` loop: the body
    /// followed by the increment, looping while the condition (or `true`) holds, inside a
    /// block after the initializer.
    fn parse_for_statements(&mut self) -> (res: Result<Stmt, ParseError>)
        requires
            old(self).wf(),
            old(self).current > 0,
        ensures
            old(self).keeps(final(self)),
            res matches Ok(s) ==> stmt_wf(s),
            final(self).current == for_from(old(self).tokens@, old(self).current as nat).1,
            final(self).errors@ == old(self).errors@ + for_from(old(self).tokens@, old(self).current as nat).2,
            stmt_parsed(res, for_from(old(self).tokens@, old(self).current as nat).0),
        decreases old(self).remaining(), 13nat,
    {
        proof {
            lemma_for_from(self.tokens@, self.current as nat);
            reveal_with_fuel(stmt_is, 3);
        }
        let ghost ts = self.tokens@;
        self.consume(TokenType::LeftParen, Expected::LeftParenAfterFor)?;
        let ghost q0 = self.current as nat;
        proof {
            lemma_var_decl_from(ts, q0 + 1);
            lemma_expression_statement_from(ts, q0);
        }
        let initializer = if self.match_advance(&[TokenType::Semicolon]) {
            None
        } else if self.match_advance(&[TokenType::Var]) {
            Some(self.parse_var_declaration()?)
        } else {
            Some(self.parse_expression_statement()?)
        };
        let ghost init_t: Option<StmtTree> = if kind_at(ts, q0) == TokenType::Semicolon {
            None
        } else if kind_at(ts, q0) == TokenType::Var {
            Some(var_decl_from(ts, q0 + 1).0->Ok_0)
        } else {
            Some(expression_statement_from(ts, q0).0->Ok_0)
        };
        assert(self.errors@ =~= old(self).errors@);
        let ghost q1 = self.current as nat;
        let condition = if !self.check(TokenType::Semicolon) {
            Some(self.parse_experssion()?)
        } else {
            None
        };
        let ghost cond_t: Option<ExprTree> = if kind_at(ts, q1) != TokenType::Semicolon {
            Some(expression_from(ts, q1).0->Ok_0)
        } else {
            None
        };
        self.consume(TokenType::Semicolon, Expected::SemicolonAfterLoopCondition)?;
        let ghost q3 = self.current as nat;
        let increment = if !self.check(TokenType::RightParen) {
            Some(self.parse_experssion()?)
        } else {
            None
        };
        let ghost inc_t: Option<ExprTree> = if kind_at(ts, q3) != TokenType::RightParen {
            Some(expression_from(ts, q3).0->Ok_0)
        } else {
            None
        };
        self.consume(TokenType::RightParen, Expected::RightParenAfterForClauses)?;
        let ghost q5 = self.current as nat;
        let mut body = self.parse_statement()?;
        let ghost body_t = statement_from(ts, q5).0->Ok_0;
        let ghost body1_t = match inc_t {
            Some(i) => StmtTree::Block(seq![body_t, StmtTree::Expression(i)]),
            None => body_t,
        };
        match increment {
            Some(increment) => {
                let mut pair: Vec<Stmt> = Vec::new();
                pair.push(body);
                pair.push(Stmt::expression(increment));
                assert(stmt_wf(pair@[0]) && stmt_wf(pair@[1]));
                body = Stmt::block(pair);
            },
            None => {},
        }
        assert(stmt_wf(body));
        assert(stmt_is(body, body1_t));
        let ghost body2_t = StmtTree::While(match cond_t {
            Some(c) => c,
            None => ExprTree::Bool(true),
        }, Some(Box::new(body1_t)));
        body = match condition {
            Some(condition) => Stmt::while_(condition, Some(body)),
            None => Stmt::while_(Expr::literal(Literal::Bool(true)), Some(body)),
        };
        assert(stmt_wf(body));
        assert(stmt_is(body, body2_t));
        match initializer {
            Some(initializer) => {
                let mut pair: Vec<Stmt> = Vec::new();
                pair.push(initializer);
                pair.push(body);
                assert(stmt_wf(pair@[0]) && stmt_wf(pair@[1]));
                body = Stmt::block(pair);
            },
            None => {},
        }
        Ok(body)
    }

    /// while -> 'while' '(' expression ')' statement ; after `while`.
    fn parse_while_statements(&mut self) -> (res: Result<Stmt, ParseError>)
        requires
            old(self).wf(),
            old(self).current > 0,
        ensures
            old(self).keeps(final(self)),
            res matches Ok(s) ==> stmt_wf(s),
            final(self).current == while_from(old(self).tokens@, old(self).current as nat).1,
            final(self).errors@ == old(self).errors@ + while_from(old(self).tokens@, old(self).current as nat).2,
            stmt_parsed(res, while_from(old(self).tokens@, old(self).current as nat).0),
        decreases old(self).remaining(), 13nat,
    {
        proof {
            lemma_while_from(self.tokens@, self.current as nat);
            reveal_with_fuel(stmt_is, 2);
        }
        self.consume(TokenType::LeftParen, Expected::LeftParenAfterWhile)?;
        let condition = self.parse_experssion()?;
        self.consume(TokenType::RightParen, Expected::RightParenAfterWhileCondition)?;
        let body = self.parse_stmt();
        Ok(Stmt::while_(condition, body))
    }

    /// if -> 'if' '(' expression ')' statement ('else' statement)? ; after `if`.
    fn parse_if_statements(&mut self) -> (res: Result<Stmt, ParseError>)
        requires
            old(self).wf(),
            old(self).current > 0,
        ensures
            old(self).keeps(final(self)),
            res matches Ok(s) ==> stmt_wf(s),
            final(self).current == if_from(old(self).tokens@, old(self).current as nat).1,
            final(self).errors@ == old(self).errors@ + if_from(old(self).tokens@, old(self).current as nat).2,
            stmt_parsed(res, if_from(old(self).tokens@, old(self).current as nat).0),
        decreases old(self).remaining(), 13nat,
    {
        proof {
            lemma_if_from(self.tokens@, self.current as nat);
            reveal_with_fuel(stmt_is, 2);
        }
        let ghost ts = self.tokens@;
        self.consume(TokenType::LeftParen, Expected::LeftParenAfterIf)?;
        let condition = self.parse_experssion()?;
        self.consume(TokenType::RightParen, Expected::RightParenAfterIfCondition)?;
        let ghost q2 = self.current as nat;
        let then_branch = self.parse_stmt();
        let ghost q3 = self.current as nat;
        let else_branch = if self.match_advance(&[TokenType::Else]) {
            self.parse_stmt()
        } else {
            None
        };
        proof {
            let e1 = stmt_from(ts, q2).2;
            let e2 = stmt_from(ts, q3 + 1).2;
            assert(old(self).errors@ + e1 + e2 =~= old(self).errors@ + (e1 + e2));
        }
        Ok(Stmt::if_(condition, then_branch, else_branch))
    }

    /// block -> '{' stmt* '}' ; after `{`.
    fn parse_block_statements(&mut self) -> (res: Result<Stmt, ParseError>)
        requires
            old(self).wf(),
            old(self).current > 0,
        ensures
            old(self).keeps(final(self)),
            res matches Ok(s) ==> s is Block && stmt_wf(s),
            final(self).current == block_from(old(self).tokens@, old(self).current as nat).1,
            final(self).errors@ == old(self).errors@ + block_from(old(self).tokens@, old(self).current as nat).2,
            stmt_parsed(res, block_from(old(self).tokens@, old(self).current as nat).0),
        decreases old(self).remaining() + 1, 13nat,
    {
        proof {
            lemma_block_from(self.tokens@, self.current as nat);
        }
        let ghost ts = self.tokens@;
        let ghost p0 = self.current as nat;
        let ghost mut trees: Seq<StmtTree> = Seq::empty();
        let ghost mut errs: Seq<ParseError> = Seq::empty();
        let mut stmts: Vec<Stmt> = Vec::new();
        proof {
            assert(old(self).errors@ + errs =~= old(self).errors@);
        }
        while !self.is_at_end() && !self.check(TokenType::RightBrace)
            invariant
                old(self).keeps(self),
                self.current > 0,
                ts == old(self).tokens@,
                p0 == old(self).current,
                self.errors@ == old(self).errors@ + errs,
                block_from(ts, p0) == block_rest(ts, self.current as nat, trees, errs),
                stmts@.len() == trees.len(),
                forall|i: int| 0 <= i < stmts@.len() ==> stmt_is(#[trigger] stmts@[i], trees[i]),
                forall|i: int| 0 <= i < stmts@.len() ==> stmt_wf(#[trigger] stmts@[i]),
            decreases self.remaining(),
        {
            let ghost p = self.current as nat;
            proof {
                lemma_block_rest(ts, p, trees, errs);
            }
            let next = self.parse_stmt();
            proof {
                let e = stmt_from(ts, p).2;
                assert(old(self).errors@ + errs + e =~= old(self).errors@ + (errs + e));
                trees = match stmt_from(ts, p).0 {
                    Some(t) => trees.push(t),
                    None => trees,
                };
                errs = errs + e;
            }
            match next {
                Some(s) => {
                    stmts.push(s);
                },
                None => {},
            }
        }
        proof {
            lemma_block_rest(ts, self.current as nat, trees, errs);
        }
        self.consume(TokenType::RightBrace, Expected::RightBraceAfterBlock)?;
        Ok(Stmt::block(stmts))
    }

    /// print -> 'print' expression ';' ; after `print`.
    fn parse_print_statements(&mut self) -> (res: Result<Stmt, ParseError>)
        requires
            old(self).wf(),
            old(self).current > 0,
        ensures
            old(self).keeps(final(self)),
            res matches Ok(s) ==> stmt_wf(s),
            final(self).current == print_from(old(self).tokens@, old(self).current as nat).1,
            final(self).errors@ == old(self).errors@ + print_from(old(self).tokens@, old(self).current as nat).2,
            stmt_parsed(res, print_from(old(self).tokens@, old(self).current as nat).0),
        decreases old(self).remaining(), 13nat,
    {
        proof {
            lemma_print_from(self.tokens@, self.current as nat);
        }
        let expr = self.parse_experssion()?;
        self.consume(TokenType::Semicolon, Expected::SemicolonAfterPrintValue)?;
        Ok(Stmt::print(expr))
    }

    /// expression_statement -> expression ';'
    fn parse_expression_statement(&mut self) -> (res: Result<Stmt, ParseError>)
        requires
            old(self).wf(),
        ensures
            old(self).keeps(final(self)),
            res is Ok ==> old(self).consumed(final(self)),
            res matches Ok(s) ==> s is Expression && stmt_wf(s),
            final(self).current == expression_statement_from(old(self).tokens@, old(self).current as nat).1,
            final(self).errors@ == old(self).errors@ + expression_statement_from(old(self).tokens@, old(self).current as nat).2,
            stmt_parsed(res, expression_statement_from(old(self).tokens@, old(self).current as nat).0),
        decreases old(self).remaining(), 12nat,
    {
        proof {
            lemma_expression_statement_from(self.tokens@, self.current as nat);
        }
        let expr = self.parse_experssion()?;
        self.consume(TokenType::Semicolon, Expected::SemicolonAfterExpression)?;
        Ok(Stmt::expression(expr))
    }

    /// expression -> assignment
    fn parse_experssion(&mut self) -> (res: Result<Expr, ParseError>)
        requires
            old(self).wf(),
        ensures
            old(self).keeps(final(self)),
            final(self).errors@ == old(self).errors@,
            res is Ok ==> old(self).consumed(final(self)),
            res matches Ok(e) ==> expr_wf(e),
            final(self).current == expression_from(old(self).tokens@, old(self).current as nat).1,
            expr_parsed(res, expression_from(old(self).tokens@, old(self).current as nat).0),
        decreases old(self).remaining(), 11nat,
    {
        proof {
            lemma_expression_from(self.tokens@, self.current as nat);
        }
        self.parse_assignment()
    }

    /// assignment -> logic_or ('=' logic_or)? ; only a variable can be assigned to.
    fn parse_assignment(&mut self) -> (res: Result<Expr, ParseError>)
        requires
            old(self).wf(),
        ensures
            old(self).keeps(final(self)),
            final(self).errors@ == old(self).errors@,
            res is Ok ==> old(self).consumed(final(self)),
            res matches Ok(e) ==> expr_wf(e),
            final(self).current == assignment_from(old(self).tokens@, old(self).current as nat).1,
            expr_parsed(res, assignment_from(old(self).tokens@, old(self).current as nat).0),
        decreases old(self).remaining(), 10nat,
    {
        proof {
            lemma_assignment_from(self.tokens@, self.current as nat);
        }
        let ghost ts = self.tokens@;
        let expr = self.parse_logic_or()?;
        let ghost target = logic_or_from(ts, old(self).current as nat).0->Ok_0;
        if self.match_advance(&[TokenType::Equal]) {
            let equals = self.previous_token();
            let value = self.parse_logic_or()?;
            return match expr {
                Expr::Variable(v) => {
                    proof {
                        if !(target is Variable) {
                            assert(!expr_is(expr, target));
                        }
                    }
                    Ok(Expr::assign(v.name, value))
                },
                _ => {
                    proof {
                        if target is Variable {
                            assert(expr is Variable);
                        }
                    }
                    Err(ParseError { kind: ParseErrorKind::InvalidAssignmentTarget, at: Some(equals) })
                },
            };
        }
        Ok(expr)
    }

    /// logic_or -> logic_and ('or' logic_and)*
    fn parse_logic_or(&mut self) -> (res: Result<Expr, ParseError>)
        requires
            old(self).wf(),
        ensures
            old(self).keeps(final(self)),
            final(self).errors@ == old(self).errors@,
            res is Ok ==> old(self).consumed(final(self)),
            res matches Ok(e) ==> expr_wf(e),
            final(self).current == logic_or_from(old(self).tokens@, old(self).current as nat).1,
            expr_parsed(res, logic_or_from(old(self).tokens@, old(self).current as nat).0),
        decreases old(self).remaining(), 9nat,
    {
        proof {
            lemma_logic_or_from(self.tokens@, self.current as nat);
        }
        let ghost ts = self.tokens@;
        let mut expr = self.parse_logic_and()?;
        let ghost mut tree = logic_and_from(ts, old(self).current as nat).0->Ok_0;
        while self.match_advance(&[TokenType::Or])
            invariant
                old(self).keeps(self),
                self.errors@ == old(self).errors@,
                old(self).consumed(self),
                ts == old(self).tokens@,
                expr_wf(expr),
                expr_is(expr, tree),
                logic_or_from(ts, old(self).current as nat) == logic_or_rest(ts, self.current as nat, tree),
            decreases self.remaining(),
        {
            let ghost q = (self.current - 1) as nat;
            proof {
                lemma_logic_or_rest(ts, q, tree);
            }
            let operator = self.previous_token();
            let right = self.parse_logic_and()?;
            proof {
                tree = ExprTree::Logical(ts[q as int], Box::new(tree), Box::new(logic_and_from(ts, q + 1).0->Ok_0));
            }
            expr = Expr::logical(operator, expr, right);
        }
        proof {
            lemma_logic_or_rest(ts, self.current as nat, tree);
        }
        Ok(expr)
    }

    /// logic_and -> equality ('and' equality)*
    fn parse_logic_and(&mut self) -> (res: Result<Expr, ParseError>)
        requires
            old(self).wf(),
        ensures
            old(self).keeps(final(self)),
            final(self).errors@ == old(self).errors@,
            res is Ok ==> old(self).consumed(final(self)),
            res matches Ok(e) ==> expr_wf(e),
            final(self).current == logic_and_from(old(self).tokens@, old(self).current as nat).1,
            expr_parsed(res, logic_and_from(old(self).tokens@, old(self).current as nat).0),
        decreases old(self).remaining(), 8nat,
    {
        proof {
            lemma_logic_and_from(self.tokens@, self.current as nat);
        }
        let ghost ts = self.tokens@;
        let mut expr = self.parse_equality()?;
        let ghost mut tree = equality_from(ts, old(self).current as nat).0->Ok_0;
        while self.match_advance(&[TokenType::And])
            invariant
                old(self).keeps(self),
                self.errors@ == old(self).errors@,
                old(self).consumed(self),
                ts == old(self).tokens@,
                expr_wf(expr),
                expr_is(expr, tree),
                logic_and_from(ts, old(self).current as nat) == logic_and_rest(ts, self.current as nat, tree),
            decreases self.remaining(),
        {
            let ghost q = (self.current - 1) as nat;
            proof {
                lemma_logic_and_rest(ts, q, tree);
            }
            let operator = self.previous_token();
            let right = self.parse_equality()?;
            proof {
                tree = ExprTree::Logical(ts[q as int], Box::new(tree), Box::new(equality_from(ts, q + 1).0->Ok_0));
            }
            expr = Expr::logical(operator, expr, right);
        }
        proof {
            lemma_logic_and_rest(ts, self.current as nat, tree);
        }
        Ok(expr)
    }

    /// equality -> comparison (('!=' | '==') comparison)*
    fn parse_equality(&mut self) -> (res: Result<Expr, ParseError>)
        requires
            old(self).wf(),
        ensures
            old(self).keeps(final(self)),
            final(self).errors@ == old(self).errors@,
            res is Ok ==> old(self).consumed(final(self)),
            res matches Ok(e) ==> expr_wf(e),
            final(self).current == equality_from(old(self).tokens@, old(self).current as nat).1,
            expr_parsed(res, equality_from(old(self).tokens@, old(self).current as nat).0),
        decreases old(self).remaining(), 7nat,
    {
        proof {
            lemma_equality_from(self.tokens@, self.current as nat);
        }
        let ghost ts = self.tokens@;
        let mut expr = self.parse_comparison()?;
        let ghost mut tree = comparison_from(ts, old(self).current as nat).0->Ok_0;
        while self.match_advance(&[TokenType::BangEqual, TokenType::EqualEqual])
            invariant
                old(self).keeps(self),
                self.errors@ == old(self).errors@,
                old(self).consumed(self),
                ts == old(self).tokens@,
                expr_wf(expr),
                expr_is(expr, tree),
                equality_from(ts, old(self).current as nat) == equality_rest(ts, self.current as nat, tree),
            decreases self.remaining(),
        {
            let ghost q = (self.current - 1) as nat;
            proof {
                lemma_equality_rest(ts, q, tree);
            }
            let operator = self.previous_token();
            let right = self.parse_comparison()?;
            proof {
                tree = ExprTree::Binary(ts[q as int], Box::new(tree), Box::new(comparison_from(ts, q + 1).0->Ok_0));
            }
            expr = Expr::binary(operator, expr, right);
        }
        proof {
            lemma_equality_rest(ts, self.current as nat, tree);
        }
        Ok(expr)
    }

    /// comparison -> term (('>' | '>=' | '<' | '<=') term)*
    fn parse_comparison(&mut self) -> (res: Result<Expr, ParseError>)
        requires
            old(self).wf(),
        ensures
            old(self).keeps(final(self)),
            final(self).errors@ == old(self).errors@,
            res is Ok ==> old(self).consumed(final(self)),
            res matches Ok(e) ==> expr_wf(e),
            final(self).current == comparison_from(old(self).tokens@, old(self).current as nat).1,
            expr_parsed(res, comparison_from(old(self).tokens@, old(self).current as nat).0),
        decreases old(self).remaining(), 6nat,
    {
        proof {
            lemma_comparison_from(self.tokens@, self.current as nat);
        }
        let ghost ts = self.tokens@;
        let mut expr = self.parse_term()?;
        let ghost mut tree = term_from(ts, old(self).current as nat).0->Ok_0;
        while self.match_advance(&[TokenType::Greater, TokenType::GreaterEqual, TokenType::Less, TokenType::LessEqual])
            invariant
                old(self).keeps(self),
                self.errors@ == old(self).errors@,
                old(self).consumed(self),
                ts == old(self).tokens@,
                expr_wf(expr),
                expr_is(expr, tree),
                comparison_from(ts, old(self).current as nat) == comparison_rest(ts, self.current as nat, tree),
            decreases self.remaining(),
        {
            let ghost q = (self.current - 1) as nat;
            proof {
                lemma_comparison_rest(ts, q, tree);
            }
            let operator = self.previous_token();
            let right = self.parse_term()?;
            proof {
                tree = ExprTree::Binary(ts[q as int], Box::new(tree), Box::new(term_from(ts, q + 1).0->Ok_0));
            }
            expr = Expr::binary(operator, expr, right);
        }
        proof {
            lemma_comparison_rest(ts, self.current as nat, tree);
        }
        Ok(expr)
    }

    /// term -> factor (('+' | '-') factor)*
    fn parse_term(&mut self) -> (res: Result<Expr, ParseError>)
        requires
            old(self).wf(),
        ensures
            old(self).keeps(final(self)),
            final(self).errors@ == old(self).errors@,
            res is Ok ==> old(self).consumed(final(self)),
            res matches Ok(e) ==> expr_wf(e),
            final(self).current == term_from(old(self).tokens@, old(self).current as nat).1,
            expr_parsed(res, term_from(old(self).tokens@, old(self).current as nat).0),
        decreases old(self).remaining(), 5nat,
    {
        proof {
            lemma_term_from(self.tokens@, self.current as nat);
        }
        let ghost ts = self.tokens@;
        let mut expr = self.parse_factor()?;
        let ghost mut tree = factor_from(ts, old(self).current as nat).0->Ok_0;
        while self.match_advance(&[TokenType::Plus, TokenType::Minus])
            invariant
                old(self).keeps(self),
                self.errors@ == old(self).errors@,
                old(self).consumed(self),
                ts == old(self).tokens@,
                expr_wf(expr),
                expr_is(expr, tree),
                term_from(ts, old(self).current as nat) == term_rest(ts, self.current as nat, tree),
            decreases self.remaining(),
        {
            let ghost q = (self.current - 1) as nat;
            proof {
                lemma_term_rest(ts, q, tree);
            }
            let operator = self.previous_token();
            let right = self.parse_factor()?;
            proof {
                tree = ExprTree::Binary(ts[q as int], Box::new(tree), Box::new(factor_from(ts, q + 1).0->Ok_0));
            }
            expr = Expr::binary(operator, expr, right);
        }
        proof {
            lemma_term_rest(ts, self.current as nat, tree);
        }
        Ok(expr)
    }

    /// factor -> unary (('*' | '/') unary)*
    fn parse_factor(&mut self) -> (res: Result<Expr, ParseError>)
        requires
            old(self).wf(),
        ensures
            old(self).keeps(final(self)),
            final(self).errors@ == old(self).errors@,
            res is Ok ==> old(self).consumed(final(self)),
            res matches Ok(e) ==> expr_wf(e),
            final(self).current == factor_from(old(self).tokens@, old(self).current as nat).1,
            expr_parsed(res, factor_from(old(self).tokens@, old(self).current as nat).0),
        decreases old(self).remaining(), 4nat,
    {
        proof {
            lemma_factor_from(self.tokens@, self.current as nat);
        }
        let ghost ts = self.tokens@;
        let mut expr = self.parse_unary()?;
        let ghost mut tree = unary_from(ts, old(self).current as nat).0->Ok_0;
        while self.match_advance(&[TokenType::Slash, TokenType::Star])
            invariant
                old(self).keeps(self),
                self.errors@ == old(self).errors@,
                old(self).consumed(self),
                ts == old(self).tokens@,
                expr_wf(expr),
                expr_is(expr, tree),
                factor_from(ts, old(self).current as nat) == factor_rest(ts, self.current as nat, tree),
            decreases self.remaining(),
        {
            let ghost q = (self.current - 1) as nat;
            proof {
                lemma_factor_rest(ts, q, tree);
            }
            let operator = self.previous_token();
            let right = self.parse_unary()?;
            proof {
                tree = ExprTree::Binary(ts[q as int], Box::new(tree), Box::new(unary_from(ts, q + 1).0->Ok_0));
            }
            expr = Expr::binary(operator, expr, right);
        }
        proof {
            lemma_factor_rest(ts, self.current as nat, tree);
        }
        Ok(expr)
    }

    /// unary -> ('-' | '!') unary | call
    fn parse_unary(&mut self) -> (res: Result<Expr, ParseError>)
        requires
            old(self).wf(),
        ensures
            old(self).keeps(final(self)),
            final(self).errors@ == old(self).errors@,
            res is Ok ==> old(self).consumed(final(self)),
            res matches Ok(e) ==> expr_wf(e),
            final(self).current == unary_from(old(self).tokens@, old(self).current as nat).1,
            expr_parsed(res, unary_from(old(self).tokens@, old(self).current as nat).0),
        decreases old(self).remaining(), 3nat,
    {
        proof {
            lemma_unary_from(self.tokens@, self.current as nat);
        }
        if self.match_advance(&[TokenType::Minus, TokenType::Bang]) {
            let operator = self.previous_token();
            let right = self.parse_unary()?;
            return Ok(Expr::unary(operator, right));
        }
        self.parse_call()
    }

    /// call -> primary ('(' arguments? ')')* ; arguments -> expression (',' expression)*
    fn parse_call(&mut self) -> (res: Result<Expr, ParseError>)
        requires
            old(self).wf(),
        ensures
            old(self).keeps(final(self)),
            final(self).errors@ == old(self).errors@,
            res is Ok ==> old(self).consumed(final(self)),
            res matches Ok(e) ==> expr_wf(e),
            final(self).current == call_from(old(self).tokens@, old(self).current as nat).1,
            expr_parsed(res, call_from(old(self).tokens@, old(self).current as nat).0),
        decreases old(self).remaining(), 2nat,
    {
        proof {
            lemma_call_from(self.tokens@, self.current as nat);
        }
        let ghost ts = self.tokens@;
        let mut callee = self.parse_primary()?;
        let ghost mut tree = primary_from(ts, old(self).current as nat).0->Ok_0;
        while self.match_advance(&[TokenType::LeftParen])
            invariant
                old(self).keeps(self),
                self.errors@ == old(self).errors@,
                old(self).consumed(self),
                ts == old(self).tokens@,
                expr_wf(callee),
                expr_is(callee, tree),
                call_from(ts, old(self).current as nat) == call_rest(ts, self.current as nat, tree),
            decreases self.remaining(),
        {
            let ghost q = (self.current - 1) as nat;
            proof {
                lemma_call_rest(ts, q, tree);
            }
            let ghost open_at = self.current;
            let mut arguments: Vec<Expr> = Vec::new();
            let ghost mut args: Seq<ExprTree> = Seq::empty();
            if !self.check(TokenType::RightParen) {
                loop
                    invariant_except_break
                        arguments_from(ts, q + 1, Seq::empty()) == arguments_from(ts, self.current as nat, args),
                    invariant
                        old(self).keeps(self),
                        self.errors@ == old(self).errors@,
                        old(self).consumed(self),
                        ts == old(self).tokens@,
                        open_at <= self.current,
                        q + 1 == open_at,
                        arguments@.len() <= self.current,
                        arguments@.len() == args.len(),
                        forall|i: int| 0 <= i < arguments@.len() ==> expr_wf(#[trigger] arguments@[i]),
                        forall|i: int| 0 <= i < arguments@.len() ==> expr_is(#[trigger] arguments@[i], args[i]),
                        call_from(ts, old(self).current as nat) == call_rest(ts, q, tree),
                        kind_at(ts, q) == TokenType::LeftParen,
                        q < ts.len(),
                        kind_at(ts, q + 1) != TokenType::RightParen,
                    ensures
                        arguments_from(ts, q + 1, Seq::empty()) == (Ok::<Seq<ExprTree>, ParseError>(args), self.current as nat),
                    decreases self.remaining(),
                {
                    proof {
                        lemma_arguments_from(ts, self.current as nat, args);
                        lemma_call_rest(ts, q, tree);
                    }
                    let ghost p = self.current as nat;
                    let argument = self.parse_experssion()?;
                    proof {
                        args = args.push(expression_from(ts, p).0->Ok_0);
                    }
                    arguments.push(argument);
                    if !self.match_advance(&[TokenType::Comma]) {
                        break;
                    }
                }
            }
            let paren = self.consume(TokenType::RightParen, Expected::RightParenAfterArguments)?;
            if arguments.len() >= 255 {
                return Err(ParseError { kind: ParseErrorKind::TooManyArguments, at: Some(paren) });
            }
            proof {
                tree = ExprTree::Call(paren, Box::new(tree), args);
            }
            callee = Expr::call(paren, callee, arguments);
        }
        proof {
            lemma_call_rest(ts, self.current as nat, tree);
        }
        Ok(callee)
    }

    /// primary -> 'false' | 'true' | 'nil' | number | string | identifier | '(' expression ')'
    fn parse_primary(&mut self) -> (res: Result<Expr, ParseError>)
        requires
            old(self).wf(),
        ensures
            old(self).keeps(final(self)),
            final(self).errors@ == old(self).errors@,
            res is Ok ==> old(self).consumed(final(self)),
            res matches Ok(e) ==> expr_wf(e),
            final(self).current == primary_from(old(self).tokens@, old(self).current as nat).1,
            expr_parsed(res, primary_from(old(self).tokens@, old(self).current as nat).0),
        decreases old(self).remaining(), 1nat,
    {
        proof {
            lemma_primary_from(self.tokens@, self.current as nat);
        }
        if self.match_advance(&[TokenType::False]) {
            return Ok(Expr::literal(Literal::Bool(false)));
        }
        if self.match_advance(&[TokenType::True]) {
            return Ok(Expr::literal(Literal::Bool(true)));
        }
        if self.match_advance(&[TokenType::Nil]) {
            return Ok(Expr::literal(Literal::Nil));
        }
        match self.match_some_advance(TokenType::Number) {
            Some(t) => {
                return Ok(Expr::literal(Literal::Number(t.lexeme)));
            },
            None => {},
        }
        match self.match_some_advance(TokenType::String) {
            Some(t) => {
                return Ok(Expr::literal(Literal::String(trim_quotes_of(&t.lexeme))));
            },
            None => {},
        }
        if self.match_advance(&[TokenType::Identifier]) {
            return Ok(Expr::variable(self.previous_token()));
        }
        if self.match_advance(&[TokenType::LeftParen]) {
            let expr = self.parse_experssion()?;
            self.consume(TokenType::RightParen, Expected::RightParenAfterGrouping)?;
            return Ok(Expr::grouping(expr));
        }
        let at = match self.previous() {
            Some(t) => Some(t.duplicate()),
            None => None,
        };
        Err(ParseError { kind: ParseErrorKind::ExpectExpression, at })
    }

    /// Skips tokens after an error: past the next `;`, or up to a keyword that starts a
    /// statement, or to the end.
    fn synchronize(&mut self)
        requires
            old(self).wf(),
            old(self).started(),
        ensures
            final(self).wf(),
            final(self).tokens@ == old(self).tokens@,
            final(self).errors@ == old(self).errors@,
            final(self).current == sync_from(old(self).tokens@,
                if old(self).at_end() { old(self).current as nat } else { (old(self).current + 1) as nat }),
            old(self).current <= final(self).current,
            !old(self).at_end() ==> old(self).current < final(self).current,
            final(self).current > 0 || final(self).at_end(),
    {
        let ghost first: nat = if self.at_end() { self.current as nat } else { (self.current + 1) as nat };
        self.advance();
        proof {
            lemma_sync_from_bounds(self.tokens@, first, self.eof@);
        }
        while !self.is_at_end()
            invariant
                self.wf(),
                self.tokens@ == old(self).tokens@,
                self.errors@ == old(self).errors@,
                self.current > 0 || self.at_end(),
                first == (if old(self).at_end() { old(self).current as nat } else { (old(self).current + 1) as nat }),
                first <= self.current,
                sync_from(self.tokens@, self.current as nat) == sync_from(old(self).tokens@, first),
            decreases self.remaining(),
        {
            match self.previous() {
                Some(t) => {
                    if t.typ == TokenType::Semicolon {
                        assert(sync_from(self.tokens@, self.current as nat) == self.current as nat);
                        return;
                    }
                },
                None => {},
            }
            match self.peek() {
                Some(t) => {
                    let k = t.typ;
                    if k == TokenType::Class || k == TokenType::Function || k == TokenType::Var || k == TokenType::For
                        || k == TokenType::If || k == TokenType::While || k == TokenType::Print || k == TokenType::Return {
                        assert(sync_from(self.tokens@, self.current as nat) == self.current as nat);
                        return;
                    }
                },
                None => {},
            }
            self.advance();
        }
    }

    /// Consumes the next token if it is of kind `typ`, else reports what was expected at
    /// the previous token.
    fn consume(&mut self, typ: TokenType, expected: Expected) -> (res: Result<Token, ParseError>)
        requires
            old(self).wf(),
            typ != TokenType::Eof,
        ensures
            final(self).wf(),
            final(self).tokens@ == old(self).tokens@,
            final(self).errors@ == old(self).errors@,
            old(self).next_kind() == typ ==> final(self).current == old(self).current + 1
                && res == Ok::<Token, ParseError>(old(self).tokens@[old(self).current as int]),
            old(self).next_kind() != typ ==> final(self).current == old(self).current,
            old(self).next_kind() != typ ==> (res matches Err(e) && e.kind == ParseErrorKind::Expected(expected)
                && e.at == (if old(self).current > 0 { Some(old(self).tokens@[old(self).current - 1]) } else { None::<Token> })),
    {
        let matches = match self.peek() {
            Some(t) => t.typ == typ,
            None => false,
        };
        if matches {
            return Ok(self.advance());
        }
        let at = match self.previous() {
            Some(t) => Some(t.duplicate()),
            None => None,
        };
        Err(ParseError { kind: ParseErrorKind::Expected(expected), at })
    }

    /// Consumes the next token if its kind is one of `kinds`.
    fn match_advance(&mut self, kinds: &[TokenType]) -> (res: bool)
        requires
            old(self).wf(),
            forall|i: int| 0 <= i < kinds@.len() ==> kinds@[i] != TokenType::Eof,
        ensures
            final(self).wf(),
            final(self).tokens@ == old(self).tokens@,
            final(self).errors@ == old(self).errors@,
            res == kinds@.contains(old(self).next_kind()),
            final(self).current == old(self).current + (if res { 1int } else { 0 }),
    {
        let k = match self.peek() {
            Some(t) => t.typ,
            None => TokenType::Eof,
        };
        let mut i: usize = 0;
        while i < kinds.len()
            invariant
                i <= kinds@.len(),
                k == old(self).next_kind(),
                self.wf(),
                self.tokens@ == old(self).tokens@,
                self.errors@ == old(self).errors@,
                self.current == old(self).current,
                forall|j: int| 0 <= j < kinds@.len() ==> kinds@[j] != TokenType::Eof,
                forall|j: int| 0 <= j < i ==> kinds@[j] != k,
            decreases kinds@.len() - i,
        {
            if kinds[i] == k {
                assert(kinds@[i as int] == k);
                assert(!self.at_end());
                self.advance();
                return true;
            }
            i += 1;
        }
        false
    }

    /// Consumes the next token if it is of kind `typ`, and returns it.
    fn match_some_advance(&mut self, typ: TokenType) -> (res: Option<Token>)
        requires
            old(self).wf(),
            typ != TokenType::Eof,
        ensures
            final(self).wf(),
            final(self).tokens@ == old(self).tokens@,
            final(self).errors@ == old(self).errors@,
            old(self).next_kind() == typ ==> final(self).current == old(self).current + 1
                && res == Some(old(self).tokens@[old(self).current as int]),
            old(self).next_kind() != typ ==> final(self).current == old(self).current && res is None,
    {
        let matches = match self.peek() {
            Some(t) => t.typ == typ,
            None => false,
        };
        if matches {
            Some(self.advance())
        } else {
            None
        }
    }

    /// Consumes the next token unless it is `Eof`; returns the token before the new
    /// position.
    fn advance(&mut self) -> (res: Token)
        requires
            old(self).wf(),
            old(self).started(),
        ensures
            final(self).wf(),
            final(self).tokens@ == old(self).tokens@,
            final(self).errors@ == old(self).errors@,
            final(self).current == old(self).current + (if old(self).at_end() { 0int } else { 1 }),
            final(self).current > 0,
            res == final(self).tokens@[final(self).current - 1],
    {
        if !self.is_at_end() {
            assert(self.current + 1 < self.tokens.len());
            self.current += 1;
        }
        self.previous_token()
    }

    /// The next token is `Eof`.
    fn is_at_end(&self) -> (res: bool)
        requires
            self.wf(),
        ensures
            res == self.at_end(),
    {
        match self.peek() {
            Some(t) => t.typ == TokenType::Eof,
            None => false,
        }
    }

    /// The next token, if any.
    fn peek(&self) -> (res: Option<&Token>)
        ensures
            match res {
                Some(t) => self.current < self.tokens@.len() && *t == self.tokens@[self.current as int],
                None => self.current >= self.tokens@.len(),
            },
    {
        if self.current < self.tokens.len() {
            Some(&self.tokens[self.current])
        } else {
            None
        }
    }

    /// The token before the position, if there is one.
    fn previous(&self) -> (res: Option<&Token>)
        ensures
            match res {
                Some(t) => 0 < self.current <= self.tokens@.len() && *t == self.tokens@[self.current - 1],
                None => self.current == 0 || self.current > self.tokens@.len(),
            },
    {
        if self.current == 0 || self.current > self.tokens.len() {
            None
        } else {
            Some(&self.tokens[self.current - 1])
        }
    }

    /// A copy of the token before the position, which exists.
    fn previous_token(&self) -> (res: Token)
        requires
            0 < self.current <= self.tokens@.len(),
        ensures
            res == self.tokens@[self.current - 1],
    {
        self.tokens[self.current - 1].duplicate()
    }

    /// The next token is of kind `typ` (never at the end).
    fn check(&self, typ: TokenType) -> (res: bool)
        requires
            self.wf(),
        ensures
            res == (!self.at_end() && self.next_kind() == typ),
    {
        if self.is_at_end() {
            return false;
        }
        match self.peek() {
            Some(t) => t.typ == typ,
            None => false,
        }
    }
}

} // verus!
