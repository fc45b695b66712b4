use vstd::prelude::*;

use crate::chunk::{Constant, MAX_CONSTANT_LENGTH};
use crate::compiler::{binary_code, trim_quotes, MAX_LOCALS};
use crate::error::{CompileErrorKind, ErrorView, Expectation, LoxError};
use crate::scanner::{scan_groups, tokens_passing_errors};
use crate::local::Local;
use crate::opcode::OpCode;
use crate::parse_rule::{spec_parse_rule, ParseFnType};
use crate::precedence::Precedence;
use crate::token::{TokenSpec, TokenType};

verus! {

/// What the compiler has made so far, seen from the token stream it reads: the index of
/// the lookahead token and of the previous one, the locals (name and depth, -1 while
/// being initialized), the scope depth, and the chunk's code, lines and constants (a
/// constant as whether it is a number, and its text).
#[verifier::ext_equal]
pub struct Gen {
    pub pos: nat,
    pub prev: nat,
    pub locals: Seq<(Seq<char>, int)>,
    pub depth: int,
    pub code: Seq<u8>,
    pub lines: Seq<usize>,
    pub consts: Seq<(bool, Seq<char>)>,
}

/// A constant as whether it is a number, and its text.
pub open spec fn const_view(c: Constant) -> (bool, Seq<char>) {
    match c {
        Constant::Number(t) => (true, t@),
        Constant::String(t) => (false, t@),
    }
}

/// The constants of a chunk, seen as `const_view`s.
pub open spec fn consts_view(cs: Seq<Constant>) -> Seq<(bool, Seq<char>)> {
    cs.map_values(|c: Constant| const_view(c))
}

/// The locals, seen as names and depths.
pub open spec fn locals_view(ls: Seq<Local>) -> Seq<(Seq<char>, int)> {
    ls.map_values(|l: Local| (l.token.lexeme@, l.depth as int))
}

/// The kind of the token at `i` (`Eof` past the end).
pub open spec fn kind(ts: Seq<TokenSpec>, i: nat) -> TokenType {
    if i < ts.len() { ts[i as int].0 } else { TokenType::Eof }
}

/// The line of the token at `i`.
pub open spec fn line_of(ts: Seq<TokenSpec>, i: nat) -> usize {
    ts[i as int].2 as usize
}

/// `g` after a token is consumed: the lookahead becomes the previous token, and the next
/// token the lookahead (at the last token, `Eof`, the lookahead stays).
pub open spec fn advanced(ts: Seq<TokenSpec>, g: Gen) -> Gen {
    Gen { prev: g.pos, pos: if g.pos + 1 < ts.len() { g.pos + 1 } else { g.pos }, ..g }
}

/// `b` is progress over `a`: a later lookahead, still in the stream.
pub open spec fn fwd(ts: Seq<TokenSpec>, a: Gen, b: Gen) -> bool {
    a.pos < b.pos <= ts.len()
}

/// `g` with the byte `b` emitted on the previous token's line.
pub open spec fn emitted(ts: Seq<TokenSpec>, g: Gen, b: u8) -> Gen {
    Gen { code: g.code.push(b), lines: g.lines.push(line_of(ts, g.prev)), ..g }
}

/// `g` with the bytes `bs` emitted, in order.
pub open spec fn emitted_all(ts: Seq<TokenSpec>, g: Gen, bs: Seq<u8>) -> Gen {
    Gen { code: g.code + bs, lines: g.lines + Seq::new(bs.len(), |i: int| line_of(ts, g.prev)), ..g }
}

/// An error the compiler reports: why, and the text and line it is reported at.
pub type CgError = (CompileErrorKind, Seq<char>, nat);

/// A step that failed: where the compiler stood when it stopped, and the error.
pub type Failure = (Gen, CgError);

/// The error `reason` reported at the token at `i`.
pub open spec fn err_at(ts: Seq<TokenSpec>, i: nat, reason: CompileErrorKind) -> CgError {
    (reason, ts[i as int].1, ts[i as int].2)
}

/// The error `reason` reported with the lookahead's text and the previous token's line.
pub open spec fn err_between(ts: Seq<TokenSpec>, g: Gen, reason: CompileErrorKind) -> CgError {
    (reason, ts[g.pos as int].1, ts[g.prev as int].2)
}

/// What a compile error of the library says, as a `CgError`.
pub open spec fn cg_error_of(e: LoxError) -> CgError {
    match e {
        LoxError::CompileError { reason, lexeme, line } => (reason, lexeme@, line as nat),
        _ => arbitrary(),
    }
}

/// The token `typ` consumed, if it is the lookahead; else `expected` is reported at the
/// lookahead.
pub open spec fn consumed_tok(ts: Seq<TokenSpec>, g: Gen, typ: TokenType, expected: Expectation) -> Result<Gen, Failure> {
    if kind(ts, g.pos) == typ { Ok(advanced(ts, g)) } else { Err((g, err_at(ts, g.pos, CompileErrorKind::Expected(expected)))) }
}

/// `g` with the constant `c` added, and its index; none when the chunk is full.
pub open spec fn constant_added(g: Gen, c: (bool, Seq<char>)) -> Option<(Gen, nat)> {
    if g.consts.len() < MAX_CONSTANT_LENGTH {
        Some((Gen { consts: g.consts.push(c), ..g }, g.consts.len()))
    } else {
        None
    }
}

/// `Constant` and the index of `c`, added; a full chunk is reported at the previous token.
pub open spec fn constant_emitted(ts: Seq<TokenSpec>, g: Gen, c: (bool, Seq<char>)) -> Result<Gen, Failure> {
    match constant_added(g, c) {
        Some((g1, i)) => Ok(emitted(ts, emitted(ts, g1, OpCode::Constant.spec_byte()), i as u8)),
        None => Err((g, err_at(ts, g.prev, CompileErrorKind::TooManyConstants))),
    }
}

/// The high byte of a 16-bit distance.
pub open spec fn hi(n: int) -> u8 {
    ((n / 256) % 256) as u8
}

/// The low byte of a 16-bit distance.
pub open spec fn lo(n: int) -> u8 {
    (n % 256) as u8
}

/// A jump `op` whose distance is still to be patched, and where the distance goes.
pub open spec fn jump_emitted(ts: Seq<TokenSpec>, g: Gen, op: OpCode) -> (Gen, nat) {
    (emitted(ts, emitted(ts, emitted(ts, g, op.spec_byte()), 0xff), 0xff), g.code.len() + 1)
}

/// The jump whose distance goes at `j` made to land at the end of the code; an error when
/// the distance does not fit in 16 bits.
pub open spec fn patched(ts: Seq<TokenSpec>, g: Gen, j: nat) -> Result<Gen, Failure> {
    let jump = g.code.len() - j - 2;
    if jump > 0xffff {
        Err((g, err_between(ts, g, CompileErrorKind::TooMuchCodeToJump)))
    } else {
        Ok(Gen { code: g.code.update(j as int, hi(jump)).update(j + 1int, lo(jump)), ..g })
    }
}

/// A backward jump to `start`; an error when the distance does not fit in 16 bits.
pub open spec fn loop_emitted(ts: Seq<TokenSpec>, g: Gen, start: nat) -> Result<Gen, Failure> {
    let g1 = emitted(ts, g, OpCode::RevJump.spec_byte());
    let distance = g1.code.len() - start;
    if distance > 0xffff - 2 {
        Err((g1, err_between(ts, g, CompileErrorKind::LoopBodyTooLarge)))
    } else {
        Ok(emitted(ts, emitted(ts, g1, hi(distance + 2)), lo(distance + 2)))
    }
}

/// How many locals at the end are deeper than `depth`.
pub open spec fn deeper(ls: Seq<(Seq<char>, int)>, depth: int) -> nat
    decreases ls.len(),
{
    if ls.len() > 0 && ls.last().1 > depth { 1 + deeper(ls.drop_last(), depth) } else { 0 }
}

/// The slot of the innermost local named `name`.
pub open spec fn innermost(ls: Seq<(Seq<char>, int)>, name: Seq<char>) -> Option<nat>
    decreases ls.len(),
{
    if ls.len() == 0 {
        None
    } else if ls.last().0 == name {
        Some((ls.len() - 1) as nat)
    } else {
        innermost(ls.drop_last(), name)
    }
}

/// The innermost scope (locals from the last back to the first of an enclosing scope)
/// has a local named `name`.
pub open spec fn declared_in(ls: Seq<(Seq<char>, int)>, depth: int, name: Seq<char>) -> bool
    decreases ls.len(),
{
    if ls.len() == 0 {
        false
    } else if ls.last().1 != -1 && ls.last().1 < depth {
        false
    } else if ls.last().0 == name {
        true
    } else {
        declared_in(ls.drop_last(), depth, name)
    }
}

/// A name is read from the slot of the last local of that name: that local has the name
/// and no later one does; with no slot, no local has it.
pub proof fn lemma_innermost_is_last(ls: Seq<(Seq<char>, int)>, name: Seq<char>)
    ensures
        innermost(ls, name) matches Some(i) ==> i < ls.len() && ls[i as int].0 == name
            && forall|j: int| i < j < ls.len() ==> #[trigger] ls[j].0 != name,
        innermost(ls, name) is None ==> forall|j: int| 0 <= j < ls.len() ==> #[trigger] ls[j].0 != name,
    decreases ls.len(),
{
    if ls.len() > 0 && ls.last().0 != name {
        let inner = ls.drop_last();
        lemma_innermost_is_last(inner, name);
        match innermost(inner, name) {
            Some(i) => {
                assert(ls[i as int] == inner[i as int]);
                assert forall|j: int| i < j < ls.len() implies #[trigger] ls[j].0 != name by {
                    if j < ls.len() - 1 {
                        assert(ls[j] == inner[j]);
                        assert(inner[j].0 != name);
                    }
                }
            },
            None => {
                assert forall|j: int| 0 <= j < ls.len() implies #[trigger] ls[j].0 != name by {
                    if j < ls.len() - 1 {
                        assert(ls[j] == inner[j]);
                        assert(inner[j].0 != name);
                    }
                }
            },
        }
    }
}

/// The innermost scope left: its locals dropped, each with a `Pop`.
pub open spec fn scope_ended(ts: Seq<TokenSpec>, g: Gen) -> Gen {
    let d = g.depth - 1;
    let n = deeper(g.locals, d);
    Gen {
        depth: d,
        locals: g.locals.subrange(0, g.locals.len() - n),
        code: g.code + Seq::new(n, |i: int| OpCode::Pop.spec_byte()),
        lines: g.lines + Seq::new(n, |i: int| line_of(ts, g.prev)),
        ..g
    }
}

/// The previous token declared as a local of the innermost scope; an error when the scope
/// has one of that name already, or `MAX_LOCALS` are alive.
pub open spec fn local_declared(ts: Seq<TokenSpec>, g: Gen) -> Result<Gen, Failure> {
    let name = ts[g.prev as int].1;
    if declared_in(g.locals, g.depth, name) {
        Err((g, err_at(ts, g.prev, CompileErrorKind::AlreadyDeclared)))
    } else if g.locals.len() >= MAX_LOCALS {
        Err((g, err_at(ts, g.prev, CompileErrorKind::TooManyLocals)))
    } else {
        Ok(Gen { locals: g.locals.push((name, -1)), ..g })
    }
}

/// The variable name consumed: a global's name added as a constant (its index given),
/// a local declared (0 given).
pub open spec fn var_index(ts: Seq<TokenSpec>, g: Gen) -> Result<(Gen, nat), Failure> {
    match consumed_tok(ts, g, TokenType::Identifier, Expectation::VariableName) {
        Err(e) => Err(e),
        Ok(g1) => if g1.depth > 0 {
            match local_declared(ts, g1) {
                Ok(g2) => Ok((g2, 0)),
                Err(e) => Err(e),
            }
        } else {
            match constant_added(g1, (false, ts[g1.prev as int].1)) {
                Some(r) => Ok(r),
                None => Err((g1, err_at(ts, g1.prev, CompileErrorKind::TooManyConstants))),
            }
        },
    }
}

/// The variable just declared marked as defined: a local gets its scope's depth, a global
/// is defined by `DefineGlobal` and its name's index.
pub open spec fn defined_var(ts: Seq<TokenSpec>, g: Gen, index: nat) -> Gen {
    if g.depth > 0 {
        Gen { locals: g.locals.update(g.locals.len() - 1, (g.locals.last().0, g.depth)), ..g }
    } else {
        emitted(ts, emitted(ts, g, OpCode::DefineGlobal.spec_byte()), index as u8)
    }
}

pub proof fn lemma_locals_view_push(ls: Seq<Local>, l: Local)
    ensures
        locals_view(ls.push(l)) == locals_view(ls).push((l.token.lexeme@, l.depth as int)),
{
    assert(locals_view(ls.push(l)) =~= locals_view(ls).push((l.token.lexeme@, l.depth as int)));
}

pub proof fn lemma_locals_view_take(ls: Seq<Local>, n: int)
    requires
        0 <= n <= ls.len(),
    ensures
        locals_view(ls.subrange(0, n)) == locals_view(ls).subrange(0, n),
{
    assert(locals_view(ls.subrange(0, n)) =~= locals_view(ls).subrange(0, n));
}

/// The locals' lookups read the same through their view.
pub proof fn lemma_locals_view_lookups(ls: Seq<Local>, depth: int, name: Seq<char>)
    ensures
        crate::compiler::innermost_local(ls, name) == innermost(locals_view(ls), name),
        crate::compiler::declared_in_scope(ls, depth, name) == declared_in(locals_view(ls), depth, name),
        crate::compiler::deeper_count(ls, depth) == deeper(locals_view(ls), depth),
    decreases ls.len(),
{
    if ls.len() > 0 {
        lemma_locals_view_take(ls, ls.len() - 1);
        assert(ls.drop_last() == ls.subrange(0, ls.len() - 1));
        assert(locals_view(ls).drop_last() == locals_view(ls).subrange(0, ls.len() - 1));
        lemma_locals_view_lookups(ls.drop_last(), depth, name);
    }
}

/// `r`, unless assignment was allowed and `=` follows it: nothing was assigned to, which
/// is reported at the `=`.
pub open spec fn equal_refused(ts: Seq<TokenSpec>, r: Result<Gen, Failure>, can_assign: bool) -> Result<Gen, Failure> {
    match r {
        Err(e) => Err(e),
        Ok(g) => if can_assign && kind(ts, g.pos) == TokenType::Equal {
            Err((advanced(ts, g), err_at(ts, g.pos, CompileErrorKind::InvalidAssignmentTarget)))
        } else {
            Ok(g)
        },
    }
}

/// What is reported should a step not move on over the tokens. The compiler always moves
/// on there; the definitions test for it so that they are seen to terminate.
pub open spec fn no_progress(ts: Seq<TokenSpec>, g: Gen) -> Failure {
    (g, err_at(ts, g.pos, CompileErrorKind::ExpectExpression))
}

/// expression -> assignment
#[verifier::opaque]
pub open spec fn cg_expression(ts: Seq<TokenSpec>, g: Gen) -> Result<Gen, Failure>
    decreases ts.len() - g.pos, 2nat,
{
    cg_precedence(ts, g, Precedence::Assignment)
}

/// An expression binding at least as strongly as `prec`: the prefix rule of the first
/// token, then the infix rules that bind at least as strongly; a trailing `=` where
/// assignment was allowed is an error.
#[verifier::opaque]
pub open spec fn cg_precedence(ts: Seq<TokenSpec>, g: Gen, prec: Precedence) -> Result<Gen, Failure>
    decreases ts.len() - g.pos, 1nat,
{
    let g1 = advanced(ts, g);
    match spec_parse_rule(kind(ts, g1.prev)).0 {
        None => Err((g1, err_at(ts, g1.prev, CompileErrorKind::ExpectExpression))),
        Some(f) => {
            let can_assign = prec.spec_rank() <= Precedence::Assignment.spec_rank();
            if fwd(ts, g, g1) {
                match cg_parse_fn(ts, g1, f, can_assign) {
                    Err(e) => Err(e),
                    Ok(g2) => if fwd(ts, g, g2) {
                        equal_refused(ts, cg_infix(ts, g2, prec, can_assign), can_assign)
                    } else {
                        Err(no_progress(ts, g))
                    },
                }
            } else {
                Err(no_progress(ts, g))
            }
        },
    }
}

/// The infix rules after a left operand, while they bind at least as strongly as `prec`.
#[verifier::opaque]
pub open spec fn cg_infix(ts: Seq<TokenSpec>, g: Gen, prec: Precedence, can_assign: bool) -> Result<Gen, Failure>
    decreases ts.len() - g.pos, 1nat,
{
    if prec.spec_rank() <= spec_parse_rule(kind(ts, g.pos)).2.spec_rank() {
        let g1 = advanced(ts, g);
        match spec_parse_rule(kind(ts, g1.prev)).1 {
            None => Err((g1, err_at(ts, g1.prev, CompileErrorKind::ExpectExpression))),
            Some(f) => if fwd(ts, g, g1) {
                match cg_parse_fn(ts, g1, f, can_assign) {
                    Err(e) => Err(e),
                    Ok(g2) => if fwd(ts, g, g2) { cg_infix(ts, g2, prec, can_assign) } else { Err(no_progress(ts, g)) },
                }
            } else {
                Err(no_progress(ts, g))
            },
        }
    } else {
        Ok(g)
    }
}

/// grouping -> '(' expression ')'
#[verifier::opaque]
pub open spec fn cg_grouping(ts: Seq<TokenSpec>, g: Gen) -> Result<Gen, Failure>
    decreases ts.len() - g.pos, 3nat,
{
    match cg_expression(ts, g) {
        Ok(g1) => consumed_tok(ts, g1, TokenType::RightParen, Expectation::RightParenAfterExpression),
        Err(e) => Err(e),
    }
}

/// unary -> ('-' | '!') expression: the operand, a whole expression, then `Negate` or
/// `Not`.
#[verifier::opaque]
pub open spec fn cg_unary(ts: Seq<TokenSpec>, g: Gen) -> Result<Gen, Failure>
    decreases ts.len() - g.pos, 3nat,
{
    let t = kind(ts, g.prev);
    match cg_expression(ts, g) {
        Ok(g1) => if t == TokenType::Minus {
            Ok(emitted(ts, g1, OpCode::Negate.spec_byte()))
        } else if t == TokenType::Bang {
            Ok(emitted(ts, g1, OpCode::Not.spec_byte()))
        } else {
            Err((g1, err_at(ts, g.prev, CompileErrorKind::InvalidUnary)))
        },
        Err(e) => Err(e),
    }
}

/// The precedence one step stronger than `p` (`Primary` stays).
pub open spec fn higher(p: Precedence) -> Precedence {
    Precedence::spec_from_rank(p.spec_rank() + 1)
}

/// binary -> operand operator operand: the right operand, one level stronger than the
/// operator, then the operator's code.
#[verifier::opaque]
pub open spec fn cg_binary(ts: Seq<TokenSpec>, g: Gen) -> Result<Gen, Failure>
    decreases ts.len() - g.pos, 3nat,
{
    let t = kind(ts, g.prev);
    match cg_precedence(ts, g, higher(spec_parse_rule(t).2)) {
        Ok(g1) => match binary_code(t) {
            Some(bs) => Ok(emitted_all(ts, g1, bs)),
            None => Err((g1, err_at(ts, g.prev, CompileErrorKind::InvalidBinary))),
        },
        Err(e) => Err(e),
    }
}

/// A literal: `False`, `True` or `Nil`.
pub open spec fn cg_literal(ts: Seq<TokenSpec>, g: Gen) -> Result<Gen, Failure> {
    let t = kind(ts, g.prev);
    if t == TokenType::False {
        Ok(emitted(ts, g, OpCode::False.spec_byte()))
    } else if t == TokenType::True {
        Ok(emitted(ts, g, OpCode::True.spec_byte()))
    } else if t == TokenType::Nil {
        Ok(emitted(ts, g, OpCode::Nil.spec_byte()))
    } else {
        Err((g, err_at(ts, g.prev, CompileErrorKind::InvalidLiteral)))
    }
}

/// and: when the left operand is false it is the result; else it is popped and the right
/// operand is the result.
#[verifier::opaque]
pub open spec fn cg_and(ts: Seq<TokenSpec>, g: Gen) -> Result<Gen, Failure>
    decreases ts.len() - g.pos, 3nat,
{
    let (g1, j) = jump_emitted(ts, g, OpCode::JumpIfFalse);
    match cg_precedence(ts, emitted(ts, g1, OpCode::Pop.spec_byte()), Precedence::And) {
        Ok(g2) => patched(ts, g2, j),
        Err(e) => Err(e),
    }
}

/// or: when the left operand is true it is the result; else it is popped and the right
/// operand is the result.
#[verifier::opaque]
pub open spec fn cg_or(ts: Seq<TokenSpec>, g: Gen) -> Result<Gen, Failure>
    decreases ts.len() - g.pos, 3nat,
{
    let (g1, else_jump) = jump_emitted(ts, g, OpCode::JumpIfFalse);
    let (g2, end_jump) = jump_emitted(ts, g1, OpCode::Jump);
    match patched(ts, g2, else_jump) {
        Ok(g3) => match cg_precedence(ts, emitted(ts, g3, OpCode::Pop.spec_byte()), Precedence::Or) {
            Ok(g4) => patched(ts, g4, end_jump),
            Err(e) => Err(e),
        },
        Err(e) => Err(e),
    }
}

/// The parse function `f` on the token just consumed.
#[verifier::opaque]
pub open spec fn cg_parse_fn(ts: Seq<TokenSpec>, g: Gen, f: ParseFnType, can_assign: bool) -> Result<Gen, Failure>
    decreases ts.len() - g.pos, 4nat,
{
    match f {
        ParseFnType::Grouping => cg_grouping(ts, g),
        ParseFnType::Unary => cg_unary(ts, g),
        ParseFnType::Binary => cg_binary(ts, g),
        ParseFnType::Number => constant_emitted(ts, g, (true, ts[g.prev as int].1)),
        ParseFnType::String => constant_emitted(ts, g, (false, trim_quotes(ts[g.prev as int].1))),
        ParseFnType::Literal => cg_literal(ts, g),
        ParseFnType::Variable => cg_named_var(ts, g, ts[g.prev as int].1, can_assign),
        ParseFnType::And => cg_and(ts, g),
        ParseFnType::Or => cg_or(ts, g),
    }
}

/// A variable `name`, the previous token, read (or, where assignment is allowed and `=`
/// follows, written): a local by its slot, a global by its name's constant.
#[verifier::opaque]
pub open spec fn cg_named_var(ts: Seq<TokenSpec>, g: Gen, name: Seq<char>, can_assign: bool) -> Result<Gen, Failure>
    decreases ts.len() - g.pos, 3nat,
{
    let target: Result<(Gen, nat, bool), Failure> = match innermost(g.locals, name) {
        Some(i) => if g.locals[i as int].1 == -1 {
            Err((g, err_at(ts, g.prev, CompileErrorKind::ReadInOwnInitializer)))
        } else {
            Ok((g, i, true))
        },
        None => match constant_added(g, (false, name)) {
            Some((g1, k)) => Ok((g1, k, false)),
            None => Err((g, err_at(ts, g.prev, CompileErrorKind::TooManyConstants))),
        },
    };
    match target {
        Err(e) => Err(e),
        Ok((g1, index, local)) => if can_assign && kind(ts, g1.pos) == TokenType::Equal {
            let g2 = advanced(ts, g1);
            if fwd(ts, g, g2) {
                match cg_expression(ts, g2) {
                    Ok(g3) => Ok(emitted(ts, emitted(ts, g3,
                        if local { OpCode::SetLocal.spec_byte() } else { OpCode::SetGlobal.spec_byte() }), index as u8)),
                    Err(e) => Err(e),
                }
            } else {
                Err(no_progress(ts, g))
            }
        } else {
            Ok(emitted(ts, emitted(ts, g1,
                if local { OpCode::GetLocal.spec_byte() } else { OpCode::GetGlobal.spec_byte() }), index as u8))
        },
    }
}

/// print -> 'print' expression ';' ; after `print`.
#[verifier::opaque]
pub open spec fn cg_print(ts: Seq<TokenSpec>, g: Gen) -> Result<Gen, Failure>
    decreases ts.len() - g.pos, 5nat,
{
    match cg_expression(ts, g) {
        Err(e) => Err(e),
        Ok(g1) => match consumed_tok(ts, g1, TokenType::Semicolon, Expectation::SemicolonAfterValue) {
            Err(e) => Err(e),
            Ok(g2) => Ok(emitted(ts, g2, OpCode::Print.spec_byte())),
        },
    }
}

/// expression_statement -> expression ';' ; its value is popped.
#[verifier::opaque]
pub open spec fn cg_expr_stmt(ts: Seq<TokenSpec>, g: Gen) -> Result<Gen, Failure>
    decreases ts.len() - g.pos, 5nat,
{
    match cg_expression(ts, g) {
        Err(e) => Err(e),
        Ok(g1) => match consumed_tok(ts, g1, TokenType::Semicolon, Expectation::SemicolonAfterExpression) {
            Err(e) => Err(e),
            Ok(g2) => Ok(emitted(ts, g2, OpCode::Pop.spec_byte())),
        },
    }
}

/// var_declaration -> 'var' IDENTIFIER ('=' expression)? ';' ; after `var`.
#[verifier::opaque]
pub open spec fn cg_var_decl(ts: Seq<TokenSpec>, g: Gen) -> Result<Gen, Failure>
    decreases ts.len() - g.pos, 5nat,
{
    match var_index(ts, g) {
        Err(e) => Err(e),
        Ok((g1, index)) => {
            let init = if kind(ts, g1.pos) == TokenType::Equal {
                let g1a = advanced(ts, g1);
                if fwd(ts, g, g1a) { cg_expression(ts, g1a) } else { Err(no_progress(ts, g)) }
            } else {
                Ok(emitted(ts, g1, OpCode::Nil.spec_byte()))
            };
            match init {
                Err(e) => Err(e),
                Ok(g2) => match consumed_tok(ts, g2, TokenType::Semicolon, Expectation::SemicolonAfterVariableDeclaration) {
                    Err(e) => Err(e),
                    Ok(g3) => Ok(defined_var(ts, g3, index)),
                },
            }
        },
    }
}

/// if_statement -> 'if' '(' expression ')' statement ('else' statement)? ; after `if`.
#[verifier::opaque]
pub open spec fn cg_if(ts: Seq<TokenSpec>, g: Gen) -> Result<Gen, Failure>
    decreases ts.len() - g.pos, 5nat,
{
    match consumed_tok(ts, g, TokenType::LeftParen, Expectation::LeftParenAfterIf) {
        Err(e) => Err(e),
        Ok(g1) => if !fwd(ts, g, g1) { Err(no_progress(ts, g)) } else {
            match cg_expression(ts, g1) {
                Err(e) => Err(e),
                Ok(g2) => match consumed_tok(ts, g2, TokenType::RightParen, Expectation::RightParenAfterCondition) {
                    Err(e) => Err(e),
                    Ok(g3) => {
                        let (g4, then_jump) = jump_emitted(ts, g3, OpCode::JumpIfFalse);
                        let g5 = emitted(ts, g4, OpCode::Pop.spec_byte());
                        if !fwd(ts, g, g5) { Err(no_progress(ts, g)) } else {
                            match cg_stmt(ts, g5) {
                                Err(e) => Err(e),
                                Ok(g6) => {
                                    let (g7, else_jump) = jump_emitted(ts, g6, OpCode::Jump);
                                    match patched(ts, g7, then_jump) {
                                        Err(e) => Err(e),
                                        Ok(g8) => {
                                            let g9 = emitted(ts, g8, OpCode::Pop.spec_byte());
                                            let g10 = if kind(ts, g9.pos) == TokenType::Else {
                                                let g9a = advanced(ts, g9);
                                                if fwd(ts, g, g9a) { cg_stmt(ts, g9a) } else { Err(no_progress(ts, g)) }
                                            } else {
                                                Ok(g9)
                                            };
                                            match g10 {
                                                Err(e) => Err(e),
                                                Ok(g11) => patched(ts, g11, else_jump),
                                            }
                                        },
                                    }
                                },
                            }
                        }
                    },
                },
            }
        },
    }
}

/// while_statement -> 'while' '(' expression ')' statement ; after `while`.
#[verifier::opaque]
pub open spec fn cg_while(ts: Seq<TokenSpec>, g: Gen) -> Result<Gen, Failure>
    decreases ts.len() - g.pos, 5nat,
{
    let loop_start = g.code.len();
    match consumed_tok(ts, g, TokenType::LeftParen, Expectation::LeftParenAfterWhile) {
        Err(e) => Err(e),
        Ok(g1) => if !fwd(ts, g, g1) { Err(no_progress(ts, g)) } else {
            match cg_expression(ts, g1) {
                Err(e) => Err(e),
                Ok(g2) => match consumed_tok(ts, g2, TokenType::RightParen, Expectation::RightParenAfterCondition) {
                    Err(e) => Err(e),
                    Ok(g3) => {
                        let (g4, exit_jump) = jump_emitted(ts, g3, OpCode::JumpIfFalse);
                        let g5 = emitted(ts, g4, OpCode::Pop.spec_byte());
                        if !fwd(ts, g, g5) { Err(no_progress(ts, g)) } else {
                            match cg_stmt(ts, g5) {
                                Err(e) => Err(e),
                                Ok(g6) => match loop_emitted(ts, g6, loop_start) {
                                    Err(e) => Err(e),
                                    Ok(g7) => match patched(ts, g7, exit_jump) {
                                        Err(e) => Err(e),
                                        Ok(g8) => Ok(emitted(ts, g8, OpCode::Pop.spec_byte())),
                                    },
                                },
                            }
                        }
                    },
                },
            }
        },
    }
}

/// for_statement -> 'for' '(' for_initializer for_clauses statement ; after `for`, in a
/// scope of its own.
#[verifier::opaque]
pub open spec fn cg_for(ts: Seq<TokenSpec>, g: Gen) -> Result<Gen, Failure>
    decreases ts.len() - g.pos, 7nat,
{
    let g0 = Gen { depth: g.depth + 1, ..g };
    match consumed_tok(ts, g0, TokenType::LeftParen, Expectation::LeftParenAfterFor) {
        Err(e) => Err(e),
        Ok(g1) => if !fwd(ts, g, g1) { Err(no_progress(ts, g)) } else {
            match cg_for_init(ts, g1) {
                Err(e) => Err(e),
                Ok(g2) => if fwd(ts, g, g2) { cg_for_loop(ts, g2) } else { Err(no_progress(ts, g)) },
            }
        },
    }
}

/// for_initializer -> var_declaration | expression_statement | ';'
#[verifier::opaque]
pub open spec fn cg_for_init(ts: Seq<TokenSpec>, g: Gen) -> Result<Gen, Failure>
    decreases ts.len() - g.pos, 6nat,
{
    if kind(ts, g.pos) == TokenType::Semicolon {
        Ok(advanced(ts, g))
    } else if kind(ts, g.pos) == TokenType::Var {
        let g1 = advanced(ts, g);
        if fwd(ts, g, g1) { cg_var_decl(ts, g1) } else { Err(no_progress(ts, g)) }
    } else {
        cg_expr_stmt(ts, g)
    }
}

/// The rest of a `for`: expression? ';' expression? ')' statement. The condition is
/// tested first; the increment runs after the body and jumps back to the condition; the
/// scope of the loop ends after it.
#[verifier::opaque]
pub open spec fn cg_for_loop(ts: Seq<TokenSpec>, g: Gen) -> Result<Gen, Failure>
    decreases ts.len() - g.pos, 6nat,
{
    let loop_start = g.code.len();
    let cond: Result<(Gen, Option<nat>), Failure> = if kind(ts, g.pos) == TokenType::Semicolon {
        Ok((advanced(ts, g), None))
    } else {
        match cg_expression(ts, g) {
            Err(e) => Err(e),
            Ok(g3) => match consumed_tok(ts, g3, TokenType::Semicolon, Expectation::SemicolonAfterLoopCondition) {
                Err(e) => Err(e),
                Ok(g4) => {
                    let (g5, j) = jump_emitted(ts, g4, OpCode::JumpIfFalse);
                    Ok((emitted(ts, g5, OpCode::Pop.spec_byte()), Some(j)))
                },
            },
        }
    };
    match cond {
        Err(e) => Err(e),
        Ok((g6, exit)) => {
            let inc: Result<(Gen, nat), Failure> = if kind(ts, g6.pos) == TokenType::RightParen {
                Ok((advanced(ts, g6), loop_start))
            } else {
                let (g7, inc_jump) = jump_emitted(ts, g6, OpCode::Jump);
                let inc_start = g7.code.len();
                if !fwd(ts, g, g7) { Err(no_progress(ts, g)) } else {
                    match cg_expression(ts, g7) {
                        Err(e) => Err(e),
                        Ok(g8) => match consumed_tok(ts, emitted(ts, g8, OpCode::Pop.spec_byte()), TokenType::RightParen, Expectation::RightParenAfterForClauses) {
                            Err(e) => Err(e),
                            Ok(g9) => match loop_emitted(ts, g9, loop_start) {
                                Err(e) => Err(e),
                                Ok(g10) => match patched(ts, g10, inc_jump) {
                                    Err(e) => Err(e),
                                    Ok(g11) => Ok((g11, inc_start)),
                                },
                            },
                        },
                    }
                }
            };
            match inc {
                Err(e) => Err(e),
                Ok((g12, body_start)) => if !fwd(ts, g, g12) { Err(no_progress(ts, g)) } else {
                    match cg_stmt(ts, g12) {
                        Err(e) => Err(e),
                        Ok(g13) => match loop_emitted(ts, g13, body_start) {
                            Err(e) => Err(e),
                            Ok(g14) => {
                                let g15 = match exit {
                                    Some(j) => match patched(ts, g14, j) {
                                        Ok(x) => Ok(emitted(ts, x, OpCode::Pop.spec_byte())),
                                        Err(e) => Err(e),
                                    },
                                    None => Ok(g14),
                                };
                                match g15 {
                                    Ok(x) => Ok(scope_ended(ts, x)),
                                    Err(e) => Err(e),
                                }
                            },
                        },
                    }
                },
            }
        },
    }
}

/// statement -> print | if | while | for | block | expression statement
#[verifier::opaque]
pub open spec fn cg_stmt(ts: Seq<TokenSpec>, g: Gen) -> Result<Gen, Failure>
    decreases ts.len() - g.pos, 7nat,
{
    let k = kind(ts, g.pos);
    let g1 = advanced(ts, g);
    if k == TokenType::Print {
        if fwd(ts, g, g1) { cg_print(ts, g1) } else { Err(no_progress(ts, g)) }
    } else if k == TokenType::If {
        if fwd(ts, g, g1) { cg_if(ts, g1) } else { Err(no_progress(ts, g)) }
    } else if k == TokenType::While {
        if fwd(ts, g, g1) { cg_while(ts, g1) } else { Err(no_progress(ts, g)) }
    } else if k == TokenType::For {
        if fwd(ts, g, g1) { cg_for(ts, g1) } else { Err(no_progress(ts, g)) }
    } else if k == TokenType::LeftBrace {
        if fwd(ts, g, g1) {
            match cg_block(ts, Gen { depth: g1.depth + 1, ..g1 }) {
                Ok(g2) => Ok(scope_ended(ts, g2)),
                Err(e) => Err(e),
            }
        } else {
            Err(no_progress(ts, g))
        }
    } else {
        cg_expr_stmt(ts, g)
    }
}

/// block -> declaration* '}' ; after `{`.
#[verifier::opaque]
pub open spec fn cg_block(ts: Seq<TokenSpec>, g: Gen) -> Result<Gen, Failure>
    decreases ts.len() - g.pos, 9nat,
{
    if kind(ts, g.pos) != TokenType::RightBrace && kind(ts, g.pos) != TokenType::Eof {
        match cg_declaration(ts, g) {
            Err(e) => Err(e),
            Ok(g1) => if fwd(ts, g, g1) { cg_block(ts, g1) } else { Err(no_progress(ts, g)) },
        }
    } else {
        consumed_tok(ts, g, TokenType::RightBrace, Expectation::RightBraceAfterBlock)
    }
}

/// declaration -> var_declaration | statement
#[verifier::opaque]
pub open spec fn cg_declaration(ts: Seq<TokenSpec>, g: Gen) -> Result<Gen, Failure>
    decreases ts.len() - g.pos, 8nat,
{
    if kind(ts, g.pos) == TokenType::Var {
        let g1 = advanced(ts, g);
        if fwd(ts, g, g1) { cg_var_decl(ts, g1) } else { Err(no_progress(ts, g)) }
    } else {
        cg_stmt(ts, g)
    }
}

/// A token kind that starts a statement.
pub open spec fn starts_statement(k: TokenType) -> bool {
    k == TokenType::Class || k == TokenType::Function || k == TokenType::Var || k == TokenType::For
        || k == TokenType::If || k == TokenType::While || k == TokenType::Print || k == TokenType::Return
}

/// After an error, where the lookahead and the previous token stand once tokens are
/// skipped up to a statement boundary: just after a `;`, before a keyword that starts a
/// statement, or at the end.
pub open spec fn sync_point(ts: Seq<TokenSpec>, pos: nat, prev: nat) -> (nat, nat)
    decreases ts.len() - pos,
{
    if kind(ts, pos) == TokenType::Eof || kind(ts, prev) == TokenType::Semicolon || starts_statement(kind(ts, pos)) {
        (pos, prev)
    } else if pos + 1 < ts.len() {
        sync_point(ts, pos + 1, pos)
    } else {
        (pos, prev)
    }
}

/// `g` once tokens are skipped up to a statement boundary.
pub open spec fn synced(ts: Seq<TokenSpec>, g: Gen) -> Gen {
    let (pos, prev) = sync_point(ts, g.pos, g.prev);
    Gen { pos, prev, ..g }
}

/// program -> declaration* Eof, where an error in a declaration is collected and compiling
/// resumes at the next statement boundary: where the compiler ends, and the errors met in
/// order, each with the index of the lookahead token when it was met.
#[verifier::opaque]
pub open spec fn cg_program(ts: Seq<TokenSpec>, g: Gen) -> (Gen, Seq<(nat, CgError)>)
    decreases ts.len() - g.pos, 10nat,
{
    if kind(ts, g.pos) == TokenType::Eof {
        (advanced(ts, g), Seq::empty())
    } else {
        match cg_declaration(ts, g) {
            Ok(g1) => if fwd(ts, g, g1) { cg_program(ts, g1) } else { (g1, seq![(g.pos, no_progress(ts, g).1)]) },
            Err((g1, e)) => {
                let g2 = synced(ts, g1);
                if fwd(ts, g, g2) {
                    let (g3, es) = cg_program(ts, g2);
                    (g3, seq![(g1.pos, e)] + es)
                } else {
                    (g2, seq![(g1.pos, e)])
                }
            },
        }
    }
}

/// Nothing compiled yet, the first token the lookahead.
pub open spec fn gen_start() -> Gen {
    Gen { pos: 0, prev: 0, locals: Seq::empty(), depth: 0, code: Seq::empty(), lines: Seq::empty(), consts: Seq::empty() }
}

/// A compile error seen as an error of the tool chain.
pub open spec fn compile_view(e: CgError) -> ErrorView {
    ErrorView::Compile(e.0, e.1, e.2)
}

/// The compile errors of `compile` met at the token at `at`, in order.
pub open spec fn compile_errors_at(compile: Seq<(nat, CgError)>, at: int) -> Seq<ErrorView>
    decreases compile.len(),
{
    if compile.len() == 0 {
        Seq::empty()
    } else if compile.last().0 == at {
        compile_errors_at(compile.drop_last(), at).push(compile_view(compile.last().1))
    } else {
        compile_errors_at(compile.drop_last(), at)
    }
}

/// The errors met while the lookahead moves up to the token at `upto` (none before the
/// first token): at each token, the scan errors met just before it, then the compile
/// errors met there.
pub open spec fn merged(groups: Seq<Seq<ErrorView>>, upto: int, compile: Seq<(nat, CgError)>) -> Seq<ErrorView>
    decreases upto + 1,
{
    if upto < 0 {
        Seq::empty()
    } else {
        merged(groups, upto - 1, compile) + groups[upto] + compile_errors_at(compile, upto)
    }
}

/// No compile error is met at a token after all of them.
pub proof fn lemma_compile_errors_after(compile: Seq<(nat, CgError)>, at: int)
    requires
        forall|i: int| 0 <= i < compile.len() ==> (#[trigger] compile[i]).0 < at,
    ensures
        compile_errors_at(compile, at) == Seq::<ErrorView>::empty(),
    decreases compile.len(),
{
    if compile.len() > 0 {
        lemma_compile_errors_after(compile.drop_last(), at);
    }
}

/// A compile error met at `at` adds nothing to the errors met before `at`.
pub proof fn lemma_merged_before(groups: Seq<Seq<ErrorView>>, upto: int, compile: Seq<(nat, CgError)>, e: (nat, CgError))
    requires
        upto < e.0,
    ensures
        merged(groups, upto, compile.push(e)) == merged(groups, upto, compile),
    decreases upto + 1,
{
    if upto >= 0 {
        lemma_merged_before(groups, upto - 1, compile, e);
        assert(compile.push(e).drop_last() =~= compile);
    }
}

/// A compile error met at the lookahead comes last among the errors met so far.
pub proof fn lemma_merged_push(groups: Seq<Seq<ErrorView>>, compile: Seq<(nat, CgError)>, e: (nat, CgError))
    ensures
        merged(groups, e.0 as int, compile.push(e)) == merged(groups, e.0 as int, compile).push(compile_view(e.1)),
{
    let p = e.0 as int;
    lemma_merged_before(groups, p - 1, compile, e);
    assert(compile.push(e).drop_last() =~= compile);
    assert(compile_errors_at(compile.push(e), p) == compile_errors_at(compile, p).push(compile_view(e.1)));
    assert(merged(groups, p, compile.push(e)) =~= merged(groups, p, compile).push(compile_view(e.1)));
}

/// The lookahead moved on to the next token: the scan errors before it are added.
pub proof fn lemma_merged_next(groups: Seq<Seq<ErrorView>>, upto: int, compile: Seq<(nat, CgError)>)
    requires
        0 <= upto,
        forall|i: int| 0 <= i < compile.len() ==> (#[trigger] compile[i]).0 <= upto,
    ensures
        merged(groups, upto + 1, compile) == merged(groups, upto, compile) + groups[upto + 1],
{
    lemma_compile_errors_after(compile, upto + 1);
    assert(merged(groups, upto, compile) + groups[upto + 1] + Seq::<ErrorView>::empty()
        =~= merged(groups, upto, compile) + groups[upto + 1]);
}

/// What the compiler makes of the source `src`, what it cannot read as tokens passed
/// over: the program, then `Return`, when it meets no error; else the errors, scan errors
/// and compile errors in the order met.
pub open spec fn compiled(src: Seq<char>) -> Result<Gen, Seq<ErrorView>> {
    let ts = tokens_passing_errors(src, 0, 1);
    let (g, compile) = cg_program(ts, gen_start());
    let errors = merged(scan_groups(src, 0, 1, Seq::empty()), ts.len() - 1, compile);
    if errors.len() == 0 {
        Ok(emitted(ts, g, OpCode::Return.spec_byte()))
    } else {
        Err(errors)
    }
}

/// `b` holds the code of `a` and possibly more after it.
pub open spec fn code_grows(a: Gen, b: Gen) -> bool {
    a.code.len() <= b.code.len() && b.code.subrange(0, a.code.len() as int) == a.code
}

/// Code that grows from `a` to `b` and from `b` to `c` grows from `a` to `c`.
pub proof fn lemma_code_grows_trans(a: Gen, b: Gen, c: Gen)
    requires
        code_grows(a, b),
        code_grows(b, c),
    ensures
        code_grows(a, c),
{
    assert(c.code.subrange(0, a.code.len() as int) =~= c.code.subrange(0, b.code.len() as int).subrange(0, a.code.len() as int));
}

proof fn lemma_code_grows_refl(a: Gen)
    ensures
        code_grows(a, a),
{
    assert(a.code.subrange(0, a.code.len() as int) =~= a.code);
}

/// Emitting a byte keeps the code before it.
pub proof fn lemma_emitted_grows(ts: Seq<TokenSpec>, g: Gen, b: u8)
    ensures
        code_grows(g, emitted(ts, g, b)),
{
    assert(emitted(ts, g, b).code.subrange(0, g.code.len() as int) =~= g.code);
}

proof fn lemma_emitted_all_grows(ts: Seq<TokenSpec>, g: Gen, bs: Seq<u8>)
    ensures
        code_grows(g, emitted_all(ts, g, bs)),
{
    assert(emitted_all(ts, g, bs).code.subrange(0, g.code.len() as int) =~= g.code);
}

/// A jump is its opcode and two placeholder bytes, the distance to go at the first of them.
pub proof fn lemma_jump_emitted_grows(ts: Seq<TokenSpec>, g: Gen, op: OpCode)
    ensures
        code_grows(g, jump_emitted(ts, g, op).0),
        jump_emitted(ts, g, op).1 == g.code.len() + 1,
        jump_emitted(ts, g, op).0.code == g.code.push(op.spec_byte()).push(0xff).push(0xff),
        jump_emitted(ts, g, op).0.pos == g.pos,
{
    let g1 = emitted(ts, g, op.spec_byte());
    let g2 = emitted(ts, g1, 0xff);
    lemma_emitted_grows(ts, g, op.spec_byte());
    lemma_emitted_grows(ts, g1, 0xff);
    lemma_emitted_grows(ts, g2, 0xff);
    lemma_code_grows_trans(g, g1, g2);
    lemma_code_grows_trans(g, g2, emitted(ts, g2, 0xff));
}

/// Patching a jump changes only its two distance bytes, after the code it was emitted behind.
pub proof fn lemma_patched_grows(ts: Seq<TokenSpec>, g0: Gen, g: Gen, j: nat)
    requires
        code_grows(g0, g),
        g0.code.len() <= j,
        j + 1 < g.code.len(),
    ensures
        patched(ts, g, j) matches Ok(r) ==> code_grows(g0, r) && r.code.len() == g.code.len(),
{
    if let Ok(r) = patched(ts, g, j) {
        assert(r.code.subrange(0, g0.code.len() as int) =~= g.code.subrange(0, g0.code.len() as int));
    }
}

proof fn lemma_constant_emitted_grows(ts: Seq<TokenSpec>, g: Gen, c: (bool, Seq<char>))
    ensures
        constant_emitted(ts, g, c) matches Ok(r) ==> code_grows(g, r),
{
    if let Some((g1, i)) = constant_added(g, c) {
        lemma_code_grows_refl(g);
        assert(g1.code == g.code);
        let g2 = emitted(ts, g1, OpCode::Constant.spec_byte());
        lemma_emitted_grows(ts, g1, OpCode::Constant.spec_byte());
        lemma_emitted_grows(ts, g2, i as u8);
        lemma_code_grows_trans(g1, g2, emitted(ts, g2, i as u8));
    }
}

/// Compiling an expression only adds code after what was there.
pub proof fn lemma_cg_expression_grows(ts: Seq<TokenSpec>, g: Gen)
    ensures
        cg_expression(ts, g) matches Ok(r) ==> code_grows(g, r),
    decreases ts.len() - g.pos, 2nat,
{
    lemma_cg_expression(ts, g);
    lemma_cg_precedence_grows(ts, g, Precedence::Assignment);
}

/// Compiling an expression of at least a given precedence only adds code.
pub proof fn lemma_cg_precedence_grows(ts: Seq<TokenSpec>, g: Gen, prec: Precedence)
    ensures
        cg_precedence(ts, g, prec) matches Ok(r) ==> code_grows(g, r),
    decreases ts.len() - g.pos, 1nat,
{
    lemma_cg_precedence(ts, g, prec);
    let g1 = advanced(ts, g);
    lemma_code_grows_refl(g);
    if let Some(f) = spec_parse_rule(kind(ts, g1.prev)).0 {
        let can_assign = prec.spec_rank() <= Precedence::Assignment.spec_rank();
        if fwd(ts, g, g1) {
            lemma_cg_parse_fn_grows(ts, g1, f, can_assign);
            if let Ok(g2) = cg_parse_fn(ts, g1, f, can_assign) {
                if fwd(ts, g, g2) {
                    lemma_cg_infix_grows(ts, g2, prec, can_assign);
                    if let Ok(g3) = cg_infix(ts, g2, prec, can_assign) {
                        lemma_code_grows_trans(g, g2, g3);
                    }
                }
            }
        }
    }
}

/// The infix rules after a left operand only add code.
pub proof fn lemma_cg_infix_grows(ts: Seq<TokenSpec>, g: Gen, prec: Precedence, can_assign: bool)
    ensures
        cg_infix(ts, g, prec, can_assign) matches Ok(r) ==> code_grows(g, r),
    decreases ts.len() - g.pos, 1nat,
{
    lemma_cg_infix(ts, g, prec, can_assign);
    lemma_code_grows_refl(g);
    if prec.spec_rank() <= spec_parse_rule(kind(ts, g.pos)).2.spec_rank() {
        let g1 = advanced(ts, g);
        if let Some(f) = spec_parse_rule(kind(ts, g1.prev)).1 {
            if fwd(ts, g, g1) {
                lemma_cg_parse_fn_grows(ts, g1, f, can_assign);
                if let Ok(g2) = cg_parse_fn(ts, g1, f, can_assign) {
                    if fwd(ts, g, g2) {
                        lemma_cg_infix_grows(ts, g2, prec, can_assign);
                        if let Ok(g3) = cg_infix(ts, g2, prec, can_assign) {
                            lemma_code_grows_trans(g, g2, g3);
                        }
                    }
                }
            }
        }
    }
}

/// A prefix or infix rule only adds code.
pub proof fn lemma_cg_parse_fn_grows(ts: Seq<TokenSpec>, g: Gen, f: ParseFnType, can_assign: bool)
    ensures
        cg_parse_fn(ts, g, f, can_assign) matches Ok(r) ==> code_grows(g, r),
    decreases ts.len() - g.pos, 4nat,
{
    lemma_cg_parse_fn(ts, g, f, can_assign);
    match f {
        ParseFnType::Grouping => {
            lemma_cg_grouping(ts, g);
            lemma_cg_expression_grows(ts, g);
        },
        ParseFnType::Unary => {
            lemma_cg_unary(ts, g);
            lemma_cg_expression_grows(ts, g);
            if let Ok(g1) = cg_expression(ts, g) {
                lemma_emitted_grows(ts, g1, OpCode::Negate.spec_byte());
                lemma_emitted_grows(ts, g1, OpCode::Not.spec_byte());
                lemma_code_grows_trans(g, g1, emitted(ts, g1, OpCode::Negate.spec_byte()));
                lemma_code_grows_trans(g, g1, emitted(ts, g1, OpCode::Not.spec_byte()));
            }
        },
        ParseFnType::Binary => {
            lemma_cg_binary(ts, g);
            let t = kind(ts, g.prev);
            lemma_cg_precedence_grows(ts, g, higher(spec_parse_rule(t).2));
            if let Ok(g1) = cg_precedence(ts, g, higher(spec_parse_rule(t).2)) {
                if let Some(bs) = binary_code(t) {
                    lemma_emitted_all_grows(ts, g1, bs);
                    lemma_code_grows_trans(g, g1, emitted_all(ts, g1, bs));
                }
            }
        },
        ParseFnType::Number => lemma_constant_emitted_grows(ts, g, (true, ts[g.prev as int].1)),
        ParseFnType::String => lemma_constant_emitted_grows(ts, g, (false, trim_quotes(ts[g.prev as int].1))),
        ParseFnType::Literal => {
            lemma_emitted_grows(ts, g, OpCode::False.spec_byte());
            lemma_emitted_grows(ts, g, OpCode::True.spec_byte());
            lemma_emitted_grows(ts, g, OpCode::Nil.spec_byte());
        },
        ParseFnType::Variable => lemma_cg_named_var_grows(ts, g, ts[g.prev as int].1, can_assign),
        ParseFnType::And => lemma_cg_and_grows(ts, g),
        ParseFnType::Or => lemma_cg_or_grows(ts, g),
    }
}

/// Compiling a variable's use only adds code.
pub proof fn lemma_cg_named_var_grows(ts: Seq<TokenSpec>, g: Gen, name: Seq<char>, can_assign: bool)
    ensures
        cg_named_var(ts, g, name, can_assign) matches Ok(r) ==> code_grows(g, r),
    decreases ts.len() - g.pos, 3nat,
{
    lemma_cg_named_var(ts, g, name, can_assign);
    let target: Result<(Gen, nat, bool), Failure> = match innermost(g.locals, name) {
        Some(i) => if g.locals[i as int].1 == -1 {
            Err((g, err_at(ts, g.prev, CompileErrorKind::ReadInOwnInitializer)))
        } else {
            Ok((g, i, true))
        },
        None => match constant_added(g, (false, name)) {
            Some((g1, k)) => Ok((g1, k, false)),
            None => Err((g, err_at(ts, g.prev, CompileErrorKind::TooManyConstants))),
        },
    };
    if let Ok((g1, index, local)) = target {
        assert(g1.code == g.code);
        lemma_code_grows_refl(g);
        let b1 = if local { OpCode::SetLocal.spec_byte() } else { OpCode::SetGlobal.spec_byte() };
        let b2 = if local { OpCode::GetLocal.spec_byte() } else { OpCode::GetGlobal.spec_byte() };
        if can_assign && kind(ts, g1.pos) == TokenType::Equal {
            let g2 = advanced(ts, g1);
            if fwd(ts, g, g2) {
                lemma_cg_expression_grows(ts, g2);
                if let Ok(g3) = cg_expression(ts, g2) {
                    let g4 = emitted(ts, g3, b1);
                    lemma_emitted_grows(ts, g3, b1);
                    lemma_emitted_grows(ts, g4, index as u8);
                    lemma_code_grows_trans(g, g3, g4);
                    lemma_code_grows_trans(g, g4, emitted(ts, g4, index as u8));
                }
            }
        } else {
            let g4 = emitted(ts, g1, b2);
            lemma_emitted_grows(ts, g1, b2);
            lemma_emitted_grows(ts, g4, index as u8);
            lemma_code_grows_trans(g, g4, emitted(ts, g4, index as u8));
        }
    }
}

/// Compiling an `and` only adds code.
pub proof fn lemma_cg_and_grows(ts: Seq<TokenSpec>, g: Gen)
    ensures
        cg_and(ts, g) matches Ok(r) ==> code_grows(g, r),
    decreases ts.len() - g.pos, 3nat,
{
    lemma_cg_and(ts, g);
    let (g1, j) = jump_emitted(ts, g, OpCode::JumpIfFalse);
    lemma_jump_emitted_grows(ts, g, OpCode::JumpIfFalse);
    let gp = emitted(ts, g1, OpCode::Pop.spec_byte());
    lemma_emitted_grows(ts, g1, OpCode::Pop.spec_byte());
    lemma_code_grows_trans(g, g1, gp);
    lemma_cg_precedence_grows(ts, gp, Precedence::And);
    if let Ok(g2) = cg_precedence(ts, gp, Precedence::And) {
        lemma_code_grows_trans(g, gp, g2);
        lemma_patched_grows(ts, g, g2, j);
    }
}

/// Compiling an `or` only adds code.
pub proof fn lemma_cg_or_grows(ts: Seq<TokenSpec>, g: Gen)
    ensures
        cg_or(ts, g) matches Ok(r) ==> code_grows(g, r),
    decreases ts.len() - g.pos, 3nat,
{
    lemma_cg_or(ts, g);
    let (g1, else_jump) = jump_emitted(ts, g, OpCode::JumpIfFalse);
    lemma_jump_emitted_grows(ts, g, OpCode::JumpIfFalse);
    let (g2, end_jump) = jump_emitted(ts, g1, OpCode::Jump);
    lemma_jump_emitted_grows(ts, g1, OpCode::Jump);
    lemma_code_grows_trans(g, g1, g2);
    lemma_patched_grows(ts, g, g2, else_jump);
    if let Ok(g3) = patched(ts, g2, else_jump) {
        let gp = emitted(ts, g3, OpCode::Pop.spec_byte());
        lemma_emitted_grows(ts, g3, OpCode::Pop.spec_byte());
        lemma_code_grows_trans(g, g3, gp);
        lemma_cg_precedence_grows(ts, gp, Precedence::Or);
        if let Ok(g4) = cg_precedence(ts, gp, Precedence::Or) {
            lemma_code_grows_trans(g, gp, g4);
            lemma_patched_grows(ts, g, g4, end_jump);
        }
    }
}

/// Where an `if` (after `if`) places its parts: the end of its condition's code, where
/// the test jumps from, and the end of its first branch's code, where the jump over the
/// second branch stands.
pub open spec fn if_marks(ts: Seq<TokenSpec>, g: Gen) -> (nat, nat) {
    match consumed_tok(ts, g, TokenType::LeftParen, Expectation::LeftParenAfterIf) {
        Ok(g1) => match cg_expression(ts, g1) {
            Ok(g2) => {
                let g5 = emitted(ts, jump_emitted(ts, advanced(ts, g2), OpCode::JumpIfFalse).0, OpCode::Pop.spec_byte());
                match cg_stmt(ts, g5) {
                    Ok(g6) => (g2.code.len(), g6.code.len()),
                    Err(_) => (g2.code.len(), 0),
                }
            },
            Err(_) => (0, 0),
        },
        Err(_) => (0, 0),
    }
}

/// Where a `while` (after `while`) places its parts: the end of its condition's code,
/// where the test jumps from, and the end of its body's code, where the jump back stands.
pub open spec fn while_marks(ts: Seq<TokenSpec>, g: Gen) -> (nat, nat) {
    match consumed_tok(ts, g, TokenType::LeftParen, Expectation::LeftParenAfterWhile) {
        Ok(g1) => match cg_expression(ts, g1) {
            Ok(g2) => {
                let g5 = emitted(ts, jump_emitted(ts, advanced(ts, g2), OpCode::JumpIfFalse).0, OpCode::Pop.spec_byte());
                match cg_stmt(ts, g5) {
                    Ok(g6) => (g2.code.len(), g6.code.len()),
                    Err(_) => (g2.code.len(), 0),
                }
            },
            Err(_) => (0, 0),
        },
        Err(_) => (0, 0),
    }
}

/// A byte of code that grew is still there.
pub proof fn lemma_grows_at(a: Gen, b: Gen, i: int)
    requires
        code_grows(a, b),
        0 <= i < a.code.len(),
    ensures
        b.code[i] == a.code[i],
{
    assert(b.code.subrange(0, a.code.len() as int)[i] == b.code[i]);
}

proof fn lemma_same_code_grows(a: Gen, b: Gen)
    requires
        b.code == a.code,
    ensures
        code_grows(a, b),
{
    assert(b.code.subrange(0, a.code.len() as int) =~= a.code);
}

proof fn lemma_scope_ended_grows(ts: Seq<TokenSpec>, g: Gen)
    ensures
        code_grows(g, scope_ended(ts, g)),
{
    assert(scope_ended(ts, g).code.subrange(0, g.code.len() as int) =~= g.code);
}

proof fn lemma_loop_emitted_grows(ts: Seq<TokenSpec>, g: Gen, start: nat)
    ensures
        loop_emitted(ts, g, start) matches Ok(r) ==> code_grows(g, r),
{
    let g1 = emitted(ts, g, OpCode::RevJump.spec_byte());
    let distance = g1.code.len() - start;
    lemma_emitted_grows(ts, g, OpCode::RevJump.spec_byte());
    let g2 = emitted(ts, g1, hi(distance + 2));
    lemma_emitted_grows(ts, g1, hi(distance + 2));
    lemma_emitted_grows(ts, g2, lo(distance + 2));
    lemma_code_grows_trans(g, g1, g2);
    lemma_code_grows_trans(g, g2, emitted(ts, g2, lo(distance + 2)));
}

/// Compiling a statement that ends in a value's consumption (`print` or an expression
/// statement) only adds code.
pub proof fn lemma_cg_print_grows(ts: Seq<TokenSpec>, g: Gen)
    ensures
        cg_print(ts, g) matches Ok(r) ==> code_grows(g, r),
        cg_expr_stmt(ts, g) matches Ok(r) ==> code_grows(g, r),
    decreases ts.len() - g.pos, 5nat,
{
    lemma_cg_print(ts, g);
    lemma_cg_expr_stmt(ts, g);
    lemma_cg_expression_grows(ts, g);
    if let Ok(g1) = cg_expression(ts, g) {
        let g2 = advanced(ts, g1);
        lemma_same_code_grows(g1, g2);
        lemma_code_grows_trans(g, g1, g2);
        lemma_emitted_grows(ts, g2, OpCode::Print.spec_byte());
        lemma_emitted_grows(ts, g2, OpCode::Pop.spec_byte());
        lemma_code_grows_trans(g, g2, emitted(ts, g2, OpCode::Print.spec_byte()));
        lemma_code_grows_trans(g, g2, emitted(ts, g2, OpCode::Pop.spec_byte()));
    }
}

/// Compiling a variable declaration only adds code.
pub proof fn lemma_cg_var_decl_grows(ts: Seq<TokenSpec>, g: Gen)
    ensures
        cg_var_decl(ts, g) matches Ok(r) ==> code_grows(g, r),
    decreases ts.len() - g.pos, 5nat,
{
    lemma_cg_var_decl(ts, g);
    if let Ok((g1, index)) = var_index(ts, g) {
        assert(g1.code == g.code);
        lemma_same_code_grows(g, g1);
        let init = if kind(ts, g1.pos) == TokenType::Equal {
            let g1a = advanced(ts, g1);
            if fwd(ts, g, g1a) { cg_expression(ts, g1a) } else { Err(no_progress(ts, g)) }
        } else {
            Ok(emitted(ts, g1, OpCode::Nil.spec_byte()))
        };
        if kind(ts, g1.pos) == TokenType::Equal {
            let g1a = advanced(ts, g1);
            lemma_same_code_grows(g, g1a);
            if fwd(ts, g, g1a) {
                lemma_cg_expression_grows(ts, g1a);
                if let Ok(g2) = cg_expression(ts, g1a) {
                    lemma_code_grows_trans(g, g1a, g2);
                }
            }
        } else {
            lemma_emitted_grows(ts, g1, OpCode::Nil.spec_byte());
            lemma_code_grows_trans(g, g1, emitted(ts, g1, OpCode::Nil.spec_byte()));
        }
        if let Ok(g2) = init {
            let g3 = advanced(ts, g2);
            lemma_same_code_grows(g2, g3);
            lemma_code_grows_trans(g, g2, g3);
            let g4 = defined_var(ts, g3, index);
            if g3.depth > 0 {
                lemma_same_code_grows(g3, g4);
            } else {
                let g3a = emitted(ts, g3, OpCode::DefineGlobal.spec_byte());
                lemma_emitted_grows(ts, g3, OpCode::DefineGlobal.spec_byte());
                lemma_emitted_grows(ts, g3a, index as u8);
                lemma_code_grows_trans(g3, g3a, g4);
            }
            lemma_code_grows_trans(g, g3, g4);
        }
    }
}

/// Compiling an `if` only adds code.
pub proof fn lemma_cg_if_grows(ts: Seq<TokenSpec>, g: Gen)
    ensures
        cg_if(ts, g) matches Ok(r) ==> code_grows(g, r),
    decreases ts.len() - g.pos, 5nat,
{
    lemma_cg_if(ts, g);
    if let Ok(g1) = consumed_tok(ts, g, TokenType::LeftParen, Expectation::LeftParenAfterIf) {
        lemma_same_code_grows(g, g1);
        if fwd(ts, g, g1) {
            lemma_cg_expression_grows(ts, g1);
            if let Ok(g2) = cg_expression(ts, g1) {
                lemma_code_grows_trans(g, g1, g2);
                if let Ok(g3) = consumed_tok(ts, g2, TokenType::RightParen, Expectation::RightParenAfterCondition) {
                    lemma_same_code_grows(g2, g3);
                    lemma_code_grows_trans(g, g2, g3);
                    let (g4, then_jump) = jump_emitted(ts, g3, OpCode::JumpIfFalse);
                    lemma_jump_emitted_grows(ts, g3, OpCode::JumpIfFalse);
                    lemma_code_grows_trans(g, g3, g4);
                    let g5 = emitted(ts, g4, OpCode::Pop.spec_byte());
                    lemma_emitted_grows(ts, g4, OpCode::Pop.spec_byte());
                    lemma_code_grows_trans(g, g4, g5);
                    if fwd(ts, g, g5) {
                        lemma_cg_stmt_grows(ts, g5);
                        if let Ok(g6) = cg_stmt(ts, g5) {
                            lemma_code_grows_trans(g, g5, g6);
                            let (g7, else_jump) = jump_emitted(ts, g6, OpCode::Jump);
                            lemma_jump_emitted_grows(ts, g6, OpCode::Jump);
                            lemma_code_grows_trans(g, g6, g7);
                            lemma_patched_grows(ts, g, g7, then_jump);
                            if let Ok(g8) = patched(ts, g7, then_jump) {
                                let g9 = emitted(ts, g8, OpCode::Pop.spec_byte());
                                lemma_emitted_grows(ts, g8, OpCode::Pop.spec_byte());
                                lemma_code_grows_trans(g, g8, g9);
                                let g10 = if kind(ts, g9.pos) == TokenType::Else {
                                    let g9a = advanced(ts, g9);
                                    if fwd(ts, g, g9a) { cg_stmt(ts, g9a) } else { Err(no_progress(ts, g)) }
                                } else {
                                    Ok(g9)
                                };
                                if kind(ts, g9.pos) == TokenType::Else {
                                    let g9a = advanced(ts, g9);
                                    lemma_same_code_grows(g9, g9a);
                                    lemma_code_grows_trans(g, g9, g9a);
                                    if fwd(ts, g, g9a) {
                                        lemma_cg_stmt_grows(ts, g9a);
                                        if let Ok(g11) = cg_stmt(ts, g9a) {
                                            lemma_code_grows_trans(g, g9a, g11);
                                        }
                                    }
                                }
                                if let Ok(g11) = g10 {
                                    lemma_patched_grows(ts, g, g11, else_jump);
                                }
                            }
                        }
                    }
                }
            }
        }
    }
}

/// Compiling a `while` only adds code.
pub proof fn lemma_cg_while_grows(ts: Seq<TokenSpec>, g: Gen)
    ensures
        cg_while(ts, g) matches Ok(r) ==> code_grows(g, r),
    decreases ts.len() - g.pos, 5nat,
{
    lemma_cg_while(ts, g);
    let loop_start = g.code.len();
    if let Ok(g1) = consumed_tok(ts, g, TokenType::LeftParen, Expectation::LeftParenAfterWhile) {
        lemma_same_code_grows(g, g1);
        if fwd(ts, g, g1) {
            lemma_cg_expression_grows(ts, g1);
            if let Ok(g2) = cg_expression(ts, g1) {
                lemma_code_grows_trans(g, g1, g2);
                if let Ok(g3) = consumed_tok(ts, g2, TokenType::RightParen, Expectation::RightParenAfterCondition) {
                    lemma_same_code_grows(g2, g3);
                    lemma_code_grows_trans(g, g2, g3);
                    let (g4, exit_jump) = jump_emitted(ts, g3, OpCode::JumpIfFalse);
                    lemma_jump_emitted_grows(ts, g3, OpCode::JumpIfFalse);
                    lemma_code_grows_trans(g, g3, g4);
                    let g5 = emitted(ts, g4, OpCode::Pop.spec_byte());
                    lemma_emitted_grows(ts, g4, OpCode::Pop.spec_byte());
                    lemma_code_grows_trans(g, g4, g5);
                    if fwd(ts, g, g5) {
                        lemma_cg_stmt_grows(ts, g5);
                        if let Ok(g6) = cg_stmt(ts, g5) {
                            lemma_code_grows_trans(g, g5, g6);
                            lemma_loop_emitted_grows(ts, g6, loop_start);
                            if let Ok(g7) = loop_emitted(ts, g6, loop_start) {
                                lemma_code_grows_trans(g, g6, g7);
                                lemma_patched_grows(ts, g, g7, exit_jump);
                                if let Ok(g8) = patched(ts, g7, exit_jump) {
                                    lemma_emitted_grows(ts, g8, OpCode::Pop.spec_byte());
                                    lemma_code_grows_trans(g, g8, emitted(ts, g8, OpCode::Pop.spec_byte()));
                                }
                            }
                        }
                    }
                }
            }
        }
    }
}

/// Compiling a `for` only adds code.
pub proof fn lemma_cg_for_grows(ts: Seq<TokenSpec>, g: Gen)
    ensures
        cg_for(ts, g) matches Ok(r) ==> code_grows(g, r),
    decreases ts.len() - g.pos, 7nat,
{
    lemma_cg_for(ts, g);
    let g0 = Gen { depth: g.depth + 1, ..g };
    if let Ok(g1) = consumed_tok(ts, g0, TokenType::LeftParen, Expectation::LeftParenAfterFor) {
        lemma_same_code_grows(g, g1);
        if fwd(ts, g, g1) {
            lemma_cg_for_init_grows(ts, g1);
            if let Ok(g2) = cg_for_init(ts, g1) {
                lemma_code_grows_trans(g, g1, g2);
                if fwd(ts, g, g2) {
                    lemma_cg_for_loop_grows(ts, g2);
                    if let Ok(g3) = cg_for_loop(ts, g2) {
                        lemma_code_grows_trans(g, g2, g3);
                    }
                }
            }
        }
    }
}

/// Compiling a `for` loop's initializer only adds code.
pub proof fn lemma_cg_for_init_grows(ts: Seq<TokenSpec>, g: Gen)
    ensures
        cg_for_init(ts, g) matches Ok(r) ==> code_grows(g, r),
    decreases ts.len() - g.pos, 6nat,
{
    lemma_cg_for_init(ts, g);
    lemma_same_code_grows(g, advanced(ts, g));
    if kind(ts, g.pos) == TokenType::Var {
        let g1 = advanced(ts, g);
        if fwd(ts, g, g1) {
            lemma_cg_var_decl_grows(ts, g1);
            if let Ok(g2) = cg_var_decl(ts, g1) {
                lemma_code_grows_trans(g, g1, g2);
            }
        }
    } else if kind(ts, g.pos) != TokenType::Semicolon {
        lemma_cg_print_grows(ts, g);
    }
}

/// Compiling the rest of a `for` loop only adds code.
pub proof fn lemma_cg_for_loop_grows(ts: Seq<TokenSpec>, g: Gen)
    ensures
        cg_for_loop(ts, g) matches Ok(r) ==> code_grows(g, r),
    decreases ts.len() - g.pos, 6nat,
{
    lemma_cg_for_loop(ts, g);
    let loop_start = g.code.len();
    let cond: Result<(Gen, Option<nat>), Failure> = if kind(ts, g.pos) == TokenType::Semicolon {
        Ok((advanced(ts, g), None))
    } else {
        match cg_expression(ts, g) {
            Err(e) => Err(e),
            Ok(g3) => match consumed_tok(ts, g3, TokenType::Semicolon, Expectation::SemicolonAfterLoopCondition) {
                Err(e) => Err(e),
                Ok(g4) => {
                    let (g5, j) = jump_emitted(ts, g4, OpCode::JumpIfFalse);
                    Ok((emitted(ts, g5, OpCode::Pop.spec_byte()), Some(j)))
                },
            },
        }
    };
    if kind(ts, g.pos) == TokenType::Semicolon {
        lemma_same_code_grows(g, advanced(ts, g));
    } else {
        lemma_cg_expression_grows(ts, g);
        if let Ok(g3) = cg_expression(ts, g) {
            let g4 = advanced(ts, g3);
            lemma_same_code_grows(g3, g4);
            lemma_code_grows_trans(g, g3, g4);
            let (g5, j) = jump_emitted(ts, g4, OpCode::JumpIfFalse);
            lemma_jump_emitted_grows(ts, g4, OpCode::JumpIfFalse);
            lemma_code_grows_trans(g, g4, g5);
            lemma_emitted_grows(ts, g5, OpCode::Pop.spec_byte());
            lemma_code_grows_trans(g, g5, emitted(ts, g5, OpCode::Pop.spec_byte()));
        }
    }
    if let Ok((g6, exit)) = cond {
        let inc: Result<(Gen, nat), Failure> = if kind(ts, g6.pos) == TokenType::RightParen {
            Ok((advanced(ts, g6), loop_start))
        } else {
            let (g7, inc_jump) = jump_emitted(ts, g6, OpCode::Jump);
            let inc_start = g7.code.len();
            if !fwd(ts, g, g7) { Err(no_progress(ts, g)) } else {
                match cg_expression(ts, g7) {
                    Err(e) => Err(e),
                    Ok(g8) => match consumed_tok(ts, emitted(ts, g8, OpCode::Pop.spec_byte()), TokenType::RightParen, Expectation::RightParenAfterForClauses) {
                        Err(e) => Err(e),
                        Ok(g9) => match loop_emitted(ts, g9, loop_start) {
                            Err(e) => Err(e),
                            Ok(g10) => match patched(ts, g10, inc_jump) {
                                Err(e) => Err(e),
                                Ok(g11) => Ok((g11, inc_start)),
                            },
                        },
                    },
                }
            }
        };
        if kind(ts, g6.pos) == TokenType::RightParen {
            lemma_same_code_grows(g6, advanced(ts, g6));
            lemma_code_grows_trans(g, g6, advanced(ts, g6));
        } else {
            let (g7, inc_jump) = jump_emitted(ts, g6, OpCode::Jump);
            lemma_jump_emitted_grows(ts, g6, OpCode::Jump);
            lemma_code_grows_trans(g, g6, g7);
            if fwd(ts, g, g7) {
                lemma_cg_expression_grows(ts, g7);
                if let Ok(g8) = cg_expression(ts, g7) {
                    lemma_code_grows_trans(g, g7, g8);
                    let g8p = emitted(ts, g8, OpCode::Pop.spec_byte());
                    lemma_emitted_grows(ts, g8, OpCode::Pop.spec_byte());
                    lemma_code_grows_trans(g, g8, g8p);
                    if let Ok(g9) = consumed_tok(ts, g8p, TokenType::RightParen, Expectation::RightParenAfterForClauses) {
                        lemma_same_code_grows(g8p, g9);
                        lemma_code_grows_trans(g, g8p, g9);
                        lemma_loop_emitted_grows(ts, g9, loop_start);
                        if let Ok(g10) = loop_emitted(ts, g9, loop_start) {
                            lemma_code_grows_trans(g, g9, g10);
                            lemma_patched_grows(ts, g, g10, inc_jump);
                        }
                    }
                }
            }
        }
        if let Ok((g12, body_start)) = inc {
            if fwd(ts, g, g12) {
                lemma_cg_stmt_grows(ts, g12);
                if let Ok(g13) = cg_stmt(ts, g12) {
                    lemma_code_grows_trans(g, g12, g13);
                    lemma_loop_emitted_grows(ts, g13, body_start);
                    if let Ok(g14) = loop_emitted(ts, g13, body_start) {
                        lemma_code_grows_trans(g, g13, g14);
                        let g15 = match exit {
                            Some(j) => match patched(ts, g14, j) {
                                Ok(x) => Ok(emitted(ts, x, OpCode::Pop.spec_byte())),
                                Err(e) => Err(e),
                            },
                            None => Ok(g14),
                        };
                        if let Some(j) = exit {
                            lemma_patched_grows(ts, g, g14, j);
                            if let Ok(x) = patched(ts, g14, j) {
                                lemma_emitted_grows(ts, x, OpCode::Pop.spec_byte());
                                lemma_code_grows_trans(g, x, emitted(ts, x, OpCode::Pop.spec_byte()));
                            }
                        }
                        if let Ok(x) = g15 {
                            lemma_scope_ended_grows(ts, x);
                            lemma_code_grows_trans(g, x, scope_ended(ts, x));
                        }
                    }
                }
            }
        }
    }
}

/// Compiling a statement only adds code.
pub proof fn lemma_cg_stmt_grows(ts: Seq<TokenSpec>, g: Gen)
    ensures
        cg_stmt(ts, g) matches Ok(r) ==> code_grows(g, r),
    decreases ts.len() - g.pos, 7nat,
{
    lemma_cg_stmt(ts, g);
    let k = kind(ts, g.pos);
    let g1 = advanced(ts, g);
    lemma_same_code_grows(g, g1);
    if fwd(ts, g, g1) {
        if k == TokenType::Print {
            lemma_cg_print_grows(ts, g1);
            if let Ok(r) = cg_print(ts, g1) { lemma_code_grows_trans(g, g1, r); }
        } else if k == TokenType::If {
            lemma_cg_if_grows(ts, g1);
            if let Ok(r) = cg_if(ts, g1) { lemma_code_grows_trans(g, g1, r); }
        } else if k == TokenType::While {
            lemma_cg_while_grows(ts, g1);
            if let Ok(r) = cg_while(ts, g1) { lemma_code_grows_trans(g, g1, r); }
        } else if k == TokenType::For {
            lemma_cg_for_grows(ts, g1);
            if let Ok(r) = cg_for(ts, g1) { lemma_code_grows_trans(g, g1, r); }
        } else if k == TokenType::LeftBrace {
            let gb = Gen { depth: g1.depth + 1, ..g1 };
            lemma_same_code_grows(g, gb);
            lemma_cg_block_grows(ts, gb);
            if let Ok(g2) = cg_block(ts, gb) {
                lemma_code_grows_trans(g, gb, g2);
                lemma_scope_ended_grows(ts, g2);
                lemma_code_grows_trans(g, g2, scope_ended(ts, g2));
            }
        }
    }
    if !(k == TokenType::Print || k == TokenType::If || k == TokenType::While || k == TokenType::For || k == TokenType::LeftBrace) {
        lemma_cg_print_grows(ts, g);
    }
}

/// Compiling a declaration only adds code.
pub proof fn lemma_cg_declaration_grows(ts: Seq<TokenSpec>, g: Gen)
    ensures
        cg_declaration(ts, g) matches Ok(r) ==> code_grows(g, r),
    decreases ts.len() - g.pos, 8nat,
{
    lemma_cg_declaration(ts, g);
    if kind(ts, g.pos) == TokenType::Var {
        let g1 = advanced(ts, g);
        lemma_same_code_grows(g, g1);
        if fwd(ts, g, g1) {
            lemma_cg_var_decl_grows(ts, g1);
            if let Ok(r) = cg_var_decl(ts, g1) { lemma_code_grows_trans(g, g1, r); }
        }
    } else {
        lemma_cg_stmt_grows(ts, g);
    }
}

/// Compiling a block only adds code.
pub proof fn lemma_cg_block_grows(ts: Seq<TokenSpec>, g: Gen)
    ensures
        cg_block(ts, g) matches Ok(r) ==> code_grows(g, r),
    decreases ts.len() - g.pos, 9nat,
{
    lemma_cg_block(ts, g);
    if kind(ts, g.pos) != TokenType::RightBrace && kind(ts, g.pos) != TokenType::Eof {
        lemma_cg_declaration_grows(ts, g);
        if let Ok(g1) = cg_declaration(ts, g) {
            if fwd(ts, g, g1) {
                lemma_cg_block_grows(ts, g1);
                if let Ok(r) = cg_block(ts, g1) { lemma_code_grows_trans(g, g1, r); }
            }
        }
    } else {
        lemma_same_code_grows(g, advanced(ts, g));
    }
}

/// One step of `cg_expression`.
pub proof fn lemma_cg_expression(ts: Seq<TokenSpec>, g: Gen)
    ensures
        cg_expression(ts, g) == ({
            let res: Result<Gen, Failure> = {
                cg_precedence(ts, g, Precedence::Assignment)
            };
            res
        }),
{
    reveal(cg_expression);
    reveal(cg_precedence);
}

/// One step of `cg_precedence`.
pub proof fn lemma_cg_precedence(ts: Seq<TokenSpec>, g: Gen, prec: Precedence)
    ensures
        cg_precedence(ts, g, prec) == ({
            let res: Result<Gen, Failure> = {
                let g1 = advanced(ts, g);
                match spec_parse_rule(kind(ts, g1.prev)).0 {
                    None => Err((g1, err_at(ts, g1.prev, CompileErrorKind::ExpectExpression))),
                    Some(f) => {
                        let can_assign = prec.spec_rank() <= Precedence::Assignment.spec_rank();
                        if fwd(ts, g, g1) {
                            match cg_parse_fn(ts, g1, f, can_assign) {
                                Err(e) => Err(e),
                                Ok(g2) => if fwd(ts, g, g2) {
                                    equal_refused(ts, cg_infix(ts, g2, prec, can_assign), can_assign)
                                } else {
                                    Err(no_progress(ts, g))
                                },
                            }
                        } else {
                            Err(no_progress(ts, g))
                        }
                    },
                }
            };
            res
        }),
{
    reveal(cg_precedence);
    reveal(cg_infix);
    reveal(cg_parse_fn);
}

/// One step of `cg_infix`.
pub proof fn lemma_cg_infix(ts: Seq<TokenSpec>, g: Gen, prec: Precedence, can_assign: bool)
    ensures
        cg_infix(ts, g, prec, can_assign) == ({
            let res: Result<Gen, Failure> = {
                if prec.spec_rank() <= spec_parse_rule(kind(ts, g.pos)).2.spec_rank() {
                    let g1 = advanced(ts, g);
                    match spec_parse_rule(kind(ts, g1.prev)).1 {
                        None => Err((g1, err_at(ts, g1.prev, CompileErrorKind::ExpectExpression))),
                        Some(f) => if fwd(ts, g, g1) {
                            match cg_parse_fn(ts, g1, f, can_assign) {
                                Err(e) => Err(e),
                                Ok(g2) => if fwd(ts, g, g2) { cg_infix(ts, g2, prec, can_assign) } else { Err(no_progress(ts, g)) },
                            }
                        } else {
                            Err(no_progress(ts, g))
                        },
                    }
                } else {
                    Ok(g)
                }
            };
            res
        }),
{
    reveal(cg_infix);
    reveal(cg_parse_fn);
}

/// One step of `cg_grouping`.
pub proof fn lemma_cg_grouping(ts: Seq<TokenSpec>, g: Gen)
    ensures
        cg_grouping(ts, g) == ({
            let res: Result<Gen, Failure> = {
                match cg_expression(ts, g) {
                    Ok(g1) => consumed_tok(ts, g1, TokenType::RightParen, Expectation::RightParenAfterExpression),
                    Err(e) => Err(e),
                }
            };
            res
        }),
{
    reveal(cg_grouping);
    reveal(cg_expression);
}

/// One step of `cg_unary`.
pub proof fn lemma_cg_unary(ts: Seq<TokenSpec>, g: Gen)
    ensures
        cg_unary(ts, g) == ({
            let res: Result<Gen, Failure> = {
                let t = kind(ts, g.prev);
                match cg_expression(ts, g) {
                    Ok(g1) => if t == TokenType::Minus {
                        Ok(emitted(ts, g1, OpCode::Negate.spec_byte()))
                    } else if t == TokenType::Bang {
                        Ok(emitted(ts, g1, OpCode::Not.spec_byte()))
                    } else {
                        Err((g1, err_at(ts, g.prev, CompileErrorKind::InvalidUnary)))
                    },
                    Err(e) => Err(e),
                }
            };
            res
        }),
{
    reveal(cg_unary);
    reveal(cg_expression);
}

/// One step of `cg_binary`.
pub proof fn lemma_cg_binary(ts: Seq<TokenSpec>, g: Gen)
    ensures
        cg_binary(ts, g) == ({
            let res: Result<Gen, Failure> = {
                let t = kind(ts, g.prev);
                match cg_precedence(ts, g, higher(spec_parse_rule(t).2)) {
                    Ok(g1) => match binary_code(t) {
                        Some(bs) => Ok(emitted_all(ts, g1, bs)),
                        None => Err((g1, err_at(ts, g.prev, CompileErrorKind::InvalidBinary))),
                    },
                    Err(e) => Err(e),
                }
            };
            res
        }),
{
    reveal(cg_binary);
    reveal(cg_precedence);
}

/// One step of `cg_and`.
pub proof fn lemma_cg_and(ts: Seq<TokenSpec>, g: Gen)
    ensures
        cg_and(ts, g) == ({
            let res: Result<Gen, Failure> = {
                let (g1, j) = jump_emitted(ts, g, OpCode::JumpIfFalse);
                match cg_precedence(ts, emitted(ts, g1, OpCode::Pop.spec_byte()), Precedence::And) {
                    Ok(g2) => patched(ts, g2, j),
                    Err(e) => Err(e),
                }
            };
            res
        }),
{
    reveal(cg_and);
    reveal(cg_precedence);
}

/// One step of `cg_or`.
pub proof fn lemma_cg_or(ts: Seq<TokenSpec>, g: Gen)
    ensures
        cg_or(ts, g) == ({
            let res: Result<Gen, Failure> = {
                let (g1, else_jump) = jump_emitted(ts, g, OpCode::JumpIfFalse);
                let (g2, end_jump) = jump_emitted(ts, g1, OpCode::Jump);
                match patched(ts, g2, else_jump) {
                    Ok(g3) => match cg_precedence(ts, emitted(ts, g3, OpCode::Pop.spec_byte()), Precedence::Or) {
                        Ok(g4) => patched(ts, g4, end_jump),
                        Err(e) => Err(e),
                    },
                    Err(e) => Err(e),
                }
            };
            res
        }),
{
    reveal(cg_or);
    reveal(cg_precedence);
}

/// One step of `cg_parse_fn`.
pub proof fn lemma_cg_parse_fn(ts: Seq<TokenSpec>, g: Gen, f: ParseFnType, can_assign: bool)
    ensures
        cg_parse_fn(ts, g, f, can_assign) == ({
            let res: Result<Gen, Failure> = {
                match f {
                    ParseFnType::Grouping => cg_grouping(ts, g),
                    ParseFnType::Unary => cg_unary(ts, g),
                    ParseFnType::Binary => cg_binary(ts, g),
                    ParseFnType::Number => constant_emitted(ts, g, (true, ts[g.prev as int].1)),
                    ParseFnType::String => constant_emitted(ts, g, (false, trim_quotes(ts[g.prev as int].1))),
                    ParseFnType::Literal => cg_literal(ts, g),
                    ParseFnType::Variable => cg_named_var(ts, g, ts[g.prev as int].1, can_assign),
                    ParseFnType::And => cg_and(ts, g),
                    ParseFnType::Or => cg_or(ts, g),
                }
            };
            res
        }),
{
    reveal(cg_parse_fn);
    reveal(cg_grouping);
    reveal(cg_unary);
    reveal(cg_binary);
    reveal(cg_and);
    reveal(cg_or);
    reveal(cg_named_var);
}

/// One step of `cg_named_var`.
pub proof fn lemma_cg_named_var(ts: Seq<TokenSpec>, g: Gen, name: Seq<char>, can_assign: bool)
    ensures
        cg_named_var(ts, g, name, can_assign) == ({
            let res: Result<Gen, Failure> = {
                let target: Result<(Gen, nat, bool), Failure> = match innermost(g.locals, name) {
                    Some(i) => if g.locals[i as int].1 == -1 {
                        Err((g, err_at(ts, g.prev, CompileErrorKind::ReadInOwnInitializer)))
                    } else {
                        Ok((g, i, true))
                    },
                    None => match constant_added(g, (false, name)) {
                        Some((g1, k)) => Ok((g1, k, false)),
                        None => Err((g, err_at(ts, g.prev, CompileErrorKind::TooManyConstants))),
                    },
                };
                match target {
                    Err(e) => Err(e),
                    Ok((g1, index, local)) => if can_assign && kind(ts, g1.pos) == TokenType::Equal {
                        let g2 = advanced(ts, g1);
                        if fwd(ts, g, g2) {
                            match cg_expression(ts, g2) {
                                Ok(g3) => Ok(emitted(ts, emitted(ts, g3,
                                    if local { OpCode::SetLocal.spec_byte() } else { OpCode::SetGlobal.spec_byte() }), index as u8)),
                                Err(e) => Err(e),
                            }
                        } else {
                            Err(no_progress(ts, g))
                        }
                    } else {
                        Ok(emitted(ts, emitted(ts, g1,
                            if local { OpCode::GetLocal.spec_byte() } else { OpCode::GetGlobal.spec_byte() }), index as u8))
                    },
                }
            };
            res
        }),
{
    reveal(cg_named_var);
    reveal(cg_expression);
}

/// One step of `cg_print`.
pub proof fn lemma_cg_print(ts: Seq<TokenSpec>, g: Gen)
    ensures
        cg_print(ts, g) == ({
            let res: Result<Gen, Failure> = {
                match cg_expression(ts, g) {
                    Err(e) => Err(e),
                    Ok(g1) => match consumed_tok(ts, g1, TokenType::Semicolon, Expectation::SemicolonAfterValue) {
                        Err(e) => Err(e),
                        Ok(g2) => Ok(emitted(ts, g2, OpCode::Print.spec_byte())),
                    },
                }
            };
            res
        }),
{
    reveal(cg_print);
    reveal(cg_expression);
}

/// One step of `cg_expr_stmt`.
pub proof fn lemma_cg_expr_stmt(ts: Seq<TokenSpec>, g: Gen)
    ensures
        cg_expr_stmt(ts, g) == ({
            let res: Result<Gen, Failure> = {
                match cg_expression(ts, g) {
                    Err(e) => Err(e),
                    Ok(g1) => match consumed_tok(ts, g1, TokenType::Semicolon, Expectation::SemicolonAfterExpression) {
                        Err(e) => Err(e),
                        Ok(g2) => Ok(emitted(ts, g2, OpCode::Pop.spec_byte())),
                    },
                }
            };
            res
        }),
{
    reveal(cg_expr_stmt);
    reveal(cg_expression);
}

/// One step of `cg_var_decl`.
pub proof fn lemma_cg_var_decl(ts: Seq<TokenSpec>, g: Gen)
    ensures
        cg_var_decl(ts, g) == ({
            let res: Result<Gen, Failure> = {
                match var_index(ts, g) {
                    Err(e) => Err(e),
                    Ok((g1, index)) => {
                        let init = if kind(ts, g1.pos) == TokenType::Equal {
                            let g1a = advanced(ts, g1);
                            if fwd(ts, g, g1a) { cg_expression(ts, g1a) } else { Err(no_progress(ts, g)) }
                        } else {
                            Ok(emitted(ts, g1, OpCode::Nil.spec_byte()))
                        };
                        match init {
                            Err(e) => Err(e),
                            Ok(g2) => match consumed_tok(ts, g2, TokenType::Semicolon, Expectation::SemicolonAfterVariableDeclaration) {
                                Err(e) => Err(e),
                                Ok(g3) => Ok(defined_var(ts, g3, index)),
                            },
                        }
                    },
                }
            };
            res
        }),
{
    reveal(cg_var_decl);
    reveal(cg_expression);
}

/// One step of `cg_if`.
pub proof fn lemma_cg_if(ts: Seq<TokenSpec>, g: Gen)
    ensures
        cg_if(ts, g) == ({
            let res: Result<Gen, Failure> = {
                match consumed_tok(ts, g, TokenType::LeftParen, Expectation::LeftParenAfterIf) {
                    Err(e) => Err(e),
                    Ok(g1) => if !fwd(ts, g, g1) { Err(no_progress(ts, g)) } else {
                        match cg_expression(ts, g1) {
                            Err(e) => Err(e),
                            Ok(g2) => match consumed_tok(ts, g2, TokenType::RightParen, Expectation::RightParenAfterCondition) {
                                Err(e) => Err(e),
                                Ok(g3) => {
                                    let (g4, then_jump) = jump_emitted(ts, g3, OpCode::JumpIfFalse);
                                    let g5 = emitted(ts, g4, OpCode::Pop.spec_byte());
                                    if !fwd(ts, g, g5) { Err(no_progress(ts, g)) } else {
                                        match cg_stmt(ts, g5) {
                                            Err(e) => Err(e),
                                            Ok(g6) => {
                                                let (g7, else_jump) = jump_emitted(ts, g6, OpCode::Jump);
                                                match patched(ts, g7, then_jump) {
                                                    Err(e) => Err(e),
                                                    Ok(g8) => {
                                                        let g9 = emitted(ts, g8, OpCode::Pop.spec_byte());
                                                        let g10 = if kind(ts, g9.pos) == TokenType::Else {
                                                            let g9a = advanced(ts, g9);
                                                            if fwd(ts, g, g9a) { cg_stmt(ts, g9a) } else { Err(no_progress(ts, g)) }
                                                        } else {
                                                            Ok(g9)
                                                        };
                                                        match g10 {
                                                            Err(e) => Err(e),
                                                            Ok(g11) => patched(ts, g11, else_jump),
                                                        }
                                                    },
                                                }
                                            },
                                        }
                                    }
                                },
                            },
                        }
                    },
                }
            };
            res
        }),
{
    reveal(cg_if);
    reveal(cg_expression);
    reveal(cg_stmt);
}

/// One step of `cg_while`.
pub proof fn lemma_cg_while(ts: Seq<TokenSpec>, g: Gen)
    ensures
        cg_while(ts, g) == ({
            let res: Result<Gen, Failure> = {
                let loop_start = g.code.len();
                match consumed_tok(ts, g, TokenType::LeftParen, Expectation::LeftParenAfterWhile) {
                    Err(e) => Err(e),
                    Ok(g1) => if !fwd(ts, g, g1) { Err(no_progress(ts, g)) } else {
                        match cg_expression(ts, g1) {
                            Err(e) => Err(e),
                            Ok(g2) => match consumed_tok(ts, g2, TokenType::RightParen, Expectation::RightParenAfterCondition) {
                                Err(e) => Err(e),
                                Ok(g3) => {
                                    let (g4, exit_jump) = jump_emitted(ts, g3, OpCode::JumpIfFalse);
                                    let g5 = emitted(ts, g4, OpCode::Pop.spec_byte());
                                    if !fwd(ts, g, g5) { Err(no_progress(ts, g)) } else {
                                        match cg_stmt(ts, g5) {
                                            Err(e) => Err(e),
                                            Ok(g6) => match loop_emitted(ts, g6, loop_start) {
                                                Err(e) => Err(e),
                                                Ok(g7) => match patched(ts, g7, exit_jump) {
                                                    Err(e) => Err(e),
                                                    Ok(g8) => Ok(emitted(ts, g8, OpCode::Pop.spec_byte())),
                                                },
                                            },
                                        }
                                    }
                                },
                            },
                        }
                    },
                }
            };
            res
        }),
{
    reveal(cg_while);
    reveal(cg_expression);
    reveal(cg_stmt);
}

/// One step of `cg_for`.
pub proof fn lemma_cg_for(ts: Seq<TokenSpec>, g: Gen)
    ensures
        cg_for(ts, g) == ({
            let res: Result<Gen, Failure> = {
                let g0 = Gen { depth: g.depth + 1, ..g };
                match consumed_tok(ts, g0, TokenType::LeftParen, Expectation::LeftParenAfterFor) {
                    Err(e) => Err(e),
                    Ok(g1) => if !fwd(ts, g, g1) { Err(no_progress(ts, g)) } else {
                        match cg_for_init(ts, g1) {
                            Err(e) => Err(e),
                            Ok(g2) => if fwd(ts, g, g2) { cg_for_loop(ts, g2) } else { Err(no_progress(ts, g)) },
                        }
                    },
                }
            };
            res
        }),
{
    reveal(cg_for);
    reveal(cg_for_init);
    reveal(cg_for_loop);
}

/// One step of `cg_for_init`.
pub proof fn lemma_cg_for_init(ts: Seq<TokenSpec>, g: Gen)
    ensures
        cg_for_init(ts, g) == ({
            let res: Result<Gen, Failure> = {
                if kind(ts, g.pos) == TokenType::Semicolon {
                    Ok(advanced(ts, g))
                } else if kind(ts, g.pos) == TokenType::Var {
                    let g1 = advanced(ts, g);
                    if fwd(ts, g, g1) { cg_var_decl(ts, g1) } else { Err(no_progress(ts, g)) }
                } else {
                    cg_expr_stmt(ts, g)
                }
            };
            res
        }),
{
    reveal(cg_for_init);
    reveal(cg_expr_stmt);
    reveal(cg_var_decl);
}

/// One step of `cg_for_loop`.
pub proof fn lemma_cg_for_loop(ts: Seq<TokenSpec>, g: Gen)
    ensures
        cg_for_loop(ts, g) == ({
            let res: Result<Gen, Failure> = {
                let loop_start = g.code.len();
                let cond: Result<(Gen, Option<nat>), Failure> = if kind(ts, g.pos) == TokenType::Semicolon {
                    Ok((advanced(ts, g), None))
                } else {
                    match cg_expression(ts, g) {
                        Err(e) => Err(e),
                        Ok(g3) => match consumed_tok(ts, g3, TokenType::Semicolon, Expectation::SemicolonAfterLoopCondition) {
                            Err(e) => Err(e),
                            Ok(g4) => {
                                let (g5, j) = jump_emitted(ts, g4, OpCode::JumpIfFalse);
                                Ok((emitted(ts, g5, OpCode::Pop.spec_byte()), Some(j)))
                            },
                        },
                    }
                };
                match cond {
                    Err(e) => Err(e),
                    Ok((g6, exit)) => {
                        let inc: Result<(Gen, nat), Failure> = if kind(ts, g6.pos) == TokenType::RightParen {
                            Ok((advanced(ts, g6), loop_start))
                        } else {
                            let (g7, inc_jump) = jump_emitted(ts, g6, OpCode::Jump);
                            let inc_start = g7.code.len();
                            if !fwd(ts, g, g7) { Err(no_progress(ts, g)) } else {
                                match cg_expression(ts, g7) {
                                    Err(e) => Err(e),
                                    Ok(g8) => match consumed_tok(ts, emitted(ts, g8, OpCode::Pop.spec_byte()), TokenType::RightParen, Expectation::RightParenAfterForClauses) {
                                        Err(e) => Err(e),
                                        Ok(g9) => match loop_emitted(ts, g9, loop_start) {
                                            Err(e) => Err(e),
                                            Ok(g10) => match patched(ts, g10, inc_jump) {
                                                Err(e) => Err(e),
                                                Ok(g11) => Ok((g11, inc_start)),
                                            },
                                        },
                                    },
                                }
                            }
                        };
                        match inc {
                            Err(e) => Err(e),
                            Ok((g12, body_start)) => if !fwd(ts, g, g12) { Err(no_progress(ts, g)) } else {
                                match cg_stmt(ts, g12) {
                                    Err(e) => Err(e),
                                    Ok(g13) => match loop_emitted(ts, g13, body_start) {
                                        Err(e) => Err(e),
                                        Ok(g14) => {
                                            let g15 = match exit {
                                                Some(j) => match patched(ts, g14, j) {
                                                    Ok(x) => Ok(emitted(ts, x, OpCode::Pop.spec_byte())),
                                                    Err(e) => Err(e),
                                                },
                                                None => Ok(g14),
                                            };
                                            match g15 {
                                                Ok(x) => Ok(scope_ended(ts, x)),
                                                Err(e) => Err(e),
                                            }
                                        },
                                    },
                                }
                            },
                        }
                    },
                }
            };
            res
        }),
{
    reveal(cg_for_loop);
    reveal(cg_expression);
    reveal(cg_stmt);
}

/// One step of `cg_stmt`.
pub proof fn lemma_cg_stmt(ts: Seq<TokenSpec>, g: Gen)
    ensures
        cg_stmt(ts, g) == ({
            let res: Result<Gen, Failure> = {
                let k = kind(ts, g.pos);
                let g1 = advanced(ts, g);
                if k == TokenType::Print {
                    if fwd(ts, g, g1) { cg_print(ts, g1) } else { Err(no_progress(ts, g)) }
                } else if k == TokenType::If {
                    if fwd(ts, g, g1) { cg_if(ts, g1) } else { Err(no_progress(ts, g)) }
                } else if k == TokenType::While {
                    if fwd(ts, g, g1) { cg_while(ts, g1) } else { Err(no_progress(ts, g)) }
                } else if k == TokenType::For {
                    if fwd(ts, g, g1) { cg_for(ts, g1) } else { Err(no_progress(ts, g)) }
                } else if k == TokenType::LeftBrace {
                    if fwd(ts, g, g1) {
                        match cg_block(ts, Gen { depth: g1.depth + 1, ..g1 }) {
                            Ok(g2) => Ok(scope_ended(ts, g2)),
                            Err(e) => Err(e),
                        }
                    } else {
                        Err(no_progress(ts, g))
                    }
                } else {
                    cg_expr_stmt(ts, g)
                }
            };
            res
        }),
{
    reveal(cg_stmt);
    reveal(cg_print);
    reveal(cg_expr_stmt);
    reveal(cg_if);
    reveal(cg_while);
    reveal(cg_for);
    reveal(cg_block);
}

/// One step of `cg_block`.
pub proof fn lemma_cg_block(ts: Seq<TokenSpec>, g: Gen)
    ensures
        cg_block(ts, g) == ({
            let res: Result<Gen, Failure> = {
                if kind(ts, g.pos) != TokenType::RightBrace && kind(ts, g.pos) != TokenType::Eof {
                    match cg_declaration(ts, g) {
                        Err(e) => Err(e),
                        Ok(g1) => if fwd(ts, g, g1) { cg_block(ts, g1) } else { Err(no_progress(ts, g)) },
                    }
                } else {
                    consumed_tok(ts, g, TokenType::RightBrace, Expectation::RightBraceAfterBlock)
                }
            };
            res
        }),
{
    reveal(cg_block);
    reveal(cg_declaration);
}

/// One step of `cg_declaration`.
pub proof fn lemma_cg_declaration(ts: Seq<TokenSpec>, g: Gen)
    ensures
        cg_declaration(ts, g) == ({
            let res: Result<Gen, Failure> = {
                if kind(ts, g.pos) == TokenType::Var {
                    let g1 = advanced(ts, g);
                    if fwd(ts, g, g1) { cg_var_decl(ts, g1) } else { Err(no_progress(ts, g)) }
                } else {
                    cg_stmt(ts, g)
                }
            };
            res
        }),
{
    reveal(cg_declaration);
    reveal(cg_var_decl);
    reveal(cg_stmt);
}

/// One step of `cg_program`.
pub proof fn lemma_cg_program(ts: Seq<TokenSpec>, g: Gen)
    ensures
        cg_program(ts, g) == ({
            let res: (Gen, Seq<(nat, CgError)>) = {
                if kind(ts, g.pos) == TokenType::Eof {
                    (advanced(ts, g), Seq::empty())
                } else {
                    match cg_declaration(ts, g) {
                        Ok(g1) => if fwd(ts, g, g1) { cg_program(ts, g1) } else { (g1, seq![(g.pos, no_progress(ts, g).1)]) },
                        Err((g1, e)) => {
                            let g2 = synced(ts, g1);
                            if fwd(ts, g, g2) {
                                let (g3, es) = cg_program(ts, g2);
                                (g3, seq![(g1.pos, e)] + es)
                            } else {
                                (g2, seq![(g1.pos, e)])
                            }
                        },
                    }
                }
            };
            res
        }),
{
    reveal(cg_program);
    reveal(cg_declaration);
}

} // verus!
