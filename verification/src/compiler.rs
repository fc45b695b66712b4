use vstd::prelude::*;

use crate::chunk::{spec_u16, Chunk, Constant, MAX_CONSTANT_LENGTH};
use crate::codegen::{
    cg_and, cg_binary, cg_block, cg_declaration, cg_expr_stmt, cg_expression, cg_for, cg_for_init, cg_for_loop,
    cg_grouping, cg_if, cg_infix, cg_literal, cg_named_var, cg_or, cg_parse_fn, cg_precedence, cg_print,
    cg_program, cg_stmt, cg_unary, cg_var_decl, cg_while, compiled, const_view, constant_added,
    advanced, constant_emitted, consts_view, defined_var, emitted, equal_refused, gen_start, hi, higher, jump_emitted,
    kind, lemma_cg_and, lemma_cg_binary, lemma_cg_block, lemma_cg_declaration, lemma_cg_expr_stmt,
    lemma_cg_expression, lemma_cg_for, lemma_cg_for_init, lemma_cg_for_loop, lemma_cg_grouping, lemma_cg_if,
    lemma_cg_infix, lemma_cg_named_var, lemma_cg_or, lemma_cg_parse_fn, lemma_cg_precedence, lemma_cg_print,
    lemma_cg_program, lemma_cg_stmt, lemma_cg_unary, lemma_cg_var_decl, lemma_cg_while,
    lemma_locals_view_lookups, lemma_locals_view_push, lemma_locals_view_take, lo, locals_view, loop_emitted,
    patched, scope_ended, sync_point, synced, var_index, cg_error_of, compile_errors_at, compile_view,
    lemma_merged_next, lemma_merged_push, merged, CgError, Gen,
};
use crate::error::{error_view, errors_view, CompileErrorKind, ErrorView, Expectation, LoxError, ScanErrorKind};
use crate::local::Local;
use crate::opcode::OpCode;
use crate::parse_rule::{get_parse_rule, spec_parse_rule, ParseFnType};
use crate::precedence::Precedence;
use crate::scanner::{
    lemma_next_token_bounds, lemma_passing_tokens_end_with_eof, next_token, scan_groups, skip_space,
    tokens_passing_errors, Scanner,
};
use crate::text::{chars_of, string_from};
use crate::token::{token_spec, Token, TokenSpec, TokenType};

verus! {

/// The longest source the compiler accepts, in characters. Scope depths are `i32`, as the
/// depths of locals are, and a depth never exceeds twice the source's length: under 2^30
/// characters every depth fits an `i32`.
pub const MAX_SOURCE_LEN: usize = 0x3fff_ffff;

/// The most local variables alive at once.
pub const MAX_LOCALS: usize = 256;

/// `b` is `a` with more code, lines and constants after it: what `a` held is unchanged,
/// every byte has its line, and the constants still fit in one byte's indexes.
pub open spec fn chunk_extends(a: Chunk, b: Chunk) -> bool {
    &&& b.wf()
    &&& b.constants@.len() <= MAX_CONSTANT_LENGTH
    &&& a.code@.len() <= b.code@.len()
    &&& a.lines@.len() <= b.lines@.len()
    &&& a.constants@.len() <= b.constants@.len()
    &&& forall|i: int| 0 <= i < a.code@.len() ==> b.code@[i] == a.code@[i]
    &&& forall|i: int| 0 <= i < a.lines@.len() ==> b.lines@[i] == a.lines@[i]
    &&& forall|i: int| 0 <= i < a.constants@.len() ==> b.constants@[i] == a.constants@[i]
}

/// `s` without the double quotes at its start.
pub open spec fn trim_start_quotes(s: Seq<char>) -> Seq<char>
    decreases s.len(),
{
    if s.len() > 0 && s[0] == '"' {
        trim_start_quotes(s.drop_first())
    } else {
        s
    }
}

/// `s` without the double quotes at its end.
pub open spec fn trim_end_quotes(s: Seq<char>) -> Seq<char>
    decreases s.len(),
{
    if s.len() > 0 && s[s.len() - 1] == '"' {
        trim_end_quotes(s.drop_last())
    } else {
        s
    }
}

/// `s` without the double quotes at either end (`trim_matches('"')`).
pub open spec fn trim_quotes(s: Seq<char>) -> Seq<char> {
    trim_end_quotes(trim_start_quotes(s))
}

/// The bytes a binary operator compiles to, after its operands.
pub open spec fn binary_code(typ: TokenType) -> Option<Seq<u8>> {
    match typ {
        TokenType::Plus => Some(seq![OpCode::Add.spec_byte()]),
        TokenType::Minus => Some(seq![OpCode::Subtract.spec_byte()]),
        TokenType::Star => Some(seq![OpCode::Multiply.spec_byte()]),
        TokenType::Slash => Some(seq![OpCode::Divide.spec_byte()]),
        TokenType::BangEqual => Some(seq![OpCode::Equal.spec_byte(), OpCode::Not.spec_byte()]),
        TokenType::EqualEqual => Some(seq![OpCode::Equal.spec_byte()]),
        TokenType::Greater => Some(seq![OpCode::Greater.spec_byte()]),
        TokenType::GreaterEqual => Some(seq![OpCode::Less.spec_byte(), OpCode::Not.spec_byte()]),
        TokenType::Less => Some(seq![OpCode::Less.spec_byte()]),
        TokenType::LessEqual => Some(seq![OpCode::Greater.spec_byte(), OpCode::Not.spec_byte()]),
        _ => None,
    }
}

/// `code` ends with `tail`.
pub open spec fn ends_with(code: Seq<u8>, tail: Seq<u8>) -> bool {
    tail.len() <= code.len() && code.subrange(code.len() - tail.len(), code.len() as int) == tail
}

/// A single-pass compiler from Lox source to a chunk of bytecode: it parses declarations
/// and statements by recursive descent and expressions by precedence climbing, emitting
/// code as it goes. Globals are named by constants; locals live in stack slots.
pub struct Compiler {
    current: Option<Token>,
    previous: Option<Token>,
    locals: Vec<Local>,
    scope_depth: i32,
    scanner: Scanner,
    errors: Vec<LoxError>,
    /// The compile errors collected, each with the index of the lookahead token then.
    compile_errs: Ghost<Seq<(nat, CgError)>>,
    /// Where the lookahead token and the previous one stand among the source's tokens.
    pos: Ghost<nat>,
    prev: Ghost<nat>,
}

impl Compiler {
    /// The source text.
    pub closed spec fn source(&self) -> Seq<char> {
        self.scanner.source()
    }

    /// The errors collected so far.
    pub closed spec fn collected_errors(&self) -> Seq<LoxError> {
        self.errors@
    }

    /// A compiler as `new` makes it: nothing read, nothing collected.
    pub closed spec fn fresh(&self) -> bool {
        &&& self.current is None
        &&& self.previous is None
        &&& self.locals@.len() == 0
        &&& self.scope_depth == 0
        &&& self.errors@.len() == 0
        &&& self.compile_errs@.len() == 0
        &&& self.scanner.wf()
        &&& self.scanner.position() == 0
        &&& self.scanner.line() == 1
        &&& self.scanner.source().len() < MAX_SOURCE_LEN
        &&& self.pos@ == 0
        &&& self.prev@ == 0
    }

    /// How much input is left: two per character not yet scanned, one more while the
    /// lookahead token is not the end of the source. Every consumed token lowers it.
    pub closed spec fn measure(&self) -> nat {
        (2 * (self.scanner.source().len() - self.scanner.position()) + (if self.current_not_eof() { 1int } else { 0int })) as nat
    }

    /// The lookahead token is there and is not the end of the source.
    pub closed spec fn current_not_eof(&self) -> bool {
        self.current matches Some(t) && t.typ != TokenType::Eof
    }

    /// The lookahead token's kind.
    pub closed spec fn current_typ(&self) -> TokenType {
        self.current->0.typ
    }

    /// The scanner is sound and, once the end is seen, stays at the end.
    pub closed spec fn scan_ok(&self) -> bool {
        &&& self.scanner.wf()
        &&& self.scanner.source().len() < MAX_SOURCE_LEN
        &&& self.scanner.position() <= self.scanner.source().len()
        &&& (self.current matches Some(t) && t.typ == TokenType::Eof ==> self.scanner.position() == self.scanner.source().len())
    }

    /// The tokens the source reads into, what does not read as a token passed over.
    pub closed spec fn stream(&self) -> Seq<TokenSpec> {
        tokens_passing_errors(self.scanner.source(), 0, 1)
    }

    /// The scan errors of the source, grouped by the token they come before.
    pub closed spec fn groups(&self) -> Seq<Seq<ErrorView>> {
        scan_groups(self.scanner.source(), 0, 1, Seq::empty())
    }

    /// What has been compiled into `chunk`, seen from the token stream.
    pub closed spec fn gen(&self, chunk: Chunk) -> Gen {
        Gen {
            pos: self.pos@,
            prev: self.prev@,
            locals: locals_view(self.locals@),
            depth: self.scope_depth as int,
            code: chunk.code@,
            lines: chunk.lines@,
            consts: consts_view(chunk.constants@),
        }
    }

    /// The compiler stands in the source's tokens: the lookahead and previous tokens are
    /// those at `pos` and `prev`, the scanner is just past the lookahead, and the errors
    /// collected are those met up to the lookahead.
    pub closed spec fn linked(&self) -> bool {
        let src = self.scanner.source();
        let ts = self.stream();
        let groups = self.groups();
        &&& ts.len() > 0
        &&& ts.last().0 == TokenType::Eof
        &&& forall|i: int| 0 <= i < ts.len() - 1 ==> (#[trigger] ts[i]).0 != TokenType::Eof
        &&& groups.len() == ts.len()
        &&& self.pos@ < ts.len()
        &&& self.prev@ < ts.len()
        &&& (self.previous matches Some(t) ==> token_spec(t) == ts[self.prev@ as int])
        &&& forall|i: int| 0 <= i < self.compile_errs@.len() ==> (#[trigger] self.compile_errs@[i]).0 <= self.pos@
        &&& match self.current {
            None => self.pos@ == 0 && self.scanner.position() == 0 && self.scanner.line() == 1
                && self.errors@.len() == 0 && self.compile_errs@.len() == 0,
            Some(t) => token_spec(t) == ts[self.pos@ as int]
                && errors_view(self.errors@) == merged(groups, self.pos@ as int, self.compile_errs@)
                && if self.pos@ + 1 < ts.len() {
                &&& tokens_passing_errors(src, self.scanner.position(), self.scanner.line()) == ts.subrange(self.pos@ + 1int, ts.len() as int)
                &&& scan_groups(src, self.scanner.position(), self.scanner.line(), Seq::empty()) == groups.subrange(self.pos@ + 1int, groups.len() as int)
            } else {
                &&& self.scanner.position() == src.len()
                &&& self.scanner.line() == ts[self.pos@ as int].2
                &&& ts[self.pos@ as int].1 == Seq::<char>::empty()
            },
        }
    }

    /// One token consumed: the previous token's index is the lookahead's, the lookahead's
    /// moves on unless it was the end; a compiler in its stream stays in it.
    pub closed spec fn stepped(&self, next: &Compiler) -> bool {
        &&& next.prev@ == self.pos@
        &&& next.pos@ == (if self.current matches Some(t) && t.typ != TokenType::Eof { self.pos@ + 1 } else { self.pos@ })
        &&& (self.linked() ==> next.linked())
        &&& (self.linked() && self.current is Some ==> next.pos@ == (if self.pos@ + 1 < self.stream().len() { self.pos@ + 1 } else { self.pos@ }))
    }

    /// The compiler's invariant: a lookahead token, a scope depth that cannot overflow,
    /// and at most `MAX_LOCALS` locals.
    pub closed spec fn wf(&self) -> bool {
        &&& self.scan_ok()
        &&& self.current is Some
        &&& 0 <= self.scope_depth
        &&& self.scope_depth + self.measure() <= 2 * self.scanner.source().len() + 1
        &&& self.locals@.len() <= MAX_LOCALS
    }

    /// `wf`, and a token has been consumed (so there is a previous token).
    pub closed spec fn ready(&self) -> bool {
        self.wf() && self.previous is Some
    }

    /// What every parse step keeps: the invariant, the source, the measure never growing.
    pub closed spec fn keeps(&self, next: &Compiler) -> bool {
        &&& next.ready()
        &&& next.scanner.source() == self.scanner.source()
        &&& next.measure() <= self.measure()
        &&& self.errors@.len() <= next.errors@.len()
        &&& self.pos@ <= next.pos@
        &&& (self.linked() ==> next.linked() && next.compile_errs@ == self.compile_errs@)
    }

    /// The step consumed a token whenever there was one to consume.
    pub closed spec fn consumed(&self, next: &Compiler) -> bool {
        self.current_not_eof() ==> next.measure() < self.measure() && self.pos@ < next.pos@
    }

    /// The step left the locals and the scope depth as they were.
    pub closed spec fn same_scope(&self, next: &Compiler) -> bool {
        next.locals@ == self.locals@ && next.scope_depth == self.scope_depth
    }

    /// A compiler for `source`.
    pub fn new(source: &str) -> (res: Compiler)
        requires
            source@.len() < MAX_SOURCE_LEN,
        ensures
            res.fresh(),
            res.source() == source@,
    {
        Compiler {
            scanner: Scanner::new(source),
            current: None,
            previous: None,
            locals: Vec::new(),
            errors: Vec::new(),
            compile_errs: Ghost(Seq::empty()),
            scope_depth: 0,
            pos: Ghost(0),
            prev: Ghost(0),
        }
    }

    /// Compiles the whole source: declarations up to the end, then a `Return`. An error in
    /// a declaration is collected and compiling resumes at the next statement boundary;
    /// what the scanner cannot read is collected as an error and passed over. When no
    /// error was met the chunk is returned, else all the errors, in the order met: the
    /// result is the one `compiled` describes.
    pub fn compile(&mut self) -> (res: Result<Chunk, Vec<LoxError>>)
        requires
            old(self).fresh(),
        ensures
            final(self).source() == old(self).source(),
            match res {
                Ok(chunk) => {
                    &&& chunk.wf()
                    &&& chunk.constants@.len() <= MAX_CONSTANT_LENGTH
                    &&& chunk.code@.len() > 0
                    &&& chunk.code@.last() == OpCode::Return.spec_byte()
                },
                Err(errors) => errors@.len() > 0,
            },
            match compiled(old(self).source()) {
                Ok(g) => res matches Ok(chunk) && chunk.code@ == g.code && chunk.lines@ == g.lines
                    && consts_view(chunk.constants@) == g.consts,
                Err(es) => res matches Err(errors) && errors_view(errors@) == es,
            },
            final(self).collected_errors().len() == 0,
    {
        let mut chunk = Chunk::new();
        proof {
            self.scanner.lemma_wf_bounds();
            lemma_passing_tokens_end_with_eof(self.scanner.source(), 0, 1, Seq::empty());
        }
        let ghost src = self.scanner.source();
        let ghost ts = self.stream();
        let ghost groups = self.groups();
        self.advance();
        proof {
            assert(locals_view(self.locals@) =~= Seq::<(Seq<char>, int)>::empty());
            assert(consts_view(chunk.constants@) =~= Seq::<(bool, Seq<char>)>::empty());
            assert(self.gen(chunk) == gen_start());
            assert(self.compile_errs@ + cg_program(ts, self.gen(chunk)).1 =~= cg_program(ts, gen_start()).1);
        }
        loop
            invariant_except_break
                self.wf(),
                self.source() == old(self).source(),
                chunk_ok(chunk),
                src == self.scanner.source(),
                ts == self.stream(),
                groups == self.groups(),
                self.linked(),
                self.current is Some,
                self.compile_errs@ + cg_program(ts, self.gen(chunk)).1 == cg_program(ts, gen_start()).1,
                cg_program(ts, self.gen(chunk)).0 == cg_program(ts, gen_start()).0,
            ensures
                self.ready(),
                self.source() == old(self).source(),
                chunk_ok(chunk),
                src == self.scanner.source(),
                self.current_typ() == TokenType::Eof,
                self.linked(),
                self.current is Some,
                self.pos@ == ts.len() - 1,
                self.compile_errs@ == cg_program(ts, gen_start()).1,
                self.gen(chunk) == cg_program(ts, gen_start()).0,
            decreases self.measure(),
        {
            let ghost cur = self.gen(chunk);
            proof {
                lemma_cg_program(ts, cur);
            }
            if self.match_(TokenType::Eof) {
                proof {
                    assert(self.gen(chunk) =~= advanced(ts, cur));
                    assert(self.compile_errs@ + Seq::<(nat, CgError)>::empty() =~= self.compile_errs@);
                }
                break;
            }
            match self.declaration(&mut chunk) {
                Ok(()) => {},
                Err(e) => {
                    let ghost failed = self.gen(chunk);
                    let ghost before = self.compile_errs@;
                    let ghost entry: (nat, CgError) = (self.pos@, cg_error_of(e));
                    proof {
                        lemma_merged_push(groups, before, entry);
                        assert(errors_view(self.errors@.push(e)) =~= errors_view(self.errors@).push(error_view(e)));
                    }
                    self.errors.push(e);
                    self.compile_errs = Ghost(before.push(entry));
                    proof {
                        assert(error_view(e) == compile_view(cg_error_of(e)));
                    }
                    self.synchronize();
                    proof {
                        assert(self.gen(chunk) =~= synced(ts, failed));
                        let rest = cg_program(ts, self.gen(chunk)).1;
                        assert(before + (seq![entry] + rest) =~= self.compile_errs@ + rest);
                    }
                },
            }
        }
        self.emit_return(&mut chunk);
        proof {
            lemma_passing_tokens_end_with_eof(src, 0, 1, Seq::empty());
        }
        if self.errors.len() > 0 {
            let mut errors: Vec<LoxError> = Vec::new();
            std::mem::swap(&mut errors, &mut self.errors);
            return Err(errors);
        }
        Ok(chunk)
    }
}

// Reading tokens.
impl Compiler {
    fn get_previous_token(&self) -> (res: &Token)
        requires
            self.previous is Some,
        ensures
            *res == self.previous->0,
    {
        self.previous.as_ref().unwrap()
    }

    fn get_current_token(&self) -> (res: &Token)
        requires
            self.current is Some,
        ensures
            *res == self.current->0,
    {
        self.current.as_ref().unwrap()
    }

    /// Moves on by one token: the lookahead becomes the previous token and the next token
    /// the scanner reads becomes the lookahead; the scanner's errors on the way are
    /// collected, and what it could not read is passed over.
    fn advance(&mut self)
        requires
            old(self).scan_ok(),
        ensures
            final(self).scan_ok(),
            final(self).current is Some,
            final(self).previous == old(self).current,
            final(self).scanner.source() == old(self).scanner.source(),
            final(self).locals == old(self).locals,
            final(self).scope_depth == old(self).scope_depth,
            final(self).compile_errs == old(self).compile_errs,
            old(self).errors@.len() <= final(self).errors@.len(),
            final(self).measure() <= old(self).measure(),
            old(self).current_not_eof() ==> final(self).measure() < old(self).measure(),
            old(self).stepped(final(self)),
    {
        proof {
            self.scanner.lemma_wf_bounds();
        }
        let ghost old_linked = self.linked();
        let ghost src = self.scanner.source();
        let ghost ts = self.stream();
        let ghost groups = self.groups();
        let ghost next_index: nat = if self.current is Some { self.pos@ + 1 } else { 0 };
        let moves = match &self.current {
            Some(t) => t.typ != TokenType::Eof,
            None => false,
        };
        self.prev = Ghost(self.pos@);
        if moves {
            self.pos = Ghost(self.pos@ + 1);
        }
        self.previous = self.current.take();
        let ghost pos0 = self.scanner.position();
        let ghost line0 = self.scanner.line();
        let ghost len = self.scanner.source().len();
        let ghost rest = tokens_passing_errors(src, pos0, line0);
        let ghost grest = scan_groups(src, pos0, line0, Seq::empty());
        let ghost errs0 = self.errors@;
        proof {
            if old_linked && next_index < ts.len() {
                if next_index == 0 {
                    assert(ts.subrange(0, ts.len() as int) =~= ts);
                    assert(groups.subrange(0, groups.len() as int) =~= groups);
                }
                assert(rest == ts.subrange(next_index as int, ts.len() as int));
                assert(grest == groups.subrange(next_index as int, groups.len() as int));
            }
            assert(errors_view(errs0) + Seq::<ErrorView>::empty() =~= errors_view(errs0));
        }
        let ghost mut pending: Seq<ErrorView> = Seq::empty();
        loop
            invariant_except_break
                self.scanner.wf(),
                self.scanner.source() == src,
                src.len() == len,
                len < MAX_SOURCE_LEN,
                pos0 <= self.scanner.position() <= len,
                old(self).current matches Some(t) && t.typ == TokenType::Eof ==> self.scanner.position() == len,
                self.previous == old(self).current,
                self.locals == old(self).locals,
                self.scope_depth == old(self).scope_depth,
                self.compile_errs == old(self).compile_errs,
                self.pos == (if moves { Ghost(old(self).pos@ + 1) } else { old(self).pos }),
                self.prev@ == old(self).pos@,
                errors_view(self.errors@) == errors_view(errs0) + pending,
                errs0.len() <= self.errors@.len(),
                tokens_passing_errors(src, self.scanner.position(), self.scanner.line()) == rest,
                scan_groups(src, self.scanner.position(), self.scanner.line(), pending) == grest,
            ensures
                self.scanner.wf(),
                self.scanner.source() == src,
                pos0 <= self.scanner.position() <= len,
                self.current matches Some(t) && (t.typ == TokenType::Eof ==> self.scanner.position() == len)
                    && (t.typ != TokenType::Eof ==> pos0 < self.scanner.position()),
                old(self).current matches Some(t) && t.typ == TokenType::Eof ==> self.scanner.position() == len,
                self.previous == old(self).current,
                self.locals == old(self).locals,
                self.scope_depth == old(self).scope_depth,
                self.compile_errs == old(self).compile_errs,
                self.pos == (if moves { Ghost(old(self).pos@ + 1) } else { old(self).pos }),
                self.prev@ == old(self).pos@,
                errors_view(self.errors@) == errors_view(errs0) + pending,
                errs0.len() <= self.errors@.len(),
                self.current->0.typ != TokenType::Eof ==> {
                    &&& rest == seq![token_spec(self.current->0)] + tokens_passing_errors(src, self.scanner.position(), self.scanner.line())
                    &&& grest == seq![pending] + scan_groups(src, self.scanner.position(), self.scanner.line(), Seq::empty())
                },
                self.current->0.typ == TokenType::Eof ==> {
                    &&& rest == seq![token_spec(self.current->0)]
                    &&& grest == seq![pending]
                    &&& self.current->0.lexeme@ == Seq::<char>::empty()
                    &&& self.current->0.line == self.scanner.line()
                },
            decreases len - self.scanner.position(),
        {
            let ghost pos = self.scanner.position();
            let ghost line = self.scanner.line();
            proof {
                lemma_next_token_bounds(src, pos, line);
            }
            match self.scanner.scan_token() {
                Ok(t) => {
                    proof {
                        let (start, kind, end, l) = next_token(src, pos, line);
                        if t.typ == TokenType::Eof {
                            assert(start == len);
                            assert(src.subrange(start as int, end as int) =~= Seq::<char>::empty());
                        }
                    }
                    self.current = Some(t);
                    break;
                },
                Err(e) => {
                    let ghost before = self.errors@;
                    self.errors.push(e);
                    proof {
                        let (start, kind, end, l) = next_token(src, pos, line);
                        assert(pos < self.scanner.position());
                        assert(errors_view(self.errors@) =~= errors_view(before).push(error_view(e)));
                        pending = pending.push(error_view(e));
                        assert(errors_view(self.errors@) =~= errors_view(errs0) + pending);
                    }
                },
            }
        }
        proof {
            let t = self.current->0;
            let np = self.pos@;
            lemma_passing_tokens_end_with_eof(src, 0, 1, Seq::empty());
            if old_linked {
                let c = self.compile_errs@;
                if next_index < ts.len() {
                    assert(np == next_index);
                    assert(rest[0] == ts[np as int]);
                    assert(grest[0] == groups[np as int]);
                    if t.typ == TokenType::Eof {
                        assert(rest.len() == 1);
                        assert(np == ts.len() - 1);
                    } else {
                        assert(np < ts.len() - 1);
                        assert(tokens_passing_errors(src, self.scanner.position(), self.scanner.line())
                            =~= ts.subrange(np + 1int, ts.len() as int)) by {
                            assert(rest.subrange(1, rest.len() as int) =~= tokens_passing_errors(src, self.scanner.position(), self.scanner.line()));
                        }
                        assert(scan_groups(src, self.scanner.position(), self.scanner.line(), Seq::empty())
                            =~= groups.subrange(np + 1int, groups.len() as int)) by {
                            assert(grest.subrange(1, grest.len() as int) =~= scan_groups(src, self.scanner.position(), self.scanner.line(), Seq::empty()));
                        }
                    }
                    if old(self).current is None {
                        assert(merged(groups, -1, c) == Seq::<ErrorView>::empty());
                        assert(compile_errors_at(c, 0) == Seq::<ErrorView>::empty());
                        assert(merged(groups, 0, c) =~= groups[0]);
                        assert(errors_view(errs0) =~= Seq::<ErrorView>::empty());
                        assert(errors_view(self.errors@) =~= pending);
                    } else {
                        lemma_merged_next(groups, old(self).pos@ as int, c);
                    }
                } else {
                    assert(np == ts.len() - 1);
                    assert(pos0 == len);
                    lemma_next_token_bounds(src, pos0, line0);
                    assert(skip_space(src, pos0, line0) == (pos0, line0));
                    assert(next_token(src, pos0, line0) == (pos0, Ok::<TokenType, ScanErrorKind>(TokenType::Eof), pos0, line0));
                    assert(src.subrange(pos0 as int, pos0 as int) =~= Seq::<char>::empty());
                    assert(rest[0] == token_spec(t));
                    assert(token_spec(t) == ts[np as int]);
                    assert(grest == seq![Seq::<ErrorView>::empty()]);
                    assert(grest[0] == pending);
                    assert(pending.len() == 0);
                    assert(errors_view(self.errors@) =~= errors_view(errs0));
                }
            }
        }
    }

    /// Whether the lookahead token is of kind `typ`.
    fn check(&self, typ: TokenType) -> (res: bool)
        requires
            self.current is Some,
        ensures
            res == (self.current_typ() == typ),
    {
        self.get_current_token().typ == typ
    }

    /// Consumes the lookahead token when it is of kind `typ`.
    fn match_(&mut self, typ: TokenType) -> (res: bool)
        requires
            old(self).wf(),
        ensures
            res == (old(self).current_typ() == typ),
            res ==> old(self).keeps(final(self)) && final(self).previous == old(self).current
                && old(self).stepped(final(self)) && (old(self).linked() ==> final(self).compile_errs@ == old(self).compile_errs@),
            !res ==> *final(self) == *old(self),
            final(self).wf(),
            old(self).same_scope(final(self)),
            res && typ != TokenType::Eof ==> final(self).measure() < old(self).measure() && old(self).pos@ < final(self).pos@,
    {
        if !self.check(typ) {
            return false;
        }
        self.advance();
        true
    }

    /// Consumes the lookahead token, which must be of kind `typ`; else reports what was
    /// expected at the lookahead token.
    fn consume(&mut self, typ: TokenType, expected: Expectation) -> (res: Result<(), LoxError>)
        requires
            old(self).wf(),
            typ != TokenType::Eof,
        ensures
            final(self).wf(),
            old(self).same_scope(final(self)),
            final(self).measure() <= old(self).measure(),
            final(self).scanner.source() == old(self).scanner.source(),
            old(self).errors@.len() <= final(self).errors@.len(),
            res is Ok <==> old(self).current_typ() == typ,
            res is Ok ==> final(self).ready() && final(self).measure() < old(self).measure() && old(self).pos@ < final(self).pos@
                && final(self).previous == old(self).current && old(self).stepped(final(self))
                && (old(self).linked() ==> final(self).compile_errs@ == old(self).compile_errs@),
            res is Err ==> *final(self) == *old(self),
            res matches Err(e) ==> e == (LoxError::CompileError {
                reason: CompileErrorKind::Expected(expected),
                lexeme: old(self).current->0.lexeme,
                line: old(self).current->0.line,
            }),
    {
        let t = self.get_current_token();
        if t.typ == typ {
            self.advance();
            return Ok(());
        }
        Err(LoxError::CompileError { reason: CompileErrorKind::Expected(expected), lexeme: t.lexeme.clone(), line: t.line })
    }

    /// Skips tokens after an error up to a statement boundary: just after a `;`, before a
    /// keyword that starts a statement, or at the end of the source.
    fn synchronize(&mut self)
        requires
            old(self).ready(),
        ensures
            old(self).keeps(final(self)),
            old(self).same_scope(final(self)),
            old(self).linked() ==> (final(self).pos@, final(self).prev@) == sync_point(old(self).stream(), old(self).pos@, old(self).prev@),
    {
        let ghost ts = self.stream();
        while self.get_current_token().typ != TokenType::Eof
            invariant
                self.ready(),
                old(self).keeps(self),
                old(self).same_scope(self),
                ts == old(self).stream(),
                old(self).linked() ==> sync_point(ts, self.pos@, self.prev@) == sync_point(ts, old(self).pos@, old(self).prev@),
            decreases self.measure(),
        {
            if self.get_previous_token().typ == TokenType::Semicolon {
                return;
            }
            match self.get_current_token().typ {
                TokenType::Class | TokenType::Function | TokenType::Var | TokenType::For
                | TokenType::If | TokenType::While | TokenType::Print | TokenType::Return => {
                    return;
                },
                _ => {},
            }
            self.advance();
        }
    }

    /// The error `reason` located at `token`.
    fn error_at(&self, reason: CompileErrorKind, token: &Token) -> (res: LoxError)
        ensures
            res == (LoxError::CompileError { reason, lexeme: token.lexeme, line: token.line }),
    {
        LoxError::CompileError { reason, lexeme: token.lexeme.clone(), line: token.line }
    }
}

// Emitting code.
impl Compiler {
    fn emit_byte(&self, chunk: &mut Chunk, byte: u8)
        requires
            self.previous is Some,
        ensures
            final(chunk).code@ == old(chunk).code@.push(byte),
            final(chunk).lines@ == old(chunk).lines@.push(self.previous->0.line),
            final(chunk).constants@ == old(chunk).constants@,
            self.linked() ==> self.gen(*final(chunk)) == emitted(self.stream(), self.gen(*old(chunk)), byte),
    {
        let line = self.get_previous_token().line;
        chunk.write(byte, line);
    }

    fn emit_bytes(&self, chunk: &mut Chunk, byte1: u8, byte2: u8)
        requires
            self.previous is Some,
        ensures
            final(chunk).code@ == old(chunk).code@.push(byte1).push(byte2),
            final(chunk).lines@ == old(chunk).lines@.push(self.previous->0.line).push(self.previous->0.line),
            final(chunk).constants@ == old(chunk).constants@,
            self.linked() ==> self.gen(*final(chunk)) == emitted(self.stream(), emitted(self.stream(), self.gen(*old(chunk)), byte1), byte2),
    {
        self.emit_byte(chunk, byte1);
        self.emit_byte(chunk, byte2);
    }

    fn emit_return(&self, chunk: &mut Chunk)
        requires
            self.previous is Some,
        ensures
            final(chunk).code@ == old(chunk).code@.push(OpCode::Return.spec_byte()),
            final(chunk).lines@ == old(chunk).lines@.push(self.previous->0.line),
            final(chunk).constants@ == old(chunk).constants@,
            self.linked() ==> self.gen(*final(chunk)) == emitted(self.stream(), self.gen(*old(chunk)), OpCode::Return.spec_byte()),
    {
        self.emit_byte(chunk, OpCode::Return.to_byte())
    }

    /// Adds `constant` to the chunk and returns its index; an error, located at the
    /// previous token, when the chunk already holds `MAX_CONSTANT_LENGTH` constants.
    fn add_constant(&self, chunk: &mut Chunk, constant: Constant) -> (res: Result<u8, LoxError>)
        requires
            self.previous is Some,
        ensures
            final(chunk).code@ == old(chunk).code@,
            final(chunk).lines@ == old(chunk).lines@,
            match res {
                Ok(index) => old(chunk).constants@.len() < MAX_CONSTANT_LENGTH
                    && index == old(chunk).constants@.len()
                    && final(chunk).constants@ == old(chunk).constants@.push(constant),
                Err(e) => old(chunk).constants@.len() >= MAX_CONSTANT_LENGTH
                    && final(chunk).constants@ == old(chunk).constants@
                    && e == (LoxError::CompileError {
                        reason: CompileErrorKind::TooManyConstants,
                        lexeme: self.previous->0.lexeme,
                        line: self.previous->0.line,
                    }),
            },
            self.linked() ==> match constant_added(self.gen(*old(chunk)), const_view(constant)) {
                Some((g, i)) => res == Ok::<u8, LoxError>(i as u8) && self.gen(*final(chunk)) == g,
                None => res is Err,
            },
    {
        if chunk.constants.len() >= MAX_CONSTANT_LENGTH {
            return Err(self.error_at(CompileErrorKind::TooManyConstants, self.get_previous_token()));
        }
        Ok(chunk.add_constant(constant))
    }

    /// Emits `Constant` and the index of `constant`, added to the chunk.
    fn emit_constant(&self, chunk: &mut Chunk, constant: Constant) -> (res: Result<(), LoxError>)
        requires
            self.previous is Some,
        ensures
            res is Ok <==> old(chunk).constants@.len() < MAX_CONSTANT_LENGTH,
            res is Ok ==> final(chunk).constants@ == old(chunk).constants@.push(constant)
                && final(chunk).code@ == old(chunk).code@.push(OpCode::Constant.spec_byte()).push(old(chunk).constants@.len() as u8)
                && final(chunk).lines@ == old(chunk).lines@.push(self.previous->0.line).push(self.previous->0.line),
            res is Err ==> final(chunk).code@ == old(chunk).code@ && final(chunk).lines@ == old(chunk).lines@
                && final(chunk).constants@ == old(chunk).constants@,
            self.linked() ==> match constant_emitted(self.stream(), self.gen(*old(chunk)), const_view(constant)) {
                Ok(g) => res is Ok && self.gen(*final(chunk)) == g,
                Err((g, e)) => res matches Err(x) && error_view(x) == compile_view(e) && self.gen(*final(chunk)) == g,
            },
    {
        let index = self.add_constant(chunk, constant)?;
        self.emit_bytes(chunk, OpCode::Constant.to_byte(), index);
        Ok(())
    }

    /// Emits the jump `instruction` with a placeholder distance and returns where the
    /// distance goes.
    fn emit_jump(&self, chunk: &mut Chunk, instruction: OpCode) -> (res: usize)
        requires
            self.previous is Some,
        ensures
            res == old(chunk).code@.len() + 1,
            final(chunk).code@ == old(chunk).code@.push(instruction.spec_byte()).push(0xff).push(0xff),
            final(chunk).lines@ == old(chunk).lines@.push(self.previous->0.line).push(self.previous->0.line).push(self.previous->0.line),
            final(chunk).constants@ == old(chunk).constants@,
            self.linked() ==> (self.gen(*final(chunk)), res as nat) == jump_emitted(self.stream(), self.gen(*old(chunk)), instruction),
    {
        self.emit_byte(chunk, instruction.to_byte());
        self.emit_byte(chunk, 0xff);
        self.emit_byte(chunk, 0xff);
        chunk.count() - 2
    }

    /// Writes at `code_index` the distance from just after the placeholder to the end of
    /// the code, so that the jump lands there; an error when it does not fit in 16 bits.
    fn patch_jump(&self, chunk: &mut Chunk, code_index: usize) -> (res: Result<(), LoxError>)
        requires
            self.current is Some,
            self.previous is Some,
            code_index + 2 <= old(chunk).code@.len(),
        ensures
            final(chunk).lines@ == old(chunk).lines@,
            final(chunk).constants@ == old(chunk).constants@,
            final(chunk).code@.len() == old(chunk).code@.len(),
            forall|i: int| 0 <= i < old(chunk).code@.len() && i != code_index && i != code_index + 1
                ==> final(chunk).code@[i] == old(chunk).code@[i],
            res is Ok <==> old(chunk).code@.len() - code_index - 2 <= 0xffff,
            res is Ok ==> spec_u16(final(chunk).code@[code_index as int], final(chunk).code@[code_index + 1])
                == old(chunk).code@.len() - code_index - 2,
            res is Err ==> final(chunk).code@ == old(chunk).code@,
            res matches Err(e) ==> e == (LoxError::CompileError {
                reason: CompileErrorKind::TooMuchCodeToJump,
                lexeme: self.current->0.lexeme,
                line: self.previous->0.line,
            }),
            self.linked() ==> match patched(self.stream(), self.gen(*old(chunk)), code_index as nat) {
                Ok(g) => res is Ok && self.gen(*final(chunk)) == g,
                Err((g, e)) => res matches Err(x) && error_view(x) == compile_view(e) && self.gen(*final(chunk)) == g,
            },
    {
        let jump = chunk.count() - code_index - 2;
        if jump > 0xffff {
            return Err(LoxError::CompileError {
                reason: CompileErrorKind::TooMuchCodeToJump,
                lexeme: self.get_current_token().lexeme.clone(),
                line: self.get_previous_token().line,
            });
        }
        let hi = ((jump / 256) % 256) as u8;
        let lo = (jump % 256) as u8;
        chunk.overwrite(code_index, hi);
        chunk.overwrite(code_index + 1, lo);
        Ok(())
    }

    /// Emits a backward jump to `loop_start`: `RevJump` and the distance from after its
    /// operand back to `loop_start`; an error when that does not fit in 16 bits.
    fn emit_loop(&self, chunk: &mut Chunk, loop_start: usize) -> (res: Result<(), LoxError>)
        requires
            self.current is Some,
            self.previous is Some,
            loop_start <= old(chunk).code@.len(),
        ensures
            final(chunk).constants@ == old(chunk).constants@,
            res is Ok <==> old(chunk).code@.len() + 3 - loop_start <= 0xffff,
            res is Ok ==> final(chunk).code@.len() == old(chunk).code@.len() + 3
                && final(chunk).code@[old(chunk).code@.len() as int] == OpCode::RevJump.spec_byte()
                && spec_u16(final(chunk).code@[old(chunk).code@.len() + 1int], final(chunk).code@[old(chunk).code@.len() + 2int])
                    == old(chunk).code@.len() + 3 - loop_start
                && final(chunk).code@.subrange(0, old(chunk).code@.len() as int) == old(chunk).code@
                && final(chunk).lines@ == old(chunk).lines@.push(self.previous->0.line).push(self.previous->0.line).push(self.previous->0.line),
            res is Err ==> final(chunk).code@ == old(chunk).code@.push(OpCode::RevJump.spec_byte())
                && final(chunk).lines@ == old(chunk).lines@.push(self.previous->0.line),
            chunk_ok(*old(chunk)) ==> chunk_extends(*old(chunk), *final(chunk)),
            res matches Err(e) ==> e == (LoxError::CompileError {
                reason: CompileErrorKind::LoopBodyTooLarge,
                lexeme: self.current->0.lexeme,
                line: self.previous->0.line,
            }),
            self.linked() ==> match loop_emitted(self.stream(), self.gen(*old(chunk)), loop_start as nat) {
                Ok(g) => res is Ok && self.gen(*final(chunk)) == g,
                Err((g, e)) => res matches Err(x) && error_view(x) == compile_view(e) && self.gen(*final(chunk)) == g,
            },
    {
        self.emit_byte(chunk, OpCode::RevJump.to_byte());
        let distance = chunk.count() - loop_start;
        if distance > 0xffff - 2 {
            return Err(LoxError::CompileError {
                reason: CompileErrorKind::LoopBodyTooLarge,
                lexeme: self.get_current_token().lexeme.clone(),
                line: self.get_previous_token().line,
            });
        }
        let offset = distance + 2;
        self.emit_byte(chunk, ((offset / 256) % 256) as u8);
        self.emit_byte(chunk, (offset % 256) as u8);
        assert(chunk.code@.subrange(0, old(chunk).code@.len() as int) =~= old(chunk).code@);
        Ok(())
    }
}


/// Whether some local in the innermost scope, read from the last local back to the
/// first one that belongs to an enclosing scope, is named `name`.
pub open spec fn declared_in_scope(locals: Seq<Local>, depth: int, name: Seq<char>) -> bool
    decreases locals.len(),
{
    if locals.len() == 0 {
        false
    } else {
        let last = locals[locals.len() - 1];
        if last.depth != -1 && last.depth < depth {
            false
        } else if last.token.lexeme@ == name {
            true
        } else {
            declared_in_scope(locals.drop_last(), depth, name)
        }
    }
}

/// The slot of the innermost local named `name`, if any.
pub open spec fn innermost_local(locals: Seq<Local>, name: Seq<char>) -> Option<nat>
    decreases locals.len(),
{
    if locals.len() == 0 {
        None
    } else if locals[locals.len() - 1].token.lexeme@ == name {
        Some((locals.len() - 1) as nat)
    } else {
        innermost_local(locals.drop_last(), name)
    }
}

/// How many locals at the end of `locals` are deeper than `depth`.
pub open spec fn deeper_count(locals: Seq<Local>, depth: int) -> nat
    decreases locals.len(),
{
    if locals.len() > 0 && locals[locals.len() - 1].depth > depth {
        1 + deeper_count(locals.drop_last(), depth)
    } else {
        0
    }
}

pub proof fn lemma_innermost_local_bound(locals: Seq<Local>, name: Seq<char>)
    ensures
        innermost_local(locals, name) matches Some(i) ==> i < locals.len()
            && locals[i as int].token.lexeme@ == name,
    decreases locals.len(),
{
    if locals.len() > 0 && locals[locals.len() - 1].token.lexeme@ != name {
        lemma_innermost_local_bound(locals.drop_last(), name);
        let d = locals.drop_last();
        if let Some(i) = innermost_local(d, name) {
            assert(d[i as int] == locals[i as int]);
        }
    }
}

pub proof fn lemma_deeper_count_bound(locals: Seq<Local>, depth: int)
    ensures
        deeper_count(locals, depth) <= locals.len(),
    decreases locals.len(),
{
    if locals.len() > 0 && locals[locals.len() - 1].depth > depth {
        lemma_deeper_count_bound(locals.drop_last(), depth);
    }
}

// Scopes and variables.
impl Compiler {
    /// There is room for one more scope level.
    pub closed spec fn scope_room(&self) -> bool {
        self.scope_depth + self.measure() < 2 * self.scanner.source().len() + 1
    }

    fn begin_scope(&mut self)
        requires
            old(self).ready(),
            old(self).scope_room(),
        ensures
            final(self).ready(),
            final(self).scope_depth == old(self).scope_depth + 1,
            final(self).locals == old(self).locals,
            final(self).current == old(self).current,
            final(self).previous == old(self).previous,
            final(self).scanner == old(self).scanner,
            final(self).pos == old(self).pos,
            final(self).prev == old(self).prev,
            final(self).errors == old(self).errors,
            final(self).compile_errs == old(self).compile_errs,
    {
        self.scope_depth += 1;
    }

    /// Leaves the innermost scope: its locals are dropped, each with a `Pop`.
    fn end_scope(&mut self, chunk: &mut Chunk)
        requires
            old(self).ready(),
            old(self).scope_depth >= 1,
        ensures
            final(self).ready(),
            final(self).scope_depth == old(self).scope_depth - 1,
            final(self).current == old(self).current,
            final(self).previous == old(self).previous,
            final(self).scanner == old(self).scanner,
            final(self).pos == old(self).pos,
            final(self).prev == old(self).prev,
            final(self).errors == old(self).errors,
            final(self).compile_errs == old(self).compile_errs,
            ({
                let n = deeper_count(old(self).locals@, old(self).scope_depth - 1);
                &&& final(self).locals@ == old(self).locals@.subrange(0, old(self).locals@.len() - n)
                &&& final(self).scope_depth - 1 < final(self).scope_depth
                &&& final(chunk).code@ == old(chunk).code@ + Seq::new(n, |i: int| OpCode::Pop.spec_byte())
                &&& final(chunk).lines@ == old(chunk).lines@ + Seq::new(n, |i: int| old(self).previous->0.line)
                &&& final(chunk).constants@ == old(chunk).constants@
            }),
            old(self).linked() ==> final(self).gen(*final(chunk)) == scope_ended(old(self).stream(), old(self).gen(*old(chunk))),
    {
        self.scope_depth -= 1;
        let ghost depth = self.scope_depth as int;
        let ghost n = deeper_count(old(self).locals@, depth);
        proof {
            lemma_deeper_count_bound(old(self).locals@, depth);
        }
        let ghost line = self.previous->0.line;
        let mut popped: usize = 0;
        loop
            invariant_except_break
                self.ready(),
                self.scope_depth == depth,
                self.current == old(self).current,
                self.previous == old(self).previous,
                self.scanner == old(self).scanner,
                self.pos == old(self).pos,
                self.prev == old(self).prev,
                self.errors == old(self).errors,
                self.compile_errs == old(self).compile_errs,
                popped <= n,
                n <= old(self).locals@.len(),
                old(self).locals@.len() <= MAX_LOCALS,
                line == old(self).previous->0.line,
                self.locals@ == old(self).locals@.subrange(0, old(self).locals@.len() - popped),
                deeper_count(self.locals@, depth) == n - popped,
                chunk.code@ == old(chunk).code@ + Seq::new(popped as nat, |i: int| OpCode::Pop.spec_byte()),
                chunk.lines@ == old(chunk).lines@ + Seq::new(popped as nat, |i: int| line),
                chunk.constants@ == old(chunk).constants@,
            ensures
                self.ready(),
                self.scope_depth == depth,
                self.current == old(self).current,
                self.previous == old(self).previous,
                self.scanner == old(self).scanner,
                self.pos == old(self).pos,
                self.prev == old(self).prev,
                self.errors == old(self).errors,
                self.compile_errs == old(self).compile_errs,
                popped == n,
                self.locals@ == old(self).locals@.subrange(0, old(self).locals@.len() - popped),
                chunk.code@ == old(chunk).code@ + Seq::new(popped as nat, |i: int| OpCode::Pop.spec_byte()),
                chunk.lines@ == old(chunk).lines@ + Seq::new(popped as nat, |i: int| line),
                chunk.constants@ == old(chunk).constants@,
            decreases self.locals@.len(),
        {
            let len = self.locals.len();
            if len == 0 || self.locals[len - 1].depth <= self.scope_depth {
                break;
            }
            assert(self.locals@[self.locals@.len() - 1].depth > depth);
            assert(deeper_count(self.locals@, depth) > 0);
            assert(self.locals@.drop_last() =~= old(self).locals@.subrange(0, old(self).locals@.len() - (popped + 1)));
            self.emit_byte(chunk, OpCode::Pop.to_byte());
            self.locals.pop();
            proof {
                assert(self.locals@ =~= old(self).locals@.subrange(0, old(self).locals@.len() - (popped + 1)));
                assert(chunk.code@ =~= old(chunk).code@ + Seq::new((popped + 1) as nat, |i: int| OpCode::Pop.spec_byte()));
                assert(chunk.lines@ =~= old(chunk).lines@ + Seq::new((popped + 1) as nat, |i: int| line));
            }
            popped += 1;
        }
        proof {
            lemma_locals_view_lookups(old(self).locals@, depth, Seq::empty());
            lemma_locals_view_take(old(self).locals@, old(self).locals@.len() - n);
            if old(self).linked() {
                assert(Seq::new(n, |i: int| line) =~= Seq::new(n, |i: int| crate::codegen::line_of(self.stream(), self.prev@)));
            }
        }
    }

    /// Adds a local named `name`, declared but not yet initialized; an error when
    /// `MAX_LOCALS` locals are alive.
    fn add_local(&mut self, name: Token) -> (res: Result<(), LoxError>)
        requires
            old(self).ready(),
        ensures
            final(self).ready(),
            final(self).scope_depth == old(self).scope_depth,
            final(self).current == old(self).current,
            final(self).previous == old(self).previous,
            final(self).scanner == old(self).scanner,
            final(self).pos == old(self).pos,
            final(self).prev == old(self).prev,
            final(self).errors == old(self).errors,
            final(self).compile_errs == old(self).compile_errs,
            res is Ok <==> old(self).locals@.len() < MAX_LOCALS,
            res is Ok ==> final(self).locals@ == old(self).locals@.push(Local { token: name, depth: -1i32 }),
            res is Err ==> final(self).locals@ == old(self).locals@,
            res matches Err(e) ==> e == (LoxError::CompileError { reason: CompileErrorKind::TooManyLocals, lexeme: name.lexeme, line: name.line }),
    {
        if self.locals.len() > MAX_LOCALS - 1 {
            return Err(self.error_at(CompileErrorKind::TooManyLocals, &name));
        }
        self.locals.push(Local::new(name, -1));
        Ok(())
    }

    /// Whether the innermost scope already has a local named like `name`.
    fn declared_in_innermost_scope(&self, name: &Token) -> (res: bool)
        requires
            self.wf(),
        ensures
            res == declared_in_scope(self.locals@, self.scope_depth as int, name.lexeme@),
    {
        let mut i = self.locals.len();
        assert(self.locals@.subrange(0, i as int) =~= self.locals@);
        while i > 0
            invariant
                self.wf(),
                i <= self.locals@.len(),
                declared_in_scope(self.locals@.subrange(0, i as int), self.scope_depth as int, name.lexeme@)
                    == declared_in_scope(self.locals@, self.scope_depth as int, name.lexeme@),
            decreases i,
        {
            proof {
                assert(self.locals@.subrange(0, i as int).drop_last() =~= self.locals@.subrange(0, i - 1));
            }
            let local = &self.locals[i - 1];
            if local.depth != -1 && local.depth < self.scope_depth {
                return false;
            }
            if name.lexeme == local.token.lexeme {
                return true;
            }
            i -= 1;
        }
        proof {
            assert(self.locals@.subrange(0, 0) =~= Seq::<Local>::empty());
        }
        false
    }

    /// Declares the previous token as a local of the innermost scope; an error when the
    /// scope already has a local of that name.
    fn declare_local_var(&mut self) -> (res: Result<(), LoxError>)
        requires
            old(self).ready(),
        ensures
            final(self).ready(),
            final(self).scope_depth == old(self).scope_depth,
            final(self).current == old(self).current,
            final(self).previous == old(self).previous,
            final(self).scanner == old(self).scanner,
            final(self).pos == old(self).pos,
            final(self).prev == old(self).prev,
            final(self).errors == old(self).errors,
            final(self).compile_errs == old(self).compile_errs,
            ({
                let name = old(self).previous->0;
                let clash = declared_in_scope(old(self).locals@, old(self).scope_depth as int, name.lexeme@);
                &&& res is Ok <==> !clash && old(self).locals@.len() < MAX_LOCALS
                &&& res is Ok ==> final(self).locals@ == old(self).locals@.push(Local { token: name, depth: -1i32 })
                &&& res is Err ==> final(self).locals@ == old(self).locals@
                &&& clash ==> res == Err::<(), LoxError>(LoxError::CompileError { reason: CompileErrorKind::AlreadyDeclared, lexeme: name.lexeme, line: name.line })
                &&& (!clash && res is Err) ==> res == Err::<(), LoxError>(LoxError::CompileError { reason: CompileErrorKind::TooManyLocals, lexeme: name.lexeme, line: name.line })
            }),
    {
        let name = self.get_previous_token().duplicate();
        if self.declared_in_innermost_scope(&name) {
            return Err(self.error_at(CompileErrorKind::AlreadyDeclared, &name));
        }
        self.add_local(name)
    }

    /// Finds the innermost local named like `name`: its slot, `None` when there is none
    /// (the name is global), an error when that local is still being initialized.
    fn resolve_local(&self, name: &Token) -> (res: Result<Option<u8>, LoxError>)
        requires
            self.wf(),
        ensures
            match innermost_local(self.locals@, name.lexeme@) {
                None => res == Ok::<Option<u8>, LoxError>(None),
                Some(i) => if self.locals@[i as int].depth == -1 {
                    res == Err::<Option<u8>, LoxError>(LoxError::CompileError { reason: CompileErrorKind::ReadInOwnInitializer, lexeme: name.lexeme, line: name.line })
                } else {
                    i < 256 && res == Ok::<Option<u8>, LoxError>(Some(i as u8))
                },
            },
    {
        let mut i = self.locals.len();
        assert(self.locals@.subrange(0, i as int) =~= self.locals@);
        while i > 0
            invariant
                self.wf(),
                i <= self.locals@.len(),
                innermost_local(self.locals@.subrange(0, i as int), name.lexeme@) == innermost_local(self.locals@, name.lexeme@),
            decreases i,
        {
            proof {
                assert(self.locals@.subrange(0, i as int).drop_last() =~= self.locals@.subrange(0, i - 1));
            }
            let local = &self.locals[i - 1];
            if local.token.lexeme == name.lexeme {
                if local.depth == -1 {
                    return Err(self.error_at(CompileErrorKind::ReadInOwnInitializer, name));
                }
                return Ok(Some((i - 1) as u8));
            }
            i -= 1;
        }
        proof {
            assert(self.locals@.subrange(0, 0) =~= Seq::<Local>::empty());
        }
        Ok(None)
    }
}


pub proof fn lemma_ends_with_push(code: Seq<u8>, b: u8)
    ensures
        ends_with(code.push(b), seq![b]),
{
    assert(code.push(b).subrange(code.len() as int, code.len() + 1int) =~= seq![b]);
}

pub proof fn lemma_ends_with_push2(code: Seq<u8>, a: u8, b: u8)
    ensures
        ends_with(code.push(a).push(b), seq![a, b]),
{
    assert(code.push(a).push(b).subrange(code.len() as int, code.len() + 2int) =~= seq![a, b]);
}

/// The chunk can still take code: every byte has its line and the constants fit.
pub open spec fn chunk_ok(c: Chunk) -> bool {
    c.wf() && c.constants@.len() <= MAX_CONSTANT_LENGTH
}

// Declarations and statements.
impl Compiler {
    /// declaration -> var_declaration | statement
    fn declaration(&mut self, chunk: &mut Chunk) -> (res: Result<(), LoxError>)
        requires
            old(self).wf(),
            chunk_ok(*old(chunk)),
        ensures
            old(self).keeps(final(self)),
            old(self).consumed(final(self)),
            chunk_extends(*old(chunk), *final(chunk)),
            res is Ok ==> final(self).scope_depth == old(self).scope_depth,
            old(self).linked() ==> match cg_declaration(old(self).stream(), old(self).gen(*old(chunk))) {
                Ok(g) => res is Ok && final(self).gen(*final(chunk)) == g,
                Err((g, e)) => res matches Err(x) && error_view(x) == compile_view(e) && final(self).gen(*final(chunk)) == g,
            },
        decreases old(self).measure(), 7nat,
    {
        proof {
            lemma_cg_declaration(self.stream(), self.gen(*chunk));
        }
        if self.match_(TokenType::Var) {
            self.var_decl(chunk)?;
        } else {
            self.stmt(chunk)?;
        }
        Ok(())
    }

    /// var_declaration -> 'var' IDENTIFIER ('=' expression)? ';'
    fn var_decl(&mut self, chunk: &mut Chunk) -> (res: Result<(), LoxError>)
        requires
            old(self).ready(),
            chunk_ok(*old(chunk)),
        ensures
            old(self).keeps(final(self)),
            chunk_extends(*old(chunk), *final(chunk)),
            res is Ok ==> final(self).scope_depth == old(self).scope_depth,
            res is Ok && old(self).scope_depth == 0 ==> final(self).locals@ == old(self).locals@
                && ends_with(final(chunk).code@, seq![OpCode::DefineGlobal.spec_byte(), old(chunk).constants@.len() as u8])
                && final(chunk).constants@[old(chunk).constants@.len() as int]
                    == Constant::String(old(self).current->0.lexeme),
            res is Ok && old(self).scope_depth > 0 ==> final(self).locals@.len() == old(self).locals@.len() + 1
                && final(self).locals@.last() == (Local { token: old(self).current->0, depth: old(self).scope_depth }),
            old(self).linked() ==> match cg_var_decl(old(self).stream(), old(self).gen(*old(chunk))) {
                Ok(g) => res is Ok && final(self).gen(*final(chunk)) == g,
                Err((g, e)) => res matches Err(x) && error_view(x) == compile_view(e) && final(self).gen(*final(chunk)) == g,
            },
        decreases old(self).measure(), 3nat,
    {
        proof {
            lemma_cg_var_decl(self.stream(), self.gen(*chunk));
        }
        let ghost name = self.current->0;
        let index = self.parse_var_to_index(chunk)?;
        let ghost after_name = *chunk;
        let ghost locals_after_name = self.locals@;
        if self.match_(TokenType::Equal) {
            self.expression(chunk)?;
        } else {
            self.emit_byte(chunk, OpCode::Nil.to_byte());
        }
        self.consume(TokenType::Semicolon, Expectation::SemicolonAfterVariableDeclaration)?;
        let ghost before = chunk.code@;
        self.define_var(chunk, index);
        proof {
            lemma_ends_with_push2(before, OpCode::DefineGlobal.spec_byte(), index);
        }
        Ok(())
    }

    /// Consumes the variable name; a global's name becomes a constant whose index is
    /// returned, a local is declared (and 0 returned).
    fn parse_var_to_index(&mut self, chunk: &mut Chunk) -> (res: Result<u8, LoxError>)
        requires
            old(self).ready(),
            chunk_ok(*old(chunk)),
        ensures
            old(self).keeps(final(self)),
            final(self).scope_depth == old(self).scope_depth,
            chunk_extends(*old(chunk), *final(chunk)),
            final(chunk).code@ == old(chunk).code@,
            res is Ok ==> final(self).previous == old(self).current,
            res is Ok && old(self).scope_depth == 0 ==> final(self).locals@ == old(self).locals@
                && res == Ok::<u8, LoxError>(old(chunk).constants@.len() as u8)
                && final(chunk).constants@ == old(chunk).constants@.push(Constant::String(old(self).current->0.lexeme)),
            res is Ok && old(self).scope_depth > 0 ==> final(chunk).constants@ == old(chunk).constants@
                && final(self).locals@ == old(self).locals@.push(Local { token: old(self).current->0, depth: -1i32 }),
            res is Err ==> final(self).locals@ == old(self).locals@,
            old(self).linked() ==> match var_index(old(self).stream(), old(self).gen(*old(chunk))) {
                Ok((g, i)) => res == Ok::<u8, LoxError>(i as u8) && final(self).gen(*final(chunk)) == g,
                Err((g, e)) => res matches Err(x) && error_view(x) == compile_view(e) && final(self).gen(*final(chunk)) == g,
            },
    {
        self.consume(TokenType::Identifier, Expectation::VariableName)?;
        if self.scope_depth > 0 {
            let ghost before = self.locals@;
            proof {
                lemma_locals_view_lookups(before, self.scope_depth as int, self.previous->0.lexeme@);
                lemma_locals_view_push(before, Local { token: self.previous->0, depth: -1i32 });
            }
            self.declare_local_var()?;
            return Ok(0);
        }
        let s = self.get_previous_token().lexeme.clone();
        self.add_constant(chunk, Constant::String(s))
    }

    /// Marks the variable just declared as defined: a local gets its scope's depth, a
    /// global is defined by `DefineGlobal` with its name's constant.
    fn define_var(&mut self, chunk: &mut Chunk, index: u8)
        requires
            old(self).ready(),
            chunk_ok(*old(chunk)),
            old(self).scope_depth > 0 ==> old(self).locals@.len() > 0,
        ensures
            final(self).ready(),
            final(self).scope_depth == old(self).scope_depth,
            final(self).current == old(self).current,
            final(self).previous == old(self).previous,
            final(self).scanner == old(self).scanner,
            final(self).pos == old(self).pos,
            final(self).prev == old(self).prev,
            final(self).errors == old(self).errors,
            final(self).compile_errs == old(self).compile_errs,
            chunk_extends(*old(chunk), *final(chunk)),
            old(self).scope_depth > 0 ==> final(self).locals@ == old(self).locals@.update(
                old(self).locals@.len() - 1,
                Local { token: old(self).locals@.last().token, depth: old(self).scope_depth },
            ) && *final(chunk) == *old(chunk),
            old(self).scope_depth == 0 ==> final(self).locals@ == old(self).locals@
                && final(chunk).code@ == old(chunk).code@.push(OpCode::DefineGlobal.spec_byte()).push(index),
            old(self).linked() ==> final(self).gen(*final(chunk)) == defined_var(old(self).stream(), old(self).gen(*old(chunk)), index as nat),
    {
        if self.scope_depth > 0 {
            let mut last = self.locals.pop().unwrap();
            last.depth = self.scope_depth;
            self.locals.push(last);
            proof {
                assert(self.locals@ =~= old(self).locals@.update(
                    old(self).locals@.len() - 1,
                    Local { token: old(self).locals@.last().token, depth: old(self).scope_depth },
                ));
            }
            return;
        }
        self.emit_bytes(chunk, OpCode::DefineGlobal.to_byte(), index);
    }

    /// statement -> print | if | while | for | block | expression statement
    fn stmt(&mut self, chunk: &mut Chunk) -> (res: Result<(), LoxError>)
        requires
            old(self).wf(),
            chunk_ok(*old(chunk)),
        ensures
            old(self).keeps(final(self)),
            old(self).consumed(final(self)),
            chunk_extends(*old(chunk), *final(chunk)),
            res is Ok ==> final(self).scope_depth == old(self).scope_depth,
            old(self).linked() ==> match cg_stmt(old(self).stream(), old(self).gen(*old(chunk))) {
                Ok(g) => res is Ok && final(self).gen(*final(chunk)) == g,
                Err((g, e)) => res matches Err(x) && error_view(x) == compile_view(e) && final(self).gen(*final(chunk)) == g,
            },
        decreases old(self).measure(), 6nat,
    {
        proof {
            lemma_cg_stmt(self.stream(), self.gen(*chunk));
        }
        if self.match_(TokenType::Print) {
            self.print_stmt(chunk)?
        } else if self.match_(TokenType::If) {
            self.if_stmt(chunk)?
        } else if self.match_(TokenType::While) {
            self.while_stmt(chunk)?
        } else if self.match_(TokenType::For) {
            self.for_stmt(chunk)?
        } else if self.match_(TokenType::LeftBrace) {
            self.begin_scope();
            self.block(chunk)?;
            self.end_scope(chunk);
        } else {
            self.expression_stmt(chunk)?;
        }
        Ok(())
    }

    /// print_statement -> 'print' expression ';'
    fn print_stmt(&mut self, chunk: &mut Chunk) -> (res: Result<(), LoxError>)
        requires
            old(self).ready(),
            chunk_ok(*old(chunk)),
        ensures
            old(self).keeps(final(self)),
            old(self).same_scope(final(self)),
            chunk_extends(*old(chunk), *final(chunk)),
            res is Ok ==> ends_with(final(chunk).code@, seq![OpCode::Print.spec_byte()]),
            old(self).linked() ==> match cg_print(old(self).stream(), old(self).gen(*old(chunk))) {
                Ok(g) => res is Ok && final(self).gen(*final(chunk)) == g,
                Err((g, e)) => res matches Err(x) && error_view(x) == compile_view(e) && final(self).gen(*final(chunk)) == g,
            },
        decreases old(self).measure(), 3nat,
    {
        proof {
            lemma_cg_print(self.stream(), self.gen(*chunk));
        }
        self.expression(chunk)?;
        self.consume(TokenType::Semicolon, Expectation::SemicolonAfterValue)?;
        let ghost before = chunk.code@;
        self.emit_byte(chunk, OpCode::Print.to_byte());
        proof {
            lemma_ends_with_push(before, OpCode::Print.spec_byte());
        }
        Ok(())
    }

    /// expression_statement -> expression ';' (its value is popped).
    fn expression_stmt(&mut self, chunk: &mut Chunk) -> (res: Result<(), LoxError>)
        requires
            old(self).wf(),
            chunk_ok(*old(chunk)),
        ensures
            old(self).keeps(final(self)),
            old(self).consumed(final(self)),
            old(self).same_scope(final(self)),
            chunk_extends(*old(chunk), *final(chunk)),
            res is Ok ==> ends_with(final(chunk).code@, seq![OpCode::Pop.spec_byte()]),
            old(self).linked() ==> match cg_expr_stmt(old(self).stream(), old(self).gen(*old(chunk))) {
                Ok(g) => res is Ok && final(self).gen(*final(chunk)) == g,
                Err((g, e)) => res matches Err(x) && error_view(x) == compile_view(e) && final(self).gen(*final(chunk)) == g,
            },
        decreases old(self).measure(), 3nat,
    {
        proof {
            lemma_cg_expr_stmt(self.stream(), self.gen(*chunk));
        }
        self.expression(chunk)?;
        self.consume(TokenType::Semicolon, Expectation::SemicolonAfterExpression)?;
        let ghost before = chunk.code@;
        self.emit_byte(chunk, OpCode::Pop.to_byte());
        proof {
            lemma_ends_with_push(before, OpCode::Pop.spec_byte());
        }
        Ok(())
    }

    /// if_statement -> 'if' '(' expression ')' statement ('else' statement)?
    fn if_stmt(&mut self, chunk: &mut Chunk) -> (res: Result<(), LoxError>)
        requires
            old(self).ready(),
            chunk_ok(*old(chunk)),
        ensures
            old(self).keeps(final(self)),
            chunk_extends(*old(chunk), *final(chunk)),
            res is Ok ==> final(self).scope_depth == old(self).scope_depth,
            old(self).linked() ==> match cg_if(old(self).stream(), old(self).gen(*old(chunk))) {
                Ok(g) => res is Ok && final(self).gen(*final(chunk)) == g,
                Err((g, e)) => res matches Err(x) && error_view(x) == compile_view(e) && final(self).gen(*final(chunk)) == g,
            },
        decreases old(self).measure(), 3nat,
    {
        proof {
            lemma_cg_if(self.stream(), self.gen(*chunk));
        }
        self.consume(TokenType::LeftParen, Expectation::LeftParenAfterIf)?;
        self.expression(chunk)?;
        self.consume(TokenType::RightParen, Expectation::RightParenAfterCondition)?;
        let then_jump = self.emit_jump(chunk, OpCode::JumpIfFalse);
        self.emit_byte(chunk, OpCode::Pop.to_byte());
        self.stmt(chunk)?;
        let else_jump = self.emit_jump(chunk, OpCode::Jump);
        self.patch_jump(chunk, then_jump)?;
        self.emit_byte(chunk, OpCode::Pop.to_byte());
        if self.match_(TokenType::Else) {
            self.stmt(chunk)?;
        }
        self.patch_jump(chunk, else_jump)?;
        Ok(())
    }

    /// while_statement -> 'while' '(' expression ')' statement
    fn while_stmt(&mut self, chunk: &mut Chunk) -> (res: Result<(), LoxError>)
        requires
            old(self).ready(),
            chunk_ok(*old(chunk)),
        ensures
            old(self).keeps(final(self)),
            chunk_extends(*old(chunk), *final(chunk)),
            res is Ok ==> final(self).scope_depth == old(self).scope_depth,
            old(self).linked() ==> match cg_while(old(self).stream(), old(self).gen(*old(chunk))) {
                Ok(g) => res is Ok && final(self).gen(*final(chunk)) == g,
                Err((g, e)) => res matches Err(x) && error_view(x) == compile_view(e) && final(self).gen(*final(chunk)) == g,
            },
        decreases old(self).measure(), 3nat,
    {
        proof {
            lemma_cg_while(self.stream(), self.gen(*chunk));
        }
        let loop_start = chunk.count();
        self.consume(TokenType::LeftParen, Expectation::LeftParenAfterWhile)?;
        self.expression(chunk)?;
        self.consume(TokenType::RightParen, Expectation::RightParenAfterCondition)?;
        let exit_jump = self.emit_jump(chunk, OpCode::JumpIfFalse);
        self.emit_byte(chunk, OpCode::Pop.to_byte());
        self.stmt(chunk)?;
        self.emit_loop(chunk, loop_start)?;
        self.patch_jump(chunk, exit_jump)?;
        self.emit_byte(chunk, OpCode::Pop.to_byte());
        Ok(())
    }

    /// for_statement -> 'for' '(' (var_declaration | expression_statement | ';')
    ///                  expression? ';' expression? ')' statement
    fn for_stmt(&mut self, chunk: &mut Chunk) -> (res: Result<(), LoxError>)
        requires
            old(self).ready(),
            old(self).scope_room(),
            chunk_ok(*old(chunk)),
        ensures
            old(self).keeps(final(self)),
            chunk_extends(*old(chunk), *final(chunk)),
            res is Ok ==> final(self).scope_depth == old(self).scope_depth,
            old(self).linked() ==> match cg_for(old(self).stream(), old(self).gen(*old(chunk))) {
                Ok(g) => res is Ok && final(self).gen(*final(chunk)) == g,
                Err((g, e)) => res matches Err(x) && error_view(x) == compile_view(e) && final(self).gen(*final(chunk)) == g,
            },
        decreases old(self).measure(), 5nat,
    {
        proof {
            lemma_cg_for(self.stream(), self.gen(*chunk));
        }
        self.begin_scope();
        self.consume(TokenType::LeftParen, Expectation::LeftParenAfterFor)?;
        self.for_initializer(chunk)?;
        self.for_rest(chunk)
    }

    /// The initializer of a `for`: a variable declaration, an expression statement, or
    /// nothing (`;`).
    fn for_initializer(&mut self, chunk: &mut Chunk) -> (res: Result<(), LoxError>)
        requires
            old(self).ready(),
            chunk_ok(*old(chunk)),
        ensures
            old(self).keeps(final(self)),
            chunk_extends(*old(chunk), *final(chunk)),
            res is Ok ==> final(self).scope_depth == old(self).scope_depth,
            old(self).linked() ==> match cg_for_init(old(self).stream(), old(self).gen(*old(chunk))) {
                Ok(g) => res is Ok && final(self).gen(*final(chunk)) == g,
                Err((g, e)) => res matches Err(x) && error_view(x) == compile_view(e) && final(self).gen(*final(chunk)) == g,
            },
        decreases old(self).measure(), 4nat,
    {
        proof {
            lemma_cg_for_init(self.stream(), self.gen(*chunk));
        }
        if self.match_(TokenType::Semicolon) {
        } else if self.match_(TokenType::Var) {
            self.var_decl(chunk)?;
        } else {
            self.expression_stmt(chunk)?;
        }
        Ok(())
    }

    /// The rest of a `for`, in its scope: the condition, the increment, the body; then
    /// the scope ends.
    #[verifier::rlimit(60)]
    fn for_rest(&mut self, chunk: &mut Chunk) -> (res: Result<(), LoxError>)
        requires
            old(self).ready(),
            old(self).scope_depth >= 1,
            chunk_ok(*old(chunk)),
        ensures
            old(self).keeps(final(self)),
            chunk_extends(*old(chunk), *final(chunk)),
            res is Ok ==> final(self).scope_depth == old(self).scope_depth - 1,
            old(self).linked() ==> match cg_for_loop(old(self).stream(), old(self).gen(*old(chunk))) {
                Ok(g) => res is Ok && final(self).gen(*final(chunk)) == g,
                Err((g, e)) => res matches Err(x) && error_view(x) == compile_view(e) && final(self).gen(*final(chunk)) == g,
            },
        decreases old(self).measure(), 4nat,
    {
        proof {
            lemma_cg_for_loop(self.stream(), self.gen(*chunk));
        }
        let mut loop_start = chunk.count();
        let mut exit_jump: Option<usize> = None;
        if !self.match_(TokenType::Semicolon) {
            self.expression(chunk)?;
            self.consume(TokenType::Semicolon, Expectation::SemicolonAfterLoopCondition)?;
            exit_jump = Some(self.emit_jump(chunk, OpCode::JumpIfFalse));
            self.emit_byte(chunk, OpCode::Pop.to_byte());
        }
        if !self.match_(TokenType::RightParen) {
            let increment_jump = self.emit_jump(chunk, OpCode::Jump);
            let increment_start = chunk.count();
            self.expression(chunk)?;
            self.emit_byte(chunk, OpCode::Pop.to_byte());
            self.consume(TokenType::RightParen, Expectation::RightParenAfterForClauses)?;
            self.emit_loop(chunk, loop_start)?;
            loop_start = increment_start;
            self.patch_jump(chunk, increment_jump)?;
        }
        self.stmt(chunk)?;
        self.emit_loop(chunk, loop_start)?;
        if let Some(exit) = exit_jump {
            self.patch_jump(chunk, exit)?;
            self.emit_byte(chunk, OpCode::Pop.to_byte());
        }
        self.end_scope(chunk);
        Ok(())
    }

    /// block -> declaration* '}'
    fn block(&mut self, chunk: &mut Chunk) -> (res: Result<(), LoxError>)
        requires
            old(self).ready(),
            chunk_ok(*old(chunk)),
        ensures
            old(self).keeps(final(self)),
            chunk_extends(*old(chunk), *final(chunk)),
            res is Ok ==> final(self).scope_depth == old(self).scope_depth,
            old(self).linked() ==> match cg_block(old(self).stream(), old(self).gen(*old(chunk))) {
                Ok(g) => res is Ok && final(self).gen(*final(chunk)) == g,
                Err((g, e)) => res matches Err(x) && error_view(x) == compile_view(e) && final(self).gen(*final(chunk)) == g,
            },
        decreases old(self).measure(), 8nat,
    {
        let ghost ts = self.stream();
        let ghost lk = self.linked();
        while !self.check(TokenType::RightBrace) && !self.check(TokenType::Eof)
            invariant
                self.ready(),
                old(self).keeps(self),
                chunk_extends(*old(chunk), *chunk),
                self.scope_depth == old(self).scope_depth,
                lk == old(self).linked(),
                ts == old(self).stream(),
                lk ==> cg_block(ts, old(self).gen(*old(chunk))) == cg_block(ts, self.gen(*chunk)),
            decreases self.measure(),
        {
            proof {
                lemma_cg_block(ts, self.gen(*chunk));
            }
            self.declaration(chunk)?;
        }
        proof {
            lemma_cg_block(ts, self.gen(*chunk));
        }
        self.consume(TokenType::RightBrace, Expectation::RightBraceAfterBlock)?;
        Ok(())
    }
}

// Expressions.
impl Compiler {
    /// expression -> assignment, parsed at the weakest precedence that still binds.
    fn expression(&mut self, chunk: &mut Chunk) -> (res: Result<(), LoxError>)
        requires
            old(self).wf(),
            chunk_ok(*old(chunk)),
        ensures
            old(self).keeps(final(self)),
            old(self).consumed(final(self)),
            old(self).same_scope(final(self)),
            chunk_extends(*old(chunk), *final(chunk)),
            old(self).linked() ==> match cg_expression(old(self).stream(), old(self).gen(*old(chunk))) {
                Ok(g) => res is Ok && final(self).gen(*final(chunk)) == g,
                Err((g, e)) => res matches Err(x) && error_view(x) == compile_view(e) && final(self).gen(*final(chunk)) == g,
            },
        decreases old(self).measure(), 2nat,
    {
        proof {
            lemma_cg_expression(self.stream(), self.gen(*chunk));
        }
        self.parse_precedence(chunk, Precedence::Assignment)
    }

    /// Parses an expression whose operators bind at least as strongly as `prec`: the
    /// prefix rule of the first token, then, while the lookahead's rule binds at least as
    /// strongly as `prec`, its infix rule. A trailing `=` where assignment was allowed but
    /// nothing was assigned to is an error.
    fn parse_precedence(&mut self, chunk: &mut Chunk, prec: Precedence) -> (res: Result<(), LoxError>)
        requires
            old(self).wf(),
            chunk_ok(*old(chunk)),
        ensures
            old(self).keeps(final(self)),
            old(self).consumed(final(self)),
            old(self).same_scope(final(self)),
            chunk_extends(*old(chunk), *final(chunk)),
            spec_parse_rule(old(self).current_typ()).0 is None ==> res == Err::<(), LoxError>(LoxError::CompileError {
                reason: CompileErrorKind::ExpectExpression,
                lexeme: old(self).current->0.lexeme,
                line: old(self).current->0.line,
            }),
            old(self).linked() ==> match cg_precedence(old(self).stream(), old(self).gen(*old(chunk)), prec) {
                Ok(g) => res is Ok && final(self).gen(*final(chunk)) == g,
                Err((g, e)) => res matches Err(x) && error_view(x) == compile_view(e) && final(self).gen(*final(chunk)) == g,
            },
        decreases old(self).measure(), 1nat,
    {
        let ghost ts = self.stream();
        let ghost g0 = self.gen(*chunk);
        let ghost lk = self.linked();
        proof {
            lemma_cg_precedence(ts, g0, prec);
        }
        self.advance();
        let prefix_rule = get_parse_rule(self.get_previous_token().typ).prefix;
        let pft = match prefix_rule {
            Some(p) => p,
            None => {
                return Err(self.error_at(CompileErrorKind::ExpectExpression, self.get_previous_token()));
            },
        };
        let can_assign = prec.at_most(&Precedence::Assignment);
        self.run_parse_fn(chunk, pft, can_assign)?;
        while prec.at_most(&get_parse_rule(self.get_current_token().typ).precedence)
            invariant
                self.ready(),
                old(self).keeps(self),
                old(self).consumed(self),
                old(self).same_scope(self),
                chunk_extends(*old(chunk), *chunk),
                spec_parse_rule(old(self).current_typ()).0 is Some,
                lk == old(self).linked(),
                ts == old(self).stream(),
                g0 == old(self).gen(*old(chunk)),
                can_assign == (prec.spec_rank() <= Precedence::Assignment.spec_rank()),
                lk ==> g0.pos < self.pos@,
                lk ==> cg_precedence(ts, g0, prec) == equal_refused(ts, cg_infix(ts, self.gen(*chunk), prec, can_assign), can_assign),
            decreases self.measure(),
        {
            let ghost cur = self.gen(*chunk);
            proof {
                lemma_cg_infix(ts, cur, prec, can_assign);
            }
            self.advance();
            let infix_rule = get_parse_rule(self.get_previous_token().typ).infix;
            let ift = match infix_rule {
                Some(i) => i,
                None => {
                    return Err(self.error_at(CompileErrorKind::ExpectExpression, self.get_previous_token()));
                },
            };
            self.run_parse_fn(chunk, ift, can_assign)?;
        }
        proof {
            lemma_cg_infix(ts, self.gen(*chunk), prec, can_assign);
        }
        if can_assign && self.match_(TokenType::Equal) {
            return Err(self.error_at(CompileErrorKind::InvalidAssignmentTarget, self.get_previous_token()));
        }
        Ok(())
    }

    /// Runs the parse function `typ` on the token just consumed.
    fn run_parse_fn(&mut self, chunk: &mut Chunk, typ: ParseFnType, can_assign: bool) -> (res: Result<(), LoxError>)
        requires
            old(self).ready(),
            chunk_ok(*old(chunk)),
        ensures
            old(self).keeps(final(self)),
            old(self).same_scope(final(self)),
            chunk_extends(*old(chunk), *final(chunk)),
            old(self).linked() ==> match cg_parse_fn(old(self).stream(), old(self).gen(*old(chunk)), typ, can_assign) {
                Ok(g) => res is Ok && final(self).gen(*final(chunk)) == g,
                Err((g, e)) => res matches Err(x) && error_view(x) == compile_view(e) && final(self).gen(*final(chunk)) == g,
            },
        decreases old(self).measure(), 5nat,
    {
        proof {
            lemma_cg_parse_fn(self.stream(), self.gen(*chunk), typ, can_assign);
        }
        match typ {
            ParseFnType::Grouping => self.grouping(chunk),
            ParseFnType::Unary => self.unary(chunk),
            ParseFnType::Binary => self.binary(chunk),
            ParseFnType::Number => self.number(chunk),
            ParseFnType::Literal => self.literal(chunk),
            ParseFnType::String => self.string(chunk),
            ParseFnType::Variable => self.variable(chunk, can_assign),
            ParseFnType::And => self.and_(chunk),
            ParseFnType::Or => self.or_(chunk),
        }
    }

    /// grouping -> '(' expression ')'
    fn grouping(&mut self, chunk: &mut Chunk) -> (res: Result<(), LoxError>)
        requires
            old(self).ready(),
            chunk_ok(*old(chunk)),
        ensures
            old(self).keeps(final(self)),
            old(self).same_scope(final(self)),
            chunk_extends(*old(chunk), *final(chunk)),
            old(self).linked() ==> match cg_grouping(old(self).stream(), old(self).gen(*old(chunk))) {
                Ok(g) => res is Ok && final(self).gen(*final(chunk)) == g,
                Err((g, e)) => res matches Err(x) && error_view(x) == compile_view(e) && final(self).gen(*final(chunk)) == g,
            },
        decreases old(self).measure(), 3nat,
    {
        proof {
            lemma_cg_grouping(self.stream(), self.gen(*chunk));
        }
        self.expression(chunk)?;
        self.consume(TokenType::RightParen, Expectation::RightParenAfterExpression)?;
        Ok(())
    }

    /// unary -> ('-' | '!') expression: the operand, a whole expression, then `Negate` or `Not`.
    fn unary(&mut self, chunk: &mut Chunk) -> (res: Result<(), LoxError>)
        requires
            old(self).ready(),
            chunk_ok(*old(chunk)),
        ensures
            old(self).keeps(final(self)),
            old(self).same_scope(final(self)),
            chunk_extends(*old(chunk), *final(chunk)),
            res is Ok && old(self).previous->0.typ == TokenType::Minus ==> ends_with(final(chunk).code@, seq![OpCode::Negate.spec_byte()]),
            res is Ok && old(self).previous->0.typ == TokenType::Bang ==> ends_with(final(chunk).code@, seq![OpCode::Not.spec_byte()]),
            res is Ok ==> old(self).previous->0.typ == TokenType::Minus || old(self).previous->0.typ == TokenType::Bang,
            old(self).linked() ==> match cg_unary(old(self).stream(), old(self).gen(*old(chunk))) {
                Ok(g) => res is Ok && final(self).gen(*final(chunk)) == g,
                Err((g, e)) => res matches Err(x) && error_view(x) == compile_view(e) && final(self).gen(*final(chunk)) == g,
            },
        decreases old(self).measure(), 3nat,
    {
        proof {
            lemma_cg_unary(self.stream(), self.gen(*chunk));
        }
        let t = self.get_previous_token().duplicate();
        self.expression(chunk)?;
        let ghost before = chunk.code@;
        proof {
            lemma_ends_with_push(before, OpCode::Negate.spec_byte());
            lemma_ends_with_push(before, OpCode::Not.spec_byte());
        }
        match t.typ {
            TokenType::Minus => self.emit_byte(chunk, OpCode::Negate.to_byte()),
            TokenType::Bang => self.emit_byte(chunk, OpCode::Not.to_byte()),
            _ => {
                return Err(self.error_at(CompileErrorKind::InvalidUnary, &t));
            },
        }
        Ok(())
    }

    /// binary -> operand operator operand: the right operand, parsed one level stronger
    /// than the operator, then the operator's code.
    fn binary(&mut self, chunk: &mut Chunk) -> (res: Result<(), LoxError>)
        requires
            old(self).ready(),
            chunk_ok(*old(chunk)),
        ensures
            old(self).keeps(final(self)),
            old(self).same_scope(final(self)),
            chunk_extends(*old(chunk), *final(chunk)),
            res is Ok ==> (binary_code(old(self).previous->0.typ) matches Some(code) && ends_with(final(chunk).code@, code)),
            old(self).linked() ==> match cg_binary(old(self).stream(), old(self).gen(*old(chunk))) {
                Ok(g) => res is Ok && final(self).gen(*final(chunk)) == g,
                Err((g, e)) => res matches Err(x) && error_view(x) == compile_view(e) && final(self).gen(*final(chunk)) == g,
            },
        decreases old(self).measure(), 3nat,
    {
        proof {
            lemma_cg_binary(self.stream(), self.gen(*chunk));
        }
        let t = self.get_previous_token().duplicate();
        let rule = get_parse_rule(t.typ);
        self.parse_precedence(chunk, rule.precedence.higher())?;
        match t.typ {
            TokenType::Plus => self.emit_byte(chunk, OpCode::Add.to_byte()),
            TokenType::Minus => self.emit_byte(chunk, OpCode::Subtract.to_byte()),
            TokenType::Star => self.emit_byte(chunk, OpCode::Multiply.to_byte()),
            TokenType::Slash => self.emit_byte(chunk, OpCode::Divide.to_byte()),
            TokenType::BangEqual => self.emit_bytes(chunk, OpCode::Equal.to_byte(), OpCode::Not.to_byte()),
            TokenType::EqualEqual => self.emit_byte(chunk, OpCode::Equal.to_byte()),
            TokenType::Greater => self.emit_byte(chunk, OpCode::Greater.to_byte()),
            TokenType::GreaterEqual => self.emit_bytes(chunk, OpCode::Less.to_byte(), OpCode::Not.to_byte()),
            TokenType::Less => self.emit_byte(chunk, OpCode::Less.to_byte()),
            TokenType::LessEqual => self.emit_bytes(chunk, OpCode::Greater.to_byte(), OpCode::Not.to_byte()),
            _ => {
                return Err(self.error_at(CompileErrorKind::InvalidBinary, &t));
            },
        }
        proof {
            let c = final(chunk).code@;
            assert(c.subrange(c.len() - 1, c.len() as int) =~= seq![c.last()]);
            assert(c.len() >= 2 ==> c.subrange(c.len() - 2, c.len() as int) =~= seq![c[c.len() - 2], c.last()]);
        }
        Ok(())
    }

    /// number: a `Constant` holding the literal's text.
    fn number(&mut self, chunk: &mut Chunk) -> (res: Result<(), LoxError>)
        requires
            old(self).ready(),
            chunk_ok(*old(chunk)),
        ensures
            *final(self) == *old(self),
            chunk_extends(*old(chunk), *final(chunk)),
            res is Ok <==> old(chunk).constants@.len() < MAX_CONSTANT_LENGTH,
            res is Ok ==> final(chunk).constants@ == old(chunk).constants@.push(Constant::Number(old(self).previous->0.lexeme))
                && final(chunk).code@ == old(chunk).code@.push(OpCode::Constant.spec_byte()).push(old(chunk).constants@.len() as u8),
            old(self).linked() ==> match constant_emitted(old(self).stream(), old(self).gen(*old(chunk)), (true, old(self).stream()[old(self).prev@ as int].1)) {
                Ok(g) => res is Ok && final(self).gen(*final(chunk)) == g,
                Err((g, e)) => res matches Err(x) && error_view(x) == compile_view(e) && final(self).gen(*final(chunk)) == g,
            },
    {
        let text = self.get_previous_token().lexeme.clone();
        self.emit_constant(chunk, Constant::Number(text))
    }

    /// string: a `Constant` holding the literal without its quotes.
    fn string(&mut self, chunk: &mut Chunk) -> (res: Result<(), LoxError>)
        requires
            old(self).ready(),
            chunk_ok(*old(chunk)),
        ensures
            *final(self) == *old(self),
            chunk_extends(*old(chunk), *final(chunk)),
            res is Ok <==> old(chunk).constants@.len() < MAX_CONSTANT_LENGTH,
            res is Ok ==> final(chunk).constants@.len() == old(chunk).constants@.len() + 1
                && (final(chunk).constants@.last() matches Constant::String(s) && s@ == trim_quotes(old(self).previous->0.lexeme@))
                && final(chunk).code@ == old(chunk).code@.push(OpCode::Constant.spec_byte()).push(old(chunk).constants@.len() as u8),
            old(self).linked() ==> match constant_emitted(old(self).stream(), old(self).gen(*old(chunk)), (false, trim_quotes(old(self).stream()[old(self).prev@ as int].1))) {
                Ok(g) => res is Ok && final(self).gen(*final(chunk)) == g,
                Err((g, e)) => res matches Err(x) && error_view(x) == compile_view(e) && final(self).gen(*final(chunk)) == g,
            },
    {
        let text = trim_quotes_of(self.get_previous_token().lexeme.as_str());
        self.emit_constant(chunk, Constant::String(text))
    }

    /// literal: `False`, `True` or `Nil`.
    fn literal(&mut self, chunk: &mut Chunk) -> (res: Result<(), LoxError>)
        requires
            old(self).ready(),
            chunk_ok(*old(chunk)),
        ensures
            *final(self) == *old(self),
            chunk_extends(*old(chunk), *final(chunk)),
            old(self).previous->0.typ == TokenType::False ==> res is Ok && final(chunk).code@ == old(chunk).code@.push(OpCode::False.spec_byte()),
            old(self).previous->0.typ == TokenType::True ==> res is Ok && final(chunk).code@ == old(chunk).code@.push(OpCode::True.spec_byte()),
            old(self).previous->0.typ == TokenType::Nil ==> res is Ok && final(chunk).code@ == old(chunk).code@.push(OpCode::Nil.spec_byte()),
            res is Ok ==> old(self).previous->0.typ == TokenType::False || old(self).previous->0.typ == TokenType::True
                || old(self).previous->0.typ == TokenType::Nil,
            old(self).linked() ==> match cg_literal(old(self).stream(), old(self).gen(*old(chunk))) {
                Ok(g) => res is Ok && final(self).gen(*final(chunk)) == g,
                Err((g, e)) => res matches Err(x) && error_view(x) == compile_view(e) && final(self).gen(*final(chunk)) == g,
            },
    {
        let t = self.get_previous_token();
        match t.typ {
            TokenType::False => self.emit_byte(chunk, OpCode::False.to_byte()),
            TokenType::True => self.emit_byte(chunk, OpCode::True.to_byte()),
            TokenType::Nil => self.emit_byte(chunk, OpCode::Nil.to_byte()),
            _ => {
                return Err(self.error_at(CompileErrorKind::InvalidLiteral, t));
            },
        }
        Ok(())
    }

    /// variable: a read of the variable named by the token just consumed, or an
    /// assignment to it when assignment is allowed and `=` follows.
    fn variable(&mut self, chunk: &mut Chunk, can_assign: bool) -> (res: Result<(), LoxError>)
        requires
            old(self).ready(),
            chunk_ok(*old(chunk)),
        ensures
            old(self).keeps(final(self)),
            old(self).same_scope(final(self)),
            chunk_extends(*old(chunk), *final(chunk)),
            old(self).linked() ==> match cg_named_var(old(self).stream(), old(self).gen(*old(chunk)), old(self).stream()[old(self).prev@ as int].1, can_assign) {
                Ok(g) => res is Ok && final(self).gen(*final(chunk)) == g,
                Err((g, e)) => res matches Err(x) && error_view(x) == compile_view(e) && final(self).gen(*final(chunk)) == g,
            },
        decreases old(self).measure(), 4nat,
    {
        let name = self.get_previous_token().duplicate();
        self.named_var(chunk, name, can_assign)
    }

    /// A local is read with `GetLocal` and its slot (written with `SetLocal`), a global
    /// with `GetGlobal` and its name's constant (written with `SetGlobal`).
    fn named_var(&mut self, chunk: &mut Chunk, name: Token, can_assign: bool) -> (res: Result<(), LoxError>)
        requires
            old(self).ready(),
            chunk_ok(*old(chunk)),
            name == old(self).previous->0,
        ensures
            old(self).keeps(final(self)),
            old(self).same_scope(final(self)),
            chunk_extends(*old(chunk), *final(chunk)),
            res is Ok ==> (innermost_local(old(self).locals@, name.lexeme@) matches Some(i)
                ==> (ends_with(final(chunk).code@, seq![OpCode::GetLocal.spec_byte(), i as u8])
                    || ends_with(final(chunk).code@, seq![OpCode::SetLocal.spec_byte(), i as u8]))),
            old(self).linked() ==> match cg_named_var(old(self).stream(), old(self).gen(*old(chunk)), name.lexeme@, can_assign) {
                Ok(g) => res is Ok && final(self).gen(*final(chunk)) == g,
                Err((g, e)) => res matches Err(x) && error_view(x) == compile_view(e) && final(self).gen(*final(chunk)) == g,
            },
        decreases old(self).measure(), 3nat,
    {
        proof {
            lemma_cg_named_var(self.stream(), self.gen(*chunk), name.lexeme@, can_assign);
            lemma_locals_view_lookups(self.locals@, 0, name.lexeme@);
            lemma_innermost_local_bound(self.locals@, name.lexeme@);
        }
        let get_op: OpCode;
        let set_op: OpCode;
        let index: u8;
        match self.resolve_local(&name)? {
            Some(i) => {
                index = i;
                get_op = OpCode::GetLocal;
                set_op = OpCode::SetLocal;
            },
            None => {
                index = self.add_constant(chunk, Constant::String(name.lexeme))?;
                get_op = OpCode::GetGlobal;
                set_op = OpCode::SetGlobal;
            },
        }
        if can_assign && self.match_(TokenType::Equal) {
            self.expression(chunk)?;
            self.emit_bytes(chunk, set_op.to_byte(), index);
        } else {
            self.emit_bytes(chunk, get_op.to_byte(), index);
        }
        proof {
            let c = final(chunk).code@;
            assert(c.subrange(c.len() - 2, c.len() as int) =~= seq![c[c.len() - 2], c.last()]);
        }
        Ok(())
    }

    /// and: when the left operand is false it is the result; else it is popped and the
    /// right operand is the result.
    fn and_(&mut self, chunk: &mut Chunk) -> (res: Result<(), LoxError>)
        requires
            old(self).ready(),
            chunk_ok(*old(chunk)),
        ensures
            old(self).keeps(final(self)),
            old(self).same_scope(final(self)),
            chunk_extends(*old(chunk), *final(chunk)),
            old(self).linked() ==> match cg_and(old(self).stream(), old(self).gen(*old(chunk))) {
                Ok(g) => res is Ok && final(self).gen(*final(chunk)) == g,
                Err((g, e)) => res matches Err(x) && error_view(x) == compile_view(e) && final(self).gen(*final(chunk)) == g,
            },
        decreases old(self).measure(), 3nat,
    {
        proof {
            lemma_cg_and(self.stream(), self.gen(*chunk));
        }
        let end_jump = self.emit_jump(chunk, OpCode::JumpIfFalse);
        self.emit_byte(chunk, OpCode::Pop.to_byte());
        self.parse_precedence(chunk, Precedence::And)?;
        self.patch_jump(chunk, end_jump)?;
        Ok(())
    }

    /// or: when the left operand is true it is the result; else it is popped and the
    /// right operand is the result.
    fn or_(&mut self, chunk: &mut Chunk) -> (res: Result<(), LoxError>)
        requires
            old(self).ready(),
            chunk_ok(*old(chunk)),
        ensures
            old(self).keeps(final(self)),
            old(self).same_scope(final(self)),
            chunk_extends(*old(chunk), *final(chunk)),
            old(self).linked() ==> match cg_or(old(self).stream(), old(self).gen(*old(chunk))) {
                Ok(g) => res is Ok && final(self).gen(*final(chunk)) == g,
                Err((g, e)) => res matches Err(x) && error_view(x) == compile_view(e) && final(self).gen(*final(chunk)) == g,
            },
        decreases old(self).measure(), 3nat,
    {
        proof {
            lemma_cg_or(self.stream(), self.gen(*chunk));
        }
        let else_jump = self.emit_jump(chunk, OpCode::JumpIfFalse);
        let end_jump = self.emit_jump(chunk, OpCode::Jump);
        self.patch_jump(chunk, else_jump)?;
        self.emit_byte(chunk, OpCode::Pop.to_byte());
        self.parse_precedence(chunk, Precedence::Or)?;
        self.patch_jump(chunk, end_jump)?;
        Ok(())
    }
}

/// `s` without the double quotes at either end.
pub fn trim_quotes_of(s: &str) -> (res: String)
    ensures
        res@ == trim_quotes(s@),
{
    let chars = chars_of(s);
    let mut start: usize = 0;
    assert(chars@.subrange(0, chars@.len() as int) =~= chars@);
    while start < chars.len() && chars[start] == '"'
        invariant
            start <= chars@.len(),
            trim_start_quotes(chars@.subrange(start as int, chars@.len() as int)) == trim_start_quotes(chars@),
        decreases chars@.len() - start,
    {
        assert(chars@.subrange(start as int, chars@.len() as int).drop_first() =~= chars@.subrange(start + 1, chars@.len() as int));
        start += 1;
    }
    let mut end: usize = chars.len();
    assert(trim_start_quotes(chars@) == chars@.subrange(start as int, end as int));
    while end > start && chars[end - 1] == '"'
        invariant
            start <= end <= chars@.len(),
            trim_end_quotes(chars@.subrange(start as int, end as int)) == trim_quotes(chars@),
        decreases end,
    {
        assert(chars@.subrange(start as int, end as int).drop_last() =~= chars@.subrange(start as int, end - 1));
        end -= 1;
    }
    string_from(&chars, start, end)
}

} // verus!
