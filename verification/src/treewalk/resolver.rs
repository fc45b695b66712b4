use vstd::prelude::*;

use crate::memory::{entries_map, find_entry, has_key, keys_unique, lemma_entries_map_at, lemma_entries_map_push,
    lemma_entries_map_update};
use crate::token::Token;
use crate::treewalk::ast::{Expr, FunctionStmtData, Stmt};

verus! {

/// The kind of function whose body is being resolved.
#[derive(Clone, Copy, Debug, PartialEq, Eq, Structural)]
pub enum FunctionType {
    NoFunction,
    Function,
    Method,
}

/// Whether a class body is being resolved.
#[derive(Clone, Copy, Debug, PartialEq, Eq, Structural)]
pub enum ClassType {
    NoClass,
    Class,
}

/// Why the resolver rejected the program.
#[derive(Clone, Debug)]
pub enum ResolveError {
    /// A second declaration of this name in one local scope.
    AlreadyDeclared(Token),
    /// A `return` outside of any function.
    ReturnAtTopLevel,
    /// A `this` outside of any class.
    ThisOutsideClass,
    /// A local variable read in its own initializer.
    ReadInOwnInitializer,
}

/// The resolver's state: the local scopes, innermost last, each mapping a name to whether
/// its declaration is complete; the resolutions made so far, in order (a variable token
/// and the number of scopes between its use and its declaration); and what is enclosing.
#[verifier::ext_equal]
pub struct ResolverView {
    pub scopes: Seq<Map<Seq<char>, bool>>,
    pub log: Seq<(Token, usize)>,
    pub function_type: FunctionType,
    pub class_type: ClassType,
}

/// How many scopes out from the innermost the innermost scope declaring `name` is.
pub open spec fn local_depth(scopes: Seq<Map<Seq<char>, bool>>, name: Seq<char>) -> Option<nat>
    decreases scopes.len(),
{
    if scopes.len() == 0 {
        None
    } else if scopes.last().contains_key(name) {
        Some(0)
    } else {
        match local_depth(scopes.drop_last(), name) {
            Some(d) => Some(d + 1),
            None => None,
        }
    }
}

/// The depth of a name counts the scopes out to the innermost one that declares it: that
/// scope has it and none inside it does; with no depth, no scope has it.
pub proof fn lemma_local_depth_bound(scopes: Seq<Map<Seq<char>, bool>>, name: Seq<char>)
    ensures
        local_depth(scopes, name) matches Some(d) ==> d < scopes.len(),
        local_depth(scopes, name) matches Some(d) ==> scopes[scopes.len() - 1 - d].contains_key(name)
            && forall|j: int| scopes.len() - 1 - d < j < scopes.len() ==> !#[trigger] scopes[j].contains_key(name),
        local_depth(scopes, name) is None ==> forall|j: int| 0 <= j < scopes.len() ==> !#[trigger] scopes[j].contains_key(name),
    decreases scopes.len(),
{
    if scopes.len() > 0 && !scopes.last().contains_key(name) {
        let inner = scopes.drop_last();
        lemma_local_depth_bound(inner, name);
        match local_depth(inner, name) {
            Some(d0) => {
                let d = d0 + 1;
                assert(scopes[scopes.len() - 1 - d] == inner[inner.len() - 1 - d0]);
                assert forall|j: int| scopes.len() - 1 - d < j < scopes.len() implies !#[trigger] scopes[j].contains_key(name) by {
                    if j < scopes.len() - 1 {
                        assert(scopes[j] == inner[j]);
                        assert(!inner[j].contains_key(name));
                    }
                }
            },
            None => {
                assert forall|j: int| 0 <= j < scopes.len() implies !#[trigger] scopes[j].contains_key(name) by {
                    if j < scopes.len() - 1 {
                        assert(scopes[j] == inner[j]);
                        assert(!inner[j].contains_key(name));
                    }
                }
            },
        }
    }
}

impl ResolverView {
    /// A new innermost scope.
    pub open spec fn begin_scope(self) -> ResolverView {
        ResolverView { scopes: self.scopes.push(Map::empty()), ..self }
    }

    /// Without the innermost scope, if there is one.
    pub open spec fn end_scope(self) -> ResolverView {
        if self.scopes.len() == 0 {
            self
        } else {
            ResolverView { scopes: self.scopes.drop_last(), ..self }
        }
    }

    /// `name` entered in the innermost scope (if any) as declared or defined.
    pub open spec fn mark(self, name: Seq<char>, defined: bool) -> ResolverView {
        if self.scopes.len() == 0 {
            self
        } else {
            ResolverView { scopes: self.scopes.update(self.scopes.len() - 1, self.scopes.last().insert(name, defined)), ..self }
        }
    }

    /// Declares `name` in the innermost scope, where it must be new.
    pub open spec fn declare(self, name: Token) -> Result<ResolverView, ResolveError> {
        if self.scopes.len() > 0 && self.scopes.last().contains_key(name.lexeme@) {
            Err(ResolveError::AlreadyDeclared(name))
        } else {
            Ok(self.mark(name.lexeme@, false))
        }
    }

    /// Resolves the use `token` to the innermost local scope that has its name; a global
    /// (no scope has it) is not recorded.
    pub open spec fn resolve_local(self, token: Token) -> ResolverView {
        match local_depth(self.scopes, token.lexeme@) {
            Some(d) => ResolverView { log: self.log.push((token, d as usize)), ..self },
            None => self,
        }
    }
}

/// Resolves expression `e`.
pub open spec fn resolve_expr(st: ResolverView, e: Expr) -> Result<ResolverView, ResolveError>
    decreases e, 0nat,
{
    match e {
        Expr::Assign(d) => match resolve_expr(st, *d.value) {
            Ok(s1) => Ok(s1.resolve_local(d.name)),
            Err(err) => Err(err),
        },
        Expr::Binary(d) => match resolve_expr(st, *d.left) {
            Ok(s1) => resolve_expr(s1, *d.right),
            Err(err) => Err(err),
        },
        Expr::Call(d) => match resolve_expr(st, *d.callee) {
            Ok(s1) => resolve_exprs(s1, d.arguments@),
            Err(err) => Err(err),
        },
        Expr::Get(d) => resolve_expr(st, *d.object),
        Expr::Grouping(d) => resolve_expr(st, *d.expression),
        Expr::Literal(_) => Ok(st),
        Expr::Logical(d) => match resolve_expr(st, *d.left) {
            Ok(s1) => resolve_expr(s1, *d.right),
            Err(err) => Err(err),
        },
        Expr::SetField(d) => match resolve_expr(st, *d.value) {
            Ok(s1) => resolve_expr(s1, *d.object),
            Err(err) => Err(err),
        },
        Expr::Super(_) => Ok(st),
        Expr::This(d) => if st.class_type == ClassType::NoClass {
            Err(ResolveError::ThisOutsideClass)
        } else {
            Ok(st.resolve_local(d.keyword))
        },
        Expr::Unary(d) => resolve_expr(st, *d.right),
        Expr::Variable(d) => if st.scopes.len() > 0 && st.scopes.last().contains_key(d.name.lexeme@)
            && st.scopes.last()[d.name.lexeme@] == false {
            Err(ResolveError::ReadInOwnInitializer)
        } else {
            Ok(st.resolve_local(d.name))
        },
    }
}

/// Resolves the expressions `es` in order.
pub open spec fn resolve_exprs(st: ResolverView, es: Seq<Expr>) -> Result<ResolverView, ResolveError>
    decreases es, 1nat,
{
    if es.len() == 0 {
        Ok(st)
    } else {
        match resolve_expr(st, es[0]) {
            Ok(s1) => resolve_exprs(s1, es.subrange(1, es.len() as int)),
            Err(err) => Err(err),
        }
    }
}

/// Declares and defines the parameters `params` in order.
pub open spec fn declare_params(st: ResolverView, params: Seq<Token>) -> Result<ResolverView, ResolveError>
    decreases params.len(),
{
    if params.len() == 0 {
        Ok(st)
    } else {
        match st.declare(params[0]) {
            Ok(s1) => declare_params(s1.mark(params[0].lexeme@, true), params.subrange(1, params.len() as int)),
            Err(err) => Err(err),
        }
    }
}

/// Resolves statement `s`.
pub open spec fn resolve_stmt(st: ResolverView, s: Stmt) -> Result<ResolverView, ResolveError>
    decreases s, 0nat,
{
    match s {
        Stmt::Block(d) => match resolve_stmts(st.begin_scope(), d.statements@) {
            Ok(s1) => Ok(s1.end_scope()),
            Err(err) => Err(err),
        },
        Stmt::Class(d) => match (ResolverView { class_type: ClassType::Class, ..st }).declare(d.name) {
            Ok(s1) => {
                let s2 = s1.mark(d.name.lexeme@, true).begin_scope().mark(seq!['t', 'h', 'i', 's'], true);
                match resolve_methods(s2, d.methods@) {
                    Ok(s3) => Ok(ResolverView { class_type: st.class_type, ..s3.end_scope() }),
                    Err(err) => Err(err),
                }
            },
            Err(err) => Err(err),
        },
        Stmt::Expression(d) => resolve_expr(st, d.expression),
        Stmt::Function(d) => match st.declare(d.name) {
            Ok(s1) => resolve_function(s1.mark(d.name.lexeme@, true), d, FunctionType::Function),
            Err(err) => Err(err),
        },
        Stmt::If(d) => match resolve_expr(st, d.condition) {
            Ok(s1) => match resolve_branch(s1, d.then_branch) {
                Ok(s2) => resolve_branch(s2, d.else_branch),
                Err(err) => Err(err),
            },
            Err(err) => Err(err),
        },
        Stmt::Print(d) => resolve_expr(st, d.expression),
        Stmt::Return(d) => if st.function_type == FunctionType::NoFunction {
            Err(ResolveError::ReturnAtTopLevel)
        } else {
            match d.value {
                Some(v) => resolve_expr(st, v),
                None => Ok(st),
            }
        },
        Stmt::Variable(d) => match st.declare(d.name) {
            Ok(s1) => match d.initializer {
                Some(v) => match resolve_expr(s1, v) {
                    Ok(s2) => Ok(s2.mark(d.name.lexeme@, true)),
                    Err(err) => Err(err),
                },
                None => Ok(s1.mark(d.name.lexeme@, true)),
            },
            Err(err) => Err(err),
        },
        Stmt::While(d) => match resolve_expr(st, d.condition) {
            Ok(s1) => resolve_branch(s1, d.body),
            Err(err) => Err(err),
        },
    }
}

/// Resolves an optional branch.
pub open spec fn resolve_branch(st: ResolverView, b: Option<Box<Stmt>>) -> Result<ResolverView, ResolveError>
    decreases b, 1nat,
{
    match b {
        Some(s) => resolve_stmt(st, *s),
        None => Ok(st),
    }
}

/// Resolves the statements `ss` in order.
pub open spec fn resolve_stmts(st: ResolverView, ss: Seq<Stmt>) -> Result<ResolverView, ResolveError>
    decreases ss, 1nat,
{
    if ss.len() == 0 {
        Ok(st)
    } else {
        match resolve_stmt(st, ss[0]) {
            Ok(s1) => resolve_stmts(s1, ss.subrange(1, ss.len() as int)),
            Err(err) => Err(err),
        }
    }
}

/// Resolves the methods of a class: the function declarations among `ms`, in order.
pub open spec fn resolve_methods(st: ResolverView, ms: Seq<Stmt>) -> Result<ResolverView, ResolveError>
    decreases ms, 1nat,
{
    if ms.len() == 0 {
        Ok(st)
    } else {
        let rest = ms.subrange(1, ms.len() as int);
        match ms[0] {
            Stmt::Function(fd) => match resolve_function(st, fd, FunctionType::Method) {
                Ok(s1) => resolve_methods(s1, rest),
                Err(err) => Err(err),
            },
            _ => resolve_methods(st, rest),
        }
    }
}

/// Resolves a function of kind `kind`: its parameters and body in a scope of their own.
pub open spec fn resolve_function(st: ResolverView, d: FunctionStmtData, kind: FunctionType) -> Result<ResolverView, ResolveError>
    decreases *d.body, 1nat,
{
    let s1 = ResolverView { function_type: kind, ..st.begin_scope() };
    match declare_params(s1, d.params@) {
        Ok(s2) => match resolve_stmt(s2, *d.body) {
            Ok(s3) => Ok(ResolverView { function_type: st.function_type, ..s3.end_scope() }),
            Err(err) => Err(err),
        },
        Err(err) => Err(err),
    }
}

/// `b` has the scopes of `a` (their number) and the same enclosing function and class.
pub open spec fn same_frame(a: ResolverView, b: ResolverView) -> bool {
    &&& b.scopes.len() == a.scopes.len()
    &&& b.function_type == a.function_type
    &&& b.class_type == a.class_type
}

/// Resolving an expression only records resolutions: the scopes and what is enclosing
/// stay as they were.
pub proof fn lemma_resolve_expr_frame(st: ResolverView, e: Expr)
    ensures
        resolve_expr(st, e) matches Ok(s2) ==> s2.scopes == st.scopes && same_frame(st, s2),
    decreases e, 0nat,
{
    match e {
        Expr::Assign(d) => lemma_resolve_expr_frame(st, *d.value),
        Expr::Binary(d) => {
            lemma_resolve_expr_frame(st, *d.left);
            if let Ok(s1) = resolve_expr(st, *d.left) {
                lemma_resolve_expr_frame(s1, *d.right);
            }
        },
        Expr::Call(d) => {
            lemma_resolve_expr_frame(st, *d.callee);
            if let Ok(s1) = resolve_expr(st, *d.callee) {
                lemma_resolve_exprs_frame(s1, d.arguments@);
            }
        },
        Expr::Get(d) => lemma_resolve_expr_frame(st, *d.object),
        Expr::Grouping(d) => lemma_resolve_expr_frame(st, *d.expression),
        Expr::Logical(d) => {
            lemma_resolve_expr_frame(st, *d.left);
            if let Ok(s1) = resolve_expr(st, *d.left) {
                lemma_resolve_expr_frame(s1, *d.right);
            }
        },
        Expr::SetField(d) => {
            lemma_resolve_expr_frame(st, *d.value);
            if let Ok(s1) = resolve_expr(st, *d.value) {
                lemma_resolve_expr_frame(s1, *d.object);
            }
        },
        Expr::Unary(d) => lemma_resolve_expr_frame(st, *d.right),
        _ => {},
    }
}

pub proof fn lemma_resolve_exprs_frame(st: ResolverView, es: Seq<Expr>)
    ensures
        resolve_exprs(st, es) matches Ok(s2) ==> s2.scopes == st.scopes && same_frame(st, s2),
    decreases es, 1nat,
{
    if es.len() > 0 {
        lemma_resolve_expr_frame(st, es[0]);
        if let Ok(s1) = resolve_expr(st, es[0]) {
            lemma_resolve_exprs_frame(s1, es.subrange(1, es.len() as int));
        }
    }
}

pub proof fn lemma_declare_params_frame(st: ResolverView, params: Seq<Token>)
    ensures
        declare_params(st, params) matches Ok(s2) ==> same_frame(st, s2),
    decreases params.len(),
{
    if params.len() > 0 {
        if let Ok(s1) = st.declare(params[0]) {
            lemma_declare_params_frame(s1.mark(params[0].lexeme@, true), params.subrange(1, params.len() as int));
        }
    }
}

/// Scopes are balanced: resolving a statement that resolves leaves as many scopes, and
/// the same enclosing function and class, as it found.
pub proof fn lemma_resolve_stmt_frame(st: ResolverView, s: Stmt)
    ensures
        resolve_stmt(st, s) matches Ok(s2) ==> same_frame(st, s2),
    decreases s, 0nat,
{
    match s {
        Stmt::Block(d) => lemma_resolve_stmts_frame(st.begin_scope(), d.statements@),
        Stmt::Class(d) => {
            if let Ok(s1) = (ResolverView { class_type: ClassType::Class, ..st }).declare(d.name) {
                let s2 = s1.mark(d.name.lexeme@, true).begin_scope().mark(seq!['t', 'h', 'i', 's'], true);
                lemma_resolve_methods_frame(s2, d.methods@);
            }
        },
        Stmt::Expression(d) => lemma_resolve_expr_frame(st, d.expression),
        Stmt::Function(d) => {
            if let Ok(s1) = st.declare(d.name) {
                lemma_resolve_function_frame(s1.mark(d.name.lexeme@, true), d, FunctionType::Function);
            }
        },
        Stmt::If(d) => {
            lemma_resolve_expr_frame(st, d.condition);
            if let Ok(s1) = resolve_expr(st, d.condition) {
                lemma_resolve_branch_frame(s1, d.then_branch);
                if let Ok(s2) = resolve_branch(s1, d.then_branch) {
                    lemma_resolve_branch_frame(s2, d.else_branch);
                }
            }
        },
        Stmt::Print(d) => lemma_resolve_expr_frame(st, d.expression),
        Stmt::Return(d) => {
            if let Some(v) = d.value {
                lemma_resolve_expr_frame(st, v);
            }
        },
        Stmt::Variable(d) => {
            if let Ok(s1) = st.declare(d.name) {
                if let Some(v) = d.initializer {
                    lemma_resolve_expr_frame(s1, v);
                }
            }
        },
        Stmt::While(d) => {
            lemma_resolve_expr_frame(st, d.condition);
            if let Ok(s1) = resolve_expr(st, d.condition) {
                lemma_resolve_branch_frame(s1, d.body);
            }
        },
    }
}

pub proof fn lemma_resolve_branch_frame(st: ResolverView, b: Option<Box<Stmt>>)
    ensures
        resolve_branch(st, b) matches Ok(s2) ==> same_frame(st, s2),
    decreases b, 1nat,
{
    if let Some(s) = b {
        lemma_resolve_stmt_frame(st, *s);
    }
}

pub proof fn lemma_resolve_stmts_frame(st: ResolverView, ss: Seq<Stmt>)
    ensures
        resolve_stmts(st, ss) matches Ok(s2) ==> same_frame(st, s2),
    decreases ss, 1nat,
{
    if ss.len() > 0 {
        lemma_resolve_stmt_frame(st, ss[0]);
        if let Ok(s1) = resolve_stmt(st, ss[0]) {
            lemma_resolve_stmts_frame(s1, ss.subrange(1, ss.len() as int));
        }
    }
}

pub proof fn lemma_resolve_methods_frame(st: ResolverView, ms: Seq<Stmt>)
    ensures
        resolve_methods(st, ms) matches Ok(s2) ==> same_frame(st, s2),
    decreases ms, 1nat,
{
    if ms.len() > 0 {
        let rest = ms.subrange(1, ms.len() as int);
        if let Stmt::Function(fd) = ms[0] {
            lemma_resolve_function_frame(st, fd, FunctionType::Method);
            if let Ok(s1) = resolve_function(st, fd, FunctionType::Method) {
                lemma_resolve_methods_frame(s1, rest);
            }
        } else {
            lemma_resolve_methods_frame(st, rest);
        }
    }
}

pub proof fn lemma_resolve_function_frame(st: ResolverView, d: FunctionStmtData, kind: FunctionType)
    ensures
        resolve_function(st, d, kind) matches Ok(s2) ==> same_frame(st, s2),
    decreases *d.body, 1nat,
{
    let s1 = ResolverView { function_type: kind, ..st.begin_scope() };
    lemma_declare_params_frame(s1, d.params@);
    if let Ok(s2) = declare_params(s1, d.params@) {
        lemma_resolve_stmt_frame(s2, *d.body);
    }
}

/// The name tokens that `e` uses, in the order they are evaluated: each variable read or
/// assigned and each `this`, wherever it stands in `e` (inside parentheses too).
pub open spec fn expr_uses(e: Expr) -> Seq<Token>
    decreases e, 0nat,
{
    match e {
        Expr::Assign(d) => expr_uses(*d.value).push(d.name),
        Expr::Binary(d) => expr_uses(*d.left) + expr_uses(*d.right),
        Expr::Call(d) => expr_uses(*d.callee) + exprs_uses(d.arguments@),
        Expr::Get(d) => expr_uses(*d.object),
        Expr::Grouping(d) => expr_uses(*d.expression),
        Expr::Literal(_) => Seq::empty(),
        Expr::Logical(d) => expr_uses(*d.left) + expr_uses(*d.right),
        Expr::SetField(d) => expr_uses(*d.value) + expr_uses(*d.object),
        Expr::Super(_) => Seq::empty(),
        Expr::This(d) => seq![d.keyword],
        Expr::Unary(d) => expr_uses(*d.right),
        Expr::Variable(d) => seq![d.name],
    }
}

/// The name tokens that the expressions `es` use, in order.
pub open spec fn exprs_uses(es: Seq<Expr>) -> Seq<Token>
    decreases es, 1nat,
{
    if es.len() == 0 {
        Seq::empty()
    } else {
        expr_uses(es[0]) + exprs_uses(es.subrange(1, es.len() as int))
    }
}

/// The resolutions that the uses `ts` give under `scopes`: each use of a name that a local
/// scope declares, with the number of scopes out to the innermost such scope, in order;
/// the uses of globals give none.
pub open spec fn recorded(scopes: Seq<Map<Seq<char>, bool>>, ts: Seq<Token>) -> Seq<(Token, usize)>
    decreases ts.len(),
{
    if ts.len() == 0 {
        Seq::empty()
    } else {
        (match local_depth(scopes, ts[0].lexeme@) {
            Some(d) => seq![(ts[0], d as usize)],
            None => Seq::empty(),
        }) + recorded(scopes, ts.subrange(1, ts.len() as int))
    }
}

proof fn lemma_recorded_append(scopes: Seq<Map<Seq<char>, bool>>, a: Seq<Token>, b: Seq<Token>)
    ensures
        recorded(scopes, a + b) == recorded(scopes, a) + recorded(scopes, b),
    decreases a.len(),
{
    if a.len() == 0 {
        assert(a + b =~= b);
        assert(recorded(scopes, a) + recorded(scopes, b) =~= recorded(scopes, b));
    } else {
        lemma_recorded_append(scopes, a.subrange(1, a.len() as int), b);
        assert((a + b).subrange(1, (a + b).len() as int) =~= a.subrange(1, a.len() as int) + b);
        assert((a + b)[0] == a[0]);
        let head = match local_depth(scopes, a[0].lexeme@) {
            Some(d) => seq![(a[0], d as usize)],
            None => Seq::<(Token, usize)>::empty(),
        };
        assert(head + (recorded(scopes, a.subrange(1, a.len() as int)) + recorded(scopes, b))
            =~= (head + recorded(scopes, a.subrange(1, a.len() as int))) + recorded(scopes, b));
    }
}

proof fn lemma_recorded_one(scopes: Seq<Map<Seq<char>, bool>>, t: Token)
    ensures
        recorded(scopes, seq![t]) == match local_depth(scopes, t.lexeme@) {
            Some(d) => seq![(t, d as usize)],
            None => Seq::<(Token, usize)>::empty(),
        },
{
    let ts = seq![t];
    let head = match local_depth(scopes, t.lexeme@) {
        Some(d) => seq![(t, d as usize)],
        None => Seq::<(Token, usize)>::empty(),
    };
    assert(ts[0] == t);
    assert(ts.subrange(1, 1) =~= Seq::<Token>::empty());
    assert(recorded(scopes, ts.subrange(1, 1)) == Seq::<(Token, usize)>::empty());
    assert(recorded(scopes, ts) == head + Seq::<(Token, usize)>::empty());
    assert(head + Seq::<(Token, usize)>::empty() =~= head);
}

/// Resolving an expression records each use in it of a local name, in order and with the
/// number of scopes out to its declaration, and nothing else: a use inside parentheses,
/// an operand or an argument is resolved as if it stood alone.
pub proof fn lemma_resolve_expr_records_uses(st: ResolverView, e: Expr)
    ensures
        resolve_expr(st, e) matches Ok(r) ==> r.log == st.log + recorded(st.scopes, expr_uses(e)),
    decreases e, 0nat,
{
    lemma_resolve_expr_frame(st, e);
    match e {
        Expr::Assign(d) => {
            lemma_resolve_expr_records_uses(st, *d.value);
            lemma_resolve_expr_frame(st, *d.value);
            lemma_recorded_append(st.scopes, expr_uses(*d.value), seq![d.name]);
            lemma_recorded_one(st.scopes, d.name);
            assert(expr_uses(*d.value).push(d.name) =~= expr_uses(*d.value) + seq![d.name]);
            if let Ok(s1) = resolve_expr(st, *d.value) {
                assert(s1.resolve_local(d.name).log =~= st.log + recorded(st.scopes, expr_uses(e)));
            }
        },
        Expr::Binary(d) => {
            lemma_resolve_expr_records_uses(st, *d.left);
            lemma_resolve_expr_frame(st, *d.left);
            lemma_recorded_append(st.scopes, expr_uses(*d.left), expr_uses(*d.right));
            if let Ok(s1) = resolve_expr(st, *d.left) {
                lemma_resolve_expr_records_uses(s1, *d.right);
                assert(st.log + recorded(st.scopes, expr_uses(e)) =~= s1.log + recorded(s1.scopes, expr_uses(*d.right)));
            }
        },
        Expr::Call(d) => {
            lemma_resolve_expr_records_uses(st, *d.callee);
            lemma_resolve_expr_frame(st, *d.callee);
            lemma_recorded_append(st.scopes, expr_uses(*d.callee), exprs_uses(d.arguments@));
            if let Ok(s1) = resolve_expr(st, *d.callee) {
                lemma_resolve_exprs_records_uses(s1, d.arguments@);
                assert(st.log + recorded(st.scopes, expr_uses(e)) =~= s1.log + recorded(s1.scopes, exprs_uses(d.arguments@)));
            }
        },
        Expr::Get(d) => lemma_resolve_expr_records_uses(st, *d.object),
        Expr::Grouping(d) => lemma_resolve_expr_records_uses(st, *d.expression),
        Expr::Literal(_) => {
            assert(st.log + recorded(st.scopes, Seq::empty()) =~= st.log);
        },
        Expr::Logical(d) => {
            lemma_resolve_expr_records_uses(st, *d.left);
            lemma_resolve_expr_frame(st, *d.left);
            lemma_recorded_append(st.scopes, expr_uses(*d.left), expr_uses(*d.right));
            if let Ok(s1) = resolve_expr(st, *d.left) {
                lemma_resolve_expr_records_uses(s1, *d.right);
                assert(st.log + recorded(st.scopes, expr_uses(e)) =~= s1.log + recorded(s1.scopes, expr_uses(*d.right)));
            }
        },
        Expr::SetField(d) => {
            lemma_resolve_expr_records_uses(st, *d.value);
            lemma_resolve_expr_frame(st, *d.value);
            lemma_recorded_append(st.scopes, expr_uses(*d.value), expr_uses(*d.object));
            if let Ok(s1) = resolve_expr(st, *d.value) {
                lemma_resolve_expr_records_uses(s1, *d.object);
                assert(st.log + recorded(st.scopes, expr_uses(e)) =~= s1.log + recorded(s1.scopes, expr_uses(*d.object)));
            }
        },
        Expr::Super(_) => {
            assert(st.log + recorded(st.scopes, Seq::empty()) =~= st.log);
        },
        Expr::This(d) => {
            lemma_recorded_one(st.scopes, d.keyword);
            assert(st.resolve_local(d.keyword).log =~= st.log + recorded(st.scopes, expr_uses(e)));
        },
        Expr::Unary(d) => lemma_resolve_expr_records_uses(st, *d.right),
        Expr::Variable(d) => {
            lemma_recorded_one(st.scopes, d.name);
            assert(st.resolve_local(d.name).log =~= st.log + recorded(st.scopes, expr_uses(e)));
        },
    }
}

/// Resolving expressions in order records the uses of local names in each, in order.
pub proof fn lemma_resolve_exprs_records_uses(st: ResolverView, es: Seq<Expr>)
    ensures
        resolve_exprs(st, es) matches Ok(r) ==> r.log == st.log + recorded(st.scopes, exprs_uses(es)),
    decreases es, 1nat,
{
    if es.len() == 0 {
        assert(st.log + recorded(st.scopes, Seq::empty()) =~= st.log);
    } else {
        lemma_resolve_expr_records_uses(st, es[0]);
        lemma_resolve_expr_frame(st, es[0]);
        lemma_recorded_append(st.scopes, expr_uses(es[0]), exprs_uses(es.subrange(1, es.len() as int)));
        if let Ok(s1) = resolve_expr(st, es[0]) {
            lemma_resolve_exprs_records_uses(s1, es.subrange(1, es.len() as int));
            assert(st.log + recorded(st.scopes, exprs_uses(es)) =~= s1.log + recorded(s1.scopes, exprs_uses(es.subrange(1, es.len() as int))));
        }
    }
}

/// `r` is what the resolution `expected` gives: success in state `after`, or its error.
pub open spec fn resolved(r: Result<(), ResolveError>, after: ResolverView, expected: Result<ResolverView, ResolveError>) -> bool {
    match expected {
        Ok(s) => r is Ok && after =~= s,
        Err(e) => r == Err::<(), ResolveError>(e),
    }
}

/// A resolver at the top level: no scopes, nothing resolved, no enclosing function or
/// class.
pub open spec fn fresh_resolver() -> ResolverView {
    ResolverView {
        scopes: Seq::empty(),
        log: Seq::empty(),
        function_type: FunctionType::NoFunction,
        class_type: ClassType::NoClass,
    }
}

/// Finds, for each local variable use, how many scopes out its declaration is. It rejects
/// a redeclaration in one local scope, a read of a local variable in its own initializer,
/// `return` outside of functions and `this` outside of classes. Globals are not recorded.
pub struct Resolver {
    scopes: Vec<Vec<(String, bool)>>,
    locals: Vec<(Token, usize)>,
    function_type: FunctionType,
    class_type: ClassType,
}

impl View for Resolver {
    type V = ResolverView;

    closed spec fn view(&self) -> ResolverView {
        ResolverView {
            scopes: Seq::new(self.scopes@.len(), |i: int| entries_map(self.scopes@[i]@)),
            log: self.locals@,
            function_type: self.function_type,
            class_type: self.class_type,
        }
    }
}

impl Resolver {
    /// Every scope names each variable once.
    pub closed spec fn wf(&self) -> bool {
        forall|i: int| 0 <= i < self.scopes@.len() ==> keys_unique(#[trigger] self.scopes@[i]@)
    }

    /// A resolver at the top level: no scopes, nothing resolved, no enclosing function or
    /// class.
    pub fn new() -> (res: Resolver)
        ensures
            res.wf(),
            res@ == fresh_resolver(),
    {
        let res = Resolver { scopes: Vec::new(), locals: Vec::new(), function_type: FunctionType::NoFunction, class_type: ClassType::NoClass };
        assert(res@.scopes =~= Seq::<Map<Seq<char>, bool>>::empty());
        res
    }

    /// The resolutions made, in order: each local variable use and its depth.
    pub fn resolutions(&self) -> (res: &Vec<(Token, usize)>)
        ensures
            res@ == self@.log,
    {
        &self.locals
    }

    /// Resolves the program `stmts`, statement by statement.
    pub fn resolve(&mut self, stmts: &Vec<Stmt>) -> (res: Result<(), ResolveError>)
        requires
            old(self).wf(),
        ensures
            final(self).wf(),
            resolved(res, final(self)@, resolve_stmts(old(self)@, stmts@)),
    {
        self.resolve_stmts(stmts)
    }

    fn begin_scope(&mut self)
        requires
            old(self).wf(),
        ensures
            final(self).wf(),
            final(self)@ =~= old(self)@.begin_scope(),
    {
        self.scopes.push(Vec::new());
        proof {
            assert(entries_map(Seq::<(String, bool)>::empty()) =~= Map::<Seq<char>, bool>::empty());
            assert(self@.scopes =~= old(self)@.scopes.push(Map::empty()));
        }
    }

    fn end_scope(&mut self)
        requires
            old(self).wf(),
        ensures
            final(self).wf(),
            final(self)@ =~= old(self)@.end_scope(),
    {
        self.scopes.pop();
        proof {
            if old(self).scopes@.len() > 0 {
                assert(self@.scopes =~= old(self)@.scopes.drop_last());
            }
        }
    }

    /// Enters `name` in the innermost scope as declared (`false`) or defined (`true`).
    fn mark(&mut self, name: &String, defined: bool)
        requires
            old(self).wf(),
        ensures
            final(self).wf(),
            final(self)@ =~= old(self)@.mark(name@, defined),
    {
        let n = self.scopes.len();
        if n == 0 {
            return;
        }
        let mut scope = self.scopes.pop().unwrap();
        assert(keys_unique(old(self).scopes@[n - 1]@));
        match find_entry(&scope, name) {
            Some(i) => {
                proof {
                    lemma_entries_map_update(scope@, i as int, defined);
                }
                let key = scope[i].0.clone();
                scope.set(i, (key, defined));
            },
            None => {
                let key = name.clone();
                proof {
                    lemma_entries_map_push(scope@, key, defined);
                }
                scope.push((key, defined));
            },
        }
        self.scopes.push(scope);
        proof {
            assert(self@.scopes =~= old(self)@.scopes.update(n - 1, old(self)@.scopes.last().insert(name@, defined)));
        }
    }

    /// Declares `name` in the innermost scope; an error if the scope already has it.
    fn declare(&mut self, name: &Token) -> (res: Result<(), ResolveError>)
        requires
            old(self).wf(),
        ensures
            final(self).wf(),
            resolved(res, final(self)@, old(self)@.declare(*name)),
    {
        let n = self.scopes.len();
        if n > 0 {
            proof {
                assert(keys_unique(self.scopes@[n - 1]@));
            }
            match find_entry(&self.scopes[n - 1], &name.lexeme) {
                Some(i) => {
                    proof {
                        lemma_entries_map_at(self.scopes@[n - 1]@, i as int);
                    }
                    return Err(ResolveError::AlreadyDeclared(name.duplicate()));
                },
                None => {},
            }
        }
        self.mark(&name.lexeme, false);
        Ok(())
    }

    /// Defines `name` in the innermost scope.
    fn define(&mut self, name: &Token)
        requires
            old(self).wf(),
        ensures
            final(self).wf(),
            final(self)@ =~= old(self)@.mark(name.lexeme@, true),
    {
        self.mark(&name.lexeme, true);
    }

    /// Records how many scopes out the innermost declaration of `token`'s name is, if a
    /// scope has it.
    fn resolve_local_var(&mut self, token: &Token)
        requires
            old(self).wf(),
        ensures
            final(self).wf(),
            final(self)@ =~= old(self)@.resolve_local(*token),
    {
        let ghost scopes = self@.scopes;
        let n = self.scopes.len();
        let mut i = n;
        proof {
            assert(scopes.take(n as int) =~= scopes);
        }
        while i > 0
            invariant
                i <= n,
                n == self.scopes@.len(),
                *self == *old(self),
                self.wf(),
                scopes == self@.scopes,
                local_depth(scopes, token.lexeme@) == match local_depth(scopes.take(i as int), token.lexeme@) {
                    Some(d) => Some(d + (n - i) as nat),
                    None => None::<nat>,
                },
            decreases i,
        {
            proof {
                assert(keys_unique(self.scopes@[i - 1]@));
                assert(scopes.take(i as int).drop_last() =~= scopes.take(i - 1));
                assert(scopes.take(i as int).last() == scopes[i - 1]);
            }
            match find_entry(&self.scopes[i - 1], &token.lexeme) {
                Some(j) => {
                    proof {
                        lemma_entries_map_at(self.scopes@[i - 1]@, j as int);
                    }
                    self.locals.push((token.duplicate(), n - i));
                    return;
                },
                None => {},
            }
            i -= 1;
        }
        proof {
            assert(scopes.take(0) =~= Seq::<Map<Seq<char>, bool>>::empty());
        }
    }
}

// The recursive walk over the syntax tree.
impl Resolver {
    fn resolve_expr(&mut self, e: &Expr) -> (res: Result<(), ResolveError>)
        requires
            old(self).wf(),
        ensures
            final(self).wf(),
            resolved(res, final(self)@, resolve_expr(old(self)@, *e)),
        decreases e, 0nat,
    {
        match e {
            Expr::Assign(d) => {
                self.resolve_expr(&d.value)?;
                self.resolve_local_var(&d.name);
                Ok(())
            },
            Expr::Binary(d) => {
                self.resolve_expr(&d.left)?;
                self.resolve_expr(&d.right)
            },
            Expr::Call(d) => {
                self.resolve_expr(&d.callee)?;
                self.resolve_exprs(&d.arguments)
            },
            Expr::Get(d) => self.resolve_expr(&d.object),
            Expr::Grouping(d) => self.resolve_expr(&d.expression),
            Expr::Literal(_) => Ok(()),
            Expr::Logical(d) => {
                self.resolve_expr(&d.left)?;
                self.resolve_expr(&d.right)
            },
            Expr::SetField(d) => {
                self.resolve_expr(&d.value)?;
                self.resolve_expr(&d.object)
            },
            Expr::Super(_) => Ok(()),
            Expr::This(d) => {
                if self.class_type == ClassType::NoClass {
                    return Err(ResolveError::ThisOutsideClass);
                }
                self.resolve_local_var(&d.keyword);
                Ok(())
            },
            Expr::Unary(d) => self.resolve_expr(&d.right),
            Expr::Variable(d) => {
                let n = self.scopes.len();
                if n > 0 {
                    proof {
                        assert(keys_unique(self.scopes@[n - 1]@));
                    }
                    match find_entry(&self.scopes[n - 1], &d.name.lexeme) {
                        Some(i) => {
                            proof {
                                lemma_entries_map_at(self.scopes@[n - 1]@, i as int);
                            }
                            if !self.scopes[n - 1][i].1 {
                                return Err(ResolveError::ReadInOwnInitializer);
                            }
                        },
                        None => {},
                    }
                }
                self.resolve_local_var(&d.name);
                Ok(())
            },
        }
    }

    fn resolve_exprs(&mut self, es: &Vec<Expr>) -> (res: Result<(), ResolveError>)
        requires
            old(self).wf(),
        ensures
            final(self).wf(),
            resolved(res, final(self)@, resolve_exprs(old(self)@, es@)),
        decreases es, 1nat,
    {
        let mut i: usize = 0;
        proof {
            assert(es@.subrange(0, es@.len() as int) =~= es@);
        }
        while i < es.len()
            invariant
                self.wf(),
                i <= es@.len(),
                resolve_exprs(old(self)@, es@) == resolve_exprs(self@, es@.subrange(i as int, es@.len() as int)),
            decreases es@.len() - i,
        {
            proof {
                assert(es@.subrange(i as int, es@.len() as int)[0] == es@[i as int]);
                assert(es@.subrange(i as int, es@.len() as int).subrange(1, es@.len() - i) =~= es@.subrange(i + 1, es@.len() as int));
            }
            self.resolve_expr(&es[i])?;
            i += 1;
        }
        Ok(())
    }

    fn resolve_stmt(&mut self, s: &Stmt) -> (res: Result<(), ResolveError>)
        requires
            old(self).wf(),
        ensures
            final(self).wf(),
            resolved(res, final(self)@, resolve_stmt(old(self)@, *s)),
        decreases s, 0nat,
    {
        match s {
            Stmt::Block(d) => {
                self.begin_scope();
                self.resolve_stmts(&d.statements)?;
                self.end_scope();
                Ok(())
            },
            Stmt::Class(d) => {
                let enclosing = self.class_type;
                self.class_type = ClassType::Class;
                self.declare(&d.name)?;
                self.define(&d.name);
                self.begin_scope();
                let this = String::from_str("this");
                proof {
                    reveal_strlit("this");
                    assert(this@ =~= seq!['t', 'h', 'i', 's']);
                }
                self.mark(&this, true);
                self.resolve_methods(&d.methods)?;
                self.end_scope();
                self.class_type = enclosing;
                Ok(())
            },
            Stmt::Expression(d) => self.resolve_expr(&d.expression),
            Stmt::Function(d) => {
                self.declare(&d.name)?;
                self.define(&d.name);
                self.resolve_function(d, FunctionType::Function)
            },
            Stmt::If(d) => {
                self.resolve_expr(&d.condition)?;
                self.resolve_branch(&d.then_branch)?;
                self.resolve_branch(&d.else_branch)
            },
            Stmt::Print(d) => self.resolve_expr(&d.expression),
            Stmt::Return(d) => {
                if self.function_type == FunctionType::NoFunction {
                    return Err(ResolveError::ReturnAtTopLevel);
                }
                match &d.value {
                    Some(v) => self.resolve_expr(v),
                    None => Ok(()),
                }
            },
            Stmt::Variable(d) => {
                self.declare(&d.name)?;
                match &d.initializer {
                    Some(v) => {
                        self.resolve_expr(v)?;
                    },
                    None => {},
                }
                self.define(&d.name);
                Ok(())
            },
            Stmt::While(d) => {
                self.resolve_expr(&d.condition)?;
                self.resolve_branch(&d.body)
            },
        }
    }

    fn resolve_branch(&mut self, b: &Option<Box<Stmt>>) -> (res: Result<(), ResolveError>)
        requires
            old(self).wf(),
        ensures
            final(self).wf(),
            resolved(res, final(self)@, resolve_branch(old(self)@, *b)),
        decreases b, 1nat,
    {
        match b {
            Some(s) => self.resolve_stmt(s),
            None => Ok(()),
        }
    }

    fn resolve_stmts(&mut self, ss: &Vec<Stmt>) -> (res: Result<(), ResolveError>)
        requires
            old(self).wf(),
        ensures
            final(self).wf(),
            resolved(res, final(self)@, resolve_stmts(old(self)@, ss@)),
        decreases ss, 1nat,
    {
        let mut i: usize = 0;
        proof {
            assert(ss@.subrange(0, ss@.len() as int) =~= ss@);
        }
        while i < ss.len()
            invariant
                self.wf(),
                i <= ss@.len(),
                resolve_stmts(old(self)@, ss@) == resolve_stmts(self@, ss@.subrange(i as int, ss@.len() as int)),
            decreases ss@.len() - i,
        {
            proof {
                assert(ss@.subrange(i as int, ss@.len() as int)[0] == ss@[i as int]);
                assert(ss@.subrange(i as int, ss@.len() as int).subrange(1, ss@.len() - i) =~= ss@.subrange(i + 1, ss@.len() as int));
            }
            self.resolve_stmt(&ss[i])?;
            i += 1;
        }
        Ok(())
    }

    fn resolve_methods(&mut self, ms: &Vec<Stmt>) -> (res: Result<(), ResolveError>)
        requires
            old(self).wf(),
        ensures
            final(self).wf(),
            resolved(res, final(self)@, resolve_methods(old(self)@, ms@)),
        decreases ms, 1nat,
    {
        let mut i: usize = 0;
        proof {
            assert(ms@.subrange(0, ms@.len() as int) =~= ms@);
        }
        while i < ms.len()
            invariant
                self.wf(),
                i <= ms@.len(),
                resolve_methods(old(self)@, ms@) == resolve_methods(self@, ms@.subrange(i as int, ms@.len() as int)),
            decreases ms@.len() - i,
        {
            proof {
                assert(ms@.subrange(i as int, ms@.len() as int)[0] == ms@[i as int]);
                assert(ms@.subrange(i as int, ms@.len() as int).subrange(1, ms@.len() - i) =~= ms@.subrange(i + 1, ms@.len() as int));
            }
            match &ms[i] {
                Stmt::Function(fd) => {
                    self.resolve_function(fd, FunctionType::Method)?;
                },
                _ => {},
            }
            i += 1;
        }
        Ok(())
    }

    fn resolve_function(&mut self, d: &FunctionStmtData, kind: FunctionType) -> (res: Result<(), ResolveError>)
        requires
            old(self).wf(),
        ensures
            final(self).wf(),
            resolved(res, final(self)@, resolve_function(old(self)@, *d, kind)),
        decreases *d.body, 1nat,
    {
        self.begin_scope();
        let enclosing = self.function_type;
        self.function_type = kind;
        let ghost start = self@;
        assert(start =~= ResolverView { function_type: kind, ..old(self)@.begin_scope() });
        let mut i: usize = 0;
        proof {
            assert(d.params@.subrange(0, d.params@.len() as int) =~= d.params@);
        }
        while i < d.params.len()
            invariant
                self.wf(),
                i <= d.params@.len(),
                start == (ResolverView { function_type: kind, ..old(self)@.begin_scope() }),
                declare_params(start, d.params@) == declare_params(self@, d.params@.subrange(i as int, d.params@.len() as int)),
            decreases d.params@.len() - i,
        {
            proof {
                assert(d.params@.subrange(i as int, d.params@.len() as int)[0] == d.params@[i as int]);
                assert(d.params@.subrange(i as int, d.params@.len() as int).subrange(1, d.params@.len() - i)
                    =~= d.params@.subrange(i + 1, d.params@.len() as int));
            }
            self.declare(&d.params[i])?;
            self.define(&d.params[i]);
            i += 1;
        }
        self.resolve_stmt(&d.body)?;
        self.end_scope();
        self.function_type = enclosing;
        Ok(())
    }
}

} // verus!
