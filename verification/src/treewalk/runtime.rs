use vstd::prelude::*;

use crate::token::{Token, TokenType};
use crate::treewalk::ast::{
    AssignExprData, BinaryExprData, CallExprData, ClassStmtData, Expr, FunctionStmtData, GetExprData, IfStmtData,
    Literal, LogicalExprData, SetExprData, Stmt, UnaryExprData, VariableStmtData, WhileStmtData,
};
use crate::treewalk::environment::{assigned, assigned_at, lemma_get_after_define, lookup, lookup_at, EnvId, FrameView};

verus! {

/// A value of the tree-walking interpreter. A number is held by the bit pattern of its
/// double; a string, a function, a class and an instance by their place in the
/// interpreter's tables.
#[derive(Clone, Copy, Debug, PartialEq, Eq, Structural)]
pub enum LiteralValue {
    Number(u64),
    String(usize),
    Bool(bool),
    Callable(usize),
    Class(usize),
    ClassInstance(usize),
    Nil,
}

/// What a function runs: the native clock, or a declared function's body.
#[derive(Clone, Copy, Debug)]
pub enum FunctionBody<'a> {
    Clock,
    Declared(&'a FunctionStmtData),
}

/// A function value: what it runs, how many arguments it takes, and the environment it
/// closes over.
#[derive(Clone, Copy, Debug)]
pub struct LoxFunction<'a> {
    pub body: FunctionBody<'a>,
    pub arg_size: usize,
    pub closure: EnvId,
}

/// A class: its name, the environment that holds its own methods (as function values),
/// its superclass, if it has one, and its constructor: the `init` method found for it
/// (its own, else an inherited one), if there is one.
#[derive(Debug)]
pub struct LoxClass {
    pub name: String,
    pub methods: EnvId,
    pub superclass: Option<usize>,
    pub constructor: Option<usize>,
}

/// A class with its name as characters.
pub struct ClassView {
    pub name: Seq<char>,
    pub methods: EnvId,
    pub superclass: Option<usize>,
    pub constructor: Option<usize>,
}

impl View for LoxClass {
    type V = ClassView;

    open spec fn view(&self) -> ClassView {
        ClassView { name: self.name@, methods: self.methods, superclass: self.superclass, constructor: self.constructor }
    }
}

/// An instance: its class, and the environment that holds its fields.
#[derive(Clone, Copy, Debug, PartialEq, Eq, Structural)]
pub struct LoxInstance {
    pub class: usize,
    pub fields: EnvId,
}

/// An operation on numbers that the interpreter leaves to whoever runs it. `Negate` has
/// one operand, the first.
#[derive(Clone, Copy, Debug, PartialEq, Eq, Structural)]
pub enum NumberOp {
    Add,
    Subtract,
    Multiply,
    Divide,
    Negate,
    Greater,
    GreaterEqual,
    Less,
    LessEqual,
    Equal,
}

/// A question the interpreter needs answered to go on.
#[derive(Debug)]
pub enum Request {
    /// An operation on numbers, by their bit patterns: a number answers an arithmetic
    /// operation, a truth value a comparison.
    Number(NumberOp, u64, u64),
    /// The number (as a bit pattern) that a number literal's text stands for.
    Parse(String),
    /// How a number (by its bit pattern) is written.
    Text(u64),
    /// The local date and time, as text.
    Clock,
}

/// `Request` with its text as characters.
pub enum RequestView {
    Number(NumberOp, u64, u64),
    Parse(Seq<char>),
    Text(u64),
    Clock,
}

impl View for Request {
    type V = RequestView;

    open spec fn view(&self) -> RequestView {
        match self {
            Request::Number(op, a, b) => RequestView::Number(*op, *a, *b),
            Request::Parse(t) => RequestView::Parse(t@),
            Request::Text(n) => RequestView::Text(*n),
            Request::Clock => RequestView::Clock,
        }
    }
}

/// The answer to a `Request`.
#[derive(Debug)]
pub enum Answer {
    Number(u64),
    Bool(bool),
    Text(String),
}

/// `Answer` with its text as characters.
pub enum AnswerView {
    Number(u64),
    Bool(bool),
    Text(Seq<char>),
}

impl View for Answer {
    type V = AnswerView;

    open spec fn view(&self) -> AnswerView {
        match self {
            Answer::Number(n) => AnswerView::Number(*n),
            Answer::Bool(b) => AnswerView::Bool(*b),
            Answer::Text(t) => AnswerView::Text(t@),
        }
    }
}

/// What the interpreter does with the answer it waits for.
#[derive(Clone, Copy, Debug, PartialEq, Eq, Structural)]
pub enum Awaiting {
    /// The number is the value.
    Number,
    /// The truth value is the value.
    Bool,
    /// The negated truth value is the value.
    NotBool,
    /// The text is a new string, the value.
    Text,
    /// The string (by its place) followed by the text is the value.
    Append(usize),
    /// The text followed by the string (by its place) is the value.
    Prepend(usize),
}

/// The errors of a program.
#[derive(Clone, Copy, Debug, PartialEq, Eq, Structural)]
pub enum RuntimeErrorKind {
    /// An assignment to a variable that is not defined.
    UndefinedVariable,
    /// A binary operator on operands it does not take.
    BinaryOperands,
    /// A unary operator on an operand it does not take.
    UnaryOperand,
    /// A logical expression whose operator is neither `and` nor `or`.
    InvalidLogicalOperator,
    /// A call with the wrong number of arguments.
    ArityMismatch { expected: usize, got: usize },
    /// A call of a value that is no function or class.
    NotCallable(LiteralValue),
    /// A property read from a value that is no instance.
    NotAnInstanceGet,
    /// A field write to a value that is no instance.
    NotAnInstanceSet,
    /// A `return` outside any function.
    TopLevelReturn,
}

/// An error and the token it is reported at.
#[derive(Clone, Debug)]
pub struct RuntimeError {
    pub kind: RuntimeErrorKind,
    pub at: Option<Token>,
}

/// Faults: a state no run reaches, or a run driven out of order.
#[derive(Clone, Copy, Debug, PartialEq, Eq, Structural)]
pub enum Fault {
    /// An environment, string, function, class or instance that is not there.
    BadReference,
    /// The frames or operands do not fit what is being done.
    BadFrame,
    /// `step` while an answer is awaited.
    PendingRequest,
    /// `resume` while no answer is awaited.
    NoRequest,
    /// An answer of the wrong kind.
    AnswerMismatch,
}

/// What one step did.
#[derive(Debug)]
pub enum Action {
    /// Go on.
    Continue,
    /// This is to be written (with a line end); then go on.
    Print(String),
    /// An answer is needed (`resume`) before the next step.
    Request(Request),
    /// The program ran to its end (or nothing is to run).
    Finished,
    /// The program stopped on an error.
    Failed(RuntimeError),
    /// The interpreter cannot go on.
    Fault(Fault),
}

/// `Action` with its text as characters.
pub enum ActionView {
    Continue,
    Print(Seq<char>),
    Request(RequestView),
    Finished,
    Failed(RuntimeError),
    Fault(Fault),
}

impl View for Action {
    type V = ActionView;

    open spec fn view(&self) -> ActionView {
        match self {
            Action::Continue => ActionView::Continue,
            Action::Print(t) => ActionView::Print(t@),
            Action::Request(r) => ActionView::Request(r@),
            Action::Finished => ActionView::Finished,
            Action::Failed(e) => ActionView::Failed(*e),
            Action::Fault(f) => ActionView::Fault(*f),
        }
    }
}

/// What runs next.
#[derive(Debug)]
pub enum Control<'a> {
    /// Evaluate the expression in the environment.
    Expr(&'a Expr, EnvId),
    /// Execute the statement in the environment.
    Stmt(&'a Stmt, EnvId),
    /// An expression gave this value.
    Value(LiteralValue),
    /// A statement completed.
    Done,
    /// A `return` with this value unwinds to its call.
    Return(LiteralValue),
    /// An error unwinds to the nearest call, or ends the program.
    Error(RuntimeError),
    /// Nothing runs.
    Idle,
}

/// What is left to do once the inner expression or statement is through.
#[derive(Clone, Copy, Debug)]
pub enum Frame<'a> {
    /// Assign the value to the variable.
    Assign(&'a AssignExprData, EnvId),
    /// Evaluate the right operand.
    BinaryLeft(&'a BinaryExprData, EnvId),
    /// Combine the left operand with the right one.
    BinaryRight(&'a BinaryExprData, LiteralValue),
    /// The callee and this many arguments have been put on the operand stack, the
    /// callee counting as one.
    Call(&'a CallExprData, EnvId, usize),
    /// Read the property.
    Get(&'a GetExprData),
    /// Decide on the right operand.
    Logical(&'a LogicalExprData, EnvId),
    /// The object is known: evaluate the value.
    SetObject(&'a SetExprData, EnvId),
    /// Write the value to the field of the instance.
    SetValue(&'a SetExprData, usize),
    /// Apply the operator.
    Unary(&'a UnaryExprData),
    /// Run the statements from this index on, in the environment.
    Block(&'a Vec<Stmt>, usize, EnvId),
    /// Drop the value of an expression statement.
    Discard,
    /// Choose a branch.
    If(&'a IfStmtData, EnvId),
    /// Write the value.
    Print,
    /// Return the value.
    Return,
    /// Define the variable as the value.
    Define(&'a VariableStmtData, EnvId),
    /// Decide on the loop's body.
    WhileCond(&'a WhileStmtData, EnvId),
    /// The body ran: test the condition again.
    WhileBody(&'a WhileStmtData, EnvId),
    /// A function body runs; the operand stack had this height at the call.
    Body(usize),
    /// A constructor runs for the instance, which is the call's value.
    Construct(usize),
}

/// The interpreter seen mathematically.
#[verifier::ext_equal]
pub struct InterpreterView<'a> {
    /// All environments; those of instances' fields and classes' methods among them.
    pub envs: Seq<FrameView<LiteralValue>>,
    pub functions: Seq<LoxFunction<'a>>,
    pub classes: Seq<ClassView>,
    pub instances: Seq<LoxInstance>,
    pub strings: Seq<Seq<char>>,
    /// Each resolved use of a local variable and its depth, in the order resolved.
    pub resolutions: Seq<(Token, usize)>,
    /// The statements of the program that runs, and the index of the next one.
    pub program: Option<&'a Vec<Stmt>>,
    pub next: usize,
    pub control: Control<'a>,
    pub frames: Seq<Frame<'a>>,
    pub operands: Seq<LiteralValue>,
    pub awaiting: Option<Awaiting>,
}

/// Two tokens are the same: same kind, text and line.
pub open spec fn same_token(a: Token, b: Token) -> bool {
    a.typ == b.typ && a.lexeme@ == b.lexeme@ && a.line == b.line
}

/// The depth `name` was resolved at; the latest resolution counts.
pub open spec fn resolved_depth(rs: Seq<(Token, usize)>, name: Token) -> Option<usize>
    decreases rs.len(),
{
    if rs.len() == 0 {
        None
    } else if same_token(rs.last().0, name) {
        Some(rs.last().1)
    } else {
        resolved_depth(rs.drop_last(), name)
    }
}

/// The value of the variable `name` seen from `env`: from the environment it was resolved
/// in, else from the global one; nil where it is not defined.
pub open spec fn read_var(m: InterpreterView, env: EnvId, name: Token) -> LiteralValue {
    let found = match resolved_depth(m.resolutions, name) {
        Some(d) => lookup_at(m.envs, env as nat, d as nat, name.lexeme@),
        None => lookup(m.envs, 0, name.lexeme@),
    };
    match found {
        Some(v) => v,
        None => LiteralValue::Nil,
    }
}

/// The value counts as true: all but `false`, nil and the empty string.
pub open spec fn truthy(m: InterpreterView, v: LiteralValue) -> bool {
    match v {
        LiteralValue::String(s) => s < m.strings.len() && m.strings[s as int].len() > 0,
        LiteralValue::Bool(b) => b,
        LiteralValue::Nil => false,
        _ => true,
    }
}

/// The environments with `name` defined as `value` in `env`.
pub open spec fn defined(fs: Seq<FrameView<LiteralValue>>, env: EnvId, name: Seq<char>, value: LiteralValue) -> Seq<FrameView<LiteralValue>> {
    fs.update(env as int, FrameView { values: fs[env as int].values.insert(name, value), ..fs[env as int] })
}

/// `m` with a new environment nested in `parent` (or in none); it is the last.
pub open spec fn with_env(m: InterpreterView, parent: Option<EnvId>) -> InterpreterView {
    InterpreterView { envs: m.envs.push(FrameView { parent, values: Map::empty() }), ..m }
}

/// `m` with the string `s` added; it is the last.
pub open spec fn with_string(m: InterpreterView, s: Seq<char>) -> InterpreterView {
    InterpreterView { strings: m.strings.push(s), ..m }
}

/// Goes on with `control`.
pub open spec fn go<'a>(m: InterpreterView<'a>, control: Control<'a>) -> (InterpreterView<'a>, ActionView) {
    (InterpreterView { control, ..m }, ActionView::Continue)
}

/// Pushes `frame` and goes on with `control`.
pub open spec fn push_go<'a>(m: InterpreterView<'a>, frame: Frame<'a>, control: Control<'a>) -> (InterpreterView<'a>, ActionView) {
    (InterpreterView { control, frames: m.frames.push(frame), ..m }, ActionView::Continue)
}

/// Asks `request`, to be answered as `awaiting` says.
pub open spec fn ask<'a>(m: InterpreterView<'a>, request: RequestView, awaiting: Awaiting) -> (InterpreterView<'a>, ActionView) {
    (InterpreterView { awaiting: Some(awaiting), ..m }, ActionView::Request(request))
}

/// Stops on a fault, the state unchanged.
pub open spec fn fault<'a>(m: InterpreterView<'a>, f: Fault) -> (InterpreterView<'a>, ActionView) {
    (m, ActionView::Fault(f))
}

/// Raises the error `kind` at `at`.
pub open spec fn raise<'a>(m: InterpreterView<'a>, kind: RuntimeErrorKind, at: Token) -> (InterpreterView<'a>, ActionView) {
    go(m, Control::Error(RuntimeError { kind, at: Some(at) }))
}

/// `m` with nothing left to run.
pub open spec fn stopped<'a>(m: InterpreterView<'a>) -> InterpreterView<'a> {
    InterpreterView { program: None, next: 0, control: Control::Idle, frames: Seq::empty(), operands: Seq::empty(), awaiting: None, ..m }
}

/// A step that evaluates the expression `e` in `env` (which exists).
pub open spec fn eval_expr<'a>(m: InterpreterView<'a>, e: &'a Expr, env: EnvId) -> (InterpreterView<'a>, ActionView) {
    match e {
        Expr::Assign(d) => push_go(m, Frame::Assign(d, env), Control::Expr(&*d.value, env)),
        Expr::Binary(d) => push_go(m, Frame::BinaryLeft(d, env), Control::Expr(&*d.left, env)),
        Expr::Call(d) => push_go(m, Frame::Call(d, env, 0), Control::Expr(&*d.callee, env)),
        Expr::Get(d) => push_go(m, Frame::Get(d), Control::Expr(&*d.object, env)),
        Expr::Grouping(d) => go(m, Control::Expr(&*d.expression, env)),
        Expr::Literal(d) => match d.value {
            Literal::Number(text) => ask(m, RequestView::Parse(text@), Awaiting::Number),
            Literal::String(s) => go(with_string(m, s@), Control::Value(LiteralValue::String(m.strings.len() as usize))),
            Literal::Bool(b) => go(m, Control::Value(LiteralValue::Bool(b))),
            Literal::Nil => go(m, Control::Value(LiteralValue::Nil)),
        },
        Expr::Logical(d) => push_go(m, Frame::Logical(d, env), Control::Expr(&*d.left, env)),
        Expr::SetField(d) => push_go(m, Frame::SetObject(d, env), Control::Expr(&*d.object, env)),
        Expr::Super(_) => go(m, Control::Value(LiteralValue::Nil)),
        Expr::This(d) => go(m, Control::Value(read_var(m, env, d.keyword))),
        Expr::Unary(d) => push_go(m, Frame::Unary(d), Control::Expr(&*d.right, env)),
        Expr::Variable(d) => go(m, Control::Value(read_var(m, env, d.name))),
    }
}

/// The environments and functions after declaring the first `n` of `methods` as
/// functions closing over `env`, each defined by name in `menv`.
pub open spec fn declare_methods<'a>(
    envs: Seq<FrameView<LiteralValue>>,
    functions: Seq<LoxFunction<'a>>,
    methods: Seq<Stmt>,
    n: nat,
    menv: EnvId,
    env: EnvId,
) -> (Seq<FrameView<LiteralValue>>, Seq<LoxFunction<'a>>)
    decreases n,
{
    if n == 0 || n > methods.len() {
        (envs, functions)
    } else {
        let (e, f) = declare_methods(envs, functions, methods, (n - 1) as nat, menv, env);
        match methods[n - 1] {
            Stmt::Function(fd) => (
                defined(e, menv, fd.name.lexeme@, LiteralValue::Callable(f.len() as usize)),
                f.push(LoxFunction { body: FunctionBody::Declared(&fd), arg_size: fd.params@.len() as usize, closure: env }),
            ),
            _ => (e, f),
        }
    }
}

/// The superclass the class `d` names in `env`: the class its superclass expression, a
/// variable, holds there; none when that expression is no variable holding a class.
pub open spec fn superclass_of(m: InterpreterView, d: &ClassStmtData, env: EnvId) -> Option<usize> {
    match d.superclass {
        Expr::Variable(v) => match read_var(m, env, v.name) {
            LiteralValue::Class(s) => if s < m.classes.len() { Some(s) } else { None },
            _ => None,
        },
        _ => None,
    }
}

/// The method `name` of the class `c`: its own, else the one its superclass finds, up the
/// chain of superclasses (each declared before the class that names it); none when no
/// class of the chain has it.
pub open spec fn find_method(m: InterpreterView, c: usize, name: Seq<char>) -> Option<LiteralValue>
    decreases c,
{
    if c >= m.classes.len() {
        None
    } else {
        match lookup(m.envs, m.classes[c as int].methods as nat, name) {
            Some(v) => Some(v),
            None => match m.classes[c as int].superclass {
                Some(s) => if s < c { find_method(m, s, name) } else { None },
                None => None,
            },
        }
    }
}

/// The function that a method found is, if it is one.
pub open spec fn function_of(found: Option<LiteralValue>) -> Option<usize> {
    match found {
        Some(LiteralValue::Callable(f)) => Some(f),
        _ => None,
    }
}

/// A step that declares the class `d` in `env` (which exists): its name is defined as nil,
/// its methods become functions in an environment of their own, the name is assigned the
/// class, whose superclass is the one `d` names and whose constructor is the `init` method
/// found for it.
pub open spec fn declare_class<'a>(m: InterpreterView<'a>, d: &'a ClassStmtData, env: EnvId) -> (InterpreterView<'a>, ActionView) {
    let superclass = superclass_of(m, d, env);
    let envs1 = defined(m.envs, env, d.name.lexeme@, LiteralValue::Nil);
    let menv = envs1.len() as usize;
    let envs2 = envs1.push(FrameView { parent: None, values: Map::empty() });
    let (envs3, functions) = declare_methods(envs2, m.functions, d.methods@, d.methods@.len(), menv, env);
    let c = m.classes.len() as usize;
    let envs4 = assigned(envs3, env as nat, d.name.lexeme@, LiteralValue::Class(c)).0;
    let probe = InterpreterView {
        envs: envs4,
        functions,
        classes: m.classes.push(ClassView { name: d.name.lexeme@, methods: menv, superclass, constructor: None }),
        ..m
    };
    let constructor = function_of(find_method(probe, c, "init"@));
    go(InterpreterView {
        classes: m.classes.push(ClassView { name: d.name.lexeme@, methods: menv, superclass, constructor }),
        ..probe
    }, Control::Done)
}

/// What `find_method` finds does not depend on the classes' constructors.
pub proof fn lemma_find_method_ignores_constructors(a: InterpreterView, b: InterpreterView, c: usize, name: Seq<char>)
    requires
        a.envs == b.envs,
        a.classes.len() == b.classes.len(),
        forall|i: int| 0 <= i < a.classes.len() ==> (#[trigger] a.classes[i]).methods == b.classes[i].methods
            && a.classes[i].superclass == b.classes[i].superclass,
    ensures
        find_method(a, c, name) == find_method(b, c, name),
    decreases c,
{
    if c < a.classes.len() {
        if let Some(s) = a.classes[c as int].superclass {
            if s < c {
                lemma_find_method_ignores_constructors(a, b, s, name);
            }
        }
    }
}

/// A class declared takes the superclass its declaration names; it finds a method among
/// its own first, else through its superclass; and its constructor is the `init` method
/// it finds, its own or an inherited one.
pub proof fn lemma_declared_class(m: InterpreterView, d: &ClassStmtData, env: EnvId, name: Seq<char>)
    requires
        m.classes.len() < usize::MAX,
    ensures
        ({
            let r = declare_class(m, d, env).0;
            let c = m.classes.len() as usize;
            &&& r.classes.len() == c + 1
            &&& r.classes[c as int].superclass == superclass_of(m, d, env)
            &&& find_method(r, c, name) == match lookup(r.envs, r.classes[c as int].methods as nat, name) {
                Some(v) => Some(v),
                None => match superclass_of(m, d, env) {
                    Some(s) => find_method(r, s, name),
                    None => None,
                },
            }
            &&& r.classes[c as int].constructor == function_of(find_method(r, c, "init"@))
        }),
{
    let superclass = superclass_of(m, d, env);
    let envs1 = defined(m.envs, env, d.name.lexeme@, LiteralValue::Nil);
    let menv = envs1.len() as usize;
    let envs2 = envs1.push(FrameView { parent: None, values: Map::empty() });
    let (envs3, functions) = declare_methods(envs2, m.functions, d.methods@, d.methods@.len(), menv, env);
    let c = m.classes.len() as usize;
    let envs4 = assigned(envs3, env as nat, d.name.lexeme@, LiteralValue::Class(c)).0;
    let probe = InterpreterView {
        envs: envs4,
        functions,
        classes: m.classes.push(ClassView { name: d.name.lexeme@, methods: menv, superclass, constructor: None }),
        ..m
    };
    let r = declare_class(m, d, env).0;
    assert(r.classes[c as int].superclass == superclass);
    lemma_find_method_ignores_constructors(probe, r, c, "init"@);
}

/// A step that executes the statement `s` in `env` (which exists).
pub open spec fn exec_stmt<'a>(m: InterpreterView<'a>, s: &'a Stmt, env: EnvId) -> (InterpreterView<'a>, ActionView) {
    match s {
        Stmt::Block(d) => push_go(with_env(m, Some(env)), Frame::Block(&d.statements, 0, m.envs.len() as usize), Control::Done),
        Stmt::Class(d) => declare_class(m, d, env),
        Stmt::Expression(d) => push_go(m, Frame::Discard, Control::Expr(&d.expression, env)),
        Stmt::Function(d) => {
            let f = m.functions.len() as usize;
            go(InterpreterView {
                functions: m.functions.push(LoxFunction { body: FunctionBody::Declared(d), arg_size: d.params@.len() as usize, closure: env }),
                envs: defined(m.envs, env, d.name.lexeme@, LiteralValue::Callable(f)),
                ..m
            }, Control::Done)
        },
        Stmt::If(d) => push_go(m, Frame::If(d, env), Control::Expr(&d.condition, env)),
        Stmt::Print(d) => push_go(m, Frame::Print, Control::Expr(&d.expression, env)),
        Stmt::Return(d) => match d.value {
            Some(e) => push_go(m, Frame::Return, Control::Expr(&e, env)),
            None => go(m, Control::Return(LiteralValue::Nil)),
        },
        Stmt::Variable(d) => match d.initializer {
            Some(e) => push_go(m, Frame::Define(d, env), Control::Expr(&e, env)),
            None => go(InterpreterView { envs: defined(m.envs, env, d.name.lexeme@, LiteralValue::Nil), ..m }, Control::Done),
        },
        Stmt::While(d) => push_go(m, Frame::WhileCond(d, env), Control::Expr(&d.condition, env)),
    }
}

/// The environments with the first `n` parameters defined as the first `n` arguments in
/// `env`, in order.
pub open spec fn define_params(fs: Seq<FrameView<LiteralValue>>, env: EnvId, params: Seq<Token>, args: Seq<LiteralValue>, n: nat) -> Seq<FrameView<LiteralValue>>
    decreases n,
{
    if n == 0 || n > params.len() || n > args.len() {
        fs
    } else {
        defined(define_params(fs, env, params, args, (n - 1) as nat), env, params[n - 1].lexeme@, args[n - 1])
    }
}

/// The function can run: its environment exists, and a declared one has as many
/// parameters as it takes arguments.
pub open spec fn callable_ok(m: InterpreterView, fun: LoxFunction) -> bool {
    &&& fun.closure < m.envs.len()
    &&& (fun.body matches FunctionBody::Declared(fd) ==> fd.params@.len() == fun.arg_size)
}

/// Runs `fun` (which can run) on `args`: the clock asks for the time; a declared
/// function runs its body in a new environment, nested in its closure, that holds the
/// parameters.
pub open spec fn invoke<'a>(m: InterpreterView<'a>, fun: LoxFunction<'a>, args: Seq<LiteralValue>) -> (InterpreterView<'a>, ActionView) {
    match fun.body {
        FunctionBody::Clock => ask(m, RequestView::Clock, Awaiting::Text),
        FunctionBody::Declared(fd) => {
            let e = m.envs.len() as usize;
            let envs = define_params(with_env(m, Some(fun.closure)).envs, e, fd.params@, args, args.len());
            push_go(InterpreterView { envs, ..m }, Frame::Body(m.operands.len() as usize), Control::Stmt(&*fd.body, e))
        },
    }
}

/// `m` with the function `f` (which can run) bound to `this`: a copy of it whose closure
/// is a new environment, nested in the old closure, where `this` is defined. The copy is
/// the last function.
pub open spec fn bind<'a>(m: InterpreterView<'a>, f: usize, this: LiteralValue) -> InterpreterView<'a> {
    let fun = m.functions[f as int];
    let e = m.envs.len() as usize;
    let envs = defined(with_env(m, Some(fun.closure)).envs, e, "this"@, this);
    InterpreterView { envs, functions: m.functions.push(LoxFunction { closure: e, ..fun }), ..m }
}

/// `m` with a new instance of the class `c`, whose fields are in a new environment.
pub open spec fn with_instance<'a>(m: InterpreterView<'a>, c: usize) -> InterpreterView<'a> {
    InterpreterView { instances: m.instances.push(LoxInstance { class: c, fields: m.envs.len() as usize }), ..with_env(m, None) }
}

/// A step that calls `callee` on `args` for the call `d`: a function runs when it takes
/// that many arguments; a class makes an instance and runs its constructor, bound to it,
/// if it has one, the instance being the call's value.
pub open spec fn call<'a>(m: InterpreterView<'a>, d: &'a CallExprData, callee: LiteralValue, args: Seq<LiteralValue>) -> (InterpreterView<'a>, ActionView) {
    match callee {
        LiteralValue::Callable(f) => if f >= m.functions.len() {
            fault(m, Fault::BadReference)
        } else if args.len() != m.functions[f as int].arg_size {
            raise(m, RuntimeErrorKind::ArityMismatch { expected: m.functions[f as int].arg_size, got: args.len() as usize }, d.operator)
        } else if !callable_ok(m, m.functions[f as int]) {
            fault(m, Fault::BadReference)
        } else {
            invoke(m, m.functions[f as int], args)
        },
        LiteralValue::Class(c) => if c >= m.classes.len() {
            fault(m, Fault::BadReference)
        } else {
            match m.classes[c as int].constructor {
                Some(f) => if f >= m.functions.len() {
                    fault(m, Fault::BadReference)
                } else if args.len() != m.functions[f as int].arg_size {
                    raise(m, RuntimeErrorKind::ArityMismatch { expected: m.functions[f as int].arg_size, got: args.len() as usize }, d.operator)
                } else if !callable_ok(m, m.functions[f as int]) {
                    fault(m, Fault::BadReference)
                } else {
                    let i = m.instances.len() as usize;
                    let m1 = bind(with_instance(m, c), f, LiteralValue::ClassInstance(i));
                    invoke(InterpreterView { frames: m1.frames.push(Frame::Construct(i)), ..m1 }, m1.functions.last(), args)
                },
                None => if args.len() != 0 {
                    raise(m, RuntimeErrorKind::ArityMismatch { expected: 0, got: args.len() as usize }, d.operator)
                } else {
                    go(with_instance(m, c), Control::Value(LiteralValue::ClassInstance(m.instances.len() as usize)))
                },
            }
        },
        _ => raise(m, RuntimeErrorKind::NotCallable(callee), d.operator),
    }
}

/// A step that reads the property `d` of `v`: a field of an instance, else the method its
/// class finds (its own or an inherited one) bound to it, else nil.
pub open spec fn get_property<'a>(m: InterpreterView<'a>, d: &'a GetExprData, v: LiteralValue) -> (InterpreterView<'a>, ActionView) {
    match v {
        LiteralValue::ClassInstance(i) => if i >= m.instances.len() || m.instances[i as int].fields >= m.envs.len() {
            fault(m, Fault::BadReference)
        } else {
            match lookup(m.envs, m.instances[i as int].fields as nat, d.name.lexeme@) {
                Some(x) => go(m, Control::Value(x)),
                None => {
                    let c = m.instances[i as int].class;
                    if c >= m.classes.len() || m.classes[c as int].methods >= m.envs.len() {
                        fault(m, Fault::BadReference)
                    } else {
                        match find_method(m, c, d.name.lexeme@) {
                            Some(LiteralValue::Callable(f)) => if f >= m.functions.len() || m.functions[f as int].closure >= m.envs.len() {
                                fault(m, Fault::BadReference)
                            } else {
                                go(bind(m, f, v), Control::Value(LiteralValue::Callable(m.functions.len() as usize)))
                            },
                            _ => go(m, Control::Value(LiteralValue::Nil)),
                        }
                    }
                },
            }
        },
        _ => raise(m, RuntimeErrorKind::NotAnInstanceGet, d.name),
    }
}

/// The operation on numbers a binary operator stands for.
pub open spec fn number_op(t: TokenType) -> NumberOp {
    match t {
        TokenType::Minus => NumberOp::Subtract,
        TokenType::Slash => NumberOp::Divide,
        TokenType::Star => NumberOp::Multiply,
        TokenType::Plus => NumberOp::Add,
        TokenType::Greater => NumberOp::Greater,
        TokenType::GreaterEqual => NumberOp::GreaterEqual,
        TokenType::Less => NumberOp::Less,
        TokenType::LessEqual => NumberOp::LessEqual,
        _ => NumberOp::Equal,
    }
}

/// A step that applies the binary operator of `d` to `l` and `r`. Arithmetic and
/// comparison take two numbers; `+` also joins two strings, or a string and a number
/// written out; `==` and `!=` take any two values, numbers and strings comparing by
/// value and values of different kinds being unequal.
pub open spec fn binary<'a>(m: InterpreterView<'a>, d: &'a BinaryExprData, l: LiteralValue, r: LiteralValue) -> (InterpreterView<'a>, ActionView) {
    let t = d.operator.typ;
    if t == TokenType::Minus || t == TokenType::Slash || t == TokenType::Star || t == TokenType::Greater
        || t == TokenType::GreaterEqual || t == TokenType::Less || t == TokenType::LessEqual {
        match (l, r) {
            (LiteralValue::Number(a), LiteralValue::Number(b)) => ask(m, RequestView::Number(number_op(t), a, b),
                if t == TokenType::Minus || t == TokenType::Slash || t == TokenType::Star { Awaiting::Number } else { Awaiting::Bool }),
            _ => raise(m, RuntimeErrorKind::BinaryOperands, d.operator),
        }
    } else if t == TokenType::Plus {
        match (l, r) {
            (LiteralValue::Number(a), LiteralValue::Number(b)) => ask(m, RequestView::Number(NumberOp::Add, a, b), Awaiting::Number),
            (LiteralValue::String(a), LiteralValue::String(b)) => if a >= m.strings.len() || b >= m.strings.len() {
                fault(m, Fault::BadReference)
            } else {
                go(with_string(m, m.strings[a as int] + m.strings[b as int]), Control::Value(LiteralValue::String(m.strings.len() as usize)))
            },
            (LiteralValue::String(a), LiteralValue::Number(b)) => if a >= m.strings.len() {
                fault(m, Fault::BadReference)
            } else {
                ask(m, RequestView::Text(b), Awaiting::Append(a))
            },
            (LiteralValue::Number(a), LiteralValue::String(b)) => if b >= m.strings.len() {
                fault(m, Fault::BadReference)
            } else {
                ask(m, RequestView::Text(a), Awaiting::Prepend(b))
            },
            _ => raise(m, RuntimeErrorKind::BinaryOperands, d.operator),
        }
    } else if t == TokenType::EqualEqual || t == TokenType::BangEqual {
        let neg = t == TokenType::BangEqual;
        match (l, r) {
            (LiteralValue::Number(a), LiteralValue::Number(b)) => ask(m, RequestView::Number(NumberOp::Equal, a, b),
                if neg { Awaiting::NotBool } else { Awaiting::Bool }),
            (LiteralValue::String(a), LiteralValue::String(b)) => if a >= m.strings.len() || b >= m.strings.len() {
                fault(m, Fault::BadReference)
            } else {
                go(m, Control::Value(LiteralValue::Bool((m.strings[a as int] == m.strings[b as int]) != neg)))
            },
            (LiteralValue::Bool(a), LiteralValue::Bool(b)) => go(m, Control::Value(LiteralValue::Bool((a == b) != neg))),
            (LiteralValue::Nil, LiteralValue::Nil) => go(m, Control::Value(LiteralValue::Bool(!neg))),
            _ => go(m, Control::Value(LiteralValue::Bool(neg))),
        }
    } else {
        raise(m, RuntimeErrorKind::BinaryOperands, d.operator)
    }
}

/// How `print` writes a value other than a number, if its references hold.
pub open spec fn text_of(m: InterpreterView, v: LiteralValue) -> Option<Seq<char>> {
    match v {
        LiteralValue::String(s) => if s < m.strings.len() { Some(m.strings[s as int]) } else { None },
        LiteralValue::Bool(b) => Some(if b { "true"@ } else { "false"@ }),
        LiteralValue::Nil => Some("nil"@),
        LiteralValue::Callable(_) => Some("callable"@),
        LiteralValue::Class(c) => if c < m.classes.len() {
            Some("class <"@ + m.classes[c as int].name + ">"@)
        } else {
            None
        },
        LiteralValue::ClassInstance(i) => if i < m.instances.len() && m.instances[i as int].class < m.classes.len() {
            Some("class instance <class <"@ + m.classes[m.instances[i as int].class as int].name + ">>"@)
        } else {
            None
        },
        LiteralValue::Number(_) => None,
    }
}

/// A step that hands the value `v` to the frame `frame`, which `m` no longer holds.
pub open spec fn on_value<'a>(m: InterpreterView<'a>, frame: Frame<'a>, v: LiteralValue) -> (InterpreterView<'a>, ActionView) {
    match frame {
        Frame::Assign(d, env) => if env >= m.envs.len() {
            fault(m, Fault::BadReference)
        } else {
            let (envs, ok) = match resolved_depth(m.resolutions, d.name) {
                Some(dist) => assigned_at(m.envs, env as nat, dist as nat, d.name.lexeme@, v),
                None => assigned(m.envs, 0, d.name.lexeme@, v),
            };
            if ok {
                go(InterpreterView { envs, ..m }, Control::Value(LiteralValue::Nil))
            } else {
                raise(InterpreterView { envs, ..m }, RuntimeErrorKind::UndefinedVariable, d.name)
            }
        },
        Frame::BinaryLeft(d, env) => push_go(m, Frame::BinaryRight(d, v), Control::Expr(&*d.right, env)),
        Frame::BinaryRight(d, l) => binary(m, d, l, v),
        Frame::Call(d, env, k) => {
            let ops = m.operands.push(v);
            let n = d.arguments@.len();
            if k < n {
                push_go(InterpreterView { operands: ops, ..m }, Frame::Call(d, env, (k + 1) as usize), Control::Expr(&d.arguments@[k as int], env))
            } else if ops.len() < n + 1 {
                fault(m, Fault::BadFrame)
            } else {
                let base = ops.len() - n - 1;
                call(InterpreterView { operands: ops.subrange(0, base), ..m }, d, ops[base], ops.subrange(base + 1, ops.len() as int))
            }
        },
        Frame::Get(d) => get_property(m, d, v),
        Frame::Logical(d, env) => if d.operator.typ == TokenType::Or {
            if truthy(m, v) { go(m, Control::Value(v)) } else { go(m, Control::Expr(&*d.right, env)) }
        } else if d.operator.typ == TokenType::And {
            if !truthy(m, v) { go(m, Control::Value(v)) } else { go(m, Control::Expr(&*d.right, env)) }
        } else {
            raise(m, RuntimeErrorKind::InvalidLogicalOperator, d.operator)
        },
        Frame::SetObject(d, env) => match v {
            LiteralValue::ClassInstance(i) => push_go(m, Frame::SetValue(d, i), Control::Expr(&*d.value, env)),
            _ => raise(m, RuntimeErrorKind::NotAnInstanceSet, d.name),
        },
        Frame::SetValue(d, i) => if i >= m.instances.len() || m.instances[i as int].fields >= m.envs.len() {
            fault(m, Fault::BadReference)
        } else {
            go(InterpreterView { envs: defined(m.envs, m.instances[i as int].fields, d.name.lexeme@, v), ..m }, Control::Value(v))
        },
        Frame::Unary(d) => match v {
            LiteralValue::Number(n) => if d.operator.typ == TokenType::Minus {
                ask(m, RequestView::Number(NumberOp::Negate, n, 0), Awaiting::Number)
            } else {
                raise(m, RuntimeErrorKind::UnaryOperand, d.operator)
            },
            LiteralValue::Bool(b) => if d.operator.typ == TokenType::Bang {
                go(m, Control::Value(LiteralValue::Bool(!b)))
            } else {
                raise(m, RuntimeErrorKind::UnaryOperand, d.operator)
            },
            _ => raise(m, RuntimeErrorKind::UnaryOperand, d.operator),
        },
        Frame::Discard => go(m, Control::Done),
        Frame::If(d, env) => match (if truthy(m, v) { d.then_branch } else { d.else_branch }) {
            Some(b) => go(m, Control::Stmt(&*b, env)),
            None => go(m, Control::Done),
        },
        Frame::Print => match v {
            LiteralValue::Number(n) => ask(InterpreterView { frames: m.frames.push(Frame::Print), ..m }, RequestView::Text(n), Awaiting::Text),
            _ => match text_of(m, v) {
                Some(t) => (InterpreterView { control: Control::Done, ..m }, ActionView::Print(t)),
                None => fault(m, Fault::BadReference),
            },
        },
        Frame::Return => go(m, Control::Return(v)),
        Frame::Define(d, env) => if env >= m.envs.len() {
            fault(m, Fault::BadReference)
        } else {
            go(InterpreterView { envs: defined(m.envs, env, d.name.lexeme@, v), ..m }, Control::Done)
        },
        Frame::WhileCond(d, env) => if truthy(m, v) {
            match d.body {
                Some(b) => push_go(m, Frame::WhileBody(d, env), Control::Stmt(&*b, env)),
                None => push_go(m, Frame::WhileBody(d, env), Control::Done),
            }
        } else {
            go(m, Control::Done)
        },
        Frame::Construct(i) => go(m, Control::Value(LiteralValue::ClassInstance(i))),
        _ => fault(m, Fault::BadFrame),
    }
}

/// A step after a statement completed, the frame `frame` being taken from `m`.
pub open spec fn on_done<'a>(m: InterpreterView<'a>, frame: Frame<'a>) -> (InterpreterView<'a>, ActionView) {
    match frame {
        Frame::Block(stmts, i, env) => if i < stmts@.len() {
            push_go(m, Frame::Block(stmts, (i + 1) as usize, env), Control::Stmt(&stmts@[i as int], env))
        } else {
            go(m, Control::Done)
        },
        Frame::WhileBody(d, env) => push_go(m, Frame::WhileCond(d, env), Control::Expr(&d.condition, env)),
        Frame::Body(h) => if h > m.operands.len() {
            fault(m, Fault::BadFrame)
        } else {
            go(InterpreterView { operands: m.operands.subrange(0, h as int), ..m }, Control::Value(LiteralValue::Nil))
        },
        _ => fault(m, Fault::BadFrame),
    }
}

/// A step with no frame left after a statement: the program's next statement runs in the
/// global environment, or the program is over.
pub open spec fn next_statement<'a>(m: InterpreterView<'a>) -> (InterpreterView<'a>, ActionView) {
    match m.program {
        Some(p) => if m.next < p@.len() {
            go(InterpreterView { next: (m.next + 1) as usize, ..m }, Control::Stmt(&p@[m.next as int], 0))
        } else {
            (stopped(m), ActionView::Finished)
        },
        None => (stopped(m), ActionView::Finished),
    }
}

/// `m` without its last frame.
pub open spec fn popped<'a>(m: InterpreterView<'a>) -> InterpreterView<'a> {
    InterpreterView { frames: m.frames.drop_last(), ..m }
}

/// A step of unwinding: a `return` (`value` some) or an error (`value` none) leaves the
/// innermost frame; at a function's body the call gives the returned value (nil for an
/// error); with no frame left the program stops.
pub open spec fn unwind<'a>(m: InterpreterView<'a>, value: Option<LiteralValue>, error: RuntimeError) -> (InterpreterView<'a>, ActionView) {
    if m.frames.len() == 0 {
        (stopped(m), ActionView::Failed(error))
    } else {
        match m.frames.last() {
            Frame::Body(h) => if h > m.operands.len() {
                fault(popped(m), Fault::BadFrame)
            } else {
                go(InterpreterView { operands: m.operands.subrange(0, h as int), ..popped(m) }, Control::Value(match value {
                    Some(v) => v,
                    None => LiteralValue::Nil,
                }))
            },
            _ => (popped(m), ActionView::Continue),
        }
    }
}

/// One step of the interpreter.
pub open spec fn spec_step<'a>(m: InterpreterView<'a>) -> (InterpreterView<'a>, ActionView) {
    if m.awaiting is Some {
        fault(m, Fault::PendingRequest)
    } else {
        match m.control {
            Control::Expr(e, env) => if env >= m.envs.len() { fault(m, Fault::BadReference) } else { eval_expr(m, e, env) },
            Control::Stmt(s, env) => if env >= m.envs.len() { fault(m, Fault::BadReference) } else { exec_stmt(m, s, env) },
            Control::Value(v) => if m.frames.len() == 0 { fault(m, Fault::BadFrame) } else { on_value(popped(m), m.frames.last(), v) },
            Control::Done => if m.frames.len() == 0 { next_statement(m) } else { on_done(popped(m), m.frames.last()) },
            Control::Return(v) => unwind(m, Some(v), RuntimeError { kind: RuntimeErrorKind::TopLevelReturn, at: None }),
            Control::Error(e) => unwind(m, None, e),
            Control::Idle => (m, ActionView::Finished),
        }
    }
}

/// The interpreter after the answer `a` to the request it waits for, or why the answer
/// is refused (the interpreter then unchanged).
pub open spec fn spec_resume<'a>(m: InterpreterView<'a>, a: AnswerView) -> Result<InterpreterView<'a>, Fault> {
    match m.awaiting {
        None => Err(Fault::NoRequest),
        Some(w) => {
            let m0 = InterpreterView { awaiting: None, ..m };
            let k = m.strings.len() as usize;
            match (w, a) {
                (Awaiting::Number, AnswerView::Number(n)) => Ok(InterpreterView { control: Control::Value(LiteralValue::Number(n)), ..m0 }),
                (Awaiting::Bool, AnswerView::Bool(b)) => Ok(InterpreterView { control: Control::Value(LiteralValue::Bool(b)), ..m0 }),
                (Awaiting::NotBool, AnswerView::Bool(b)) => Ok(InterpreterView { control: Control::Value(LiteralValue::Bool(!b)), ..m0 }),
                (Awaiting::Text, AnswerView::Text(t)) => Ok(InterpreterView { control: Control::Value(LiteralValue::String(k)), ..with_string(m0, t) }),
                (Awaiting::Append(l), AnswerView::Text(t)) => if l >= m.strings.len() {
                    Err(Fault::BadReference)
                } else {
                    Ok(InterpreterView { control: Control::Value(LiteralValue::String(k)), ..with_string(m0, m.strings[l as int] + t) })
                },
                (Awaiting::Prepend(r), AnswerView::Text(t)) => if r >= m.strings.len() {
                    Err(Fault::BadReference)
                } else {
                    Ok(InterpreterView { control: Control::Value(LiteralValue::String(k)), ..with_string(m0, t + m.strings[r as int]) })
                },
                _ => Err(Fault::AnswerMismatch),
            }
        },
    }
}

/// `b` keeps all that `a`'s tables hold: every environment (with its contents possibly
/// changed), function, class, instance and string of `a` is still there, the same but for
/// the environments' contents.
pub open spec fn tables_kept(a: InterpreterView, b: InterpreterView) -> bool {
    &&& a.envs.len() <= b.envs.len()
    &&& (forall|i: int| 0 <= i < a.envs.len() ==> (#[trigger] b.envs[i]).parent == a.envs[i].parent)
    &&& a.functions.len() <= b.functions.len()
    &&& (forall|i: int| 0 <= i < a.functions.len() ==> #[trigger] b.functions[i] == a.functions[i])
    &&& a.classes.len() <= b.classes.len()
    &&& (forall|i: int| 0 <= i < a.classes.len() ==> #[trigger] b.classes[i] == a.classes[i])
    &&& a.instances.len() <= b.instances.len()
    &&& (forall|i: int| 0 <= i < a.instances.len() ==> #[trigger] b.instances[i] == a.instances[i])
    &&& a.strings.len() <= b.strings.len()
    &&& (forall|i: int| 0 <= i < a.strings.len() ==> #[trigger] b.strings[i] == a.strings[i])
    &&& b.resolutions == a.resolutions
}

proof fn lemma_define_params_shape(fs: Seq<FrameView<LiteralValue>>, env: EnvId, params: Seq<Token>, args: Seq<LiteralValue>, n: nat)
    requires
        env < fs.len(),
    ensures
        define_params(fs, env, params, args, n).len() == fs.len(),
        forall|i: int| 0 <= i < fs.len() ==> (#[trigger] define_params(fs, env, params, args, n)[i]).parent == fs[i].parent,
    decreases n,
{
    if n > 0 && n <= params.len() && n <= args.len() {
        lemma_define_params_shape(fs, env, params, args, (n - 1) as nat);
    }
}

proof fn lemma_declare_methods_shape<'a>(
    envs: Seq<FrameView<LiteralValue>>,
    functions: Seq<LoxFunction<'a>>,
    methods: Seq<Stmt>,
    n: nat,
    menv: EnvId,
    env: EnvId,
)
    requires
        menv < envs.len(),
    ensures
        declare_methods(envs, functions, methods, n, menv, env).0.len() == envs.len(),
        forall|i: int| 0 <= i < envs.len() ==> (#[trigger] declare_methods(envs, functions, methods, n, menv, env).0[i]).parent == envs[i].parent,
        functions.len() <= declare_methods(envs, functions, methods, n, menv, env).1.len(),
        forall|i: int| 0 <= i < functions.len() ==> #[trigger] declare_methods(envs, functions, methods, n, menv, env).1[i] == functions[i],
    decreases n,
{
    if n > 0 && n <= methods.len() {
        lemma_declare_methods_shape(envs, functions, methods, (n - 1) as nat, menv, env);
    }
}

/// A step only adds to the interpreter's tables: what a value refers to stays.
pub proof fn lemma_step_keeps_tables(m: InterpreterView)
    ensures
        tables_kept(m, spec_step(m).0),
{
    let r = spec_step(m).0;
    match m.control {
        Control::Stmt(s, env) => {
            match s {
                Stmt::Class(d) => {
                    let envs1 = defined(m.envs, env, d.name.lexeme@, LiteralValue::Nil);
                    let envs2 = envs1.push(FrameView { parent: None, values: Map::empty() });
                    lemma_declare_methods_shape(envs2, m.functions, d.methods@, d.methods@.len(), envs1.len() as usize, env);
                    let (envs3, functions) = declare_methods(envs2, m.functions, d.methods@, d.methods@.len(), envs1.len() as usize, env);
                    crate::treewalk::environment::lemma_assigned_shape(envs3, env as nat, d.name.lexeme@,
                        LiteralValue::Class(m.classes.len() as usize));
                },
                _ => {},
            }
        },
        Control::Value(v) => if m.frames.len() > 0 {
            let p = popped(m);
            match m.frames.last() {
                Frame::Assign(d, env) => {
                    match resolved_depth(p.resolutions, d.name) {
                        Some(dist) => {
                            crate::treewalk::environment::lemma_assigned_at_shape(p.envs, env as nat, dist as nat, d.name.lexeme@, v);
                        },
                        None => {
                            crate::treewalk::environment::lemma_assigned_shape(p.envs, 0, d.name.lexeme@, v);
                        },
                    }
                },
                Frame::Call(d, env, k) => {
                    let ops = p.operands.push(v);
                    let n = d.arguments@.len();
                    if k >= n && ops.len() >= n + 1 {
                        let base = ops.len() - n - 1;
                        let q = InterpreterView { operands: ops.subrange(0, base), ..p };
                        let args = ops.subrange(base + 1, ops.len() as int);
                        match ops[base] {
                            LiteralValue::Callable(f) => if f < q.functions.len() {
                                let fun = q.functions[f as int];
                                if let FunctionBody::Declared(fd) = fun.body {
                                    lemma_define_params_shape(with_env(q, Some(fun.closure)).envs, q.envs.len() as usize, fd.params@, args, args.len());
                                }
                            },
                            LiteralValue::Class(c) => if c < q.classes.len() {
                                if let Some(f) = q.classes[c as int].constructor {
                                    if f < q.functions.len() {
                                        let i = q.instances.len() as usize;
                                        let m1 = bind(with_instance(q, c), f, LiteralValue::ClassInstance(i));
                                        let fun = m1.functions.last();
                                        if let FunctionBody::Declared(fd) = fun.body {
                                            lemma_define_params_shape(with_env(m1, Some(fun.closure)).envs, m1.envs.len() as usize, fd.params@, args, args.len());
                                        }
                                    }
                                }
                            },
                            _ => {},
                        }
                    }
                },
                _ => {},
            }
        },
        _ => {},
    }
}

/// An answer that is taken ends the wait.
pub proof fn lemma_resume_ends_wait(m: InterpreterView, a: AnswerView)
    ensures
        spec_resume(m, a) matches Ok(r) ==> r.awaiting is None && tables_kept(m, r),
        spec_resume(m, a) is Err ==> m.awaiting is None || !(m.awaiting matches Some(w) && match (w, a) {
            (Awaiting::Number, AnswerView::Number(_)) => true,
            (Awaiting::Bool, AnswerView::Bool(_)) => true,
            (Awaiting::NotBool, AnswerView::Bool(_)) => true,
            (Awaiting::Text, AnswerView::Text(_)) => true,
            (Awaiting::Append(l), AnswerView::Text(_)) => l < m.strings.len(),
            (Awaiting::Prepend(r), AnswerView::Text(_)) => r < m.strings.len(),
            _ => false,
        }),
{
}

/// The value of a unary operator's operand reaching its frame: `!` on the boolean `b`
/// gives `!b` and `-` on a number asks for its negation, in both cases the frame gone and
/// nothing else changed; any other operand is a runtime error at the operator.
pub proof fn lemma_unary_operators(m: InterpreterView, d: &UnaryExprData, v: LiteralValue)
    requires
        m.awaiting is None,
        m.control == Control::Value(v),
        m.frames.len() > 0,
        m.frames.last() == Frame::Unary(d),
    ensures
        ({
            let (r, a) = spec_step(m);
            &&& (v is Bool && d.operator.typ == TokenType::Bang)
                ==> r == (InterpreterView { control: Control::Value(LiteralValue::Bool(!v->Bool_0)), frames: m.frames.drop_last(), ..m })
                    && a == ActionView::Continue
            &&& (v is Number && d.operator.typ == TokenType::Minus)
                ==> r == (InterpreterView { awaiting: Some(Awaiting::Number), frames: m.frames.drop_last(), ..m })
                    && a == ActionView::Request(RequestView::Number(NumberOp::Negate, v->Number_0, 0))
            &&& !((v is Bool && d.operator.typ == TokenType::Bang) || (v is Number && d.operator.typ == TokenType::Minus))
                ==> r.control == Control::Error(RuntimeError { kind: RuntimeErrorKind::UnaryOperand, at: Some(d.operator) })
                    && r.frames == m.frames.drop_last() && a == ActionView::Continue
        }),
{
}

/// Whether `a` and `b` are values of the same kind among numbers, strings, booleans and
/// nil.
pub open spec fn same_plain_kind(a: LiteralValue, b: LiteralValue) -> bool {
    (a is Number && b is Number) || (a is String && b is String) || (a is Bool && b is Bool) || (a is Nil && b is Nil)
}

/// The right operand's value `v` reaching a binary operator whose left operand was `l`:
/// `==` and `!=` compare booleans, nil and the texts of strings by value and say that values
/// of different kinds differ; `+` on two strings makes a new string of the two texts, one
/// after the other; `+` on two numbers asks for their sum; `-`, `*`, `/` and the
/// comparisons on anything but two numbers are runtime errors at the operator.
pub proof fn lemma_binary_operators(m: InterpreterView, d: &BinaryExprData, l: LiteralValue, v: LiteralValue)
    requires
        m.awaiting is None,
        m.control == Control::Value(v),
        m.frames.len() > 0,
        m.frames.last() == Frame::BinaryRight(d, l),
    ensures
        ({
            let (r, a) = spec_step(m);
            let t = d.operator.typ;
            let rest = m.frames.drop_last();
            let eq = t == TokenType::EqualEqual;
            let ne = t == TokenType::BangEqual;
            &&& ((eq || ne) && l is Bool && v is Bool)
                ==> r.control == Control::Value(LiteralValue::Bool(if eq { l->Bool_0 == v->Bool_0 } else { l->Bool_0 != v->Bool_0 }))
                    && r.frames == rest && a == ActionView::Continue
            &&& ((eq || ne) && l is Nil && v is Nil)
                ==> r.control == Control::Value(LiteralValue::Bool(eq)) && r.frames == rest && a == ActionView::Continue
            &&& ((eq || ne) && l is String && v is String && l->String_0 < m.strings.len() && v->String_0 < m.strings.len())
                ==> r.control == Control::Value(LiteralValue::Bool(
                        if eq { m.strings[l->String_0 as int] == m.strings[v->String_0 as int] }
                        else { m.strings[l->String_0 as int] != m.strings[v->String_0 as int] }))
                    && r.frames == rest && a == ActionView::Continue
            &&& ((eq || ne) && !same_plain_kind(l, v))
                ==> r.control == Control::Value(LiteralValue::Bool(ne)) && r.frames == rest && a == ActionView::Continue
            &&& (t == TokenType::Plus && l is String && v is String && l->String_0 < m.strings.len() && v->String_0 < m.strings.len())
                ==> r.strings == m.strings.push(m.strings[l->String_0 as int] + m.strings[v->String_0 as int])
                    && r.control == Control::Value(LiteralValue::String(m.strings.len() as usize))
                    && r.frames == rest && a == ActionView::Continue
            &&& (t == TokenType::Plus && l is Number && v is Number)
                ==> r.awaiting == Some(Awaiting::Number) && r.frames == rest
                    && a == ActionView::Request(RequestView::Number(NumberOp::Add, l->Number_0, v->Number_0))
            &&& ((t == TokenType::Minus || t == TokenType::Star || t == TokenType::Slash || t == TokenType::Greater
                || t == TokenType::GreaterEqual || t == TokenType::Less || t == TokenType::LessEqual) && !(l is Number && v is Number))
                ==> r.control == Control::Error(RuntimeError { kind: RuntimeErrorKind::BinaryOperands, at: Some(d.operator) })
                    && r.frames == rest && a == ActionView::Continue
        }),
{
}

/// `or` gives its left operand when that is truthy and `and` when it is not, without
/// evaluating the right one; otherwise both go on with the right operand.
pub proof fn lemma_logical_operators(m: InterpreterView, d: &LogicalExprData, env: EnvId, v: LiteralValue)
    requires
        m.awaiting is None,
        m.control == Control::Value(v),
        m.frames.len() > 0,
        m.frames.last() == Frame::Logical(d, env),
        d.operator.typ == TokenType::Or || d.operator.typ == TokenType::And,
    ensures
        ({
            let (r, a) = spec_step(m);
            let stop = if d.operator.typ == TokenType::Or { truthy(m, v) } else { !truthy(m, v) };
            &&& a == ActionView::Continue
            &&& r.frames == m.frames.drop_last()
            &&& r.control == if stop { Control::Value(v) } else { Control::Expr(&*d.right, env) }
        }),
{
}

/// A variable reads back what its declaration gave it: once the initializer's value `v`
/// reaches the declaration, a use of the name in the same environment (resolved there, or
/// a global read at the top level) reads `v`.
pub proof fn lemma_define_then_read(m: InterpreterView, d: &VariableStmtData, env: EnvId, v: LiteralValue, name: Token)
    requires
        m.awaiting is None,
        m.control == Control::Value(v),
        m.frames.len() > 0,
        m.frames.last() == Frame::Define(d, env),
        env < m.envs.len(),
        name.lexeme@ == d.name.lexeme@,
        resolved_depth(m.resolutions, name) == Some(0usize) || (resolved_depth(m.resolutions, name) is None && env == 0),
    ensures
        ({
            let (r, a) = spec_step(m);
            &&& a == ActionView::Continue
            &&& r.control == Control::Done
            &&& r.frames == m.frames.drop_last()
            &&& read_var(r, env, name) == v
        }),
{
    lemma_get_after_define(m.envs, env as nat, d.name.lexeme@, v);
}

/// `print` of a boolean writes `true` or `false`, of nil `nil`, and of a string its text.
pub proof fn lemma_print_values(m: InterpreterView, v: LiteralValue)
    requires
        m.awaiting is None,
        m.control == Control::Value(v),
        m.frames.len() > 0,
        m.frames.last() == Frame::Print,
    ensures
        ({
            let (r, a) = spec_step(m);
            &&& v is Bool ==> a == ActionView::Print(if v->Bool_0 { "true"@ } else { "false"@ }) && r.control == Control::Done
            &&& v is Nil ==> a == ActionView::Print("nil"@) && r.control == Control::Done
            &&& (v is String && v->String_0 < m.strings.len()) ==> a == ActionView::Print(m.strings[v->String_0 as int])
                && r.control == Control::Done
            &&& (v is Bool || v is Nil || v is String) ==> r.frames == m.frames.drop_last()
        }),
{
}

/// Defining the parameters binds, in `env`, each parameter to the argument at its place
/// (the last of two parameters of one name wins), and changes no environment's nesting.
pub proof fn lemma_define_params_values(fs: Seq<FrameView<LiteralValue>>, env: EnvId, params: Seq<Token>, args: Seq<LiteralValue>, n: nat)
    requires
        env < fs.len(),
        n <= params.len(),
        n <= args.len(),
    ensures
        define_params(fs, env, params, args, n).len() == fs.len(),
        define_params(fs, env, params, args, n)[env as int].parent == fs[env as int].parent,
        forall|i: int| 0 <= i < n && (forall|j: int| i < j < n ==> params[j].lexeme@ != params[i].lexeme@)
            ==> #[trigger] define_params(fs, env, params, args, n)[env as int].values.contains_key(params[i].lexeme@)
                && define_params(fs, env, params, args, n)[env as int].values[params[i].lexeme@] == args[i],
    decreases n,
{
    if n > 0 {
        lemma_define_params_values(fs, env, params, args, (n - 1) as nat);
        let prev = define_params(fs, env, params, args, (n - 1) as nat);
        let cur = define_params(fs, env, params, args, n);
        assert(cur == defined(prev, env, params[n - 1].lexeme@, args[n - 1]));
        assert forall|i: int| 0 <= i < n && (forall|j: int| i < j < n ==> params[j].lexeme@ != params[i].lexeme@)
            implies #[trigger] cur[env as int].values.contains_key(params[i].lexeme@)
                && cur[env as int].values[params[i].lexeme@] == args[i] by {
            if i < n - 1 {
                assert(params[n - 1].lexeme@ != params[i].lexeme@);
                assert(forall|j: int| i < j < n - 1 ==> params[j].lexeme@ != params[i].lexeme@);
                assert(prev[env as int].values.contains_key(params[i].lexeme@));
            }
        }
    }
}

/// Calling a function: with a number of arguments other than its parameters' it is a
/// runtime error at the call that says both numbers; otherwise its body runs in a new
/// environment nested in its closure, where each parameter holds the argument at its
/// place, the call's frame marking where the call's operands end.
pub proof fn lemma_call_function(m: InterpreterView, d: &CallExprData, f: usize, args: Seq<LiteralValue>)
    requires
        f < m.functions.len(),
        callable_ok(m, m.functions[f as int]),
        m.functions[f as int].body is Declared,
        m.envs.len() < usize::MAX,
    ensures
        ({
            let fun = m.functions[f as int];
            let fd = fun.body->Declared_0;
            let params = fd.params@;
            let (r, a) = call(m, d, LiteralValue::Callable(f), args);
            let e = m.envs.len();
            &&& args.len() != fun.arg_size ==> a == ActionView::Continue && r.control == Control::Error(RuntimeError {
                    kind: RuntimeErrorKind::ArityMismatch { expected: fun.arg_size, got: args.len() as usize },
                    at: Some(d.operator),
                })
            &&& args.len() == fun.arg_size ==> {
                &&& a == ActionView::Continue
                &&& r.control == Control::Stmt(&*fd.body, e as usize)
                &&& r.frames == m.frames.push(Frame::Body(m.operands.len() as usize))
                &&& r.envs.len() == e + 1
                &&& r.envs[e as int].parent == Some(fun.closure)
                &&& forall|i: int| 0 <= i < params.len() && (forall|j: int| i < j < params.len() ==> params[j].lexeme@ != params[i].lexeme@)
                    ==> lookup(r.envs, e, #[trigger] params[i].lexeme@) == Some(args[i])
            }
        }),
{
    let fun = m.functions[f as int];
    if args.len() == fun.arg_size {
        let fd = fun.body->Declared_0;
        let e = m.envs.len() as usize;
        let fs = with_env(m, Some(fun.closure)).envs;
        lemma_define_params_values(fs, e, fd.params@, args, args.len());
        let r = call(m, d, LiteralValue::Callable(f), args).0;
        assert(r.envs == define_params(fs, e, fd.params@, args, args.len()));
        assert forall|i: int| 0 <= i < fd.params@.len() && (forall|j: int| i < j < fd.params@.len() ==> fd.params@[j].lexeme@ != fd.params@[i].lexeme@)
            implies lookup(r.envs, e as nat, #[trigger] fd.params@[i].lexeme@) == Some(args[i]) by {
            assert(r.envs[e as int].values.contains_key(fd.params@[i].lexeme@));
        }
    }
}

/// An `if` whose condition gave `v` runs its first branch when `v` is truthy and its
/// `else` branch otherwise (nothing where that branch is missing).
pub proof fn lemma_if_branches(m: InterpreterView, d: &IfStmtData, env: EnvId, v: LiteralValue)
    requires
        m.awaiting is None,
        m.control == Control::Value(v),
        m.frames.len() > 0,
        m.frames.last() == Frame::If(d, env),
    ensures
        ({
            let (r, a) = spec_step(m);
            let b = if truthy(m, v) { d.then_branch } else { d.else_branch };
            &&& a == ActionView::Continue
            &&& r.frames == m.frames.drop_last()
            &&& b is Some ==> r.control == Control::Stmt(&*b->0, env)
            &&& b is None ==> r.control == Control::Done
        }),
{
}

/// A `while` whose condition gave `v` runs its body when `v` is truthy, and after the body
/// evaluates its condition again; when `v` is not truthy the loop is done.
pub proof fn lemma_while_loops(m: InterpreterView, d: &WhileStmtData, env: EnvId, v: LiteralValue)
    requires
        m.awaiting is None,
        m.frames.len() > 0,
    ensures
        (m.control == Control::Value(v) && m.frames.last() == Frame::WhileCond(d, env)) ==> ({
            let (r, a) = spec_step(m);
            &&& a == ActionView::Continue
            &&& truthy(m, v) ==> r.frames == m.frames.drop_last().push(Frame::WhileBody(d, env))
                && r.control == match d.body {
                    Some(b) => Control::Stmt(&*b, env),
                    None => Control::Done,
                }
            &&& !truthy(m, v) ==> r.frames == m.frames.drop_last() && r.control == Control::Done
        }),
        (m.control == Control::Done && m.frames.last() == Frame::WhileBody(d, env)) ==> ({
            let (r, a) = spec_step(m);
            &&& a == ActionView::Continue
            &&& r.frames == m.frames.drop_last().push(Frame::WhileCond(d, env))
            &&& r.control == Control::Expr(&d.condition, env)
        }),
{
}

/// Reading a property of an instance gives its field of that name when it has one; else
/// the method its class finds, as a new function whose closure is a new environment,
/// nested in the method's own, where `this` is the instance; else nil. A property of
/// anything but an instance is a runtime error at the name.
pub proof fn lemma_get_property(m: InterpreterView, d: &GetExprData, v: LiteralValue)
    requires
        m.envs.len() < usize::MAX,
        m.functions.len() < usize::MAX,
    ensures
        ({
            let (r, a) = get_property(m, d, v);
            let name = d.name.lexeme@;
            &&& !(v is ClassInstance) ==> a == ActionView::Continue
                && r.control == Control::Error(RuntimeError { kind: RuntimeErrorKind::NotAnInstanceGet, at: Some(d.name) })
            &&& (v is ClassInstance && v->ClassInstance_0 < m.instances.len()
                && m.instances[v->ClassInstance_0 as int].fields < m.envs.len()) ==> {
                let inst = m.instances[v->ClassInstance_0 as int];
                let found = lookup(m.envs, inst.fields as nat, name);
                &&& found is Some ==> a == ActionView::Continue && r.control == Control::Value(found->0) && r.envs == m.envs
                &&& (found is None && inst.class < m.classes.len() && m.classes[inst.class as int].methods < m.envs.len()
                    && function_of(find_method(m, inst.class, name)) is Some
                    && function_of(find_method(m, inst.class, name))->0 < m.functions.len()
                    && m.functions[function_of(find_method(m, inst.class, name))->0 as int].closure < m.envs.len()) ==> {
                    let e = m.envs.len();
                    &&& a == ActionView::Continue
                    &&& r.control == Control::Value(LiteralValue::Callable(m.functions.len() as usize))
                    &&& r.functions.len() == m.functions.len() + 1
                    &&& r.functions.last().closure == e
                    &&& r.functions.last().body == m.functions[function_of(find_method(m, inst.class, name))->0 as int].body
                    &&& r.envs.len() == e + 1
                    &&& r.envs[e as int].parent == Some(m.functions[function_of(find_method(m, inst.class, name))->0 as int].closure)
                    &&& lookup(r.envs, e, "this"@) == Some(v)
                }
                &&& (found is None && inst.class < m.classes.len() && m.classes[inst.class as int].methods < m.envs.len()
                    && function_of(find_method(m, inst.class, name)) is None)
                    ==> a == ActionView::Continue && r.control == Control::Value(LiteralValue::Nil)
            }
        }),
{
}

} // verus!
