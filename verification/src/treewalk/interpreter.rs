use vstd::prelude::*;

use crate::token::{Token, TokenType};
use crate::text::concat;
use crate::treewalk::ast::{BinaryExprData, CallExprData, ClassStmtData, Expr, GetExprData, Literal, Stmt};
use crate::treewalk::environment::{EnvId, Environments, FrameView};
use crate::treewalk::resolver::{fresh_resolver, resolve_stmts, ResolveError, Resolver};
use crate::treewalk::runtime::{
    binary, bind, call, callable_ok, declare_class, declare_methods, define_params, defined, eval_expr, exec_stmt,
    find_method, superclass_of,
    get_property, invoke, next_statement, number_op, on_done, on_value, popped, read_var, spec_resume, spec_step,
    truthy, unwind, resolved_depth, stopped, text_of, with_env,
    with_instance, with_string, Action, Answer, Awaiting, Control, Fault, Frame, FunctionBody, InterpreterView,
    LiteralValue, LoxClass, LoxFunction, LoxInstance, NumberOp, Request, RuntimeError, RuntimeErrorKind,
};

verus! {

/// A copy of the error.
pub fn copy_error(e: &RuntimeError) -> (res: RuntimeError)
    ensures
        res == *e,
{
    RuntimeError {
        kind: e.kind,
        at: match &e.at {
            Some(t) => Some(t.duplicate()),
            None => None,
        },
    }
}

/// The tree-walking interpreter, as a machine that runs one small step at a time. It
/// keeps all environments, functions, classes, instances and strings of a session; the
/// arithmetic on numbers, the writing of numbers and the clock are asked of whoever runs
/// it (`Action::Request`, answered by `resume`).
pub struct Interpreter<'a> {
    envs: Environments<LiteralValue>,
    functions: Vec<LoxFunction<'a>>,
    classes: Vec<LoxClass>,
    instances: Vec<LoxInstance>,
    strings: Vec<String>,
    resolutions: Vec<(Token, usize)>,
    program: Option<&'a Vec<Stmt>>,
    next: usize,
    control: Control<'a>,
    frames: Vec<Frame<'a>>,
    operands: Vec<LiteralValue>,
    awaiting: Option<Awaiting>,
}

impl<'a> View for Interpreter<'a> {
    type V = InterpreterView<'a>;

    closed spec fn view(&self) -> InterpreterView<'a> {
        InterpreterView {
            envs: self.envs@,
            functions: self.functions@,
            classes: self.classes@.map_values(|c: LoxClass| c@),
            instances: self.instances@,
            strings: self.strings@.map_values(|s: String| s@),
            resolutions: self.resolutions@,
            program: self.program,
            next: self.next,
            control: self.control,
            frames: self.frames@,
            operands: self.operands@,
            awaiting: self.awaiting,
        }
    }
}

impl<'a> Interpreter<'a> {
    /// The environments are sound.
    pub closed spec fn wf(&self) -> bool {
        self.envs.wf()
    }

    /// A session with the global environment holding `clock`, and nothing to run.
    pub fn new() -> (res: Interpreter<'a>)
        ensures
            res.wf(),
            res@.envs == seq![FrameView::<LiteralValue> {
                parent: None,
                values: Map::<Seq<char>, LiteralValue>::empty().insert("clock"@, LiteralValue::Callable(0)),
            }],
            res@.functions == seq![LoxFunction::<'a> { body: FunctionBody::Clock, arg_size: 0, closure: 0 }],
            res@.classes.len() == 0,
            res@.instances.len() == 0,
            res@.strings.len() == 0,
            res@.resolutions.len() == 0,
            res@.program is None,
            res@.control is Idle,
            res@.frames.len() == 0,
            res@.operands.len() == 0,
            res@.awaiting is None,
    {
        let mut envs: Environments<LiteralValue> = Environments::new();
        let global = envs.global();
        envs.define(global, &"clock".to_owned(), LiteralValue::Callable(0));
        let mut functions: Vec<LoxFunction<'a>> = Vec::new();
        functions.push(LoxFunction { body: FunctionBody::Clock, arg_size: 0, closure: global });
        let res = Interpreter {
            envs,
            functions,
            classes: Vec::new(),
            instances: Vec::new(),
            strings: Vec::new(),
            resolutions: Vec::new(),
            program: None,
            next: 0,
            control: Control::Idle,
            frames: Vec::new(),
            operands: Vec::new(),
            awaiting: None,
        };
        assert(res@.envs =~= seq![FrameView::<LiteralValue> {
            parent: None,
            values: Map::<Seq<char>, LiteralValue>::empty().insert("clock"@, LiteralValue::Callable(0)),
        }]);
        assert(res@.functions =~= seq![LoxFunction::<'a> { body: FunctionBody::Clock, arg_size: 0, closure: 0 }]);
        res
    }

    /// Resolves the program `stmts` and, when that succeeds, sets it to run from its first
    /// statement (as `load` does) with the resolutions found. A resolution error is
    /// returned with nothing loaded, so no statement of the program runs.
    pub fn interpret(&mut self, stmts: &'a Vec<Stmt>) -> (res: Result<(), ResolveError>)
        requires
            old(self).wf(),
        ensures
            final(self).wf(),
            match resolve_stmts(fresh_resolver(), stmts@) {
                Ok(r) => res is Ok && final(self)@ == (InterpreterView {
                    resolutions: old(self)@.resolutions + r.log,
                    program: Some(stmts),
                    next: 0,
                    control: Control::Done,
                    frames: Seq::empty(),
                    operands: Seq::empty(),
                    awaiting: None,
                    ..old(self)@
                }),
                Err(e) => res == Err::<(), ResolveError>(e) && final(self)@ == old(self)@,
            },
    {
        let mut resolver = Resolver::new();
        match resolver.resolve(stmts) {
            Ok(()) => {
                self.load(stmts, resolver.resolutions());
                Ok(())
            },
            Err(e) => Err(e),
        }
    }

    /// Sets the program `stmts` to run from its first statement, with the resolutions of
    /// its local variables added to those kept.
    pub fn load(&mut self, stmts: &'a Vec<Stmt>, resolutions: &Vec<(Token, usize)>)
        requires
            old(self).wf(),
        ensures
            final(self).wf(),
            final(self)@ == (InterpreterView {
                resolutions: old(self)@.resolutions + resolutions@,
                program: Some(stmts),
                next: 0,
                control: Control::Done,
                frames: Seq::empty(),
                operands: Seq::empty(),
                awaiting: None,
                ..old(self)@
            }),
    {
        let mut i: usize = 0;
        while i < resolutions.len()
            invariant
                self.wf(),
                i <= resolutions@.len(),
                self@ == (InterpreterView { resolutions: old(self)@.resolutions + resolutions@.take(i as int), ..old(self)@ }),
            decreases resolutions@.len() - i,
        {
            let entry = (resolutions[i].0.duplicate(), resolutions[i].1);
            self.resolutions.push(entry);
            proof {
                assert(old(self)@.resolutions + resolutions@.take(i + 1) =~= old(self)@.resolutions + resolutions@.take(i as int) + seq![resolutions@[i as int]]);
            }
            i += 1;
            assert(self@ =~= (InterpreterView { resolutions: old(self)@.resolutions + resolutions@.take(i as int), ..old(self)@ }));
        }
        assert(resolutions@.take(i as int) =~= resolutions@);
        self.program = Some(stmts);
        self.next = 0;
        self.control = Control::Done;
        self.frames = Vec::new();
        self.operands = Vec::new();
        self.awaiting = None;
        assert(self@ =~= (InterpreterView {
            resolutions: old(self)@.resolutions + resolutions@,
            program: Some(stmts),
            next: 0,
            control: Control::Done,
            frames: Seq::empty(),
            operands: Seq::empty(),
            awaiting: None,
            ..old(self)@
        }));
    }

    /// Whether an answer is awaited.
    pub fn is_waiting(&self) -> (res: bool)
        ensures
            res == self@.awaiting is Some,
    {
        self.awaiting.is_some()
    }

    // The state changes the steps are made of.

    fn set_control(&mut self, control: Control<'a>)
        requires
            old(self).wf(),
        ensures
            final(self).wf(),
            final(self)@ == (InterpreterView { control, ..old(self)@ }),
    {
        self.control = control;
        assert(self@ =~= (InterpreterView { control, ..old(self)@ }));
    }

    fn go(&mut self, control: Control<'a>) -> (res: Action)
        requires
            old(self).wf(),
        ensures
            final(self).wf(),
            (final(self)@, res@) == crate::treewalk::runtime::go(old(self)@, control),
    {
        self.set_control(control);
        Action::Continue
    }

    fn push_go(&mut self, frame: Frame<'a>, control: Control<'a>) -> (res: Action)
        requires
            old(self).wf(),
        ensures
            final(self).wf(),
            (final(self)@, res@) == crate::treewalk::runtime::push_go(old(self)@, frame, control),
    {
        self.frames.push(frame);
        self.control = control;
        assert(self@ =~= (InterpreterView { control, frames: old(self)@.frames.push(frame), ..old(self)@ }));
        Action::Continue
    }

    fn ask(&mut self, request: Request, awaiting: Awaiting) -> (res: Action)
        requires
            old(self).wf(),
        ensures
            final(self).wf(),
            (final(self)@, res@) == crate::treewalk::runtime::ask(old(self)@, request@, awaiting),
    {
        self.awaiting = Some(awaiting);
        assert(self@ =~= (InterpreterView { awaiting: Some(awaiting), ..old(self)@ }));
        Action::Request(request)
    }

    fn raise(&mut self, kind: RuntimeErrorKind, at: &Token) -> (res: Action)
        requires
            old(self).wf(),
        ensures
            final(self).wf(),
            (final(self)@, res@) == crate::treewalk::runtime::raise(old(self)@, kind, *at),
    {
        self.go(Control::Error(RuntimeError { kind, at: Some(at.duplicate()) }))
    }

    fn add_string(&mut self, s: String) -> (res: usize)
        requires
            old(self).wf(),
        ensures
            final(self).wf(),
            final(self)@ == with_string(old(self)@, s@),
            res == old(self)@.strings.len(),
    {
        let k = self.strings.len();
        self.strings.push(s);
        assert(self@.strings =~= old(self)@.strings.push(s@));
        assert(self@ =~= with_string(old(self)@, s@));
        k
    }

    fn add_env(&mut self, parent: Option<EnvId>) -> (res: EnvId)
        requires
            old(self).wf(),
            parent matches Some(p) ==> p < old(self)@.envs.len(),
        ensures
            final(self).wf(),
            final(self)@ == with_env(old(self)@, parent),
            res == old(self)@.envs.len(),
    {
        let e = match parent {
            Some(p) => self.envs.new_with_parent(p),
            None => self.envs.new_root(),
        };
        assert(self@ =~= with_env(old(self)@, parent));
        e
    }

    fn define_var(&mut self, env: EnvId, name: &String, value: LiteralValue)
        requires
            old(self).wf(),
            env < old(self)@.envs.len(),
        ensures
            final(self).wf(),
            final(self)@ == (InterpreterView { envs: defined(old(self)@.envs, env, name@, value), ..old(self)@ }),
    {
        self.envs.define(env, name, value);
        assert(self@ =~= (InterpreterView { envs: defined(old(self)@.envs, env, name@, value), ..old(self)@ }));
    }

    fn add_function(&mut self, f: LoxFunction<'a>) -> (res: usize)
        requires
            old(self).wf(),
        ensures
            final(self).wf(),
            final(self)@ == (InterpreterView { functions: old(self)@.functions.push(f), ..old(self)@ }),
            res == old(self)@.functions.len(),
    {
        let k = self.functions.len();
        self.functions.push(f);
        assert(self@ =~= (InterpreterView { functions: old(self)@.functions.push(f), ..old(self)@ }));
        k
    }

    /// The depth `name` was resolved at, the latest resolution counting.
    fn depth_of(&self, name: &Token) -> (res: Option<usize>)
        ensures
            res == resolved_depth(self@.resolutions, *name),
    {
        let mut i: usize = self.resolutions.len();
        assert(self@.resolutions.take(i as int) =~= self@.resolutions);
        while i > 0
            invariant
                i <= self.resolutions@.len(),
                resolved_depth(self@.resolutions, *name) == resolved_depth(self@.resolutions.take(i as int), *name),
            decreases i,
        {
            let entry = &self.resolutions[i - 1];
            let ghost rs = self@.resolutions.take(i as int);
            assert(rs.last() == self@.resolutions[i - 1]);
            assert(rs.drop_last() =~= self@.resolutions.take(i - 1));
            if entry.0.typ == name.typ && entry.0.lexeme == name.lexeme && entry.0.line == name.line {
                return Some(entry.1);
            }
            i -= 1;
        }
        None
    }

    /// The value of the variable `name` seen from `env`.
    fn read_var(&self, env: EnvId, name: &Token) -> (res: LiteralValue)
        requires
            self.wf(),
            env < self@.envs.len(),
        ensures
            res == read_var(self@, env, *name),
    {
        let found = match self.depth_of(name) {
            Some(d) => self.envs.get_at(env, d, &name.lexeme),
            None => self.envs.get(0, &name.lexeme),
        };
        match found {
            Some(v) => *v,
            None => LiteralValue::Nil,
        }
    }

    /// A step that evaluates `e` in `env`.
    fn eval_expr(&mut self, e: &'a Expr, env: EnvId) -> (res: Action)
        requires
            old(self).wf(),
            env < old(self)@.envs.len(),
        ensures
            final(self).wf(),
            (final(self)@, res@) == eval_expr(old(self)@, e, env),
    {
        match e {
            Expr::Assign(d) => self.push_go(Frame::Assign(d, env), Control::Expr(&*d.value, env)),
            Expr::Binary(d) => self.push_go(Frame::BinaryLeft(d, env), Control::Expr(&*d.left, env)),
            Expr::Call(d) => self.push_go(Frame::Call(d, env, 0), Control::Expr(&*d.callee, env)),
            Expr::Get(d) => self.push_go(Frame::Get(d), Control::Expr(&*d.object, env)),
            Expr::Grouping(d) => self.go(Control::Expr(&*d.expression, env)),
            Expr::Literal(d) => match &d.value {
                Literal::Number(text) => self.ask(Request::Parse(text.clone()), Awaiting::Number),
                Literal::String(s) => {
                    let k = self.add_string(s.clone());
                    self.go(Control::Value(LiteralValue::String(k)))
                },
                Literal::Bool(b) => self.go(Control::Value(LiteralValue::Bool(*b))),
                Literal::Nil => self.go(Control::Value(LiteralValue::Nil)),
            },
            Expr::Logical(d) => self.push_go(Frame::Logical(d, env), Control::Expr(&*d.left, env)),
            Expr::SetField(d) => self.push_go(Frame::SetObject(d, env), Control::Expr(&*d.object, env)),
            Expr::Super(_) => self.go(Control::Value(LiteralValue::Nil)),
            Expr::This(d) => {
                let v = self.read_var(env, &d.keyword);
                self.go(Control::Value(v))
            },
            Expr::Unary(d) => self.push_go(Frame::Unary(d), Control::Expr(&*d.right, env)),
            Expr::Variable(d) => {
                let v = self.read_var(env, &d.name);
                self.go(Control::Value(v))
            },
        }
    }

    /// The superclass that the class `d` names in `env`.
    fn superclass_of(&self, d: &ClassStmtData, env: EnvId) -> (res: Option<usize>)
        requires
            self.wf(),
            env < self@.envs.len(),
        ensures
            res == superclass_of(self@, d, env),
    {
        match &d.superclass {
            Expr::Variable(v) => match self.read_var(env, &v.name) {
                LiteralValue::Class(s) => if s < self.classes.len() { Some(s) } else { None },
                _ => None,
            },
            _ => None,
        }
    }

    /// The method `name` that the class `c` finds: its own, else up its superclasses.
    fn find_method(&self, c: usize, name: &String) -> (res: Option<LiteralValue>)
        requires
            self.wf(),
        ensures
            res == find_method(self@, c, name@),
    {
        let mut k = c;
        loop
            invariant
                self.wf(),
                find_method(self@, k, name@) == find_method(self@, c, name@),
            decreases k,
        {
            if k >= self.classes.len() {
                return None;
            }
            let methods = self.classes[k].methods;
            let own = if methods < self.envs.len() {
                match self.envs.get(methods, &name) {
                    Some(x) => Some(*x),
                    None => None,
                }
            } else {
                None
            };
            match own {
                Some(x) => {
                    return Some(x);
                },
                None => match self.classes[k].superclass {
                    Some(s) => {
                        if s < k {
                            k = s;
                        } else {
                            return None;
                        }
                    },
                    None => {
                        return None;
                    },
                },
            }
        }
    }

    /// A step that declares the class `d` in `env`.
    fn declare_class(&mut self, d: &'a ClassStmtData, env: EnvId) -> (res: Action)
        requires
            old(self).wf(),
            env < old(self)@.envs.len(),
        ensures
            final(self).wf(),
            (final(self)@, res@) == declare_class(old(self)@, d, env),
    {
        let superclass = self.superclass_of(d, env);
        self.define_var(env, &d.name.lexeme, LiteralValue::Nil);
        let menv = self.add_env(None);
        let ghost m2 = self@;
        let mut i: usize = 0;
        while i < d.methods.len()
            invariant
                self.wf(),
                i <= d.methods@.len(),
                menv < self@.envs.len(),
                env < self@.envs.len(),
                menv == m2.envs.len() - 1,
                env < m2.envs.len(),
                (self@.envs, self@.functions) == declare_methods(m2.envs, m2.functions, d.methods@, i as nat, menv, env),
                self@ == (InterpreterView { envs: self@.envs, functions: self@.functions, ..m2 }),
                self@.envs.len() == m2.envs.len(),
            decreases d.methods@.len() - i,
        {
            match &d.methods[i] {
                Stmt::Function(fd) => {
                    let f = self.add_function(LoxFunction { body: FunctionBody::Declared(fd), arg_size: fd.params.len(), closure: env });
                    self.define_var(menv, &fd.name.lexeme, LiteralValue::Callable(f));
                },
                _ => {},
            }
            i += 1;
        }
        let c = self.classes.len();
        self.envs.assign(env, &d.name.lexeme, LiteralValue::Class(c));
        self.classes.push(LoxClass { name: d.name.lexeme.clone(), methods: menv, superclass, constructor: None });
        proof {
            assert(self@.classes =~= m2.classes.push(crate::treewalk::runtime::ClassView {
                name: d.name.lexeme@, methods: menv, superclass, constructor: None }));
        }
        let ghost probe = self@;
        let constructor = match self.find_method(c, &"init".to_owned()) {
            Some(LiteralValue::Callable(f)) => Some(f),
            _ => None,
        };
        let mut class = self.classes.pop().unwrap();
        class.constructor = constructor;
        self.classes.push(class);
        self.control = Control::Done;
        proof {
            assert(self@.classes =~= m2.classes.push(crate::treewalk::runtime::ClassView {
                name: d.name.lexeme@, methods: menv, superclass, constructor }));
        }
        assert(self@ =~= declare_class(old(self)@, d, env).0);
        Action::Continue
    }

    /// A step that executes `s` in `env`.
    fn exec_stmt(&mut self, s: &'a Stmt, env: EnvId) -> (res: Action)
        requires
            old(self).wf(),
            env < old(self)@.envs.len(),
        ensures
            final(self).wf(),
            (final(self)@, res@) == exec_stmt(old(self)@, s, env),
    {
        match s {
            Stmt::Block(d) => {
                let e = self.add_env(Some(env));
                self.push_go(Frame::Block(&d.statements, 0, e), Control::Done)
            },
            Stmt::Class(d) => self.declare_class(d, env),
            Stmt::Expression(d) => self.push_go(Frame::Discard, Control::Expr(&d.expression, env)),
            Stmt::Function(d) => {
                let f = self.add_function(LoxFunction { body: FunctionBody::Declared(d), arg_size: d.params.len(), closure: env });
                self.define_var(env, &d.name.lexeme, LiteralValue::Callable(f));
                self.go(Control::Done)
            },
            Stmt::If(d) => self.push_go(Frame::If(d, env), Control::Expr(&d.condition, env)),
            Stmt::Print(d) => self.push_go(Frame::Print, Control::Expr(&d.expression, env)),
            Stmt::Return(d) => match &d.value {
                Some(e) => self.push_go(Frame::Return, Control::Expr(e, env)),
                None => self.go(Control::Return(LiteralValue::Nil)),
            },
            Stmt::Variable(d) => match &d.initializer {
                Some(e) => self.push_go(Frame::Define(d, env), Control::Expr(e, env)),
                None => {
                    self.define_var(env, &d.name.lexeme, LiteralValue::Nil);
                    self.go(Control::Done)
                },
            },
            Stmt::While(d) => self.push_go(Frame::WhileCond(d, env), Control::Expr(&d.condition, env)),
        }
    }
}

impl<'a> Interpreter<'a> {
    fn pop_frame(&mut self) -> (res: Frame<'a>)
        requires
            old(self).wf(),
            old(self)@.frames.len() > 0,
        ensures
            final(self).wf(),
            final(self)@ == popped(old(self)@),
            res == old(self)@.frames.last(),
    {
        let f = self.frames.pop().unwrap();
        assert(self@ =~= popped(old(self)@));
        f
    }

    fn truncate_operands(&mut self, h: usize)
        requires
            old(self).wf(),
            h <= old(self)@.operands.len(),
        ensures
            final(self).wf(),
            final(self)@ == (InterpreterView { operands: old(self)@.operands.subrange(0, h as int), ..old(self)@ }),
    {
        self.operands.truncate(h);
        assert(self@ =~= (InterpreterView { operands: old(self)@.operands.subrange(0, h as int), ..old(self)@ }));
    }

    /// Nothing is left to run.
    fn stop(&mut self)
        requires
            old(self).wf(),
        ensures
            final(self).wf(),
            final(self)@ == stopped(old(self)@),
    {
        self.program = None;
        self.next = 0;
        self.control = Control::Idle;
        self.frames = Vec::new();
        self.operands = Vec::new();
        self.awaiting = None;
        assert(self@ =~= stopped(old(self)@));
    }

    /// Binds the function `f` to `this`; gives the bound copy's place.
    fn bind(&mut self, f: usize, this: LiteralValue) -> (res: usize)
        requires
            old(self).wf(),
            f < old(self)@.functions.len(),
            old(self)@.functions[f as int].closure < old(self)@.envs.len(),
        ensures
            final(self).wf(),
            final(self)@ == bind(old(self)@, f, this),
            res == old(self)@.functions.len(),
    {
        let fun = self.functions[f];
        let e = self.add_env(Some(fun.closure));
        self.define_var(e, &"this".to_owned(), this);
        self.add_function(LoxFunction { closure: e, ..fun })
    }

    /// A new instance of the class `c`; gives its place.
    fn add_instance(&mut self, c: usize) -> (res: usize)
        requires
            old(self).wf(),
        ensures
            final(self).wf(),
            final(self)@ == with_instance(old(self)@, c),
            res == old(self)@.instances.len(),
    {
        let fields = self.add_env(None);
        let i = self.instances.len();
        self.instances.push(LoxInstance { class: c, fields });
        assert(self@ =~= with_instance(old(self)@, c));
        i
    }

    /// Runs `fun` on `args`.
    fn invoke(&mut self, fun: LoxFunction<'a>, args: &Vec<LiteralValue>) -> (res: Action)
        requires
            old(self).wf(),
            callable_ok(old(self)@, fun),
            args@.len() == fun.arg_size,
        ensures
            final(self).wf(),
            (final(self)@, res@) == invoke(old(self)@, fun, args@),
    {
        match fun.body {
            FunctionBody::Clock => self.ask(Request::Clock, Awaiting::Text),
            FunctionBody::Declared(fd) => {
                let e = self.add_env(Some(fun.closure));
                let ghost m1 = self@;
                let mut i: usize = 0;
                while i < args.len()
                    invariant
                        self.wf(),
                        i <= args@.len(),
                        args@.len() == fd.params@.len(),
                        e < self@.envs.len(),
                        self@.envs.len() == m1.envs.len(),
                        e == m1.envs.len() - 1,
                        self@ == (InterpreterView { envs: define_params(m1.envs, e, fd.params@, args@, i as nat), ..m1 }),
                    decreases args@.len() - i,
                {
                    self.define_var(e, &fd.params[i].lexeme, args[i]);
                    i += 1;
                }
                let h = self.operands.len();
                self.push_go(Frame::Body(h), Control::Stmt(&*fd.body, e))
            },
        }
    }

    /// A step that calls `callee` on `args` for the call `d`.
    fn call(&mut self, d: &'a CallExprData, callee: LiteralValue, args: &Vec<LiteralValue>) -> (res: Action)
        requires
            old(self).wf(),
        ensures
            final(self).wf(),
            (final(self)@, res@) == call(old(self)@, d, callee, args@),
    {
        match callee {
            LiteralValue::Callable(f) => {
                if f >= self.functions.len() {
                    return Action::Fault(Fault::BadReference);
                }
                let fun = self.functions[f];
                if args.len() != fun.arg_size {
                    return self.raise(RuntimeErrorKind::ArityMismatch { expected: fun.arg_size, got: args.len() }, &d.operator);
                }
                if !self.can_run(&fun) {
                    return Action::Fault(Fault::BadReference);
                }
                self.invoke(fun, args)
            },
            LiteralValue::Class(c) => {
                if c >= self.classes.len() {
                    return Action::Fault(Fault::BadReference);
                }
                match self.classes[c].constructor {
                    Some(f) => {
                        if f >= self.functions.len() {
                            return Action::Fault(Fault::BadReference);
                        }
                        let fun = self.functions[f];
                        if args.len() != fun.arg_size {
                            return self.raise(RuntimeErrorKind::ArityMismatch { expected: fun.arg_size, got: args.len() }, &d.operator);
                        }
                        if !self.can_run(&fun) {
                            return Action::Fault(Fault::BadReference);
                        }
                        let i = self.add_instance(c);
                        let g = self.bind(f, LiteralValue::ClassInstance(i));
                        self.frames.push(Frame::Construct(i));
                        let ghost m1 = bind(with_instance(old(self)@, c), f, LiteralValue::ClassInstance(i));
                        assert(self@ =~= (InterpreterView { frames: m1.frames.push(Frame::Construct(i)), ..m1 }));
                        let bound = self.functions[g];
                        self.invoke(bound, args)
                    },
                    None => {
                        if args.len() != 0 {
                            return self.raise(RuntimeErrorKind::ArityMismatch { expected: 0, got: args.len() }, &d.operator);
                        }
                        let i = self.add_instance(c);
                        self.go(Control::Value(LiteralValue::ClassInstance(i)))
                    },
                }
            },
            _ => self.raise(RuntimeErrorKind::NotCallable(callee), &d.operator),
        }
    }

    /// Whether `fun` can run.
    fn can_run(&self, fun: &LoxFunction<'a>) -> (res: bool)
        ensures
            res == callable_ok(self@, *fun),
    {
        fun.closure < self.envs.len() && match fun.body {
            FunctionBody::Declared(fd) => fd.params.len() == fun.arg_size,
            FunctionBody::Clock => true,
        }
    }

    /// A step that reads the property `d` of `v`.
    fn get_property(&mut self, d: &'a GetExprData, v: LiteralValue) -> (res: Action)
        requires
            old(self).wf(),
        ensures
            final(self).wf(),
            (final(self)@, res@) == get_property(old(self)@, d, v),
    {
        match v {
            LiteralValue::ClassInstance(i) => {
                if i >= self.instances.len() || self.instances[i].fields >= self.envs.len() {
                    return Action::Fault(Fault::BadReference);
                }
                let inst = self.instances[i];
                let field = match self.envs.get(inst.fields, &d.name.lexeme) {
                    Some(x) => Some(*x),
                    None => None,
                };
                match field {
                    Some(x) => self.go(Control::Value(x)),
                    None => {
                        let c = inst.class;
                        if c >= self.classes.len() || self.classes[c].methods >= self.envs.len() {
                            return Action::Fault(Fault::BadReference);
                        }
                        let method = self.find_method(c, &d.name.lexeme);
                        match method {
                            Some(LiteralValue::Callable(f)) => {
                                if f >= self.functions.len() || self.functions[f].closure >= self.envs.len() {
                                    return Action::Fault(Fault::BadReference);
                                }
                                let g = self.bind(f, v);
                                self.go(Control::Value(LiteralValue::Callable(g)))
                            },
                            _ => self.go(Control::Value(LiteralValue::Nil)),
                        }
                    },
                }
            },
            _ => self.raise(RuntimeErrorKind::NotAnInstanceGet, &d.name),
        }
    }
}

/// The operation on numbers a binary operator stands for.
fn number_op_of(t: TokenType) -> (res: NumberOp)
    ensures
        res == number_op(t),
{
    match t {
        TokenType::Minus => NumberOp::Subtract,
        TokenType::Slash => NumberOp::Divide,
        TokenType::Star => NumberOp::Multiply,
        TokenType::Plus => NumberOp::Add,
        TokenType::Greater => NumberOp::Greater,
        TokenType::GreaterEqual => NumberOp::GreaterEqual,
        TokenType::Less => NumberOp::Less,
        TokenType::LessEqual => NumberOp::LessEqual,
        _ => NumberOp::Equal,
    }
}

impl<'a> Interpreter<'a> {
    /// A step that applies the binary operator of `d` to `l` and `r`.
    fn binary(&mut self, d: &'a BinaryExprData, l: LiteralValue, r: LiteralValue) -> (res: Action)
        requires
            old(self).wf(),
        ensures
            final(self).wf(),
            (final(self)@, res@) == binary(old(self)@, d, l, r),
    {
        let t = d.operator.typ;
        if t == TokenType::Minus || t == TokenType::Slash || t == TokenType::Star || t == TokenType::Greater
            || t == TokenType::GreaterEqual || t == TokenType::Less || t == TokenType::LessEqual {
            match (l, r) {
                (LiteralValue::Number(a), LiteralValue::Number(b)) => {
                    let w = if t == TokenType::Minus || t == TokenType::Slash || t == TokenType::Star {
                        Awaiting::Number
                    } else {
                        Awaiting::Bool
                    };
                    self.ask(Request::Number(number_op_of(t), a, b), w)
                },
                _ => self.raise(RuntimeErrorKind::BinaryOperands, &d.operator),
            }
        } else if t == TokenType::Plus {
            match (l, r) {
                (LiteralValue::Number(a), LiteralValue::Number(b)) => self.ask(Request::Number(NumberOp::Add, a, b), Awaiting::Number),
                (LiteralValue::String(a), LiteralValue::String(b)) => {
                    if a >= self.strings.len() || b >= self.strings.len() {
                        return Action::Fault(Fault::BadReference);
                    }
                    let joined = concat(self.strings[a].as_str(), self.strings[b].as_str());
                    let k = self.add_string(joined);
                    self.go(Control::Value(LiteralValue::String(k)))
                },
                (LiteralValue::String(a), LiteralValue::Number(b)) => {
                    if a >= self.strings.len() {
                        return Action::Fault(Fault::BadReference);
                    }
                    self.ask(Request::Text(b), Awaiting::Append(a))
                },
                (LiteralValue::Number(a), LiteralValue::String(b)) => {
                    if b >= self.strings.len() {
                        return Action::Fault(Fault::BadReference);
                    }
                    self.ask(Request::Text(a), Awaiting::Prepend(b))
                },
                _ => self.raise(RuntimeErrorKind::BinaryOperands, &d.operator),
            }
        } else if t == TokenType::EqualEqual || t == TokenType::BangEqual {
            let neg = t == TokenType::BangEqual;
            match (l, r) {
                (LiteralValue::Number(a), LiteralValue::Number(b)) => {
                    let w = if neg { Awaiting::NotBool } else { Awaiting::Bool };
                    self.ask(Request::Number(NumberOp::Equal, a, b), w)
                },
                (LiteralValue::String(a), LiteralValue::String(b)) => {
                    if a >= self.strings.len() || b >= self.strings.len() {
                        return Action::Fault(Fault::BadReference);
                    }
                    let same = self.strings[a] == self.strings[b];
                    self.go(Control::Value(LiteralValue::Bool(same != neg)))
                },
                (LiteralValue::Bool(a), LiteralValue::Bool(b)) => self.go(Control::Value(LiteralValue::Bool((a == b) != neg))),
                (LiteralValue::Nil, LiteralValue::Nil) => self.go(Control::Value(LiteralValue::Bool(!neg))),
                _ => self.go(Control::Value(LiteralValue::Bool(neg))),
            }
        } else {
            self.raise(RuntimeErrorKind::BinaryOperands, &d.operator)
        }
    }

    /// How `print` writes `v` (not a number), if its references hold.
    pub fn text_of(&self, v: LiteralValue) -> (res: Option<String>)
        requires
            !(v is Number),
        ensures
            match res {
                Some(t) => text_of(self@, v) == Some(t@),
                None => text_of(self@, v) is None,
            },
    {
        match v {
            LiteralValue::String(s) => if s < self.strings.len() {
                Some(self.strings[s].clone())
            } else {
                None
            },
            LiteralValue::Bool(b) => Some(if b { "true".to_owned() } else { "false".to_owned() }),
            LiteralValue::Nil => Some("nil".to_owned()),
            LiteralValue::Callable(_) => Some("callable".to_owned()),
            LiteralValue::Class(c) => if c < self.classes.len() {
                Some(concat(concat("class <", self.classes[c].name.as_str()).as_str(), ">"))
            } else {
                None
            },
            LiteralValue::ClassInstance(i) => if i < self.instances.len() && self.instances[i].class < self.classes.len() {
                let name = self.classes[self.instances[i].class].name.as_str();
                Some(concat(concat("class instance <class <", name).as_str(), ">>"))
            } else {
                None
            },
            LiteralValue::Number(_) => None,
        }
    }
}

impl<'a> Interpreter<'a> {
    /// A step that hands `v` to `frame`, already taken from the frames.
    fn on_value(&mut self, frame: Frame<'a>, v: LiteralValue) -> (res: Action)
        requires
            old(self).wf(),
        ensures
            final(self).wf(),
            (final(self)@, res@) == on_value(old(self)@, frame, v),
    {
        match frame {
            Frame::Assign(d, env) => {
                if env >= self.envs.len() {
                    return Action::Fault(Fault::BadReference);
                }
                let ok = match self.depth_of(&d.name) {
                    Some(dist) => self.envs.assign_at(env, dist, &d.name.lexeme, v),
                    None => self.envs.assign(0, &d.name.lexeme, v),
                };
                let ghost m1 = self@;
                assert(m1 =~= (InterpreterView { envs: m1.envs, ..old(self)@ }));
                if ok {
                    self.go(Control::Value(LiteralValue::Nil))
                } else {
                    self.raise(RuntimeErrorKind::UndefinedVariable, &d.name)
                }
            },
            Frame::BinaryLeft(d, env) => self.push_go(Frame::BinaryRight(d, v), Control::Expr(&*d.right, env)),
            Frame::BinaryRight(d, l) => self.binary(d, l, v),
            Frame::Call(d, env, k) => {
                let n = d.arguments.len();
                if k < n {
                    self.operands.push(v);
                    let ghost m1 = self@;
                    assert(m1 =~= (InterpreterView { operands: old(self)@.operands.push(v), ..old(self)@ }));
                    return self.push_go(Frame::Call(d, env, k + 1), Control::Expr(&d.arguments[k], env));
                }
                if self.operands.len() < n {
                    return Action::Fault(Fault::BadFrame);
                }
                self.operands.push(v);
                let ghost ops = self.operands@;
                let len = self.operands.len();
                let base = len - n - 1;
                let callee = self.operands[base];
                let mut args: Vec<LiteralValue> = Vec::new();
                let mut j: usize = base + 1;
                while j < len
                    invariant
                        base + 1 <= j <= len,
                        len == ops.len(),
                        self.operands@ == ops,
                        args@ == ops.subrange(base + 1, j as int),
                    decreases len - j,
                {
                    args.push(self.operands[j]);
                    assert(args@ =~= ops.subrange(base + 1, j + 1));
                    j += 1;
                }
                self.operands.truncate(base);
                assert(self@ =~= (InterpreterView { operands: ops.subrange(0, base as int), ..old(self)@ }));
                self.call(d, callee, &args)
            },
            Frame::Get(d) => self.get_property(d, v),
            Frame::Logical(d, env) => {
                let truth = self.truthy(v);
                if d.operator.typ == TokenType::Or {
                    if truth {
                        self.go(Control::Value(v))
                    } else {
                        self.go(Control::Expr(&*d.right, env))
                    }
                } else if d.operator.typ == TokenType::And {
                    if !truth {
                        self.go(Control::Value(v))
                    } else {
                        self.go(Control::Expr(&*d.right, env))
                    }
                } else {
                    self.raise(RuntimeErrorKind::InvalidLogicalOperator, &d.operator)
                }
            },
            Frame::SetObject(d, env) => match v {
                LiteralValue::ClassInstance(i) => self.push_go(Frame::SetValue(d, i), Control::Expr(&*d.value, env)),
                _ => self.raise(RuntimeErrorKind::NotAnInstanceSet, &d.name),
            },
            Frame::SetValue(d, i) => {
                if i >= self.instances.len() || self.instances[i].fields >= self.envs.len() {
                    return Action::Fault(Fault::BadReference);
                }
                let fields = self.instances[i].fields;
                self.define_var(fields, &d.name.lexeme, v);
                self.go(Control::Value(v))
            },
            Frame::Unary(d) => match v {
                LiteralValue::Number(n) => if d.operator.typ == TokenType::Minus {
                    self.ask(Request::Number(NumberOp::Negate, n, 0), Awaiting::Number)
                } else {
                    self.raise(RuntimeErrorKind::UnaryOperand, &d.operator)
                },
                LiteralValue::Bool(b) => if d.operator.typ == TokenType::Bang {
                    self.go(Control::Value(LiteralValue::Bool(!b)))
                } else {
                    self.raise(RuntimeErrorKind::UnaryOperand, &d.operator)
                },
                _ => self.raise(RuntimeErrorKind::UnaryOperand, &d.operator),
            },
            Frame::Discard => self.go(Control::Done),
            Frame::If(d, env) => {
                let branch = if self.truthy(v) { &d.then_branch } else { &d.else_branch };
                match branch {
                    Some(b) => self.go(Control::Stmt(&**b, env)),
                    None => self.go(Control::Done),
                }
            },
            Frame::Print => match v {
                LiteralValue::Number(n) => {
                    self.frames.push(Frame::Print);
                    let ghost m1 = self@;
                    assert(m1 =~= (InterpreterView { frames: old(self)@.frames.push(Frame::Print), ..old(self)@ }));
                    self.ask(Request::Text(n), Awaiting::Text)
                },
                _ => match self.text_of(v) {
                    Some(t) => {
                        self.set_control(Control::Done);
                        Action::Print(t)
                    },
                    None => Action::Fault(Fault::BadReference),
                },
            },
            Frame::Return => self.go(Control::Return(v)),
            Frame::Define(d, env) => {
                if env >= self.envs.len() {
                    return Action::Fault(Fault::BadReference);
                }
                self.define_var(env, &d.name.lexeme, v);
                self.go(Control::Done)
            },
            Frame::WhileCond(d, env) => {
                if self.truthy(v) {
                    match &d.body {
                        Some(b) => self.push_go(Frame::WhileBody(d, env), Control::Stmt(&**b, env)),
                        None => self.push_go(Frame::WhileBody(d, env), Control::Done),
                    }
                } else {
                    self.go(Control::Done)
                }
            },
            Frame::Construct(i) => self.go(Control::Value(LiteralValue::ClassInstance(i))),
            _ => Action::Fault(Fault::BadFrame),
        }
    }

    /// Whether `v` counts as true.
    fn truthy(&self, v: LiteralValue) -> (res: bool)
        ensures
            res == truthy(self@, v),
    {
        match v {
            LiteralValue::String(s) => s < self.strings.len() && self.strings[s].as_str().unicode_len() > 0,
            LiteralValue::Bool(b) => b,
            LiteralValue::Nil => false,
            _ => true,
        }
    }

    /// A step after a statement completed, `frame` already taken from the frames.
    fn on_done(&mut self, frame: Frame<'a>) -> (res: Action)
        requires
            old(self).wf(),
        ensures
            final(self).wf(),
            (final(self)@, res@) == on_done(old(self)@, frame),
    {
        match frame {
            Frame::Block(stmts, i, env) => {
                if i < stmts.len() {
                    self.push_go(Frame::Block(stmts, i + 1, env), Control::Stmt(&stmts[i], env))
                } else {
                    self.go(Control::Done)
                }
            },
            Frame::WhileBody(d, env) => self.push_go(Frame::WhileCond(d, env), Control::Expr(&d.condition, env)),
            Frame::Body(h) => {
                if h > self.operands.len() {
                    return Action::Fault(Fault::BadFrame);
                }
                self.truncate_operands(h);
                self.go(Control::Value(LiteralValue::Nil))
            },
            _ => Action::Fault(Fault::BadFrame),
        }
    }

    /// A step with no frame left after a statement.
    fn next_statement(&mut self) -> (res: Action)
        requires
            old(self).wf(),
        ensures
            final(self).wf(),
            (final(self)@, res@) == next_statement(old(self)@),
    {
        match self.program {
            Some(p) => {
                if self.next < p.len() {
                    let i = self.next;
                    self.next = i + 1;
                    let ghost m1 = self@;
                    assert(m1 =~= (InterpreterView { next: (i + 1) as usize, ..old(self)@ }));
                    self.go(Control::Stmt(&p[i], 0))
                } else {
                    self.stop();
                    Action::Finished
                }
            },
            None => {
                self.stop();
                Action::Finished
            },
        }
    }

    /// A step of unwinding a `return` (`value` some) or an error.
    fn unwind(&mut self, value: Option<LiteralValue>, error: RuntimeError) -> (res: Action)
        requires
            old(self).wf(),
        ensures
            final(self).wf(),
            (final(self)@, res@) == unwind(old(self)@, value, error),
    {
        if self.frames.len() == 0 {
            self.stop();
            return Action::Failed(error);
        }
        let top = self.pop_frame();
        match top {
            Frame::Body(h) => {
                if h > self.operands.len() {
                    return Action::Fault(Fault::BadFrame);
                }
                self.truncate_operands(h);
                let v = match value {
                    Some(v) => v,
                    None => LiteralValue::Nil,
                };
                self.go(Control::Value(v))
            },
            _ => Action::Continue,
        }
    }

    /// Runs one step. While an answer is awaited nothing runs and the fault
    /// `PendingRequest` is reported.
    pub fn step(&mut self) -> (res: Action)
        requires
            old(self).wf(),
        ensures
            final(self).wf(),
            (final(self)@, res@) == spec_step(old(self)@),
    {
        if self.awaiting.is_some() {
            return Action::Fault(Fault::PendingRequest);
        }
        let control = match &self.control {
            Control::Expr(e, env) => Control::Expr(*e, *env),
            Control::Stmt(s, env) => Control::Stmt(*s, *env),
            Control::Value(v) => Control::Value(*v),
            Control::Done => Control::Done,
            Control::Return(v) => Control::Return(*v),
            Control::Error(e) => Control::Error(copy_error(e)),
            Control::Idle => Control::Idle,
        };
        match control {
            Control::Expr(e, env) => {
                if env >= self.envs.len() {
                    return Action::Fault(Fault::BadReference);
                }
                self.eval_expr(e, env)
            },
            Control::Stmt(s, env) => {
                if env >= self.envs.len() {
                    return Action::Fault(Fault::BadReference);
                }
                self.exec_stmt(s, env)
            },
            Control::Value(v) => {
                if self.frames.len() == 0 {
                    return Action::Fault(Fault::BadFrame);
                }
                let frame = self.pop_frame();
                self.on_value(frame, v)
            },
            Control::Done => {
                if self.frames.len() == 0 {
                    return self.next_statement();
                }
                let frame = self.pop_frame();
                self.on_done(frame)
            },
            Control::Return(v) => self.unwind(Some(v), RuntimeError { kind: RuntimeErrorKind::TopLevelReturn, at: None }),
            Control::Error(e) => self.unwind(None, e),
            Control::Idle => Action::Finished,
        }
    }

    /// Takes the answer to the request awaited; refused (with nothing changed) when none
    /// is awaited or the answer is of the wrong kind.
    pub fn resume(&mut self, answer: Answer) -> (res: Result<(), Fault>)
        requires
            old(self).wf(),
        ensures
            final(self).wf(),
            match spec_resume(old(self)@, answer@) {
                Ok(m) => res is Ok && final(self)@ == m,
                Err(f) => res == Err::<(), Fault>(f) && final(self)@ == old(self)@,
            },
    {
        let w = match self.awaiting {
            Some(w) => w,
            None => {
                return Err(Fault::NoRequest);
            },
        };
        let value = match (w, answer) {
            (Awaiting::Number, Answer::Number(n)) => LiteralValue::Number(n),
            (Awaiting::Bool, Answer::Bool(b)) => LiteralValue::Bool(b),
            (Awaiting::NotBool, Answer::Bool(b)) => LiteralValue::Bool(!b),
            (Awaiting::Text, Answer::Text(t)) => {
                self.awaiting = None;
                let k = self.add_string(t);
                LiteralValue::String(k)
            },
            (Awaiting::Append(l), Answer::Text(t)) => {
                if l >= self.strings.len() {
                    return Err(Fault::BadReference);
                }
                let joined = concat(self.strings[l].as_str(), t.as_str());
                self.awaiting = None;
                let k = self.add_string(joined);
                LiteralValue::String(k)
            },
            (Awaiting::Prepend(r), Answer::Text(t)) => {
                if r >= self.strings.len() {
                    return Err(Fault::BadReference);
                }
                let joined = concat(t.as_str(), self.strings[r].as_str());
                self.awaiting = None;
                let k = self.add_string(joined);
                LiteralValue::String(k)
            },
            _ => {
                return Err(Fault::AnswerMismatch);
            },
        };
        self.awaiting = None;
        self.control = Control::Value(value);
        assert(self@ =~= spec_resume(old(self)@, answer@)->Ok_0);
        Ok(())
    }
}

} // verus!
