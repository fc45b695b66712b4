use lox::token::{Token, TokenType};
use lox::treewalk::ast::{Expr, Literal, Stmt};
use lox::treewalk::interpreter::Interpreter;
use lox::treewalk::parser::Parser;
use lox::treewalk::resolver::{ResolveError, Resolver};
use lox::treewalk::runtime::{Action, Answer, Fault, LiteralValue, NumberOp, Request, RuntimeErrorKind};
use lox::treewalk::scanner::Scanner;

fn answer(request: &Request) -> Answer {
    match request {
        Request::Number(op, a, b) => {
            let (x, y) = (f64::from_bits(*a), f64::from_bits(*b));
            match op {
                NumberOp::Add => Answer::Number((x + y).to_bits()),
                NumberOp::Subtract => Answer::Number((x - y).to_bits()),
                NumberOp::Multiply => Answer::Number((x * y).to_bits()),
                NumberOp::Divide => Answer::Number((x / y).to_bits()),
                NumberOp::Negate => Answer::Number((-x).to_bits()),
                NumberOp::Greater => Answer::Bool(x > y),
                NumberOp::GreaterEqual => Answer::Bool(x >= y),
                NumberOp::Less => Answer::Bool(x < y),
                NumberOp::LessEqual => Answer::Bool(x <= y),
                NumberOp::Equal => Answer::Bool(x == y),
            }
        }
        Request::Parse(text) => Answer::Number(text.parse::<f64>().unwrap().to_bits()),
        Request::Text(bits) => Answer::Text(format!("{}", f64::from_bits(*bits))),
        Request::Clock => Answer::Text("2024-01-02 03:04:05".to_string()),
    }
}

/// Runs `program` to its end on `interpreter`: what it printed, and the error it stopped on.
fn drive(interpreter: &mut Interpreter<'static>, program: &'static Vec<Stmt>, resolutions: &Vec<(Token, usize)>) -> (Vec<String>, Option<RuntimeErrorKind>) {
    interpreter.load(program, resolutions);
    let mut out = Vec::new();
    for _ in 0..1_000_000 {
        match interpreter.step() {
            Action::Continue => {}
            Action::Print(t) => out.push(t),
            Action::Request(r) => interpreter.resume(answer(&r)).unwrap(),
            Action::Finished => return (out, None),
            Action::Failed(e) => return (out, Some(e.kind)),
            Action::Fault(f) => panic!("fault {:?}", f),
        }
    }
    panic!("program did not end");
}

fn run_on(interpreter: &mut Interpreter<'static>, code: &str) -> (Vec<String>, Option<RuntimeErrorKind>) {
    let tokens = Scanner::new(code).scan_tokens().unwrap();
    let mut parser = Parser::new(&tokens);
    let stmts = parser.parse();
    assert!(parser.errors().is_empty());
    let mut resolver = Resolver::new();
    resolver.resolve(&stmts).unwrap();
    let program: &'static Vec<Stmt> = Box::leak(Box::new(stmts));
    drive(interpreter, program, resolver.resolutions())
}

fn run(code: &str) -> (Vec<String>, Option<RuntimeErrorKind>) {
    run_on(&mut Interpreter::new(), code)
}

fn printed(code: &str) -> Vec<String> {
    let (out, err) = run(code);
    assert_eq!(err, None);
    out
}

#[test]
fn evaluates_arithmetic_and_precedence() {
    assert_eq!(printed("print 1 + 2 * 3; print (1 + 2) * 3; print 7 / 2; print -4 - 1;"), vec!["7", "9", "3.5", "-5"]);
}

#[test]
fn joins_strings_and_numbers() {
    assert_eq!(printed("print \"a\" + \"b\"; print \"n\" + 1; print 2 + \"x\"; print \"h\" + 1 / 4;"), vec!["ab", "n1", "2x", "h0.25"]);
}

#[test]
fn compares_values() {
    assert_eq!(
        printed("print 1 < 2; print 2 <= 1; print 1 == 1; print \"a\" != \"a\"; print nil == nil; print nil == false; print 1 != \"1\";"),
        vec!["true", "false", "true", "false", "true", "false", "true"]
    );
}

#[test]
fn decides_truth_and_short_circuits() {
    assert_eq!(
        printed("if (\"\") print 1; else print 2; if (0) print 3; print nil or \"x\"; print false and 1; print 1 and 2;"),
        vec!["2", "3", "x", "false", "2"]
    );
}

#[test]
fn scopes_shadow_and_assign() {
    let code = "var a = 1;
        { var a = 2; print a; a = 3; print a; }
        print a; a = 4; print a;";
    assert_eq!(printed(code), vec!["2", "3", "1", "4"]);
}

#[test]
fn runs_loops() {
    let code = "for (var i = 0;
        i < 3;
        i = i + 1) print i;
        var n = 2; while (n > 0) { print n; n = n - 1; }";
    assert_eq!(printed(code), vec!["0", "1", "2", "2", "1"]);
}

#[test]
fn calls_functions() {
    let code = "fun add(a, b) { print a + b; }
        add(1, 2);
        fun count(n) {
          if (n > 0) {
            print n;
            count(n - 1);
          }
        }
        count(3);
        fun none() {} print none();";
    assert_eq!(printed(code), vec!["3", "3", "2", "1", "nil"]);
}

#[test]
fn closures_keep_their_environment() {
    let code = "var f;
        fun make() {
          var c = 0;
          fun inc() {
            c = c + 1;
            print c;
          }
          f = inc;
        }
        make(); f(); f(); var g = f; make(); f(); g();";
    assert_eq!(printed(code), vec!["1", "2", "1", "3"]);
}

#[test]
fn uses_on_one_line_share_their_resolution() {
    // The resolution of a variable use is found by its kind, text and line: on one line,
    // the last use resolved decides for all.
    let code = "{ var a = 1; print a; { var b = 2; print a; } }";
    assert_eq!(printed(code), vec!["nil", "1"]);
    let code = "{ var a = 1; print a;
        { var b = 2; print a; } }";
    assert_eq!(printed(code), vec!["1", "1"]);
}

#[test]
fn writes_functions_and_the_clock() {
    assert_eq!(printed("fun f() {} print f; print clock; print clock();"), vec!["callable", "callable", "2024-01-02 03:04:05"]);
}

#[test]
fn reads_undefined_globals_as_nil() {
    assert_eq!(printed("print x;"), vec!["nil"]);
}

#[test]
fn stops_on_errors_at_top_level() {
    assert_eq!(run("print 1; print -\"a\"; print 2;"), (vec!["1".to_string()], Some(RuntimeErrorKind::UnaryOperand)));
    assert_eq!(run("print 1 - \"a\";").1, Some(RuntimeErrorKind::BinaryOperands));
    assert_eq!(run("print !1;").1, Some(RuntimeErrorKind::UnaryOperand));
    assert_eq!(run("y = 1;").1, Some(RuntimeErrorKind::UndefinedVariable));
    assert_eq!(run("fun f(a) {} f();").1, Some(RuntimeErrorKind::ArityMismatch { expected: 1, got: 0 }));
    assert_eq!(run("var x = 1; x();").1, Some(RuntimeErrorKind::NotCallable(LiteralValue::Number(1.0f64.to_bits()))));
}

#[test]
fn errors_inside_a_call_give_nil() {
    assert_eq!(printed("fun f() { print 1; print -\"x\"; print 2; } print f(); print 3;"), vec!["1", "nil", "3"]);
}

#[test]
fn globals_stay_between_programs() {
    let mut interpreter = Interpreter::new();
    assert_eq!(run_on(&mut interpreter, "var a = 5; fun twice(x) { print x * 2; }"), (vec![], None));
    assert_eq!(run_on(&mut interpreter, "twice(a);"), (vec!["10".to_string()], None));
}

#[test]
fn refuses_answers_out_of_order() {
    let mut interpreter = Interpreter::new();
    assert_eq!(interpreter.resume(Answer::Bool(true)), Err(Fault::NoRequest));
    assert!(matches!(interpreter.step(), Action::Finished));
    let program: &'static Vec<Stmt> = Box::leak(Box::new(vec![Stmt::print(Expr::literal(Literal::Number("1".to_string())))]));
    interpreter.load(program, &Vec::new());
    assert!(matches!(interpreter.step(), Action::Continue));
    assert!(matches!(interpreter.step(), Action::Continue));
    assert!(matches!(interpreter.step(), Action::Request(Request::Parse(_))));
    assert!(matches!(interpreter.step(), Action::Fault(Fault::PendingRequest)));
    assert_eq!(interpreter.resume(Answer::Bool(true)), Err(Fault::AnswerMismatch));
    assert_eq!(interpreter.resume(Answer::Number(2.0f64.to_bits())), Ok(()));
    assert!(matches!(interpreter.step(), Action::Request(Request::Text(_))));
}

fn tok(typ: TokenType, lexeme: &str) -> Token {
    Token { typ, lexeme: lexeme.to_string(), line: 1 }
}

#[test]
fn classes_make_instances_with_fields_and_methods() {
    // class Point { init(x) { this.x = x; } get() { return this.x; } }
    // var p = Point(3); print p.x; print p.get(); print p; print Point;
    let this = || Expr::this(tok(TokenType::This, "this"));
    let init = Stmt::function(
        tok(TokenType::Identifier, "init"),
        vec![tok(TokenType::Identifier, "x")],
        Stmt::block(vec![Stmt::expression(Expr::set(
            tok(TokenType::Identifier, "x"),
            this(),
            Expr::variable(tok(TokenType::Identifier, "x")),
        ))]),
    );
    let get = Stmt::function(
        tok(TokenType::Identifier, "get"),
        vec![],
        Stmt::block(vec![Stmt::return_(tok(TokenType::Return, "return"), Some(Expr::get(tok(TokenType::Identifier, "x"), this())))]),
    );
    let class = Stmt::class(tok(TokenType::Identifier, "Point"), Expr::literal(Literal::Nil), vec![init, get]);
    let p = || Expr::variable(tok(TokenType::Identifier, "p"));
    let stmts = vec![
        class,
        Stmt::variable(
            tok(TokenType::Identifier, "p"),
            Some(Expr::call(
                tok(TokenType::RightParen, ")"),
                Expr::variable(tok(TokenType::Identifier, "Point")),
                vec![Expr::literal(Literal::Number("3".to_string()))],
            )),
        ),
        Stmt::print(Expr::get(tok(TokenType::Identifier, "x"), p())),
        Stmt::print(Expr::call(tok(TokenType::RightParen, ")"), Expr::get(tok(TokenType::Identifier, "get"), p()), vec![])),
        Stmt::print(p()),
        Stmt::print(Expr::variable(tok(TokenType::Identifier, "Point"))),
        Stmt::print(Expr::get(tok(TokenType::Identifier, "y"), p())),
    ];
    let mut resolver = Resolver::new();
    resolver.resolve(&stmts).unwrap();
    let program: &'static Vec<Stmt> = Box::leak(Box::new(stmts));
    let mut interpreter = Interpreter::new();
    let (out, err) = drive(&mut interpreter, program, resolver.resolutions());
    assert_eq!(err, None);
    assert_eq!(out, vec!["3", "3", "class instance <class <Point>>", "class <Point>", "nil"]);
}

fn method(name: &str, params: Vec<Token>, body: Vec<Stmt>) -> Stmt {
    Stmt::function(tok(TokenType::Identifier, name), params, Stmt::block(body))
}

#[test]
fn subclasses_inherit_methods_and_the_constructor() {
    // class A { init(x) { this.x = x; } get() { return this.x; } name() { return 1; } }
    // class B < A { name() { return 2; } }
    // var b = B(7); print b.get(); print b.name(); print b.x;
    let this = || Expr::this(tok(TokenType::This, "this"));
    let ret = |e: Expr| Stmt::return_(tok(TokenType::Return, "return"), Some(e));
    let num = |n: &str| Expr::literal(Literal::Number(n.to_string()));
    let a = Stmt::class(
        tok(TokenType::Identifier, "A"),
        Expr::literal(Literal::Nil),
        vec![
            method(
                "init",
                vec![tok(TokenType::Identifier, "x")],
                vec![Stmt::expression(Expr::set(
                    tok(TokenType::Identifier, "x"),
                    this(),
                    Expr::variable(tok(TokenType::Identifier, "x")),
                ))],
            ),
            method("get", vec![], vec![ret(Expr::get(tok(TokenType::Identifier, "x"), this()))]),
            method("name", vec![], vec![ret(num("1"))]),
        ],
    );
    let b = Stmt::class(
        tok(TokenType::Identifier, "B"),
        Expr::variable(tok(TokenType::Identifier, "A")),
        vec![method("name", vec![], vec![ret(num("2"))])],
    );
    let v = || Expr::variable(tok(TokenType::Identifier, "b"));
    let call = |name: &str| Expr::call(tok(TokenType::RightParen, ")"), Expr::get(tok(TokenType::Identifier, name), v()), vec![]);
    let stmts = vec![
        a,
        b,
        Stmt::variable(
            tok(TokenType::Identifier, "b"),
            Some(Expr::call(tok(TokenType::RightParen, ")"), Expr::variable(tok(TokenType::Identifier, "B")), vec![num("7")])),
        ),
        Stmt::print(call("get")),
        Stmt::print(call("name")),
        Stmt::print(Expr::get(tok(TokenType::Identifier, "x"), v())),
    ];
    let program: &'static Vec<Stmt> = Box::leak(Box::new(stmts));
    let mut interpreter = Interpreter::new();
    assert!(interpreter.interpret(program).is_ok());
    let (out, err) = drive(&mut interpreter, program, &Vec::new());
    assert_eq!(err, None);
    assert_eq!(out, vec!["7", "2", "7"]);
}

#[test]
fn interpret_refuses_a_program_that_does_not_resolve() {
    let tokens = Scanner::new("print 1; { var a = 1; var a = 2; }").scan_tokens().unwrap();
    let mut parser = Parser::new(&tokens);
    let stmts = parser.parse();
    let program: &'static Vec<Stmt> = Box::leak(Box::new(stmts));
    let mut interpreter = Interpreter::new();
    assert!(matches!(interpreter.interpret(program), Err(ResolveError::AlreadyDeclared(_))));
    assert!(matches!(interpreter.step(), Action::Finished));
}

#[test]
fn interpret_runs_a_program_that_resolves() {
    let tokens = Scanner::new("{ var a = 1; { print a; } }").scan_tokens().unwrap();
    let mut parser = Parser::new(&tokens);
    let stmts = parser.parse();
    let program: &'static Vec<Stmt> = Box::leak(Box::new(stmts));
    let mut interpreter = Interpreter::new();
    assert!(interpreter.interpret(program).is_ok());
    let mut out = Vec::new();
    loop {
        match interpreter.step() {
            Action::Continue => {}
            Action::Print(t) => out.push(t),
            Action::Request(r) => interpreter.resume(answer(&r)).unwrap(),
            Action::Finished => break,
            other => panic!("unexpected {:?}", other),
        }
    }
    assert_eq!(out, vec!["1"]);
}
