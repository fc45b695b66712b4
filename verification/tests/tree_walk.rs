use lox::error::{LoxError, ScanErrorKind};
use lox::token::{Token, TokenType};
use lox::treewalk::ast::{Expr, Literal, Stmt};
use lox::treewalk::environment::Environments;
use lox::treewalk::parser::{Expected, ParseErrorKind, Parser};
use lox::treewalk::resolver::{ResolveError, Resolver};
use lox::treewalk::scanner::Scanner;

fn tokens(code: &str) -> Vec<Token> {
    Scanner::new(code).scan_tokens().unwrap()
}

fn parse(code: &str) -> (Vec<Stmt>, usize) {
    let ts = tokens(code);
    let mut parser = Parser::new(&ts);
    let stmts = parser.parse();
    let errors = parser.errors().len();
    (stmts, errors)
}

#[test]
fn tree_scanner_reads_numbers_as_digits_only() {
    let kinds: Vec<TokenType> = tokens("1.5").iter().map(|t| t.typ).collect();
    assert_eq!(kinds, vec![TokenType::Number, TokenType::Dot, TokenType::Number, TokenType::Eof]);
    let ts = tokens("my_var // comment\n_x");
    assert_eq!(ts[0].typ, TokenType::Identifier);
    assert_eq!(ts[0].lexeme, "my_var");
    assert_eq!(ts[1].lexeme, "_x");
    assert_eq!(ts[1].line, 2);
    assert_eq!(ts[2].typ, TokenType::Eof);
    assert_eq!(ts[2].lexeme, "");
}

#[test]
fn tree_scanner_stops_at_the_first_error() {
    match Scanner::new("var a = \"x").scan_tokens() {
        Err(LoxError::ScanError { kind, lexeme, line }) => {
            assert_eq!(kind, ScanErrorKind::UnterminatedString);
            assert_eq!(lexeme, "\"x");
            assert_eq!(line, 1);
        }
        _ => panic!("expected a scan error"),
    }
    match Scanner::new("a\n#").scan_tokens() {
        Err(LoxError::ScanError { kind, line, .. }) => {
            assert_eq!(kind, ScanErrorKind::UnexpectedCharacter);
            assert_eq!(line, 2);
        }
        _ => panic!("expected a scan error"),
    }
}

#[test]
fn parser_builds_precedence_and_literals() {
    let (stmts, errors) = parse("print 1 + 2 * 3;");
    assert_eq!(errors, 0);
    match &stmts[0] {
        Stmt::Print(p) => match &p.expression {
            Expr::Binary(b) => {
                assert_eq!(b.operator.typ, TokenType::Plus);
                match &*b.left {
                    Expr::Literal(l) => assert_eq!(l.value, Literal::Number("1".to_string())),
                    _ => panic!("left should be a literal"),
                }
                match &*b.right {
                    Expr::Binary(r) => assert_eq!(r.operator.typ, TokenType::Star),
                    _ => panic!("right should be a product"),
                }
            }
            _ => panic!("expected a binary expression"),
        },
        _ => panic!("expected a print"),
    }
    let (stmts, _) = parse("\"text\";");
    match &stmts[0] {
        Stmt::Expression(e) => match &e.expression {
            Expr::Literal(l) => assert_eq!(l.value, Literal::String("text".to_string())),
            _ => panic!("expected a literal"),
        },
        _ => panic!("expected an expression statement"),
    }
}

#[test]
fn parser_desugars_for_into_while() {
    let (stmts, errors) = parse("for (var i = 0; i < 3; i = i + 1) print i;");
    assert_eq!(errors, 0);
    match &stmts[0] {
        Stmt::Block(b) => {
            assert_eq!(b.statements.len(), 2);
            assert!(matches!(b.statements[0], Stmt::Variable(_)));
            match &b.statements[1] {
                Stmt::While(w) => match w.body.as_deref() {
                    Some(Stmt::Block(body)) => {
                        assert_eq!(body.statements.len(), 2);
                        assert!(matches!(body.statements[1], Stmt::Expression(_)));
                    }
                    _ => panic!("expected the body and the increment"),
                },
                _ => panic!("expected a while loop"),
            }
        }
        _ => panic!("expected a block"),
    }
    let (stmts, _) = parse("for (;;) print 1;");
    match &stmts[0] {
        Stmt::While(w) => match &w.condition {
            Expr::Literal(l) => assert_eq!(l.value, Literal::Bool(true)),
            _ => panic!("expected a true condition"),
        },
        _ => panic!("expected a while loop"),
    }
}

#[test]
fn parser_reports_and_recovers() {
    let ts = tokens("print ; var a = 1; 1 = 2; print a;");
    let mut parser = Parser::new(&ts);
    let stmts = parser.parse();
    assert_eq!(parser.errors().len(), 2);
    assert_eq!(parser.errors()[0].kind, ParseErrorKind::ExpectExpression);
    assert_eq!(parser.errors()[1].kind, ParseErrorKind::InvalidAssignmentTarget);
    assert_eq!(stmts.len(), 2);
    let (_, errors) = parse("var 1;");
    assert_eq!(errors, 1);
    let ts = tokens("(1;");
    let mut parser = Parser::new(&ts);
    parser.parse();
    assert_eq!(parser.errors()[0].kind, ParseErrorKind::Expected(Expected::RightParenAfterGrouping));
}

#[test]
fn parser_reads_functions_and_calls() {
    let (stmts, errors) = parse("fun add(a, b) { print a + b; } add(1, 2);");
    assert_eq!(errors, 0);
    match &stmts[0] {
        Stmt::Function(f) => {
            assert_eq!(f.name.lexeme, "add");
            assert_eq!(f.params.len(), 2);
            assert!(matches!(*f.body, Stmt::Block(_)));
        }
        _ => panic!("expected a function"),
    }
    match &stmts[1] {
        Stmt::Expression(e) => match &e.expression {
            Expr::Call(c) => assert_eq!(c.arguments.len(), 2),
            _ => panic!("expected a call"),
        },
        _ => panic!("expected an expression statement"),
    }
}

fn resolve(code: &str) -> Result<Vec<(String, usize)>, ResolveError> {
    let ts = tokens(code);
    let stmts = Parser::new(&ts).parse();
    let mut resolver = Resolver::new();
    resolver.resolve(&stmts)?;
    Ok(resolver.resolutions().iter().map(|(t, d)| (t.lexeme.clone(), *d)).collect())
}

#[test]
fn resolver_counts_scopes_to_the_declaration() {
    let found = resolve("var g = 1; { var a = 1; { print a; print g; } }").unwrap();
    assert_eq!(found, vec![("a".to_string(), 1)]);
    let found = resolve("fun f(x) { { print x; } }").unwrap();
    assert_eq!(found, vec![("x".to_string(), 2)]);
}

#[test]
fn resolver_rejects_bad_programs() {
    assert!(matches!(resolve("{ var a = 1; var a = 2; }"), Err(ResolveError::AlreadyDeclared(_))));
    assert!(matches!(resolve("{ var a = a; }"), Err(ResolveError::ReadInOwnInitializer)));
    assert!(resolve("var a = 1; var a = 2;").is_ok());
}

#[test]
fn environments_read_back_definitions_and_assignments() {
    let mut envs: Environments<i32> = Environments::new();
    let global = envs.global();
    let name = "x".to_string();
    envs.define(global, &name, 1);
    assert_eq!(envs.get(global, &name), Some(&1));
    let inner = envs.new_with_parent(global);
    let innermost = envs.new_with_parent(inner);
    assert_eq!(envs.get(innermost, &name), Some(&1));
    assert!(envs.assign(innermost, &name, 5));
    assert_eq!(envs.get(global, &name), Some(&5));
    envs.define(inner, &name, 7);
    assert_eq!(envs.get(innermost, &name), Some(&7));
    assert_eq!(envs.get_at(innermost, 2, &name), Some(&5));
    assert_eq!(envs.get_at(innermost, 1, &name), Some(&7));
    assert!(envs.assign_at(innermost, 2, &name, 9));
    assert_eq!(envs.get(global, &name), Some(&9));
    assert!(!envs.assign(global, &"y".to_string(), 0));
    assert_eq!(envs.get(innermost, &"y".to_string()), None);
}
