use lox::chunk::{Chunk, Constant, ListedInstruction, Operand};
use lox::compiler::Compiler;
use lox::error::{CompileErrorKind, Expectation, LoxError, ScanErrorKind};
use lox::lox::Lox;
use lox::opcode::OpCode;
use lox::parse_rule::{get_parse_rule, ParseFnType};
use lox::precedence::Precedence;
use lox::scanner::Scanner;
use lox::token::TokenType;

fn kinds(code: &str) -> Vec<TokenType> {
    Lox::new().run(code).unwrap().iter().map(|t| t.typ).collect()
}

#[test]
fn scanner_reads_operators_and_keywords() {
    assert_eq!(
        kinds("var x = 1.5 >= y; // note"),
        vec![
            TokenType::Var,
            TokenType::Identifier,
            TokenType::Equal,
            TokenType::Number,
            TokenType::GreaterEqual,
            TokenType::Identifier,
            TokenType::Semicolon,
            TokenType::Eof
        ]
    );
    let tokens = Lox::new().run("fun f() {}\n\"a\nb\"").unwrap();
    assert_eq!(tokens[0].typ, TokenType::Function);
    assert_eq!(tokens[5].typ, TokenType::RightBrace);
    assert_eq!(tokens[6].typ, TokenType::String);
    assert_eq!(tokens[6].lexeme, "\"a\nb\"");
    assert_eq!(tokens[6].line, 3);
    assert_eq!(tokens[7].typ, TokenType::Eof);
}

#[test]
fn scanner_reports_errors_with_text_and_line() {
    match Lox::new().run("\n\"open") {
        Err(LoxError::ScanError { kind, lexeme, line }) => {
            assert_eq!(kind, ScanErrorKind::UnterminatedString);
            assert_eq!(lexeme, "\"open");
            assert_eq!(line, 2);
        }
        _ => panic!("expected a scan error"),
    }
    let mut scanner = Scanner::new("@");
    match scanner.scan_token() {
        Err(LoxError::ScanError { kind, .. }) => assert_eq!(kind, ScanErrorKind::UnexpectedCharacter),
        _ => panic!("expected a scan error"),
    }
}

#[test]
fn scanned_tokens_end_with_one_eof() {
    let tokens = Lox::new().run("print 1; print 2;").unwrap();
    assert_eq!(tokens.last().unwrap().typ, TokenType::Eof);
    assert_eq!(tokens.iter().filter(|t| t.typ == TokenType::Eof).count(), 1);
}

#[test]
fn opcodes_round_trip_through_bytes() {
    for byte in 0u8..=255 {
        match OpCode::try_from_byte(byte) {
            Some(op) => assert_eq!(op.to_byte(), byte),
            None => assert!(byte >= 25),
        }
    }
    assert_eq!(OpCode::Return.to_byte(), 24);
}

#[test]
fn token_kinds_round_trip_through_indexes() {
    for i in 0..39usize {
        let t = TokenType::from_index(i).unwrap();
        assert_eq!(t.index(), i);
    }
    assert!(TokenType::from_index(39).is_none());
}

#[test]
fn precedence_climbs_one_level_and_stops_at_primary() {
    assert_eq!(Precedence::Lowest.higher(), Precedence::Assignment);
    assert_eq!(Precedence::Term.higher(), Precedence::Factor);
    assert_eq!(Precedence::Primary.higher(), Precedence::Primary);
    assert!(Precedence::Assignment.at_most(&Precedence::Term));
    assert!(!Precedence::Factor.at_most(&Precedence::Term));
}

#[test]
fn parse_rules_match_the_grammar() {
    let minus = get_parse_rule(TokenType::Minus);
    assert_eq!(minus.prefix, Some(ParseFnType::Unary));
    assert_eq!(minus.infix, Some(ParseFnType::Binary));
    assert_eq!(minus.precedence, Precedence::Term);
    let eof = get_parse_rule(TokenType::Eof);
    assert_eq!(eof.prefix, None);
    assert_eq!(eof.infix, None);
    let or = get_parse_rule(TokenType::Or);
    assert_eq!(or.infix, None);
    assert_eq!(or.precedence, Precedence::Lowest);
}

fn compile(code: &str) -> Chunk {
    Compiler::new(code).compile().unwrap()
}

#[test]
fn compiler_emits_code_for_a_print() {
    let chunk = compile("print 1 + 2;");
    assert_eq!(
        chunk.code,
        vec![
            OpCode::Constant.to_byte(),
            0,
            OpCode::Constant.to_byte(),
            1,
            OpCode::Add.to_byte(),
            OpCode::Print.to_byte(),
            OpCode::Return.to_byte()
        ]
    );
    assert_eq!(chunk.constants, vec![Constant::Number("1".to_string()), Constant::Number("2".to_string())]);
    assert_eq!(chunk.lines, vec![1, 1, 1, 1, 1, 1, 1]);
}

#[test]
fn compiler_patches_the_jumps_of_an_if() {
    let chunk = compile("if (true)\n print 1;");
    assert_eq!(
        chunk.code,
        vec![
            OpCode::True.to_byte(),
            OpCode::JumpIfFalse.to_byte(),
            0,
            7,
            OpCode::Pop.to_byte(),
            OpCode::Constant.to_byte(),
            0,
            OpCode::Print.to_byte(),
            OpCode::Jump.to_byte(),
            0,
            1,
            OpCode::Pop.to_byte(),
            OpCode::Return.to_byte()
        ]
    );
    assert_eq!(chunk.lines, vec![1, 1, 1, 1, 1, 2, 2, 2, 2, 2, 2, 2, 2]);
}

#[test]
fn compiler_ends_scopes_with_pops() {
    let chunk = compile("{ var a = 1; var b = 2; }");
    assert_eq!(
        chunk.code,
        vec![
            OpCode::Constant.to_byte(),
            0,
            OpCode::Constant.to_byte(),
            1,
            OpCode::Pop.to_byte(),
            OpCode::Pop.to_byte(),
            OpCode::Return.to_byte()
        ]
    );
}

#[test]
fn compiler_strips_quotes_of_strings_and_uses_slots_for_locals() {
    let chunk = compile("{ var a = \"x\"; print a; }");
    assert_eq!(chunk.constants, vec![Constant::String("x".to_string())]);
    assert!(chunk.code.windows(2).any(|w| w == [OpCode::GetLocal.to_byte(), 0]));
    assert_eq!(*chunk.code.last().unwrap(), OpCode::Return.to_byte());
}

#[test]
fn compiler_reports_each_error_kind() {
    let errors = Compiler::new("var = 1;").compile().unwrap_err();
    match &errors[0] {
        LoxError::CompileError { reason, .. } => {
            assert_eq!(*reason, CompileErrorKind::Expected(Expectation::VariableName))
        }
        _ => panic!("expected a compile error"),
    }
    let errors = Compiler::new("1 + 2 = 3;").compile().unwrap_err();
    assert!(matches!(errors[0], LoxError::CompileError { reason: CompileErrorKind::InvalidAssignmentTarget, .. }));
    let errors = Compiler::new("{ var a = 1; var a = 2; }").compile().unwrap_err();
    assert!(matches!(errors[0], LoxError::CompileError { reason: CompileErrorKind::AlreadyDeclared, .. }));
    let errors = Compiler::new("{ var a = a; }").compile().unwrap_err();
    assert!(matches!(errors[0], LoxError::CompileError { reason: CompileErrorKind::ReadInOwnInitializer, .. }));
    let errors = Compiler::new("print ;").compile().unwrap_err();
    assert!(matches!(errors[0], LoxError::CompileError { reason: CompileErrorKind::ExpectExpression, .. }));
    let errors = Compiler::new("print 1").compile().unwrap_err();
    assert!(matches!(
        errors[0],
        LoxError::CompileError { reason: CompileErrorKind::Expected(Expectation::SemicolonAfterValue), .. }
    ));
    let many: String = (0..257).map(|i| format!("print {};", i)).collect();
    let errors = Compiler::new(&many).compile().unwrap_err();
    assert!(errors
        .iter()
        .any(|e| matches!(e, LoxError::CompileError { reason: CompileErrorKind::TooManyConstants, .. })));
}

#[test]
fn compiler_collects_scan_errors() {
    let errors = Compiler::new("print 1 @#;").compile().unwrap_err();
    assert_eq!(errors.len(), 2);
    match &errors[0] {
        LoxError::ScanError { kind, lexeme, line } => {
            assert_eq!(*kind, ScanErrorKind::UnexpectedCharacter);
            assert_eq!(lexeme, "@");
            assert_eq!(*line, 1);
        }
        _ => panic!("expected a scan error"),
    }
    assert!(matches!(errors[1], LoxError::ScanError { kind: ScanErrorKind::UnexpectedCharacter, .. }));
}

#[test]
fn compiler_orders_scan_and_compile_errors() {
    let errors = Compiler::new("print @;\nvar = 1;").compile().unwrap_err();
    assert_eq!(errors.len(), 3);
    match &errors[0] {
        LoxError::ScanError { kind, lexeme, line } => {
            assert_eq!(*kind, ScanErrorKind::UnexpectedCharacter);
            assert_eq!(lexeme, "@");
            assert_eq!(*line, 1);
        }
        _ => panic!("expected a scan error"),
    }
    match &errors[1] {
        LoxError::CompileError { reason, lexeme, line } => {
            assert_eq!(*reason, CompileErrorKind::ExpectExpression);
            assert_eq!(lexeme, ";");
            assert_eq!(*line, 1);
        }
        _ => panic!("expected a compile error"),
    }
    match &errors[2] {
        LoxError::CompileError { reason, lexeme, line } => {
            assert_eq!(*reason, CompileErrorKind::Expected(Expectation::VariableName));
            assert_eq!(lexeme, "=");
            assert_eq!(*line, 2);
        }
        _ => panic!("expected a compile error"),
    }
}

#[test]
fn compiler_recovers_and_collects_several_errors() {
    let errors = Compiler::new("print ; var = 2; print 3;").compile().unwrap_err();
    assert_eq!(errors.len(), 2);
}

#[test]
fn compiler_reports_each_error_where_it_is_met() {
    let errors = Compiler::new("print ;\nvar = 2;\n{ print 1 }\nprint 4;").compile().unwrap_err();
    assert_eq!(errors.len(), 3);
    match &errors[0] {
        LoxError::CompileError { reason, lexeme, line } => {
            assert_eq!(*reason, CompileErrorKind::ExpectExpression);
            assert_eq!(lexeme, ";");
            assert_eq!(*line, 1);
        }
        _ => panic!("expected a compile error"),
    }
    match &errors[1] {
        LoxError::CompileError { reason, lexeme, line } => {
            assert_eq!(*reason, CompileErrorKind::Expected(Expectation::VariableName));
            assert_eq!(lexeme, "=");
            assert_eq!(*line, 2);
        }
        _ => panic!("expected a compile error"),
    }
    match &errors[2] {
        LoxError::CompileError { reason, lexeme, line } => {
            assert_eq!(*reason, CompileErrorKind::Expected(Expectation::SemicolonAfterValue));
            assert_eq!(lexeme, "}");
            assert_eq!(*line, 3);
        }
        _ => panic!("expected a compile error"),
    }
}

#[test]
fn listing_shows_jump_targets_and_marks() {
    let chunk = compile("if (true) print 1;");
    let listed: Vec<ListedInstruction> = chunk.with_ip(0).instructions().unwrap();
    assert_eq!(listed[0].offset, 0);
    assert!(listed[0].highlight);
    assert_eq!(listed[0].new_line, Some(1));
    assert_eq!(listed[0].op, OpCode::True);
    assert_eq!(listed[1].op, OpCode::JumpIfFalse);
    for pair in listed.windows(2) {
        assert!(pair[0].offset < pair[1].offset);
    }
    match listed[1].operand {
        Operand::JumpTarget(t) => assert!(t <= chunk.code.len()),
        _ => panic!("expected a jump target"),
    }
    let last = listed.last().unwrap();
    assert_eq!(last.op, OpCode::Return);
}

#[test]
fn listing_rejects_code_that_is_no_instruction() {
    let mut chunk = Chunk::new();
    chunk.write(200, 1);
    assert!(chunk.with_ip(-1).instructions().is_err());
}

#[test]
fn chunk_gives_the_line_of_an_offset() {
    let chunk = compile("print 1;\nprint 2;");
    assert_eq!(chunk.get_line(0), 1);
    assert_eq!(chunk.get_line(3), 2);
    assert_eq!(chunk.get_line(100), 2);
}

#[test]
fn tokens_cover_the_text_without_blanks() {
    let code = "var x = 1.5 >= y;\n  print x;\n\n(x);";
    let tokens = Lox::new().run(code).unwrap();
    let joined: String = tokens.iter().map(|t| t.lexeme.clone()).collect();
    let expected: String = code.chars().filter(|c| !matches!(c, ' ' | '\t' | '\r' | '\n')).collect();
    assert_eq!(joined, expected);
    let line_of = |lexeme: &str| tokens.iter().find(|t| t.lexeme == lexeme).unwrap().line;
    assert_eq!(line_of("var"), 1);
    assert_eq!(line_of("print"), 2);
    assert_eq!(line_of("("), 4);
    assert_eq!(tokens.last().unwrap().line, 4);
}
