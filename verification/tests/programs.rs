use lox::chunk::{Chunk, Constant};
use lox::compiler::Compiler;
use lox::vm::{NumberAnswer, NumberOp, NumberRequest, Printed, Step, Vm};

/// The value bits of each number constant of `chunk` (0 for a string constant).
fn number_bits(chunk: &Chunk) -> Vec<u64> {
    chunk
        .constants
        .iter()
        .map(|c| match c {
            Constant::Number(text) => text.parse::<f64>().unwrap().to_bits(),
            Constant::String(_) => 0,
        })
        .collect()
}

/// Answers a request of the machine with IEEE 754 double arithmetic.
fn answer(r: NumberRequest) -> NumberAnswer {
    let a = f64::from_bits(r.lhs);
    let b = f64::from_bits(r.rhs);
    match r.op {
        NumberOp::Add => NumberAnswer::Number((a + b).to_bits()),
        NumberOp::Subtract => NumberAnswer::Number((a - b).to_bits()),
        NumberOp::Multiply => NumberAnswer::Number((a * b).to_bits()),
        NumberOp::Divide => NumberAnswer::Number((a / b).to_bits()),
        NumberOp::Negate => NumberAnswer::Number((-a).to_bits()),
        NumberOp::Equal => NumberAnswer::Bool(a == b),
        NumberOp::Greater => NumberAnswer::Bool(a > b),
        NumberOp::Less => NumberAnswer::Bool(a < b),
        NumberOp::Truthy => NumberAnswer::Bool(a != 0.0),
    }
}

/// The line `print` writes for `p`.
fn printed_line(p: Printed) -> String {
    match p {
        Printed::Bool(b) => format!("{}\n", b),
        Printed::Nil => "<nil>\n".to_string(),
        Printed::Text(t) => format!("{}\n", t),
        Printed::Number(n) => format!("{}\n", f64::from_bits(n)),
    }
}

/// Compiles and runs lox code, returning everything it printed.
fn run_code(code: &str) -> String {
    let chunk = Compiler::new(code).compile().unwrap();
    let numbers = number_bits(&chunk);
    let mut vm = Vm::new(chunk, numbers);
    let mut out = String::new();
    let mut step = vm.step().unwrap();
    loop {
        match step {
            Step::Continue => {}
            Step::Print(p) => out.push_str(&printed_line(p)),
            Step::Request(r) => {
                step = vm.resume(answer(r)).unwrap();
                continue;
            }
            Step::Halt => break,
        }
        step = vm.step().unwrap();
    }
    out
}

#[test]
fn test_print_number() {
    assert_eq!(run_code("print 123;").trim(), "123");
}

#[test]
fn test_print_string() {
    assert_eq!(run_code("print \"hello\";").trim(), "hello");
}

#[test]
fn test_print_boolean() {
    assert_eq!(run_code("print true;").trim(), "true");
    assert_eq!(run_code("print false;").trim(), "false");
}

#[test]
fn test_print_nil() {
    assert_eq!(run_code("print nil;").trim(), "<nil>");
}

#[test]
fn test_print_multiple_lines() {
    let output = run_code("print \"first\";\nprint \"second\";\nprint 3;");
    assert_eq!(output.trim(), "first\nsecond\n3");
}

#[test]
fn test_arithmetic() {
    assert_eq!(run_code("print 1 + 2;").trim(), "3");
    assert_eq!(run_code("print 5 - 3;").trim(), "2");
    assert_eq!(run_code("print 4 * 6;").trim(), "24");
    assert_eq!(run_code("print 6 / 2;").trim(), "3");
}

#[test]
fn test_div_result_is_float() {
    assert_eq!(run_code("print 5 / 2;").trim(), "2.5");
}

#[test]
fn test_operator_precedence() {
    assert_eq!(run_code("print 1 + 2 * 3;").trim(), "7");
    assert_eq!(run_code("print 10 - 4 - 3;").trim(), "3");
    assert_eq!(run_code("print 12 / 3 / 2;").trim(), "2");
}

#[test]
fn test_grouping() {
    assert_eq!(run_code("print (1 + 2) * 3;").trim(), "9");
}

#[test]
fn test_unary_minus() {
    assert_eq!(run_code("print -3;").trim(), "-3");
    assert_eq!(run_code("print -(1 + 2);").trim(), "-3");
}

#[test]
fn test_string_concatenation() {
    assert_eq!(run_code("print \"con\" + \"cat\";").trim(), "concat");
}

#[test]
fn test_comparison() {
    assert_eq!(run_code("print 5 > 3;").trim(), "true");
    assert_eq!(run_code("print 5 < 3;").trim(), "false");
    assert_eq!(run_code("print 5 >= 5;").trim(), "true");
    assert_eq!(run_code("print 5 <= 4;").trim(), "false");
}

#[test]
fn test_equality() {
    assert_eq!(run_code("print 1 == 1;").trim(), "true");
    assert_eq!(run_code("print 1 == 2;").trim(), "false");
    assert_eq!(run_code("print 1 != 2;").trim(), "true");
    assert_eq!(run_code("print \"a\" == \"a\";").trim(), "true");
    assert_eq!(run_code("print \"a\" == \"b\";").trim(), "false");
    assert_eq!(run_code("print nil == nil;").trim(), "true");
    assert_eq!(run_code("print 1 == \"1\";").trim(), "false");
}

#[test]
fn test_not() {
    assert_eq!(run_code("print !true;").trim(), "false");
    assert_eq!(run_code("print !false;").trim(), "true");
    assert_eq!(run_code("print !nil;").trim(), "true");
    assert_eq!(run_code("print !0;").trim(), "true");
    assert_eq!(run_code("print !123;").trim(), "false");
}

#[test]
fn test_global_var_decl() {
    assert_eq!(run_code("var a = 5; print a;").trim(), "5");
}

#[test]
fn test_global_var_uninitialized_is_nil() {
    assert_eq!(run_code("var a; print a;").trim(), "<nil>");
}

#[test]
fn test_global_var_assign() {
    assert_eq!(run_code("var a = 1; a = 2; print a;").trim(), "2");
}

#[test]
fn test_local_var_scope() {
    assert_eq!(run_code("{ var a = 1; print a; }").trim(), "1");
}

#[test]
fn test_nested_scope_shadowing() {
    let code = "var a = 1;\n{ var a = 2; print a; }\nprint a;";
    assert_eq!(run_code(code).trim(), "2\n1");
}

#[test]
fn test_var_expression_scope() {
    assert_eq!(run_code("1 + 2; print \"done\";").trim(), "done");
}

#[test]
fn test_line_comment() {
    assert_eq!(run_code("// comment\n print 1 + 1;").trim(), "2");
}

#[test]
fn control_flow_runs_loops_and_branches() {
    assert_eq!(run_code("var i = 0; while (i < 3) { print i; i = i + 1; }").trim(), "0\n1\n2");
    assert_eq!(run_code("for (var i = 0; i < 3; i = i + 1) print i;").trim(), "0\n1\n2");
    assert_eq!(run_code("if (1 > 2) print \"yes\"; else print \"no\";").trim(), "no");
}

#[test]
fn and_or_have_no_rule() {
    assert!(Compiler::new("print nil or \"right\";").compile().is_err());
    assert!(Compiler::new("print false and 1;").compile().is_err());
}

#[test]
fn unary_operand_is_a_whole_expression() {
    assert_eq!(run_code("print -1 + 2;").trim(), "-3");
    assert_eq!(run_code("print !1 == 2;").trim(), "true");
}
