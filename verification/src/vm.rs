use vstd::prelude::*;

use crate::chunk::{Chunk, Constant};
use crate::memory::{entries_map, keys_unique, Memory, STACK_MAX};
use crate::codegen::{advanced, cg_and, cg_expr_stmt, cg_expression, cg_if, cg_literal, cg_named_var, cg_or,
    cg_precedence, cg_print, cg_stmt, cg_unary, cg_while, consumed_tok, emitted, hi, if_marks, innermost,
    jump_emitted, kind, lemma_cg_and, lemma_cg_expr_stmt, lemma_cg_expression_grows, lemma_cg_if,
    lemma_cg_named_var, lemma_cg_or, lemma_cg_precedence_grows, lemma_cg_print, lemma_cg_stmt_grows,
    lemma_cg_while, lemma_grows_at, lemma_innermost_is_last, lemma_jump_emitted_grows, lo, loop_emitted,
    patched, while_marks, Gen};
use crate::error::Expectation;
use crate::precedence::Precedence;
use crate::compiler::binary_code;
use crate::opcode::{lemma_opcode_byte_roundtrip, OpCode};
use crate::token::{TokenSpec, TokenType};
use crate::text::concat;
use crate::value::{ObjAddr, Value};

verus! {

/// An arithmetic or comparison the machine needs done on numbers (given by their bit
/// patterns); whoever runs the machine computes it and hands the answer back.
#[derive(Clone, Copy, Debug, PartialEq, Eq, Structural)]
pub enum NumberOp {
    Add,
    Subtract,
    Multiply,
    Divide,
    /// Only `lhs` is an operand.
    Negate,
    Equal,
    Greater,
    Less,
    /// Whether `lhs` counts as true (it is not zero); only `lhs` is an operand.
    Truthy,
}

/// A question about numbers: the operation and its operands' bit patterns.
#[derive(Clone, Copy, Debug, PartialEq, Eq, Structural)]
pub struct NumberRequest {
    pub op: NumberOp,
    pub lhs: u64,
    pub rhs: u64,
}

/// The answer to a `NumberRequest`: a number for the arithmetic, a truth value for the
/// comparisons and `Truthy`.
#[derive(Clone, Copy, Debug, PartialEq, Eq, Structural)]
pub enum NumberAnswer {
    Number(u64),
    Bool(bool),
}

/// What `print` writes: a truth value, nil, a string's text, or a number (its bits).
#[derive(Clone, Debug, PartialEq, Eq)]
pub enum Printed {
    Bool(bool),
    Nil,
    Text(String),
    Number(u64),
}

/// What one step of the machine did.
#[derive(Clone, Debug, PartialEq, Eq)]
pub enum Step {
    /// An instruction ran; go on.
    Continue,
    /// A `Print` ran; this is to be written, then go on.
    Print(Printed),
    /// An instruction waits for an answer about numbers (`resume`).
    Request(NumberRequest),
    /// `Return` ran: the program is over.
    Halt,
}

/// What the machine does with the answer it waits for.
#[derive(Clone, Copy, Debug, PartialEq, Eq, Structural)]
pub enum Pending {
    /// Push the number.
    PushNumber,
    /// Push the truth value.
    PushBool,
    /// Push the negated truth value.
    PushNot,
    /// Jump ahead by this distance unless the value is true.
    JumpUnless(usize),
}

/// Errors that the program's code causes.
#[derive(Clone, Copy, Debug, PartialEq, Eq, Structural)]
pub enum RuntimeErrorKind {
    /// A byte that encodes no instruction.
    InvalidOpCode(u8),
    NegateNonNumber,
    /// `+` on two objects that are not both strings.
    AddNonStrings,
    /// `+` on anything but two numbers or two objects.
    InvalidAdd,
    SubtractNonNumbers,
    MultiplyNonNumbers,
    DivideNonNumbers,
    /// `>` or `<` on anything but two numbers.
    CompareNonNumbers,
    /// The name of a global to define is no string.
    DefineNameNotString,
    /// The name of a global to read is no string.
    GetNameNotString,
    /// The name of a global to write is no string.
    SetNameNotString,
    /// A read of a stack slot past the top.
    LocalNotFound(u8),
    /// A call with nothing on the stack.
    CallStackUnderflow,
    /// A call of something that is no function.
    NotCallable,
}

/// Faults: code no compiler makes, or a run driven out of order.
#[derive(Clone, Copy, Debug, PartialEq, Eq, Structural)]
pub enum Fault {
    /// The instruction pointer (or an operand) is past the end of the code.
    CodeOutOfRange,
    /// An instruction refers to a constant the chunk does not have.
    InvalidConstantIndex,
    /// A push onto a full stack.
    StackOverflow,
    /// A pop or peek of an empty stack.
    StackUnderflow,
    /// A write to a stack slot past the top.
    SlotOutOfRange,
    /// A backward jump before the start of the code.
    JumpBeforeStart,
    /// `step` while an answer is awaited.
    PendingRequest,
    /// `resume` while no answer is awaited.
    NoRequest,
    /// An answer of the wrong kind.
    AnswerMismatch,
}

/// The errors of a run.
#[derive(Clone, Debug, PartialEq, Eq)]
pub enum VmError {
    /// An error of the program, on source line `line`.
    Runtime { kind: RuntimeErrorKind, line: usize },
    /// A read (`write` false) or an assignment (`write` true) of the global `name`,
    /// which is not defined, on source line `line`.
    UndefinedGlobal { name: String, write: bool, line: usize },
    /// A fault of the code or of the driver.
    Fault(Fault),
}

/// `Printed` with its text as characters.
pub enum PrintedView {
    Bool(bool),
    Nil,
    Text(Seq<char>),
    Number(u64),
}

/// `Step` with its text as characters.
pub enum StepView {
    Continue,
    Print(PrintedView),
    Request(NumberRequest),
    Halt,
}

/// `VmError` with its name as characters.
pub enum VmErrorView {
    Runtime { kind: RuntimeErrorKind, line: usize },
    UndefinedGlobal { name: Seq<char>, write: bool, line: usize },
    Fault(Fault),
}

impl View for Printed {
    type V = PrintedView;

    open spec fn view(&self) -> PrintedView {
        match self {
            Printed::Bool(b) => PrintedView::Bool(*b),
            Printed::Nil => PrintedView::Nil,
            Printed::Text(t) => PrintedView::Text(t@),
            Printed::Number(n) => PrintedView::Number(*n),
        }
    }
}

impl View for Step {
    type V = StepView;

    open spec fn view(&self) -> StepView {
        match self {
            Step::Continue => StepView::Continue,
            Step::Print(p) => StepView::Print(p@),
            Step::Request(r) => StepView::Request(*r),
            Step::Halt => StepView::Halt,
        }
    }
}

impl View for VmError {
    type V = VmErrorView;

    open spec fn view(&self) -> VmErrorView {
        match self {
            VmError::Runtime { kind, line } => VmErrorView::Runtime { kind: *kind, line: *line },
            VmError::UndefinedGlobal { name, write, line } => VmErrorView::UndefinedGlobal { name: name@, write: *write, line: *line },
            VmError::Fault(f) => VmErrorView::Fault(*f),
        }
    }
}

/// What a step or a resume gave, seen with text as characters.
pub type Outcome = Result<StepView, VmErrorView>;

/// The outcome of `r`.
pub open spec fn outcome(r: Result<Step, VmError>) -> Outcome {
    match r {
        Ok(s) => Ok(s@),
        Err(e) => Err(e@),
    }
}

/// The machine's state, seen mathematically.
#[verifier::ext_equal]
pub struct VmView {
    pub code: Seq<u8>,
    pub lines: Seq<usize>,
    pub constants: Seq<Constant>,
    pub numbers: Seq<u64>,
    pub ip: int,
    pub stack: Seq<Value>,
    pub heap: Seq<Option<Seq<char>>>,
    pub globals: Map<Seq<char>, Value>,
    pub pool: Map<Seq<char>, ObjAddr>,
    pub pending: Option<Pending>,
}

/// The longest code the machine runs. A jump can take the instruction pointer up to
/// `MAX_JUMP` bytes past the end of the code, and a jump's target is computed from there:
/// under 2^30 bytes of code every such position fits a `usize` of 32 bits.
pub const MAX_CODE_LEN: usize = 0x4000_0000;

/// The largest jump distance.
pub const MAX_JUMP: usize = 0xffff;

/// The error of a program error `kind` on `line`.
pub open spec fn runtime(kind: RuntimeErrorKind, line: usize) -> Outcome {
    Err(VmErrorView::Runtime { kind, line })
}

/// The fault `f`.
pub open spec fn fault(f: Fault) -> Outcome {
    Err(VmErrorView::Fault(f))
}

/// Going on.
pub open spec fn proceed() -> Outcome {
    Ok(StepView::Continue)
}

impl VmView {
    pub open spec fn with_ip(self, ip: int) -> VmView {
        VmView { ip, ..self }
    }

    pub open spec fn with_stack(self, stack: Seq<Value>) -> VmView {
        VmView { stack, ..self }
    }

    pub open spec fn with_pending(self, pending: Option<Pending>) -> VmView {
        VmView { pending, ..self }
    }

    pub open spec fn with_globals(self, globals: Map<Seq<char>, Value>) -> VmView {
        VmView { globals, ..self }
    }

    /// Pushes `v`, or faults on a full stack.
    pub open spec fn push(self, v: Value) -> (VmView, Outcome) {
        if self.stack.len() >= STACK_MAX {
            (self, fault(Fault::StackOverflow))
        } else {
            (self.with_stack(self.stack.push(v)), proceed())
        }
    }

    /// Asks for `op` on `lhs` and `rhs`, the answer to be handled as `pending` says.
    pub open spec fn request(self, pending: Pending, op: NumberOp, lhs: u64, rhs: u64) -> (VmView, Outcome) {
        (self.with_pending(Some(pending)), Ok(StepView::Request(NumberRequest { op, lhs, rhs })))
    }

    /// The string object of text `s`: the interned one, else a new one, interned.
    pub open spec fn intern(self, s: Seq<char>) -> (VmView, ObjAddr) {
        if self.pool.contains_key(s) {
            (self, self.pool[s])
        } else {
            (VmView { heap: self.heap.push(Some(s)), pool: self.pool.insert(s, self.heap.len() as usize), ..self },
                self.heap.len() as usize)
        }
    }

    /// The value of constant `index`: a number from its bits, a string from its interned
    /// object; `None` when there is no such constant.
    pub open spec fn constant_value(self, index: int) -> Option<(VmView, Value)> {
        if 0 <= index < self.constants.len() && index < self.numbers.len() {
            match self.constants[index] {
                Constant::Number(_) => Some((self, Value::Number(self.numbers[index]))),
                Constant::String(s) => {
                    let (v, addr) = self.intern(s@);
                    Some((v, Value::Object(addr)))
                },
            }
        } else {
            None
        }
    }

    /// The text of the string that `v` refers to, if any.
    pub open spec fn string_of(self, v: Value) -> Option<Seq<char>> {
        match v {
            Value::Object(addr) => if addr < self.heap.len() { self.heap[addr as int] } else { None },
            _ => None,
        }
    }

    /// Whether `v` counts as true, or `None` for a number (its value decides).
    pub open spec fn truth(self, v: Value) -> Option<bool> {
        match v {
            Value::Boolean(b) => Some(b),
            Value::Number(_) => None,
            Value::Nil => Some(false),
            Value::Object(addr) => Some(addr < self.heap.len() && self.heap[addr as int] is Some),
        }
    }
}

/// The 16-bit operand at `at`, if the code has it.
pub open spec fn operand16(code: Seq<u8>, at: int) -> Option<nat> {
    if 0 <= at && at + 1 < code.len() {
        Some(code[at] as nat * 256 + code[at + 1] as nat)
    } else {
        None
    }
}

/// `Constant`, `DefineGlobal`, `GetGlobal` and `SetGlobal`, whose operand names a constant.
pub open spec fn spec_constant_op(s: VmView, op: OpCode, line: usize) -> (VmView, Outcome) {
    let define = op == OpCode::DefineGlobal;
    let assign = op == OpCode::SetGlobal;
    if s.ip >= s.code.len() {
        (s, fault(Fault::CodeOutOfRange))
    } else if (define || assign) && s.stack.len() == 0 {
        (s, fault(Fault::StackUnderflow))
    } else {
        let index = s.code[s.ip] as int;
        let s0 = if define { s.with_stack(s.stack.drop_last()) } else { s };
        match s0.constant_value(index) {
            None => (s0, fault(Fault::InvalidConstantIndex)),
            Some((s2, c)) => {
                let s3 = s2.with_ip(s.ip + 1);
                if op == OpCode::Constant {
                    s3.push(c)
                } else {
                    match s3.string_of(c) {
                        None => (s3, runtime(
                            if define { RuntimeErrorKind::DefineNameNotString }
                            else if assign { RuntimeErrorKind::SetNameNotString }
                            else { RuntimeErrorKind::GetNameNotString },
                            line,
                        )),
                        Some(name) => {
                            if define {
                                (s3.with_globals(s3.globals.insert(name, s.stack.last())), proceed())
                            } else if !s3.globals.contains_key(name) {
                                (s3, Err(VmErrorView::UndefinedGlobal { name, write: assign, line }))
                            } else if assign {
                                (s3.with_globals(s3.globals.insert(name, s.stack.last())), proceed())
                            } else {
                                s3.push(s3.globals[name])
                            }
                        },
                    }
                }
            },
        }
    }
}

/// `GetLocal`, `SetLocal` and `Call`, whose operand is a slot or an argument count.
pub open spec fn spec_slot_op(s: VmView, op: OpCode, line: usize) -> (VmView, Outcome) {
    if s.ip >= s.code.len() {
        (s, fault(Fault::CodeOutOfRange))
    } else {
        let operand = s.code[s.ip];
        let s1 = s.with_ip(s.ip + 1);
        if op == OpCode::GetLocal {
            if (operand as int) < s1.stack.len() {
                s1.push(s1.stack[operand as int])
            } else {
                (s1, runtime(RuntimeErrorKind::LocalNotFound(operand), line))
            }
        } else if op == OpCode::SetLocal {
            if s1.stack.len() == 0 {
                (s1, fault(Fault::StackUnderflow))
            } else if (operand as int) < s1.stack.len() {
                (s1.with_stack(s1.stack.update(operand as int, s1.stack.last())), proceed())
            } else {
                (s1, fault(Fault::SlotOutOfRange))
            }
        } else if s1.stack.len() == 0 {
            (s1, runtime(RuntimeErrorKind::CallStackUnderflow, line))
        } else {
            (s1, runtime(RuntimeErrorKind::NotCallable, line))
        }
    }
}

/// `JumpIfFalse`, `Jump` and `RevJump`, whose operand is a 16-bit distance.
pub open spec fn spec_jump(s: VmView, op: OpCode) -> (VmView, Outcome) {
    match operand16(s.code, s.ip) {
        None => (s, fault(Fault::CodeOutOfRange)),
        Some(distance) => {
            let after = s.ip + 2;
            if op == OpCode::Jump {
                (s.with_ip(after + distance), proceed())
            } else if op == OpCode::RevJump {
                if distance > after {
                    (s.with_ip(after), fault(Fault::JumpBeforeStart))
                } else {
                    (s.with_ip(after - distance), proceed())
                }
            } else if s.stack.len() == 0 {
                (s.with_ip(after), fault(Fault::StackUnderflow))
            } else {
                let top = s.stack.last();
                match s.truth(top) {
                    None => s.with_ip(after).request(Pending::JumpUnless(distance as usize), NumberOp::Truthy, top->Number_0, 0),
                    Some(t) => (s.with_ip(if t { after } else { after + distance }), proceed()),
                }
            }
        },
    }
}

/// What `print` writes for `v`.
pub open spec fn spec_printed(s: VmView, v: Value) -> PrintedView {
    match v {
        Value::Boolean(b) => PrintedView::Bool(b),
        Value::Nil => PrintedView::Nil,
        Value::Number(n) => PrintedView::Number(n),
        Value::Object(_) => match s.string_of(v) {
            Some(t) => PrintedView::Text(t),
            None => PrintedView::Nil,
        },
    }
}

/// `Not`, `Negate` and `Print`, which pop one value.
pub open spec fn spec_unary(s: VmView, op: OpCode, line: usize) -> (VmView, Outcome) {
    if s.stack.len() == 0 {
        (s, fault(Fault::StackUnderflow))
    } else {
        let v = s.stack.last();
        let s1 = s.with_stack(s.stack.drop_last());
        if op == OpCode::Not {
            match s1.truth(v) {
                None => s1.request(Pending::PushNot, NumberOp::Truthy, v->Number_0, 0),
                Some(t) => s1.push(Value::Boolean(!t)),
            }
        } else if op == OpCode::Negate {
            match v {
                Value::Number(n) => s1.request(Pending::PushNumber, NumberOp::Negate, n, 0),
                _ => (s1, runtime(RuntimeErrorKind::NegateNonNumber, line)),
            }
        } else {
            (s1, Ok(StepView::Print(spec_printed(s1, v))))
        }
    }
}

/// Whether two values that are not both numbers are equal: booleans and nil by value,
/// objects by the text of their strings (objects that are no strings are unequal).
pub open spec fn spec_values_equal(s: VmView, a: Value, b: Value) -> bool {
    match (a, b) {
        (Value::Boolean(x), Value::Boolean(y)) => x == y,
        (Value::Nil, Value::Nil) => true,
        (Value::Object(_), Value::Object(_)) => match (s.string_of(a), s.string_of(b)) {
            (Some(x), Some(y)) => x == y,
            _ => false,
        },
        _ => false,
    }
}

/// A binary instruction `op` on line `line`, its operands popped (`a` below `b`).
pub open spec fn spec_binary(s: VmView, op: OpCode, line: usize, a: Value, b: Value) -> (VmView, Outcome) {
    match (a, b) {
        (Value::Number(x), Value::Number(y)) => {
            let (nop, pending) = match op {
                OpCode::Add => (NumberOp::Add, Pending::PushNumber),
                OpCode::Subtract => (NumberOp::Subtract, Pending::PushNumber),
                OpCode::Multiply => (NumberOp::Multiply, Pending::PushNumber),
                OpCode::Divide => (NumberOp::Divide, Pending::PushNumber),
                OpCode::Equal => (NumberOp::Equal, Pending::PushBool),
                OpCode::Greater => (NumberOp::Greater, Pending::PushBool),
                _ => (NumberOp::Less, Pending::PushBool),
            };
            s.request(pending, nop, x, y)
        },
        _ => match op {
            OpCode::Equal => s.push(Value::Boolean(spec_values_equal(s, a, b))),
            OpCode::Add => match (a, b) {
                (Value::Object(_), Value::Object(_)) => match (s.string_of(a), s.string_of(b)) {
                    (Some(x), Some(y)) => {
                        let (s2, addr) = s.intern(x + y);
                        s2.push(Value::Object(addr))
                    },
                    _ => (s, runtime(RuntimeErrorKind::AddNonStrings, line)),
                },
                _ => (s, runtime(RuntimeErrorKind::InvalidAdd, line)),
            },
            OpCode::Subtract => (s, runtime(RuntimeErrorKind::SubtractNonNumbers, line)),
            OpCode::Multiply => (s, runtime(RuntimeErrorKind::MultiplyNonNumbers, line)),
            OpCode::Divide => (s, runtime(RuntimeErrorKind::DivideNonNumbers, line)),
            _ => (s, runtime(RuntimeErrorKind::CompareNonNumbers, line)),
        },
    }
}

/// The instructions that pop two values: `Equal`, `Greater`, `Less` and the arithmetic.
pub open spec fn is_binary(op: OpCode) -> bool {
    op == OpCode::Equal || op == OpCode::Greater || op == OpCode::Less || op == OpCode::Add
        || op == OpCode::Subtract || op == OpCode::Multiply || op == OpCode::Divide
}

/// A binary instruction: pops its two operands and computes.
pub open spec fn spec_binary_op(s: VmView, op: OpCode, line: usize) -> (VmView, Outcome) {
    if s.stack.len() < 2 {
        (s, fault(Fault::StackUnderflow))
    } else {
        let b = s.stack.last();
        let a = s.stack.drop_last().last();
        spec_binary(s.with_stack(s.stack.drop_last().drop_last()), op, line, a, b)
    }
}

/// Runs the instruction `op` of line `line`; `s.ip` is just past its opcode.
pub open spec fn spec_execute(s: VmView, op: OpCode, line: usize) -> (VmView, Outcome) {
    match op {
        OpCode::Return => (s, Ok(StepView::Halt)),
        OpCode::Nil => s.push(Value::Nil),
        OpCode::True => s.push(Value::Boolean(true)),
        OpCode::False => s.push(Value::Boolean(false)),
        OpCode::Pop => if s.stack.len() == 0 {
            (s, fault(Fault::StackUnderflow))
        } else {
            (s.with_stack(s.stack.drop_last()), proceed())
        },
        OpCode::Constant | OpCode::DefineGlobal | OpCode::GetGlobal | OpCode::SetGlobal => spec_constant_op(s, op, line),
        OpCode::GetLocal | OpCode::SetLocal | OpCode::Call => spec_slot_op(s, op, line),
        OpCode::JumpIfFalse | OpCode::Jump | OpCode::RevJump => spec_jump(s, op),
        OpCode::Not | OpCode::Negate | OpCode::Print => spec_unary(s, op, line),
        _ => spec_binary_op(s, op, line),
    }
}

/// One step of the machine in state `s`: the instruction at `s.ip` runs.
pub open spec fn spec_step(s: VmView) -> (VmView, Outcome) {
    if s.pending is Some {
        (s, fault(Fault::PendingRequest))
    } else if !(0 <= s.ip < s.code.len()) {
        (s, fault(Fault::CodeOutOfRange))
    } else {
        let byte = s.code[s.ip];
        let line = s.lines[s.ip];
        let s1 = s.with_ip(s.ip + 1);
        match OpCode::spec_from_byte(byte) {
            None => (s1, runtime(RuntimeErrorKind::InvalidOpCode(byte), line)),
            Some(op) => spec_execute(s1, op, line),
        }
    }
}

/// The machine in state `s` takes `answer` to the question it asked.
pub open spec fn spec_resume(s: VmView, answer: NumberAnswer) -> (VmView, Outcome) {
    match s.pending {
        None => (s, fault(Fault::NoRequest)),
        Some(p) => {
            let s1 = s.with_pending(None);
            match (p, answer) {
                (Pending::PushNumber, NumberAnswer::Number(n)) => s1.push(Value::Number(n)),
                (Pending::PushBool, NumberAnswer::Bool(b)) => s1.push(Value::Boolean(b)),
                (Pending::PushNot, NumberAnswer::Bool(b)) => s1.push(Value::Boolean(!b)),
                (Pending::JumpUnless(d), NumberAnswer::Bool(b)) => (if b { s1 } else { s1.with_ip(s.ip + d) }, proceed()),
                _ => (s, fault(Fault::AnswerMismatch)),
            }
        },
    }
}

/// Running never changes the program: a step and a resume keep the code, its lines, the
/// constants and their number values.
pub proof fn lemma_program_unchanged(s: VmView, answer: NumberAnswer)
    ensures
        spec_step(s).0.code == s.code,
        spec_step(s).0.lines == s.lines,
        spec_step(s).0.constants == s.constants,
        spec_step(s).0.numbers == s.numbers,
        spec_resume(s, answer).0.code == s.code,
        spec_resume(s, answer).0.lines == s.lines,
        spec_resume(s, answer).0.constants == s.constants,
        spec_resume(s, answer).0.numbers == s.numbers,
{
}

/// Strings are interned: interning a text gives an object holding that text, and
/// interning the same text again gives the same object and changes nothing.
pub proof fn lemma_intern_idempotent(s: VmView, t: Seq<char>)
    requires
        forall|k: Seq<char>| #[trigger] s.pool.contains_key(k) ==> s.pool[k] < s.heap.len() && s.heap[s.pool[k] as int] == Some(k),
        s.heap.len() <= usize::MAX,
    ensures
        ({
            let (s1, a1) = s.intern(t);
            let (s2, a2) = s1.intern(t);
            &&& a1 < s1.heap.len()
            &&& s1.heap[a1 as int] == Some(t)
            &&& a2 == a1
            &&& s2 == s1
        }),
{
    if !s.pool.contains_key(t) {
        let (s1, a1) = s.intern(t);
        assert(s1.pool.contains_key(t));
        assert(s1.pool[t] == a1);
    }
}

/// An answer of the kind the machine asked for ends its wait.
pub proof fn lemma_resume_ends_wait(s: VmView, answer: NumberAnswer)
    requires
        s.pending matches Some(p) && (match p {
            Pending::PushNumber => answer is Number,
            _ => answer is Bool,
        }),
    ensures
        spec_resume(s, answer).0.pending is None,
{
}

/// `Equal` on two values that are each a boolean or nil pushes whether they are the same
/// value; `Not` on a boolean or nil pushes whether it is false or nil.
pub proof fn lemma_equal_and_not(s: VmView)
    requires
        s.pending is None,
        0 <= s.ip < s.code.len(),
        0 < s.stack.len() <= STACK_MAX,
    ensures
        ({
            let (r, out) = spec_step(s);
            let n = s.stack.len();
            let top = s.stack.last();
            &&& (s.code[s.ip] == OpCode::Equal.spec_byte() && n >= 2 && (top is Boolean || top is Nil)
                && (s.stack[n - 2] is Boolean || s.stack[n - 2] is Nil))
                ==> out == proceed() && r.ip == s.ip + 1
                    && r.stack == s.stack.drop_last().drop_last().push(Value::Boolean(s.stack[n - 2] == top))
            &&& (s.code[s.ip] == OpCode::Not.spec_byte() && (top is Boolean || top is Nil))
                ==> out == proceed() && r.ip == s.ip + 1
                    && r.stack == s.stack.drop_last().push(Value::Boolean(top == Value::Boolean(false) || top == Value::Nil))
        }),
{
    lemma_opcode_byte_roundtrip(OpCode::Equal, 0);
    lemma_opcode_byte_roundtrip(OpCode::Not, 0);
}

/// The instructions that move values on the stack and the instruction pointer: the
/// literals push themselves; `Pop` drops the top; `GetLocal k` pushes slot `k`;
/// `SetLocal k` stores the top into slot `k` and keeps it; `Jump` and `RevJump` move
/// forward and back by their 16-bit distance from just past the instruction;
/// `JumpIfFalse` on a boolean or nil jumps exactly when it is false or nil and keeps it;
/// `Negate` of anything but a number is an error; `Print` of a boolean or nil pops and
/// prints it.
pub proof fn lemma_stack_instructions(s: VmView)
    requires
        s.pending is None,
        0 <= s.ip < s.code.len(),
        s.stack.len() < STACK_MAX,
    ensures
        ({
            let (r, out) = spec_step(s);
            let b = s.code[s.ip];
            let st = s.stack;
            let line = s.lines[s.ip];
            let at = s.ip + 3;
            &&& (b == OpCode::Nil.spec_byte() ==> out == proceed() && r.ip == s.ip + 1 && r.stack == st.push(Value::Nil))
            &&& (b == OpCode::True.spec_byte() ==> out == proceed() && r.ip == s.ip + 1 && r.stack == st.push(Value::Boolean(true)))
            &&& (b == OpCode::False.spec_byte() ==> out == proceed() && r.ip == s.ip + 1 && r.stack == st.push(Value::Boolean(false)))
            &&& (b == OpCode::Pop.spec_byte() && st.len() > 0 ==> out == proceed() && r.ip == s.ip + 1 && r.stack == st.drop_last())
            &&& (b == OpCode::GetLocal.spec_byte() && s.ip + 1 < s.code.len() && (s.code[s.ip + 1] as int) < st.len()
                ==> out == proceed() && r.ip == s.ip + 2 && r.stack == st.push(st[s.code[s.ip + 1] as int]))
            &&& (b == OpCode::SetLocal.spec_byte() && s.ip + 1 < s.code.len() && (s.code[s.ip + 1] as int) < st.len()
                ==> out == proceed() && r.ip == s.ip + 2 && r.stack == st.update(s.code[s.ip + 1] as int, st.last()))
            &&& (b == OpCode::Jump.spec_byte() && s.ip + 2 < s.code.len()
                ==> out == proceed() && r.stack == st && r.ip == at + s.code[s.ip + 1] * 256 + s.code[s.ip + 2])
            &&& (b == OpCode::RevJump.spec_byte() && s.ip + 2 < s.code.len() && s.code[s.ip + 1] * 256 + s.code[s.ip + 2] <= at
                ==> out == proceed() && r.stack == st && r.ip == at - (s.code[s.ip + 1] * 256 + s.code[s.ip + 2]))
            &&& (b == OpCode::JumpIfFalse.spec_byte() && s.ip + 2 < s.code.len() && st.len() > 0
                && (st.last() is Boolean || st.last() is Nil)
                ==> out == proceed() && r.stack == st
                    && r.ip == if st.last() == Value::Boolean(true) { at } else { at + s.code[s.ip + 1] * 256 + s.code[s.ip + 2] })
            &&& (b == OpCode::Negate.spec_byte() && st.len() > 0 && !(st.last() is Number)
                ==> out == runtime(RuntimeErrorKind::NegateNonNumber, line) && r.stack == st.drop_last())
            &&& (b == OpCode::Print.spec_byte() && st.len() > 0 && st.last() is Boolean
                ==> out == Ok::<StepView, VmErrorView>(StepView::Print(PrintedView::Bool(st.last()->Boolean_0)))
                    && r.ip == s.ip + 1 && r.stack == st.drop_last())
            &&& (b == OpCode::Print.spec_byte() && st.len() > 0 && st.last() is Nil
                ==> out == Ok::<StepView, VmErrorView>(StepView::Print(PrintedView::Nil))
                    && r.ip == s.ip + 1 && r.stack == st.drop_last())
        }),
{
    lemma_opcode_byte_roundtrip(OpCode::Nil, 0);
    lemma_opcode_byte_roundtrip(OpCode::True, 0);
    lemma_opcode_byte_roundtrip(OpCode::False, 0);
    lemma_opcode_byte_roundtrip(OpCode::Pop, 0);
    lemma_opcode_byte_roundtrip(OpCode::GetLocal, 0);
    lemma_opcode_byte_roundtrip(OpCode::SetLocal, 0);
    lemma_opcode_byte_roundtrip(OpCode::Jump, 0);
    lemma_opcode_byte_roundtrip(OpCode::RevJump, 0);
    lemma_opcode_byte_roundtrip(OpCode::JumpIfFalse, 0);
    lemma_opcode_byte_roundtrip(OpCode::Negate, 0);
    lemma_opcode_byte_roundtrip(OpCode::Print, 0);
}

/// The string pool points into the heap at objects holding the pooled texts.
pub open spec fn pool_consistent(s: VmView) -> bool {
    forall|k: Seq<char>| #[trigger] s.pool.contains_key(k) ==> s.pool[k] < s.heap.len() && s.heap[s.pool[k] as int] == Some(k)
}

/// A global reads back what was defined: `DefineGlobal k` then `GetGlobal k`, the
/// constant `k` a string, leave the stack as it was and the global of that name holding
/// the value that was on top.
pub proof fn lemma_define_then_get_global(s: VmView, k: u8)
    requires
        s.pending is None,
        0 <= s.ip,
        s.ip + 3 < s.code.len(),
        s.code[s.ip] == OpCode::DefineGlobal.spec_byte(),
        s.code[s.ip + 1] == k,
        s.code[s.ip + 2] == OpCode::GetGlobal.spec_byte(),
        s.code[s.ip + 3] == k,
        (k as int) < s.constants.len(),
        (k as int) < s.numbers.len(),
        s.constants[k as int] is String,
        pool_consistent(s),
        s.heap.len() < usize::MAX,
        0 < s.stack.len() <= STACK_MAX,
    ensures
        ({
            let (s1, o1) = spec_step(s);
            let (s2, o2) = spec_step(s1);
            let name = s.constants[k as int]->String_0@;
            &&& o1 == proceed()
            &&& o2 == proceed()
            &&& s2.ip == s.ip + 4
            &&& s2.stack == s.stack
            &&& s2.globals == s.globals.insert(name, s.stack.last())
        }),
{
    lemma_opcode_byte_roundtrip(OpCode::DefineGlobal, 0);
    lemma_opcode_byte_roundtrip(OpCode::GetGlobal, 0);
    let name = s.constants[k as int]->String_0@;
    let sa = s.with_ip(s.ip + 1);
    let s0 = sa.with_stack(sa.stack.drop_last());
    let (v, addr) = s0.intern(name);
    if s0.pool.contains_key(name) {
        assert(v == s0);
    }
    assert(v.string_of(Value::Object(addr)) == Some(name));
    assert(v.pool.contains_key(name) && v.pool[name] == addr);
    let (s1, o1) = spec_step(s);
    assert(s1 == v.with_ip(s.ip + 2).with_globals(v.globals.insert(name, s.stack.last())));
    assert(o1 == proceed());
    let sb = s1.with_ip(s1.ip + 1);
    assert(sb.intern(name) == (sb, addr));
    assert(sb.string_of(Value::Object(addr)) == Some(name));
    let (s2, o2) = spec_step(s1);
    assert(s2.stack =~= s.stack);
}

/// Equality and `+` on strings: `Equal` on two strings pushes whether their texts are the
/// same, `+` pushes a string of the two texts one after the other; `Equal` on a number and
/// a value that is no number pushes false.
pub proof fn lemma_string_instructions(s: VmView)
    requires
        s.pending is None,
        0 <= s.ip < s.code.len(),
        2 <= s.stack.len() <= STACK_MAX,
        pool_consistent(s),
        s.heap.len() < usize::MAX,
    ensures
        ({
            let (r, out) = spec_step(s);
            let n = s.stack.len();
            let a = s.stack[n - 2];
            let b = s.stack.last();
            let base = s.stack.drop_last().drop_last();
            &&& (s.code[s.ip] == OpCode::Equal.spec_byte() && s.string_of(a) is Some && s.string_of(b) is Some
                ==> out == proceed() && r.ip == s.ip + 1 && r.stack == base.push(Value::Boolean(s.string_of(a) == s.string_of(b))))
            &&& (s.code[s.ip] == OpCode::Equal.spec_byte() && (a is Number) != (b is Number)
                ==> out == proceed() && r.ip == s.ip + 1 && r.stack == base.push(Value::Boolean(false)))
            &&& (s.code[s.ip] == OpCode::Add.spec_byte() && s.string_of(a) is Some && s.string_of(b) is Some
                ==> out == proceed() && r.ip == s.ip + 1 && r.stack.len() == n - 1 && r.stack.drop_last() == base
                    && r.string_of(r.stack.last()) == Some(s.string_of(a)->0 + s.string_of(b)->0))
        }),
{
    lemma_opcode_byte_roundtrip(OpCode::Equal, 0);
    lemma_opcode_byte_roundtrip(OpCode::Add, 0);
    let n = s.stack.len();
    assert(s.stack.drop_last().last() == s.stack[n - 2]);
    if s.code[s.ip] == OpCode::Add.spec_byte() && s.string_of(s.stack[n - 2]) is Some && s.string_of(s.stack.last()) is Some {
        let t = s.string_of(s.stack[n - 2])->0 + s.string_of(s.stack.last())->0;
        let s1 = s.with_ip(s.ip + 1).with_stack(s.stack.drop_last().drop_last());
        let (v, addr) = s1.intern(t);
        assert(v.string_of(Value::Object(addr)) == Some(t));
    }
}

/// One step of the machine, a question it asks answered at once: a number for the
/// arithmetic (and negation) from `num`, a truth value from `truth` otherwise.
pub open spec fn answered(s: VmView, truth: spec_fn(NumberOp, u64, u64) -> bool, num: spec_fn(NumberOp, u64, u64) -> u64) -> VmView {
    let (s1, out) = spec_step(s);
    match out {
        Ok(StepView::Request(r)) => spec_resume(s1, match s1.pending {
            Some(Pending::PushNumber) => NumberAnswer::Number(num(r.op, r.lhs, r.rhs)),
            _ => NumberAnswer::Bool(truth(r.op, r.lhs, r.rhs)),
        }).0,
        _ => s1,
    }
}

/// `n` steps of the machine, its questions answered by `truth` and `num`.
pub open spec fn run_answered(s: VmView, truth: spec_fn(NumberOp, u64, u64) -> bool, num: spec_fn(NumberOp, u64, u64) -> u64, n: nat) -> VmView
    decreases n,
{
    if n == 0 {
        s
    } else {
        run_answered(answered(s, truth, num), truth, num, (n - 1) as nat)
    }
}

/// What the binary operator `t` means on the numbers `x` and `y`, given the answers to
/// the machine's questions: the arithmetic its result, `>` and `<` the answer, `>=` that
/// `x < y` does not hold, `<=` that `x > y` does not hold, `==` the answer to equality,
/// `!=` its negation.
pub open spec fn operator_result(t: TokenType, x: u64, y: u64, truth: spec_fn(NumberOp, u64, u64) -> bool, num: spec_fn(NumberOp, u64, u64) -> u64) -> Value {
    match t {
        TokenType::Plus => Value::Number(num(NumberOp::Add, x, y)),
        TokenType::Minus => Value::Number(num(NumberOp::Subtract, x, y)),
        TokenType::Star => Value::Number(num(NumberOp::Multiply, x, y)),
        TokenType::Slash => Value::Number(num(NumberOp::Divide, x, y)),
        TokenType::Greater => Value::Boolean(truth(NumberOp::Greater, x, y)),
        TokenType::GreaterEqual => Value::Boolean(!truth(NumberOp::Less, x, y)),
        TokenType::Less => Value::Boolean(truth(NumberOp::Less, x, y)),
        TokenType::LessEqual => Value::Boolean(!truth(NumberOp::Greater, x, y)),
        TokenType::EqualEqual => Value::Boolean(truth(NumberOp::Equal, x, y)),
        TokenType::BangEqual => Value::Boolean(!truth(NumberOp::Equal, x, y)),
        _ => Value::Nil,
    }
}

/// The code that the compiler makes of the binary operator `t` (none for a token that is
/// no binary operator).
pub open spec fn operator_code(t: TokenType) -> Seq<u8> {
    match binary_code(t) {
        Some(c) => c,
        None => Seq::empty(),
    }
}

/// A binary operator, compiled and run on the numbers `x` and `y` on top of the stack,
/// its questions answered: after its code the two operands are replaced by what the
/// operator means on them (`operator_result`), so `4 <= 4` is true unless `4 > 4`.
pub proof fn lemma_compiled_operators(s: VmView, t: TokenType, x: u64, y: u64,
    truth: spec_fn(NumberOp, u64, u64) -> bool, num: spec_fn(NumberOp, u64, u64) -> u64)
    requires
        t == TokenType::Plus || t == TokenType::Minus || t == TokenType::Star || t == TokenType::Slash
            || t == TokenType::Greater || t == TokenType::GreaterEqual || t == TokenType::Less
            || t == TokenType::LessEqual || t == TokenType::EqualEqual || t == TokenType::BangEqual,
        s.pending is None,
        0 <= s.ip,
        s.ip + operator_code(t).len() <= s.code.len(),
        s.code.subrange(s.ip, s.ip + operator_code(t).len()) == operator_code(t),
        2 <= s.stack.len() <= STACK_MAX,
        s.stack[s.stack.len() - 2] == Value::Number(x),
        s.stack.last() == Value::Number(y),
    ensures
        ({
            let r = run_answered(s, truth, num, operator_code(t).len());
            &&& r.ip == s.ip + operator_code(t).len()
            &&& r.pending is None
            &&& r.stack == s.stack.drop_last().drop_last().push(operator_result(t, x, y, truth, num))
        }),
{
    let code = operator_code(t);
    let base = s.stack.drop_last().drop_last();
    assert(s.code[s.ip] == code[0]);
    let op1 = OpCode::spec_from_byte(code[0])->0;
    lemma_opcode_byte_roundtrip(OpCode::Add, 0);
    lemma_opcode_byte_roundtrip(OpCode::Subtract, 0);
    lemma_opcode_byte_roundtrip(OpCode::Multiply, 0);
    lemma_opcode_byte_roundtrip(OpCode::Divide, 0);
    lemma_opcode_byte_roundtrip(OpCode::Greater, 0);
    lemma_opcode_byte_roundtrip(OpCode::Less, 0);
    lemma_opcode_byte_roundtrip(OpCode::Equal, 0);
    lemma_opcode_byte_roundtrip(OpCode::Not, 0);
    let s1 = answered(s, truth, num);
    assert(s.stack.drop_last().last() == Value::Number(x));
    assert(s1.stack == base.push(if code.len() == 2 {
        match t {
            TokenType::GreaterEqual => Value::Boolean(truth(NumberOp::Less, x, y)),
            TokenType::LessEqual => Value::Boolean(truth(NumberOp::Greater, x, y)),
            _ => Value::Boolean(truth(NumberOp::Equal, x, y)),
        }
    } else {
        operator_result(t, x, y, truth, num)
    }));
    assert(s1.ip == s.ip + 1);
    assert(s1.pending is None);
    if code.len() == 2 {
        assert(s1.code[s1.ip] == code[1]);
        let s2 = answered(s1, truth, num);
        assert(s1.stack.last() is Boolean);
        assert(s2.stack =~= base.push(operator_result(t, x, y, truth, num)));
        assert(run_answered(s2, truth, num, 0) == s2);
        assert(run_answered(s1, truth, num, 1) == s2);
        assert(run_answered(s, truth, num, 2) == run_answered(s1, truth, num, 1));
    } else {
        assert(run_answered(s1, truth, num, 0) == s1);
        assert(run_answered(s, truth, num, 1) == run_answered(s1, truth, num, 0));
    }
}

/// What the compiler makes of a unary operator or a literal, run by the machine: the
/// instruction that a `!` ends with negates a boolean, the one a `-` ends with asks for the
/// negation of a number, and the one a literal compiles to pushes its value.
pub proof fn lemma_compiled_unary_and_literals(ts: Seq<TokenSpec>, g: Gen, s: VmView)
    requires
        s.pending is None,
        0 <= s.ip < s.code.len(),
        0 < s.stack.len() < STACK_MAX,
    ensures
        ({
            let (r, out) = spec_step(s);
            let top = s.stack.last();
            let t = kind(ts, g.prev);
            &&& (cg_unary(ts, g) matches Ok(c) && t == TokenType::Bang && s.code[s.ip] == c.code.last() && top is Boolean)
                ==> out == proceed() && r.stack == s.stack.drop_last().push(Value::Boolean(!top->Boolean_0))
            &&& (cg_unary(ts, g) matches Ok(c) && t == TokenType::Minus && s.code[s.ip] == c.code.last() && top is Number)
                ==> out == Ok::<StepView, VmErrorView>(StepView::Request(NumberRequest { op: NumberOp::Negate, lhs: top->Number_0, rhs: 0 }))
                    && r.stack == s.stack.drop_last() && r.pending == Some(Pending::PushNumber)
            &&& (cg_literal(ts, g) matches Ok(c) && s.code[s.ip] == c.code.last())
                ==> out == proceed() && r.stack == s.stack.push(
                    if t == TokenType::True { Value::Boolean(true) }
                    else if t == TokenType::False { Value::Boolean(false) }
                    else { Value::Nil })
        }),
{
    reveal(cg_unary);
    lemma_opcode_byte_roundtrip(OpCode::Not, 0);
    lemma_opcode_byte_roundtrip(OpCode::Negate, 0);
    lemma_opcode_byte_roundtrip(OpCode::True, 0);
    lemma_opcode_byte_roundtrip(OpCode::False, 0);
    lemma_opcode_byte_roundtrip(OpCode::Nil, 0);
}

/// The instruction that a `print` statement's code ends with pops the value and prints
/// it, and the one an expression statement's code ends with pops the value and prints
/// nothing.
pub proof fn lemma_compiled_print_and_expression_statements(ts: Seq<TokenSpec>, g: Gen, s: VmView)
    requires
        s.pending is None,
        0 <= s.ip < s.code.len(),
        0 < s.stack.len() < STACK_MAX,
    ensures
        ({
            let (r, out) = spec_step(s);
            let top = s.stack.last();
            &&& (cg_print(ts, g) matches Ok(c) && s.code[s.ip] == c.code.last() && top is Boolean)
                ==> out == Ok::<StepView, VmErrorView>(StepView::Print(PrintedView::Bool(top->Boolean_0)))
                    && r.stack == s.stack.drop_last() && r.ip == s.ip + 1
            &&& (cg_print(ts, g) matches Ok(c) && s.code[s.ip] == c.code.last() && top is Nil)
                ==> out == Ok::<StepView, VmErrorView>(StepView::Print(PrintedView::Nil))
                    && r.stack == s.stack.drop_last() && r.ip == s.ip + 1
            &&& (cg_expr_stmt(ts, g) matches Ok(c) && s.code[s.ip] == c.code.last())
                ==> out == proceed() && r.stack == s.stack.drop_last() && r.ip == s.ip + 1
        }),
{
    lemma_cg_print(ts, g);
    lemma_cg_expr_stmt(ts, g);
    lemma_stack_instructions(s);
}

proof fn lemma_hi_lo(n: int)
    requires
        0 <= n <= 0xffff,
    ensures
        hi(n) as int * 256 + lo(n) as int == n,
{
    assert(0 <= n / 256 < 256) by (nonlinear_arith)
        requires
            0 <= n <= 0xffff,
    ;
    assert(n / 256 * 256 + n % 256 == n) by (nonlinear_arith);
    assert((n / 256) % 256 == n / 256);
    assert(0 <= n % 256 < 256);
}

/// An `and`, compiled and run from its start with its left operand's value on top: a false
/// or nil value jumps past the right operand's code and stays the result; a true one is
/// popped and the right operand's code runs next.
pub proof fn lemma_compiled_and(ts: Seq<TokenSpec>, g: Gen, s: VmView)
    requires
        cg_and(ts, g) is Ok,
        s.pending is None,
        s.ip == g.code.len(),
        cg_and(ts, g)->Ok_0.code.len() <= s.code.len(),
        s.code.subrange(0, cg_and(ts, g)->Ok_0.code.len() as int) == cg_and(ts, g)->Ok_0.code,
        0 < s.stack.len() < STACK_MAX,
    ensures
        ({
            let end = cg_and(ts, g)->Ok_0.code.len();
            let top = s.stack.last();
            let (s1, o1) = spec_step(s);
            let (s2, o2) = spec_step(s1);
            &&& (top == Value::Boolean(false) || top == Value::Nil) ==> o1 == proceed() && s1.ip == end && s1.stack == s.stack
            &&& top == Value::Boolean(true) ==> o1 == proceed() && o2 == proceed() && s2.ip == s.ip + 4
                && s2.stack == s.stack.drop_last()
        }),
{
    lemma_cg_and(ts, g);
    let a: int = g.code.len() as int;
    let r = cg_and(ts, g)->Ok_0;
    let (g1, j) = jump_emitted(ts, g, OpCode::JumpIfFalse);
    lemma_jump_emitted_grows(ts, g, OpCode::JumpIfFalse);
    let gp = emitted(ts, g1, OpCode::Pop.spec_byte());
    lemma_cg_precedence_grows(ts, gp, Precedence::And);
    let g2 = cg_precedence(ts, gp, Precedence::And)->Ok_0;
    let n = g2.code.len() - j - 2;
    assert(gp.code =~= g.code.push(OpCode::JumpIfFalse.spec_byte()).push(0xff).push(0xff).push(OpCode::Pop.spec_byte()));
    assert(g2.code.subrange(0, gp.code.len() as int)[a] == g2.code[a]);
    assert(g2.code.subrange(0, gp.code.len() as int)[a + 3] == g2.code[a + 3]);
    assert(r.code == g2.code.update(j as int, hi(n)).update(j as int + 1, lo(n)));
    assert(s.code.subrange(0, r.code.len() as int)[a] == s.code[a]);
    assert(s.code.subrange(0, r.code.len() as int)[a + 1] == s.code[a + 1]);
    assert(s.code.subrange(0, r.code.len() as int)[a + 2] == s.code[a + 2]);
    assert(s.code.subrange(0, r.code.len() as int)[a + 3] == s.code[a + 3]);
    assert(s.code[a] == OpCode::JumpIfFalse.spec_byte());
    assert(s.code[a + 3] == OpCode::Pop.spec_byte());
    lemma_hi_lo(n);
    lemma_stack_instructions(s);
    let (s1, o1) = spec_step(s);
    if s.stack.last() == Value::Boolean(true) {
        lemma_opcode_byte_roundtrip(OpCode::JumpIfFalse, 0);
        assert(s1.pending is None);
        lemma_stack_instructions(s1);
    }
}

/// An `or`, compiled and run from its start with its left operand's value on top: a true
/// value jumps past the right operand's code and stays the result; a false or nil one is
/// popped and the right operand's code runs next.
pub proof fn lemma_compiled_or(ts: Seq<TokenSpec>, g: Gen, s: VmView)
    requires
        cg_or(ts, g) is Ok,
        s.pending is None,
        s.ip == g.code.len(),
        cg_or(ts, g)->Ok_0.code.len() <= s.code.len(),
        s.code.subrange(0, cg_or(ts, g)->Ok_0.code.len() as int) == cg_or(ts, g)->Ok_0.code,
        0 < s.stack.len() < STACK_MAX,
    ensures
        ({
            let end = cg_or(ts, g)->Ok_0.code.len();
            let top = s.stack.last();
            let (s1, o1) = spec_step(s);
            let (s2, o2) = spec_step(s1);
            &&& top == Value::Boolean(true) ==> o1 == proceed() && o2 == proceed() && s2.ip == end && s2.stack == s.stack
            &&& (top == Value::Boolean(false) || top == Value::Nil) ==> o1 == proceed() && o2 == proceed()
                && s2.ip == s.ip + 7 && s2.stack == s.stack.drop_last()
        }),
{
    lemma_cg_or(ts, g);
    let a: int = g.code.len() as int;
    let r = cg_or(ts, g)->Ok_0;
    let (g1, else_jump) = jump_emitted(ts, g, OpCode::JumpIfFalse);
    lemma_jump_emitted_grows(ts, g, OpCode::JumpIfFalse);
    let (g2, end_jump) = jump_emitted(ts, g1, OpCode::Jump);
    lemma_jump_emitted_grows(ts, g1, OpCode::Jump);
    let g3 = patched(ts, g2, else_jump)->Ok_0;
    let n1 = g2.code.len() - else_jump - 2;
    assert(n1 == 3);
    let gp = emitted(ts, g3, OpCode::Pop.spec_byte());
    lemma_cg_precedence_grows(ts, gp, Precedence::Or);
    let g4 = cg_precedence(ts, gp, Precedence::Or)->Ok_0;
    let n2 = g4.code.len() - end_jump - 2;
    assert(gp.code =~= g.code.push(OpCode::JumpIfFalse.spec_byte()).push(hi(n1)).push(lo(n1))
        .push(OpCode::Jump.spec_byte()).push(0xff).push(0xff).push(OpCode::Pop.spec_byte()));
    assert(g4.code.subrange(0, gp.code.len() as int)[a] == g4.code[a]);
    assert(g4.code.subrange(0, gp.code.len() as int)[a + 1] == g4.code[a + 1]);
    assert(g4.code.subrange(0, gp.code.len() as int)[a + 2] == g4.code[a + 2]);
    assert(g4.code.subrange(0, gp.code.len() as int)[a + 3] == g4.code[a + 3]);
    assert(g4.code.subrange(0, gp.code.len() as int)[a + 6] == g4.code[a + 6]);
    assert(r.code == g4.code.update(end_jump as int, hi(n2)).update(end_jump as int + 1, lo(n2)));
    assert(s.code.subrange(0, r.code.len() as int)[a] == s.code[a]);
    assert(s.code.subrange(0, r.code.len() as int)[a + 1] == s.code[a + 1]);
    assert(s.code.subrange(0, r.code.len() as int)[a + 2] == s.code[a + 2]);
    assert(s.code.subrange(0, r.code.len() as int)[a + 3] == s.code[a + 3]);
    assert(s.code.subrange(0, r.code.len() as int)[a + 4] == s.code[a + 4]);
    assert(s.code.subrange(0, r.code.len() as int)[a + 5] == s.code[a + 5]);
    assert(s.code.subrange(0, r.code.len() as int)[a + 6] == s.code[a + 6]);
    assert(s.code[a] == OpCode::JumpIfFalse.spec_byte());
    assert(s.code[a + 3] == OpCode::Jump.spec_byte());
    assert(s.code[a + 6] == OpCode::Pop.spec_byte());
    lemma_hi_lo(n1);
    lemma_hi_lo(n2);
    lemma_stack_instructions(s);
    lemma_opcode_byte_roundtrip(OpCode::JumpIfFalse, 0);
    let (s1, o1) = spec_step(s);
    if s.stack.last() is Boolean || s.stack.last() is Nil {
        assert(s1.pending is None);
        lemma_stack_instructions(s1);
    }
}

/// An `if`, compiled and run: at the end of its condition's code, a true condition is
/// popped and the first branch runs next; a false or nil one jumps over that branch, is
/// popped, and the `else` branch (if any) runs next; at the end of the first branch a jump
/// leaves the `if`.
pub proof fn lemma_compiled_if(ts: Seq<TokenSpec>, g: Gen, s: VmView)
    requires
        cg_if(ts, g) is Ok,
        s.pending is None,
        0 <= s.ip,
        cg_if(ts, g)->Ok_0.code.len() <= s.code.len(),
        s.code.subrange(0, cg_if(ts, g)->Ok_0.code.len() as int) == cg_if(ts, g)->Ok_0.code,
        0 < s.stack.len() < STACK_MAX,
    ensures
        ({
            let (c, t) = if_marks(ts, g);
            let end = cg_if(ts, g)->Ok_0.code.len();
            let top = s.stack.last();
            let (s1, o1) = spec_step(s);
            let (s2, o2) = spec_step(s1);
            &&& c + 4 <= t && t + 4 <= end
            &&& (s.ip == c && top == Value::Boolean(true)) ==> o1 == proceed() && o2 == proceed()
                && s2.ip == c + 4 && s2.stack == s.stack.drop_last()
            &&& (s.ip == c && (top == Value::Boolean(false) || top == Value::Nil)) ==> o1 == proceed() && o2 == proceed()
                && s2.ip == t + 4 && s2.stack == s.stack.drop_last()
            &&& s.ip == t ==> o1 == proceed() && s1.ip == end && s1.stack == s.stack
        }),
{
    lemma_cg_if(ts, g);
    let r = cg_if(ts, g)->Ok_0;
    let g1 = consumed_tok(ts, g, TokenType::LeftParen, Expectation::LeftParenAfterIf)->Ok_0;
    let g2 = cg_expression(ts, g1)->Ok_0;
    let g3 = advanced(ts, g2);
    let (g4, then_jump) = jump_emitted(ts, g3, OpCode::JumpIfFalse);
    lemma_jump_emitted_grows(ts, g3, OpCode::JumpIfFalse);
    let g5 = emitted(ts, g4, OpCode::Pop.spec_byte());
    lemma_cg_stmt_grows(ts, g5);
    let g6 = cg_stmt(ts, g5)->Ok_0;
    let (g7, else_jump) = jump_emitted(ts, g6, OpCode::Jump);
    lemma_jump_emitted_grows(ts, g6, OpCode::Jump);
    let g8 = patched(ts, g7, then_jump)->Ok_0;
    let g9 = emitted(ts, g8, OpCode::Pop.spec_byte());
    let c: int = g2.code.len() as int;
    let t: int = g6.code.len() as int;
    let n1 = g7.code.len() - then_jump - 2;
    assert(g5.code =~= g3.code.push(OpCode::JumpIfFalse.spec_byte()).push(0xff).push(0xff).push(OpCode::Pop.spec_byte()));
    assert(if_marks(ts, g) == (c as nat, t as nat));
    lemma_grows_at(g5, g6, c);
    lemma_grows_at(g5, g6, c + 3);
    assert(g8.code == g7.code.update(then_jump as int, hi(n1)).update(then_jump as int + 1, lo(n1)));
    let g11 = if kind(ts, g9.pos) == TokenType::Else { cg_stmt(ts, advanced(ts, g9))->Ok_0 } else { g9 };
    assert(r == patched(ts, g11, else_jump)->Ok_0);
    if kind(ts, g9.pos) == TokenType::Else {
        let g9a = advanced(ts, g9);
        lemma_cg_stmt_grows(ts, g9a);
        lemma_grows_at(g9a, g11, c);
        lemma_grows_at(g9a, g11, c + 1);
        lemma_grows_at(g9a, g11, c + 2);
        lemma_grows_at(g9a, g11, c + 3);
        lemma_grows_at(g9a, g11, t);
        lemma_grows_at(g9a, g11, t + 3);
    }
    let n2 = g11.code.len() - else_jump - 2;
    assert(r.code == g11.code.update(else_jump as int, hi(n2)).update(else_jump as int + 1, lo(n2)));
    assert(s.code.subrange(0, r.code.len() as int)[c] == s.code[c]);
    assert(s.code.subrange(0, r.code.len() as int)[c + 1] == s.code[c + 1]);
    assert(s.code.subrange(0, r.code.len() as int)[c + 2] == s.code[c + 2]);
    assert(s.code.subrange(0, r.code.len() as int)[c + 3] == s.code[c + 3]);
    assert(s.code.subrange(0, r.code.len() as int)[t] == s.code[t]);
    assert(s.code.subrange(0, r.code.len() as int)[t + 1] == s.code[t + 1]);
    assert(s.code.subrange(0, r.code.len() as int)[t + 2] == s.code[t + 2]);
    assert(s.code.subrange(0, r.code.len() as int)[t + 3] == s.code[t + 3]);
    assert(s.code[c] == OpCode::JumpIfFalse.spec_byte());
    assert(s.code[c + 3] == OpCode::Pop.spec_byte());
    assert(s.code[t] == OpCode::Jump.spec_byte());
    assert(s.code[t + 3] == OpCode::Pop.spec_byte());
    lemma_hi_lo(n1);
    lemma_hi_lo(n2);
    if s.ip == c || s.ip == t {
        lemma_stack_instructions(s);
        lemma_opcode_byte_roundtrip(OpCode::JumpIfFalse, 0);
        let (s1, o1) = spec_step(s);
        if s.ip == c && (s.stack.last() is Boolean || s.stack.last() is Nil) {
            assert(s1.pending is None);
            lemma_stack_instructions(s1);
        }
    }
}

/// A `while`, compiled and run: at the end of its condition's code, a true condition is
/// popped and the body runs next; a false or nil one jumps to the end of the loop and is
/// popped; at the end of the body a jump goes back to the start of the condition's code.
pub proof fn lemma_compiled_while(ts: Seq<TokenSpec>, g: Gen, s: VmView)
    requires
        cg_while(ts, g) is Ok,
        s.pending is None,
        0 <= s.ip,
        cg_while(ts, g)->Ok_0.code.len() <= s.code.len(),
        s.code.subrange(0, cg_while(ts, g)->Ok_0.code.len() as int) == cg_while(ts, g)->Ok_0.code,
        0 < s.stack.len() < STACK_MAX,
    ensures
        ({
            let (c, t) = while_marks(ts, g);
            let end = cg_while(ts, g)->Ok_0.code.len();
            let top = s.stack.last();
            let (s1, o1) = spec_step(s);
            let (s2, o2) = spec_step(s1);
            &&& g.code.len() <= c && c + 4 <= t && end == t + 4
            &&& (s.ip == c && top == Value::Boolean(true)) ==> o1 == proceed() && o2 == proceed()
                && s2.ip == c + 4 && s2.stack == s.stack.drop_last()
            &&& (s.ip == c && (top == Value::Boolean(false) || top == Value::Nil)) ==> o1 == proceed() && o2 == proceed()
                && s2.ip == end && s2.stack == s.stack.drop_last()
            &&& s.ip == t ==> o1 == proceed() && s1.ip == g.code.len() && s1.stack == s.stack
        }),
{
    lemma_cg_while(ts, g);
    let r = cg_while(ts, g)->Ok_0;
    let loop_start = g.code.len();
    let g1 = consumed_tok(ts, g, TokenType::LeftParen, Expectation::LeftParenAfterWhile)->Ok_0;
    lemma_cg_expression_grows(ts, g1);
    let g2 = cg_expression(ts, g1)->Ok_0;
    let g3 = advanced(ts, g2);
    let (g4, exit_jump) = jump_emitted(ts, g3, OpCode::JumpIfFalse);
    lemma_jump_emitted_grows(ts, g3, OpCode::JumpIfFalse);
    let g5 = emitted(ts, g4, OpCode::Pop.spec_byte());
    lemma_cg_stmt_grows(ts, g5);
    let g6 = cg_stmt(ts, g5)->Ok_0;
    let g7 = loop_emitted(ts, g6, loop_start)->Ok_0;
    let g8 = patched(ts, g7, exit_jump)->Ok_0;
    let c: int = g2.code.len() as int;
    let t: int = g6.code.len() as int;
    let d = g6.code.len() + 1 - loop_start;
    let n = g7.code.len() - exit_jump - 2;
    assert(g5.code =~= g3.code.push(OpCode::JumpIfFalse.spec_byte()).push(0xff).push(0xff).push(OpCode::Pop.spec_byte()));
    assert(while_marks(ts, g) == (c as nat, t as nat));
    lemma_grows_at(g5, g6, c);
    lemma_grows_at(g5, g6, c + 3);
    assert(g7.code =~= g6.code.push(OpCode::RevJump.spec_byte()).push(hi(d + 2)).push(lo(d + 2)));
    assert(g8.code == g7.code.update(exit_jump as int, hi(n)).update(exit_jump as int + 1, lo(n)));
    assert(r.code == g8.code.push(OpCode::Pop.spec_byte()));
    assert(s.code.subrange(0, r.code.len() as int)[c] == s.code[c]);
    assert(s.code.subrange(0, r.code.len() as int)[c + 1] == s.code[c + 1]);
    assert(s.code.subrange(0, r.code.len() as int)[c + 2] == s.code[c + 2]);
    assert(s.code.subrange(0, r.code.len() as int)[c + 3] == s.code[c + 3]);
    assert(s.code.subrange(0, r.code.len() as int)[t] == s.code[t]);
    assert(s.code.subrange(0, r.code.len() as int)[t + 1] == s.code[t + 1]);
    assert(s.code.subrange(0, r.code.len() as int)[t + 2] == s.code[t + 2]);
    assert(s.code.subrange(0, r.code.len() as int)[t + 3] == s.code[t + 3]);
    assert(s.code[c] == OpCode::JumpIfFalse.spec_byte());
    assert(s.code[c + 3] == OpCode::Pop.spec_byte());
    assert(s.code[t] == OpCode::RevJump.spec_byte());
    assert(s.code[t + 3] == OpCode::Pop.spec_byte());
    lemma_hi_lo(n);
    lemma_hi_lo(d + 2);
    if s.ip == c || s.ip == t {
        lemma_stack_instructions(s);
        lemma_opcode_byte_roundtrip(OpCode::JumpIfFalse, 0);
        let (s1, o1) = spec_step(s);
        if s.ip == c && (s.stack.last() is Boolean || s.stack.last() is Nil) {
            assert(s1.pending is None);
            lemma_stack_instructions(s1);
        }
    }
}

/// A variable read, compiled and run: a local is read from the stack slot of the innermost
/// local of that name; a global by an instruction whose constant is the name.
pub proof fn lemma_compiled_variable_read(ts: Seq<TokenSpec>, g: Gen, name: Seq<char>, can_assign: bool, s: VmView)
    requires
        cg_named_var(ts, g, name, can_assign) is Ok,
        !(can_assign && kind(ts, g.pos) == TokenType::Equal),
        s.pending is None,
        s.ip == g.code.len(),
        cg_named_var(ts, g, name, can_assign)->Ok_0.code.len() <= s.code.len(),
        s.code.subrange(0, cg_named_var(ts, g, name, can_assign)->Ok_0.code.len() as int) == cg_named_var(ts, g, name, can_assign)->Ok_0.code,
        s.stack.len() < STACK_MAX,
        innermost(g.locals, name) matches Some(i) ==> i < s.stack.len(),
    ensures
        ({
            let r = cg_named_var(ts, g, name, can_assign)->Ok_0;
            let (s1, o1) = spec_step(s);
            &&& r.code.len() == g.code.len() + 2
            &&& innermost(g.locals, name) matches Some(i) ==> o1 == proceed() && s1.ip == s.ip + 2
                && s1.stack == s.stack.push(s.stack[i as int])
            &&& innermost(g.locals, name) is None ==> r.code[g.code.len() as int] == OpCode::GetGlobal.spec_byte()
                && r.consts[r.code[g.code.len() as int + 1] as int] == (false, name)
        }),
{
    lemma_cg_named_var(ts, g, name, can_assign);
    let r = cg_named_var(ts, g, name, can_assign)->Ok_0;
    let a: int = g.code.len() as int;
    assert(s.code.subrange(0, r.code.len() as int)[a] == s.code[a]);
    assert(s.code.subrange(0, r.code.len() as int)[a + 1] == s.code[a + 1]);
    if let Some(i) = innermost(g.locals, name) {
        assert(r.code =~= g.code.push(OpCode::GetLocal.spec_byte()).push(i as u8));
        lemma_innermost_is_last(g.locals, name);
        lemma_stack_instructions(s);
    }
}

/// The virtual machine: a chunk, the values of its number constants (by their bits, one
/// for each constant; any for a string constant), where it is, and its memory.
pub struct Vm {
    chunk: Chunk,
    numbers: Vec<u64>,
    ip: usize,
    memory: Memory,
    pending: Option<Pending>,
}

impl View for Vm {
    type V = VmView;

    closed spec fn view(&self) -> VmView {
        VmView {
            code: self.chunk.code@,
            lines: self.chunk.lines@,
            constants: self.chunk.constants@,
            numbers: self.numbers@,
            ip: self.ip as int,
            stack: self.memory.stack(),
            heap: self.memory.heap(),
            globals: self.memory.globals(),
            pool: self.memory.pool(),
            pending: self.pending,
        }
    }
}

impl Vm {
    /// The machine's own invariant.
    pub closed spec fn wf(&self) -> bool {
        &&& self.memory.wf()
        &&& self.chunk.wf()
        &&& self.numbers@.len() == self.chunk.constants@.len()
        &&& self.chunk.code@.len() < MAX_CODE_LEN
        &&& self.ip <= self.chunk.code@.len() + MAX_JUMP
        &&& (self.pending matches Some(Pending::JumpUnless(d)) ==> self.ip <= self.chunk.code@.len() && d <= MAX_JUMP)
    }

    /// In every machine state the pool of interned strings points at string objects of
    /// those texts.
    pub proof fn lemma_pool_consistent(&self)
        requires
            self.wf(),
        ensures
            forall|k: Seq<char>| #[trigger] self@.pool.contains_key(k) ==> self@.pool[k] < self@.heap.len() && self@.heap[self@.pool[k] as int] == Some(k),
            self@.heap.len() <= usize::MAX,
    {
        assert forall|k: Seq<char>| #[trigger] self@.pool.contains_key(k) implies self@.pool[k] < self@.heap.len() && self@.heap[self@.pool[k] as int] == Some(k) by {
            self.memory.lemma_pool_points_to_heap(k);
        }
        self.memory.lemma_heap_bound();
    }

    /// A machine at the start of `chunk`, with empty memory; `numbers` holds the bits of
    /// each number constant's value.
    pub fn new(chunk: Chunk, numbers: Vec<u64>) -> (res: Vm)
        requires
            chunk.wf(),
            numbers@.len() == chunk.constants@.len(),
            chunk.code@.len() < MAX_CODE_LEN,
        ensures
            res.wf(),
            res@ == (VmView {
                code: chunk.code@,
                lines: chunk.lines@,
                constants: chunk.constants@,
                numbers: numbers@,
                ip: 0,
                stack: Seq::empty(),
                heap: Seq::empty(),
                globals: Map::empty(),
                pool: Map::empty(),
                pending: None,
            }),
    {
        let res = Vm { chunk, numbers, ip: 0, memory: Memory::new(), pending: None };
        assert(res@ =~= VmView {
            code: chunk.code@,
            lines: chunk.lines@,
            constants: chunk.constants@,
            numbers: numbers@,
            ip: 0,
            stack: Seq::empty(),
            heap: Seq::empty(),
            globals: Map::empty(),
            pool: Map::empty(),
            pending: None,
        });
        res
    }

    /// Where the machine is in its code.
    pub fn ip(&self) -> (res: usize)
        ensures
            res == self@.ip,
    {
        self.ip
    }

    /// The depth of the value stack.
    pub fn stack_len(&self) -> (res: usize)
        ensures
            res == self@.stack.len(),
    {
        self.memory.stack_len()
    }

    /// The value in stack slot `slot`, if the stack is that deep.
    pub fn stack_value(&self, slot: usize) -> (res: Option<Value>)
        ensures
            res == (if slot < self@.stack.len() { Some(self@.stack[slot as int]) } else { None::<Value> }),
    {
        self.memory.stack_get(slot)
    }

    /// The text of the string that `v` refers to, if it refers to one.
    pub fn string_of(&self, v: Value) -> (res: Option<String>)
        ensures
            match res {
                Some(t) => self@.string_of(v) == Some(t@),
                None => self@.string_of(v) is None,
            },
    {
        match self.memory.get_string(v) {
            Ok(t) => Some(t),
            Err(_) => None,
        }
    }

    /// The chunk the machine runs.
    pub fn chunk(&self) -> (res: &Chunk)
        ensures
            res.code@ == self@.code,
            res.lines@ == self@.lines,
            res.constants@ == self@.constants,
    {
        &self.chunk
    }

    /// The number of heap slots.
    pub fn heap_len(&self) -> (res: usize)
        ensures
            res == self@.heap.len(),
    {
        self.memory.heap_len()
    }

    /// The global variables as a list of names and values, each name once.
    pub fn globals_list(&self) -> (res: &Vec<(String, Value)>)
        requires
            self.wf(),
        ensures
            keys_unique(res@),
            entries_map(res@) == self@.globals,
    {
        self.memory.globals_list()
    }

    /// Whether an answer is awaited.
    pub fn is_waiting(&self) -> (res: bool)
        ensures
            res == self@.pending is Some,
    {
        self.pending.is_some()
    }

    /// Pushes `v`, or faults on a full stack.
    fn push(&mut self, v: Value) -> (res: Result<Step, VmError>)
        requires
            old(self).wf(),
        ensures
            final(self).wf(),
            final(self)@ =~= old(self)@.push(v).0,
            outcome(res) == old(self)@.push(v).1,
    {
        if self.memory.stack_len() >= STACK_MAX {
            return Err(VmError::Fault(Fault::StackOverflow));
        }
        self.memory.stack_push(v);
        Ok(Step::Continue)
    }

    /// Asks for `op` on `lhs` and `rhs`.
    fn request(&mut self, pending: Pending, op: NumberOp, lhs: u64, rhs: u64) -> (res: Result<Step, VmError>)
        requires
            old(self).wf(),
            pending matches Pending::JumpUnless(d) ==> old(self).ip <= old(self).chunk.code@.len() && d <= MAX_JUMP,
        ensures
            final(self).wf(),
            final(self)@ =~= old(self)@.request(pending, op, lhs, rhs).0,
            outcome(res) == old(self)@.request(pending, op, lhs, rhs).1,
    {
        self.pending = Some(pending);
        Ok(Step::Request(NumberRequest { op, lhs, rhs }))
    }

    /// The value of constant `index`, a string interned; `None` if there is no such constant.
    fn load_constant(&mut self, index: u8) -> (res: Option<Value>)
        requires
            old(self).wf(),
        ensures
            final(self).wf(),
            match old(self)@.constant_value(index as int) {
                None => res is None && final(self)@ =~= old(self)@,
                Some((s, v)) => res == Some(v) && final(self)@ =~= s,
            },
    {
        let i = index as usize;
        if i >= self.chunk.constants.len() {
            return None;
        }
        let text = match &self.chunk.constants[i] {
            Constant::Number(_) => None,
            Constant::String(s) => Some(s.clone()),
        };
        match text {
            None => Some(Value::Number(self.numbers[i])),
            Some(t) => {
                let addr = self.memory.alloc_string(t);
                Some(Value::Object(addr))
            },
        }
    }

    /// `Constant`, `DefineGlobal`, `GetGlobal` and `SetGlobal`.
    fn constant_op(&mut self, op: OpCode, line: usize) -> (res: Result<Step, VmError>)
        requires
            old(self).wf(),
            old(self).ip <= old(self).chunk.code@.len(),
        ensures
            final(self).wf(),
            final(self)@ =~= spec_constant_op(old(self)@, op, line).0,
            outcome(res) == spec_constant_op(old(self)@, op, line).1,
    {
        let define = op == OpCode::DefineGlobal;
        let assign = op == OpCode::SetGlobal;
        if self.ip >= self.chunk.code.len() {
            return Err(VmError::Fault(Fault::CodeOutOfRange));
        }
        if (define || assign) && self.memory.stack_len() == 0 {
            return Err(VmError::Fault(Fault::StackUnderflow));
        }
        let index = self.chunk.code[self.ip];
        let top = if define || assign { self.memory.stack_peek() } else { Value::Nil };
        if define {
            self.memory.stack_pop();
        }
        let c = match self.load_constant(index) {
            Some(c) => c,
            None => {
                return Err(VmError::Fault(Fault::InvalidConstantIndex));
            },
        };
        self.ip = self.ip + 1;
        if op == OpCode::Constant {
            return self.push(c);
        }
        let name = match self.memory.get_string(c) {
            Ok(name) => name,
            Err(_) => {
                let kind = if define {
                    RuntimeErrorKind::DefineNameNotString
                } else if assign {
                    RuntimeErrorKind::SetNameNotString
                } else {
                    RuntimeErrorKind::GetNameNotString
                };
                return Err(VmError::Runtime { kind, line });
            },
        };
        if define {
            self.memory.insert_global(&name, top);
            Ok(Step::Continue)
        } else if assign {
            match self.memory.set_global(&name, top) {
                Ok(()) => Ok(Step::Continue),
                Err(_) => Err(VmError::UndefinedGlobal { name, write: true, line }),
            }
        } else {
            match self.memory.get_global(&name) {
                Some(v) => self.push(v),
                None => Err(VmError::UndefinedGlobal { name, write: false, line }),
            }
        }
    }
    /// `GetLocal`, `SetLocal` and `Call`.
    fn slot_op(&mut self, op: OpCode, line: usize) -> (res: Result<Step, VmError>)
        requires
            old(self).wf(),
            old(self).ip <= old(self).chunk.code@.len(),
        ensures
            final(self).wf(),
            final(self)@ =~= spec_slot_op(old(self)@, op, line).0,
            outcome(res) == spec_slot_op(old(self)@, op, line).1,
    {
        if self.ip >= self.chunk.code.len() {
            return Err(VmError::Fault(Fault::CodeOutOfRange));
        }
        let operand = self.chunk.code[self.ip];
        self.ip = self.ip + 1;
        let slot = operand as usize;
        if op == OpCode::GetLocal {
            match self.memory.stack_get(slot) {
                Some(v) => self.push(v),
                None => Err(VmError::Runtime { kind: RuntimeErrorKind::LocalNotFound(operand), line }),
            }
        } else if op == OpCode::SetLocal {
            if self.memory.stack_len() == 0 {
                return Err(VmError::Fault(Fault::StackUnderflow));
            }
            if slot >= self.memory.stack_len() {
                return Err(VmError::Fault(Fault::SlotOutOfRange));
            }
            let value = self.memory.stack_peek();
            self.memory.stack_set(slot, value);
            Ok(Step::Continue)
        } else if self.memory.stack_len() == 0 {
            Err(VmError::Runtime { kind: RuntimeErrorKind::CallStackUnderflow, line })
        } else {
            Err(VmError::Runtime { kind: RuntimeErrorKind::NotCallable, line })
        }
    }

    /// Whether `v` counts as true; `None` for a number.
    fn truth(&self, v: Value) -> (res: Option<bool>)
        ensures
            res == self@.truth(v),
    {
        match v {
            Value::Boolean(b) => Some(b),
            Value::Number(_) => None,
            Value::Nil => Some(false),
            Value::Object(addr) => Some(self.memory.get_obj(addr).is_some()),
        }
    }

    /// `JumpIfFalse`, `Jump` and `RevJump`.
    fn jump(&mut self, op: OpCode) -> (res: Result<Step, VmError>)
        requires
            old(self).wf(),
            old(self).pending is None,
            old(self).ip <= old(self).chunk.code@.len(),
        ensures
            final(self).wf(),
            final(self)@ =~= spec_jump(old(self)@, op).0,
            outcome(res) == spec_jump(old(self)@, op).1,
    {
        let len = self.chunk.code.len();
        if self.ip + 1 >= len {
            return Err(VmError::Fault(Fault::CodeOutOfRange));
        }
        let hi = self.chunk.code[self.ip] as usize;
        assert(hi * 256 <= 0xff00) by (nonlinear_arith)
            requires
                hi <= 255,
        ;
        let distance = hi * 256 + (self.chunk.code[self.ip + 1] as usize);
        let after = self.ip + 2;
        if op == OpCode::Jump {
            self.ip = after + distance;
            Ok(Step::Continue)
        } else if op == OpCode::RevJump {
            if distance > after {
                self.ip = after;
                return Err(VmError::Fault(Fault::JumpBeforeStart));
            }
            self.ip = after - distance;
            Ok(Step::Continue)
        } else {
            if self.memory.stack_len() == 0 {
                self.ip = after;
                return Err(VmError::Fault(Fault::StackUnderflow));
            }
            let top = self.memory.stack_peek();
            match self.truth(top) {
                None => {
                    self.ip = after;
                    let n = match top {
                        Value::Number(n) => n,
                        _ => 0,
                    };
                    self.request(Pending::JumpUnless(distance), NumberOp::Truthy, n, 0)
                },
                Some(t) => {
                    self.ip = if t { after } else { after + distance };
                    Ok(Step::Continue)
                },
            }
        }
    }

    /// What `print` writes for `v`.
    fn printed(&self, v: Value) -> (res: Printed)
        ensures
            res@ == spec_printed(self@, v),
    {
        match v {
            Value::Boolean(b) => Printed::Bool(b),
            Value::Nil => Printed::Nil,
            Value::Number(n) => Printed::Number(n),
            Value::Object(_) => match self.memory.get_string(v) {
                Ok(t) => Printed::Text(t),
                Err(_) => Printed::Nil,
            },
        }
    }

    /// `Not`, `Negate` and `Print`.
    fn unary(&mut self, op: OpCode, line: usize) -> (res: Result<Step, VmError>)
        requires
            old(self).wf(),
        ensures
            final(self).wf(),
            final(self)@ =~= spec_unary(old(self)@, op, line).0,
            outcome(res) == spec_unary(old(self)@, op, line).1,
    {
        if self.memory.stack_len() == 0 {
            return Err(VmError::Fault(Fault::StackUnderflow));
        }
        let v = self.memory.stack_pop();
        if op == OpCode::Not {
            match self.truth(v) {
                None => {
                    let n = match v {
                        Value::Number(n) => n,
                        _ => 0,
                    };
                    self.request(Pending::PushNot, NumberOp::Truthy, n, 0)
                },
                Some(t) => self.push(Value::Boolean(!t)),
            }
        } else if op == OpCode::Negate {
            match v {
                Value::Number(n) => self.request(Pending::PushNumber, NumberOp::Negate, n, 0),
                _ => Err(VmError::Runtime { kind: RuntimeErrorKind::NegateNonNumber, line }),
            }
        } else {
            Ok(Step::Print(self.printed(v)))
        }
    }
    /// Whether `a` and `b`, not both numbers, are equal.
    fn values_equal(&self, a: Value, b: Value) -> (res: bool)
        ensures
            res == spec_values_equal(self@, a, b),
    {
        match (a, b) {
            (Value::Boolean(x), Value::Boolean(y)) => x == y,
            (Value::Nil, Value::Nil) => true,
            (Value::Object(_), Value::Object(_)) => match (self.memory.get_string(a), self.memory.get_string(b)) {
                (Ok(x), Ok(y)) => x == y,
                _ => false,
            },
            _ => false,
        }
    }

    /// `+` on two values that are not both numbers: joins two strings.
    fn add_objects(&mut self, a: Value, b: Value, line: usize) -> (res: Result<Step, VmError>)
        requires
            old(self).wf(),
            !(a is Number && b is Number),
        ensures
            final(self).wf(),
            final(self)@ =~= spec_binary(old(self)@, OpCode::Add, line, a, b).0,
            outcome(res) == spec_binary(old(self)@, OpCode::Add, line, a, b).1,
    {
        match (a, b) {
            (Value::Object(_), Value::Object(_)) => match (self.memory.get_string(a), self.memory.get_string(b)) {
                (Ok(x), Ok(y)) => {
                    let joined = concat(x.as_str(), y.as_str());
                    let addr = self.memory.alloc_string(joined);
                    self.push(Value::Object(addr))
                },
                _ => Err(VmError::Runtime { kind: RuntimeErrorKind::AddNonStrings, line }),
            },
            _ => Err(VmError::Runtime { kind: RuntimeErrorKind::InvalidAdd, line }),
        }
    }

    /// A binary instruction.
    fn binary(&mut self, op: OpCode, line: usize) -> (res: Result<Step, VmError>)
        requires
            old(self).wf(),
        ensures
            final(self).wf(),
            final(self)@ =~= spec_binary_op(old(self)@, op, line).0,
            outcome(res) == spec_binary_op(old(self)@, op, line).1,
    {
        if self.memory.stack_len() < 2 {
            return Err(VmError::Fault(Fault::StackUnderflow));
        }
        let b = self.memory.stack_pop();
        let a = self.memory.stack_pop();
        match (a, b) {
            (Value::Number(x), Value::Number(y)) => {
                let (nop, pending) = match op {
                    OpCode::Add => (NumberOp::Add, Pending::PushNumber),
                    OpCode::Subtract => (NumberOp::Subtract, Pending::PushNumber),
                    OpCode::Multiply => (NumberOp::Multiply, Pending::PushNumber),
                    OpCode::Divide => (NumberOp::Divide, Pending::PushNumber),
                    OpCode::Equal => (NumberOp::Equal, Pending::PushBool),
                    OpCode::Greater => (NumberOp::Greater, Pending::PushBool),
                    _ => (NumberOp::Less, Pending::PushBool),
                };
                self.request(pending, nop, x, y)
            },
            _ => match op {
                OpCode::Equal => {
                    let eq = self.values_equal(a, b);
                    self.push(Value::Boolean(eq))
                },
                OpCode::Add => self.add_objects(a, b, line),
                OpCode::Subtract => Err(VmError::Runtime { kind: RuntimeErrorKind::SubtractNonNumbers, line }),
                OpCode::Multiply => Err(VmError::Runtime { kind: RuntimeErrorKind::MultiplyNonNumbers, line }),
                OpCode::Divide => Err(VmError::Runtime { kind: RuntimeErrorKind::DivideNonNumbers, line }),
                _ => Err(VmError::Runtime { kind: RuntimeErrorKind::CompareNonNumbers, line }),
            },
        }
    }

    /// Runs the instruction `op` of line `line`, just read.
    fn execute(&mut self, op: OpCode, line: usize) -> (res: Result<Step, VmError>)
        requires
            old(self).wf(),
            old(self).pending is None,
            old(self).ip <= old(self).chunk.code@.len(),
        ensures
            final(self).wf(),
            final(self)@ =~= spec_execute(old(self)@, op, line).0,
            outcome(res) == spec_execute(old(self)@, op, line).1,
    {
        match op {
            OpCode::Return => Ok(Step::Halt),
            OpCode::Nil => self.push(Value::Nil),
            OpCode::True => self.push(Value::Boolean(true)),
            OpCode::False => self.push(Value::Boolean(false)),
            OpCode::Pop => {
                if self.memory.stack_len() == 0 {
                    return Err(VmError::Fault(Fault::StackUnderflow));
                }
                self.memory.stack_pop();
                Ok(Step::Continue)
            },
            OpCode::Constant | OpCode::DefineGlobal | OpCode::GetGlobal | OpCode::SetGlobal => self.constant_op(op, line),
            OpCode::GetLocal | OpCode::SetLocal | OpCode::Call => self.slot_op(op, line),
            OpCode::JumpIfFalse | OpCode::Jump | OpCode::RevJump => self.jump(op),
            OpCode::Not | OpCode::Negate | OpCode::Print => self.unary(op, line),
            _ => self.binary(op, line),
        }
    }

    /// Runs the instruction at the instruction pointer. A step that needs arithmetic or a
    /// comparison on numbers returns the request and waits for `resume`.
    pub fn step(&mut self) -> (res: Result<Step, VmError>)
        requires
            old(self).wf(),
        ensures
            final(self).wf(),
            final(self)@ =~= spec_step(old(self)@).0,
            outcome(res) == spec_step(old(self)@).1,
    {
        if self.pending.is_some() {
            return Err(VmError::Fault(Fault::PendingRequest));
        }
        if self.ip >= self.chunk.code.len() {
            return Err(VmError::Fault(Fault::CodeOutOfRange));
        }
        let byte = self.chunk.code[self.ip];
        let line = self.chunk.lines[self.ip];
        self.ip = self.ip + 1;
        match OpCode::try_from_byte(byte) {
            None => Err(VmError::Runtime { kind: RuntimeErrorKind::InvalidOpCode(byte), line }),
            Some(op) => self.execute(op, line),
        }
    }

    /// Takes the answer to the request the last step made, and finishes that step.
    pub fn resume(&mut self, answer: NumberAnswer) -> (res: Result<Step, VmError>)
        requires
            old(self).wf(),
        ensures
            final(self).wf(),
            final(self)@ =~= spec_resume(old(self)@, answer).0,
            outcome(res) == spec_resume(old(self)@, answer).1,
    {
        let p = match self.pending {
            None => {
                return Err(VmError::Fault(Fault::NoRequest));
            },
            Some(p) => p,
        };
        match (p, answer) {
            (Pending::PushNumber, NumberAnswer::Number(n)) => {
                self.pending = None;
                self.push(Value::Number(n))
            },
            (Pending::PushBool, NumberAnswer::Bool(b)) => {
                self.pending = None;
                self.push(Value::Boolean(b))
            },
            (Pending::PushNot, NumberAnswer::Bool(b)) => {
                self.pending = None;
                self.push(Value::Boolean(!b))
            },
            (Pending::JumpUnless(d), NumberAnswer::Bool(b)) => {
                self.pending = None;
                if !b {
                    self.ip = self.ip + d;
                }
                Ok(Step::Continue)
            },
            _ => Err(VmError::Fault(Fault::AnswerMismatch)),
        }
    }
}

} // verus!
