use lox::chunk::{Chunk, Constant};
use lox::memory::{Memory, MemoryError, ObjectKind};
use lox::opcode::OpCode;
use lox::value::Value;
use lox::vm::{Fault, NumberAnswer, NumberOp, Printed, RuntimeErrorKind, Step, Vm, VmError};

fn chunk_of(code: Vec<u8>, constants: Vec<Constant>) -> Chunk {
    let mut chunk = Chunk::new();
    for b in code {
        chunk.write(b, 1);
    }
    for c in constants {
        chunk.add_constant(c);
    }
    chunk
}

fn machine(code: Vec<OpCode>, constants: Vec<Constant>, numbers: Vec<u64>) -> Vm {
    Vm::new(chunk_of(code.into_iter().map(|o| o.to_byte()).collect(), constants), numbers)
}

#[test]
fn memory_interns_strings() {
    let mut m = Memory::new();
    let a = m.alloc_string("hi".to_string());
    let b = m.alloc_string("hi".to_string());
    let c = m.alloc_string("ho".to_string());
    assert_eq!(a, b);
    assert_ne!(a, c);
    assert_eq!(m.get_string(Value::Object(a)).unwrap(), "hi");
    assert_eq!(m.get_string(Value::Nil), Err(MemoryError::NotAnObject));
    let d = m.allocate(ObjectKind::String("hi".to_string()));
    assert_ne!(a, d);
}

#[test]
fn memory_globals_read_back_what_was_written() {
    let mut m = Memory::new();
    let name = "x".to_string();
    assert_eq!(m.set_global(&name, Value::Nil), Err(MemoryError::UndefinedGlobal));
    m.insert_global(&name, Value::Boolean(true));
    assert_eq!(m.get_global(&name), Some(Value::Boolean(true)));
    m.set_global(&name, Value::Number(7)).unwrap();
    assert_eq!(m.get_global(&name), Some(Value::Number(7)));
}

#[test]
fn memory_stack_pushes_and_pops() {
    let mut m = Memory::new();
    m.stack_push(Value::Nil);
    m.stack_push(Value::Boolean(false));
    assert_eq!(m.stack_len(), 2);
    assert_eq!(m.stack_peek(), Value::Boolean(false));
    m.stack_set(0, Value::Number(1));
    assert_eq!(m.stack_get(0), Some(Value::Number(1)));
    assert_eq!(m.stack_pop(), Value::Boolean(false));
    assert_eq!(m.stack_get(1), None);
}

#[test]
fn machine_asks_for_number_arithmetic_and_pushes_the_answer() {
    let two = 2.0f64.to_bits();
    let three = 3.0f64.to_bits();
    let mut vm = machine(
        vec![OpCode::Constant, OpCode::Constant, OpCode::Constant, OpCode::Constant, OpCode::Add, OpCode::Print, OpCode::Return],
        vec![Constant::Number("2".to_string()), Constant::Number("3".to_string())],
        vec![two, three],
    );
    let mut chunk = vm.chunk().clone();
    chunk.code = vec![0, 0, 0, 1, OpCode::Add.to_byte(), OpCode::Print.to_byte(), OpCode::Return.to_byte()];
    chunk.lines = vec![1; 7];
    vm = Vm::new(chunk, vec![two, three]);
    assert_eq!(vm.step(), Ok(Step::Continue));
    assert_eq!(vm.step(), Ok(Step::Continue));
    match vm.step() {
        Ok(Step::Request(r)) => {
            assert_eq!(r.op, NumberOp::Add);
            assert_eq!((r.lhs, r.rhs), (two, three));
        }
        other => panic!("expected a request, got {:?}", other),
    }
    assert!(vm.is_waiting());
    assert_eq!(vm.step(), Err(VmError::Fault(Fault::PendingRequest)));
    assert_eq!(vm.resume(NumberAnswer::Bool(true)), Err(VmError::Fault(Fault::AnswerMismatch)));
    assert_eq!(vm.resume(NumberAnswer::Number(5.0f64.to_bits())), Ok(Step::Continue));
    assert!(!vm.is_waiting());
    assert_eq!(vm.step(), Ok(Step::Print(Printed::Number(5.0f64.to_bits()))));
    assert_eq!(vm.step(), Ok(Step::Halt));
    assert_eq!(vm.resume(NumberAnswer::Bool(true)), Err(VmError::Fault(Fault::NoRequest)));
}

#[test]
fn machine_reports_runtime_errors_with_their_line() {
    let mut vm = machine(vec![OpCode::True, OpCode::Negate], vec![], vec![]);
    assert_eq!(vm.step(), Ok(Step::Continue));
    assert_eq!(vm.step(), Err(VmError::Runtime { kind: RuntimeErrorKind::NegateNonNumber, line: 1 }));

    let mut vm = machine(vec![OpCode::True, OpCode::Nil, OpCode::Add], vec![], vec![]);
    vm.step().unwrap();
    vm.step().unwrap();
    assert_eq!(vm.step(), Err(VmError::Runtime { kind: RuntimeErrorKind::InvalidAdd, line: 1 }));

    let mut vm = machine(vec![OpCode::Nil, OpCode::Nil, OpCode::Less], vec![], vec![]);
    vm.step().unwrap();
    vm.step().unwrap();
    assert_eq!(vm.step(), Err(VmError::Runtime { kind: RuntimeErrorKind::CompareNonNumbers, line: 1 }));

    let mut vm = Vm::new(chunk_of(vec![250], vec![]), vec![]);
    assert_eq!(vm.step(), Err(VmError::Runtime { kind: RuntimeErrorKind::InvalidOpCode(250), line: 1 }));
}

#[test]
fn machine_faults_on_an_empty_stack_and_past_the_end() {
    let mut vm = machine(vec![OpCode::Pop], vec![], vec![]);
    assert_eq!(vm.step(), Err(VmError::Fault(Fault::StackUnderflow)));
    let mut vm = machine(vec![OpCode::Nil], vec![], vec![]);
    assert_eq!(vm.step(), Ok(Step::Continue));
    assert_eq!(vm.step(), Err(VmError::Fault(Fault::CodeOutOfRange)));
}

#[test]
fn machine_reads_undefined_globals_as_errors() {
    let chunk = chunk_of(vec![OpCode::GetGlobal.to_byte(), 0], vec![Constant::String("ghost".to_string())]);
    let mut vm = Vm::new(chunk, vec![0]);
    assert_eq!(
        vm.step(),
        Err(VmError::UndefinedGlobal { name: "ghost".to_string(), write: false, line: 1 })
    );
    let chunk = chunk_of(
        vec![OpCode::Nil.to_byte(), OpCode::SetGlobal.to_byte(), 0],
        vec![Constant::String("ghost".to_string())],
    );
    let mut vm = Vm::new(chunk, vec![0]);
    vm.step().unwrap();
    assert_eq!(
        vm.step(),
        Err(VmError::UndefinedGlobal { name: "ghost".to_string(), write: true, line: 1 })
    );
}

#[test]
fn machine_interns_equal_string_constants() {
    let chunk = chunk_of(
        vec![0, 0, 0, 1, OpCode::Equal.to_byte(), OpCode::Print.to_byte()],
        vec![Constant::String("s".to_string()), Constant::String("s".to_string())],
    );
    let mut vm = Vm::new(chunk, vec![0, 0]);
    vm.step().unwrap();
    vm.step().unwrap();
    assert_eq!(vm.stack_value(0), vm.stack_value(1));
    assert_eq!(vm.heap_len(), 1);
    assert_eq!(vm.string_of(vm.stack_value(0).unwrap()), Some("s".to_string()));
    assert_eq!(vm.step(), Ok(Step::Continue));
    assert_eq!(vm.step(), Ok(Step::Print(Printed::Bool(true))));
}

#[test]
fn machine_jumps_on_truthiness_of_numbers_by_asking() {
    let chunk = chunk_of(
        vec![0, 0, OpCode::JumpIfFalse.to_byte(), 0, 1, OpCode::Nil.to_byte(), OpCode::Return.to_byte()],
        vec![Constant::Number("0".to_string())],
    );
    let mut vm = Vm::new(chunk, vec![0.0f64.to_bits()]);
    vm.step().unwrap();
    match vm.step() {
        Ok(Step::Request(r)) => assert_eq!(r.op, NumberOp::Truthy),
        other => panic!("expected a request, got {:?}", other),
    }
    assert_eq!(vm.resume(NumberAnswer::Bool(false)), Ok(Step::Continue));
    assert_eq!(vm.ip(), 6);
    assert_eq!(vm.step(), Ok(Step::Halt));
}
