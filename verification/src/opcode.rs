use vstd::prelude::*;

verus! {

/// The instructions of the virtual machine; an instruction's byte is its position here.
#[derive(Clone, Copy, Debug, PartialEq, Eq, Structural)]
pub enum OpCode {
    Constant,
    Nil,
    True,
    False,
    Pop,
    GetGlobal,
    SetGlobal,
    GetLocal,
    SetLocal,
    DefineGlobal,
    Equal,
    Greater,
    Less,
    Add,
    Subtract,
    Multiply,
    Divide,
    Not,
    Negate,
    Print,
    JumpIfFalse,
    RevJump,
    Jump,
    Call,
    Return,
}

/// The number of instructions.
pub const OPCODE_COUNT: u8 = 25;

impl OpCode {
    /// The byte that encodes the instruction.
    pub open spec fn spec_byte(self) -> u8 {
        match self {
            OpCode::Constant => 0,
            OpCode::Nil => 1,
            OpCode::True => 2,
            OpCode::False => 3,
            OpCode::Pop => 4,
            OpCode::GetGlobal => 5,
            OpCode::SetGlobal => 6,
            OpCode::GetLocal => 7,
            OpCode::SetLocal => 8,
            OpCode::DefineGlobal => 9,
            OpCode::Equal => 10,
            OpCode::Greater => 11,
            OpCode::Less => 12,
            OpCode::Add => 13,
            OpCode::Subtract => 14,
            OpCode::Multiply => 15,
            OpCode::Divide => 16,
            OpCode::Not => 17,
            OpCode::Negate => 18,
            OpCode::Print => 19,
            OpCode::JumpIfFalse => 20,
            OpCode::RevJump => 21,
            OpCode::Jump => 22,
            OpCode::Call => 23,
            OpCode::Return => 24,
        }
    }

    /// The instruction that `byte` encodes, if any.
    pub open spec fn spec_from_byte(byte: u8) -> Option<OpCode> {
        if byte == 0 { Some(OpCode::Constant) }
        else if byte == 1 { Some(OpCode::Nil) }
        else if byte == 2 { Some(OpCode::True) }
        else if byte == 3 { Some(OpCode::False) }
        else if byte == 4 { Some(OpCode::Pop) }
        else if byte == 5 { Some(OpCode::GetGlobal) }
        else if byte == 6 { Some(OpCode::SetGlobal) }
        else if byte == 7 { Some(OpCode::GetLocal) }
        else if byte == 8 { Some(OpCode::SetLocal) }
        else if byte == 9 { Some(OpCode::DefineGlobal) }
        else if byte == 10 { Some(OpCode::Equal) }
        else if byte == 11 { Some(OpCode::Greater) }
        else if byte == 12 { Some(OpCode::Less) }
        else if byte == 13 { Some(OpCode::Add) }
        else if byte == 14 { Some(OpCode::Subtract) }
        else if byte == 15 { Some(OpCode::Multiply) }
        else if byte == 16 { Some(OpCode::Divide) }
        else if byte == 17 { Some(OpCode::Not) }
        else if byte == 18 { Some(OpCode::Negate) }
        else if byte == 19 { Some(OpCode::Print) }
        else if byte == 20 { Some(OpCode::JumpIfFalse) }
        else if byte == 21 { Some(OpCode::RevJump) }
        else if byte == 22 { Some(OpCode::Jump) }
        else if byte == 23 { Some(OpCode::Call) }
        else if byte == 24 { Some(OpCode::Return) }
        else { None }
    }

    /// The byte that encodes the instruction (`op as u8`).
    pub fn to_byte(self) -> (res: u8)
        ensures
            res == self.spec_byte(),
    {
        match self {
            OpCode::Constant => 0,
            OpCode::Nil => 1,
            OpCode::True => 2,
            OpCode::False => 3,
            OpCode::Pop => 4,
            OpCode::GetGlobal => 5,
            OpCode::SetGlobal => 6,
            OpCode::GetLocal => 7,
            OpCode::SetLocal => 8,
            OpCode::DefineGlobal => 9,
            OpCode::Equal => 10,
            OpCode::Greater => 11,
            OpCode::Less => 12,
            OpCode::Add => 13,
            OpCode::Subtract => 14,
            OpCode::Multiply => 15,
            OpCode::Divide => 16,
            OpCode::Not => 17,
            OpCode::Negate => 18,
            OpCode::Print => 19,
            OpCode::JumpIfFalse => 20,
            OpCode::RevJump => 21,
            OpCode::Jump => 22,
            OpCode::Call => 23,
            OpCode::Return => 24,
        }
    }

    /// The instruction that `byte` encodes; `None` for a byte that encodes none (where the
    /// conversion `OpCode::try_from(u8)` fails).
    pub fn try_from_byte(byte: u8) -> (res: Option<OpCode>)
        ensures
            res == OpCode::spec_from_byte(byte),
    {
        if byte == 0 { Some(OpCode::Constant) }
        else if byte == 1 { Some(OpCode::Nil) }
        else if byte == 2 { Some(OpCode::True) }
        else if byte == 3 { Some(OpCode::False) }
        else if byte == 4 { Some(OpCode::Pop) }
        else if byte == 5 { Some(OpCode::GetGlobal) }
        else if byte == 6 { Some(OpCode::SetGlobal) }
        else if byte == 7 { Some(OpCode::GetLocal) }
        else if byte == 8 { Some(OpCode::SetLocal) }
        else if byte == 9 { Some(OpCode::DefineGlobal) }
        else if byte == 10 { Some(OpCode::Equal) }
        else if byte == 11 { Some(OpCode::Greater) }
        else if byte == 12 { Some(OpCode::Less) }
        else if byte == 13 { Some(OpCode::Add) }
        else if byte == 14 { Some(OpCode::Subtract) }
        else if byte == 15 { Some(OpCode::Multiply) }
        else if byte == 16 { Some(OpCode::Divide) }
        else if byte == 17 { Some(OpCode::Not) }
        else if byte == 18 { Some(OpCode::Negate) }
        else if byte == 19 { Some(OpCode::Print) }
        else if byte == 20 { Some(OpCode::JumpIfFalse) }
        else if byte == 21 { Some(OpCode::RevJump) }
        else if byte == 22 { Some(OpCode::Jump) }
        else if byte == 23 { Some(OpCode::Call) }
        else if byte == 24 { Some(OpCode::Return) }
        else { None }
    }

    /// How many operand bytes follow the instruction in a chunk.
    pub open spec fn spec_operand_len(self) -> nat {
        match self {
            OpCode::Constant | OpCode::DefineGlobal | OpCode::GetGlobal | OpCode::SetGlobal
            | OpCode::GetLocal | OpCode::SetLocal | OpCode::Call => 1,
            OpCode::JumpIfFalse | OpCode::Jump | OpCode::RevJump => 2,
            _ => 0,
        }
    }
}

/// Encoding and decoding are inverse: every instruction decodes from its byte, and the
/// bytes that decode are exactly those below the number of instructions.
pub proof fn lemma_opcode_byte_roundtrip(op: OpCode, byte: u8)
    ensures
        OpCode::spec_from_byte(op.spec_byte()) == Some(op),
        op.spec_byte() < OPCODE_COUNT,
        OpCode::spec_from_byte(byte) is Some <==> byte < OPCODE_COUNT,
        OpCode::spec_from_byte(byte) matches Some(o) ==> o.spec_byte() == byte,
{
}

} // verus!
