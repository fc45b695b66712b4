use vstd::prelude::*;

use crate::opcode::OpCode;

verus! {

/// A constant of a chunk. A number keeps the text of its literal, as written in the
/// source; the machine that runs the chunk reads its value from that text.
#[derive(Clone, Debug, PartialEq, Eq)]
pub enum Constant {
    Number(String),
    String(String),
}

/// The most constants a chunk can hold: a constant's index must fit in one byte.
pub const MAX_CONSTANT_LENGTH: usize = 256;

/// Compiled code: the instruction bytes, the source line of each byte, and the constants
/// the instructions refer to by index.
#[derive(Clone, Debug)]
pub struct Chunk {
    pub code: Vec<u8>,
    pub lines: Vec<usize>,
    pub constants: Vec<Constant>,
}

impl Chunk {
    /// Every byte of code has its line.
    pub open spec fn wf(&self) -> bool {
        self.code@.len() == self.lines@.len()
    }

    /// An empty chunk.
    pub fn new() -> (res: Chunk)
        ensures
            res.code@ == Seq::<u8>::empty(),
            res.lines@ == Seq::<usize>::empty(),
            res.constants@ == Seq::<Constant>::empty(),
    {
        Chunk { code: Vec::new(), constants: Vec::new(), lines: Vec::new() }
    }

    /// Appends the byte `byte`, written on source line `line`.
    pub fn write(&mut self, byte: u8, line: usize)
        ensures
            final(self).code@ == old(self).code@.push(byte),
            final(self).lines@ == old(self).lines@.push(line),
            final(self).constants@ == old(self).constants@,
    {
        self.code.push(byte);
        self.lines.push(line);
    }

    /// The source line of the instruction at `offset`: that of its byte, or, past the end
    /// of the code, that of the last byte.
    pub fn get_line(&self, offset: usize) -> (res: usize)
        requires
            self.lines@.len() > 0,
        ensures
            res == if offset < self.lines@.len() { self.lines@[offset as int] } else { self.lines@.last() },
    {
        if offset < self.lines.len() {
            self.lines[offset]
        } else {
            self.lines[self.lines.len() - 1]
        }
    }

    /// Appends the constant `v` and returns its index.
    pub fn add_constant(&mut self, v: Constant) -> (res: u8)
        requires
            old(self).constants@.len() < MAX_CONSTANT_LENGTH,
        ensures
            res == old(self).constants@.len(),
            final(self).constants@ == old(self).constants@.push(v),
            final(self).code@ == old(self).code@,
            final(self).lines@ == old(self).lines@,
    {
        let index = self.constants.len();
        self.constants.push(v);
        index as u8
    }

    /// The number of code bytes.
    pub fn count(&self) -> (res: usize)
        ensures
            res == self.code@.len(),
    {
        self.code.len()
    }

    /// Replaces the code byte at `loc` by `byte`.
    pub fn overwrite(&mut self, loc: usize, byte: u8)
        requires
            loc < old(self).code@.len(),
        ensures
            final(self).code@ == old(self).code@.update(loc as int, byte),
            final(self).lines@ == old(self).lines@,
            final(self).constants@ == old(self).constants@,
    {
        self.code.set(loc, byte);
    }

    /// The chunk seen with the instruction at `ip` marked, for listing it.
    pub fn with_ip(&self, ip: i32) -> (res: ChunkWithIp<'_>)
        ensures
            res.ip == ip,
            res.chunk == self,
    {
        ChunkWithIp { ip, chunk: self }
    }
}

/// A compiled function: how many parameters it takes, its code and its name.
#[derive(Clone, Debug)]
pub struct Function {
    pub arity: usize,
    pub chunk: Chunk,
    pub name: String,
}

impl Function {
    /// A function of no parameters, no code and no name.
    pub fn new() -> (res: Function)
        ensures
            res.arity == 0,
            res.chunk.code@.len() == 0,
            res.chunk.lines@.len() == 0,
            res.chunk.constants@.len() == 0,
            res.name@.len() == 0,
    {
        Function { arity: 0, chunk: Chunk::new(), name: String::new() }
    }
}

/// Whether code being compiled is a function body or the top-level script.
#[derive(Clone, Copy, Debug, PartialEq, Eq, Structural)]
pub enum FuncType {
    Function,
    Script,
}

/// A chunk and the offset of the instruction to mark when it is listed (-1: none).
pub struct ChunkWithIp<'a> {
    pub ip: i32,
    pub chunk: &'a Chunk,
}

/// The operand of a listed instruction.
#[derive(Clone, Copy, Debug, PartialEq, Eq, Structural)]
pub enum Operand {
    /// The instruction has no operand.
    Nothing,
    /// The index of the constant it uses.
    Constant(u8),
    /// The stack slot of a local variable.
    Slot(u8),
    /// The number of arguments of a call.
    ArgCount(u8),
    /// The offset a jump goes to.
    JumpTarget(usize),
}

/// One instruction of a chunk's listing.
#[derive(Clone, Copy, Debug, PartialEq, Eq, Structural)]
pub struct ListedInstruction {
    /// Where the instruction starts.
    pub offset: usize,
    /// Whether it is the marked instruction.
    pub highlight: bool,
    /// Its source line, given only where the line differs from the previous byte's.
    pub new_line: Option<usize>,
    pub op: OpCode,
    pub operand: Operand,
}

/// Why a chunk cannot be listed.
#[derive(Clone, Copy, Debug, PartialEq, Eq, Structural)]
pub enum ListingError {
    /// The byte at this offset encodes no instruction.
    InvalidOpCode(u8),
    /// A constant instruction refers to a constant the chunk does not have.
    InvalidConstantIndex,
    /// The code ends inside an instruction's operand.
    TruncatedOperand,
    /// A backward jump goes before the start of the code.
    JumpBeforeStart,
}

/// The 16-bit big-endian number in `hi` and `lo`.
pub open spec fn spec_u16(hi: u8, lo: u8) -> nat {
    hi as nat * 256 + lo as nat
}

/// The instruction at `offset` of a chunk with code `code` and `n_constants` constants:
/// its operand and the offset of the next instruction.
pub open spec fn spec_decode(code: Seq<u8>, n_constants: nat, offset: nat) -> Result<(OpCode, Operand, nat), ListingError> {
    let byte = code[offset as int];
    match OpCode::spec_from_byte(byte) {
        None => Err(ListingError::InvalidOpCode(byte)),
        Some(op) => {
            if op.spec_operand_len() == 0 {
                Ok((op, Operand::Nothing, offset + 1))
            } else if offset + op.spec_operand_len() >= code.len() {
                Err(ListingError::TruncatedOperand)
            } else if op.spec_operand_len() == 1 {
                let b = code[offset + 1int];
                match op {
                    OpCode::GetLocal | OpCode::SetLocal => Ok((op, Operand::Slot(b), offset + 2)),
                    OpCode::Call => Ok((op, Operand::ArgCount(b), offset + 2)),
                    _ => if (b as nat) < n_constants {
                        Ok((op, Operand::Constant(b), offset + 2))
                    } else {
                        Err(ListingError::InvalidConstantIndex)
                    },
                }
            } else {
                let distance = spec_u16(code[offset + 1int], code[offset + 2int]);
                if op == OpCode::RevJump {
                    if offset + 3 < distance {
                        Err(ListingError::JumpBeforeStart)
                    } else {
                        Ok((op, Operand::JumpTarget((offset + 3 - distance) as usize), offset + 3))
                    }
                } else {
                    Ok((op, Operand::JumpTarget((distance + offset + 3) as usize), offset + 3))
                }
            }
        },
    }
}

/// The listing of the instructions of a chunk from `offset` on, the instruction at `ip`
/// marked.
pub open spec fn spec_listing(chunk: Chunk, ip: int, offset: nat) -> Result<Seq<ListedInstruction>, ListingError>
    decreases chunk.code@.len() - offset,
{
    if offset >= chunk.code@.len() {
        Ok(Seq::empty())
    } else {
        match spec_decode(chunk.code@, chunk.constants@.len(), offset) {
            Err(e) => Err(e),
            Ok((op, operand, next)) => {
                let new_line = if offset == 0 || chunk.lines@[offset as int] != chunk.lines@[offset - 1] {
                    Some(chunk.lines@[offset as int])
                } else {
                    None
                };
                let entry = ListedInstruction { offset: offset as usize, highlight: offset == ip, new_line, op, operand };
                if next <= offset {
                    Ok(Seq::empty())
                } else {
                    match spec_listing(chunk, ip, next) {
                        Err(e) => Err(e),
                        Ok(rest) => Ok(seq![entry] + rest),
                    }
                }
            },
        }
    }
}

/// A listing goes forward through the code: its first instruction is where it starts and
/// each instruction starts after the one before it.
pub proof fn lemma_listing_goes_forward(chunk: Chunk, ip: int, offset: nat)
    ensures
        spec_listing(chunk, ip, offset) matches Ok(s) ==> {
            &&& s.len() > 0 ==> s[0].offset == offset
            &&& forall|i: int| 0 <= i < s.len() ==> offset <= (#[trigger] s[i]).offset < chunk.code@.len()
            &&& forall|i: int, j: int| 0 <= i < j < s.len() ==> (#[trigger] s[i]).offset < (#[trigger] s[j]).offset
        },
    decreases chunk.code@.len() - offset,
{
    assert(chunk.code.len() == chunk.code@.len());
    if offset < chunk.code@.len() {
        if let Ok((op, operand, next)) = spec_decode(chunk.code@, chunk.constants@.len(), offset) {
            if next > offset {
                lemma_listing_goes_forward(chunk, ip, next);
                if let Ok(rest) = spec_listing(chunk, ip, next) {
                    let new_line = if offset == 0 || chunk.lines@[offset as int] != chunk.lines@[offset - 1] {
                        Some(chunk.lines@[offset as int])
                    } else {
                        None
                    };
                    let entry = ListedInstruction { offset: offset as usize, highlight: offset == ip, new_line, op, operand };
                    let s = seq![entry] + rest;
                    assert(spec_listing(chunk, ip, offset) == Ok::<Seq<ListedInstruction>, ListingError>(s));
                    assert forall|i: int| 0 <= i < s.len() implies offset <= (#[trigger] s[i]).offset < chunk.code@.len() by {
                        if i > 0 {
                            assert(s[i] == rest[i - 1]);
                        }
                    }
                    assert forall|i: int, j: int| 0 <= i < j < s.len() implies (#[trigger] s[i]).offset < (#[trigger] s[j]).offset by {
                        assert(s[j] == rest[j - 1]);
                        if i > 0 {
                            assert(s[i] == rest[i - 1]);
                        }
                    }
                }
            }
        }
    }
}

/// The listing `rest` follows `before`, or the error that stopped it.
pub open spec fn prepend_listing(before: Seq<ListedInstruction>, rest: Result<Seq<ListedInstruction>, ListingError>) -> Result<Seq<ListedInstruction>, ListingError> {
    match rest {
        Ok(r) => Ok(before + r),
        Err(e) => Err(e),
    }
}

/// Reads the instruction at `offset`: what `spec_decode` gives.
fn decode_at(chunk: &Chunk, offset: usize) -> (res: Result<(OpCode, Operand, usize), ListingError>)
    requires
        offset < chunk.code@.len() < 0x8000_0000,
    ensures
        match spec_decode(chunk.code@, chunk.constants@.len(), offset as nat) {
            Ok((op, operand, next)) => res == Ok::<(OpCode, Operand, usize), ListingError>((op, operand, next as usize)),
            Err(e) => res == Err::<(OpCode, Operand, usize), ListingError>(e),
        },
        res matches Ok((_, _, next)) ==> offset < next <= offset + 3,
{
    let len = chunk.code.len();
    let byte = chunk.code[offset];
    let op = match OpCode::try_from_byte(byte) {
        Some(op) => op,
        None => {
            return Err(ListingError::InvalidOpCode(byte));
        },
    };
    match op {
        OpCode::Constant | OpCode::DefineGlobal | OpCode::GetGlobal | OpCode::SetGlobal => {
            if offset + 1 >= len {
                return Err(ListingError::TruncatedOperand);
            }
            let index = chunk.code[offset + 1];
            if (index as usize) >= chunk.constants.len() {
                return Err(ListingError::InvalidConstantIndex);
            }
            Ok((op, Operand::Constant(index), offset + 2))
        },
        OpCode::GetLocal | OpCode::SetLocal => {
            if offset + 1 >= len {
                return Err(ListingError::TruncatedOperand);
            }
            Ok((op, Operand::Slot(chunk.code[offset + 1]), offset + 2))
        },
        OpCode::Call => {
            if offset + 1 >= len {
                return Err(ListingError::TruncatedOperand);
            }
            Ok((op, Operand::ArgCount(chunk.code[offset + 1]), offset + 2))
        },
        OpCode::JumpIfFalse | OpCode::Jump => {
            if offset + 2 >= len {
                return Err(ListingError::TruncatedOperand);
            }
            let distance = (chunk.code[offset + 1] as usize) * 256 + (chunk.code[offset + 2] as usize);
            Ok((op, Operand::JumpTarget(distance + offset + 3), offset + 3))
        },
        OpCode::RevJump => {
            if offset + 2 >= len {
                return Err(ListingError::TruncatedOperand);
            }
            let distance = (chunk.code[offset + 1] as usize) * 256 + (chunk.code[offset + 2] as usize);
            if offset + 3 < distance {
                return Err(ListingError::JumpBeforeStart);
            }
            Ok((op, Operand::JumpTarget(offset + 3 - distance), offset + 3))
        },
        _ => Ok((op, Operand::Nothing, offset + 1)),
    }
}

impl<'a> ChunkWithIp<'a> {
    /// The listing of the chunk: each instruction with its offset, its mark, its source
    /// line where that changes, and its operand (a jump's operand given as the offset it
    /// goes to); an error for code that cannot be read as instructions.
    pub fn instructions(&self) -> (res: Result<Vec<ListedInstruction>, ListingError>)
        requires
            self.chunk.wf(),
            self.chunk.code@.len() < 0x8000_0000,
        ensures
            match spec_listing(*self.chunk, self.ip as int, 0) {
                Ok(s) => res matches Ok(v) && v@ == s,
                Err(e) => res == Err::<Vec<ListedInstruction>, ListingError>(e),
            },
    {
        let chunk = self.chunk;
        let len = chunk.code.len();
        let mut out: Vec<ListedInstruction> = Vec::new();
        let mut offset: usize = 0;
        while offset < len
            invariant
                len == chunk.code@.len(),
                chunk == self.chunk,
                chunk.wf(),
                len < 0x8000_0000,
                offset <= len,
                spec_listing(*chunk, self.ip as int, 0) == prepend_listing(out@, spec_listing(*chunk, self.ip as int, offset as nat)),
            decreases len - offset,
        {
            let highlight = self.ip >= 0 && offset == self.ip as usize;
            let new_line = if offset == 0 || chunk.lines[offset] != chunk.lines[offset - 1] {
                Some(chunk.lines[offset])
            } else {
                None
            };
            let (op, operand, next) = match decode_at(chunk, offset) {
                Ok(d) => d,
                Err(e) => {
                    assert(spec_listing(*chunk, self.ip as int, offset as nat) == Err::<Seq<ListedInstruction>, ListingError>(e));
                    return Err(e);
                },
            };
            let entry = ListedInstruction { offset, highlight, new_line, op, operand };
            let ghost old_out = out@;
            out.push(entry);
            proof {
                match spec_listing(*chunk, self.ip as int, next as nat) {
                    Ok(r) => {
                        assert(old_out + (seq![entry] + r) =~= out@ + r);
                    },
                    Err(e) => {},
                }
            }
            offset = next;
        }
        proof {
            assert(out@ + Seq::<ListedInstruction>::empty() =~= out@);
        }
        Ok(out)
    }
}

} // verus!
