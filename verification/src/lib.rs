use vstd::prelude::*;

pub mod text;
pub mod token;
pub mod error;
pub mod scanner;
pub mod precedence;
pub mod parse_rule;
pub mod opcode;
pub mod local;
pub mod chunk;
pub mod compiler;
pub mod codegen;
pub mod value;
pub mod memory;
pub mod vm;
pub mod treewalk;
pub mod lox;

verus! {
}
