use vstd::prelude::*;

verus! {

/// The address of an object on the heap.
pub type ObjAddr = usize;

/// A value of the virtual machine. A number is held by the bit pattern of its IEEE 754
/// double; the machine moves it around and leaves its arithmetic to whoever runs it.
#[derive(Clone, Copy, Debug, PartialEq, Eq, Structural)]
pub enum Value {
    Boolean(bool),
    Number(u64),
    Object(ObjAddr),
    Nil,
}

} // verus!
