use vstd::prelude::*;

use crate::token::Token;

verus! {

/// A local variable of the compiler: its name token and the scope depth it was defined
/// at; depth -1 marks a variable declared but not yet initialized.
#[derive(Clone, Debug)]
pub struct Local {
    pub token: Token,
    pub depth: i32,
}

impl Local {
    /// A local variable named by `token` at `depth`.
    pub fn new(token: Token, depth: i32) -> (res: Local)
        ensures
            res.token == token,
            res.depth == depth,
    {
        Local { token, depth }
    }
}

} // verus!
