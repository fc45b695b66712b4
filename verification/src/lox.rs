use vstd::prelude::*;

use crate::error::LoxError;
use crate::scanner::{tokens_from, Scanner};
use crate::token::{tokens_spec, Token};

verus! {

/// The session of the token-listing tool: it reads Lox code into its tokens.
pub struct Lox {}

impl Lox {
    /// A session.
    pub fn new() -> (res: Lox)
        ensures
            res == (Lox {}),
    {
        Lox {}
    }

    /// The tokens of `code`, up to and with `Eof`, or the first scanning error.
    pub fn run(&mut self, code: &str) -> (res: Result<Vec<Token>, LoxError>)
        requires
            code@.len() < usize::MAX,
        ensures
            match tokens_from(code@, 0, 1) {
                Ok(ts) => res matches Ok(v) && tokens_spec(v@) == ts,
                Err((kind, text, line)) => res matches Err(LoxError::ScanError { kind: k, lexeme, line: l })
                    && k == kind && lexeme@ == text && l == line,
            },
    {
        let mut scanner = Scanner::new(code);
        scanner.scan()
    }
}

} // verus!
