use vstd::prelude::*;

verus! {

/// Why the scanner could not read a token.
#[derive(Clone, Copy, Debug, PartialEq, Eq, Structural)]
pub enum ScanErrorKind {
    /// A string literal that reaches the end of the source without its closing quote.
    UnterminatedString,
    /// A character that starts no token.
    UnexpectedCharacter,
}

/// The token the compiler required and did not find.
#[derive(Clone, Copy, Debug, PartialEq, Eq, Structural)]
pub enum Expectation {
    VariableName,
    SemicolonAfterVariableDeclaration,
    LeftParenAfterIf,
    RightParenAfterCondition,
    RightBraceAfterBlock,
    SemicolonAfterValue,
    SemicolonAfterExpression,
    RightParenAfterExpression,
    LeftParenAfterWhile,
    LeftParenAfterFor,
    SemicolonAfterLoopCondition,
    RightParenAfterForClauses,
}

/// Why the compiler rejected a piece of the program.
#[derive(Clone, Copy, Debug, PartialEq, Eq, Structural)]
pub enum CompileErrorKind {
    /// A required token is missing.
    Expected(Expectation),
    /// A token that cannot start (or continue) an expression.
    ExpectExpression,
    /// An `=` after something that cannot be assigned to.
    InvalidAssignmentTarget,
    /// A second local variable of the same name in one scope.
    AlreadyDeclared,
    /// More than 256 local variables are alive at once.
    TooManyLocals,
    /// A local variable read in its own initializer.
    ReadInOwnInitializer,
    /// A forward jump longer than 65535 bytes.
    TooMuchCodeToJump,
    /// A loop body longer than 65535 bytes.
    LoopBodyTooLarge,
    /// A chunk that would need more than 256 constants.
    TooManyConstants,
    /// A literal rule run on a token that is no literal.
    InvalidLiteral,
    /// A unary rule run on a token that is no unary operator.
    InvalidUnary,
    /// A binary rule run on a token that is no binary operator.
    InvalidBinary,
}

/// The errors of the bytecode tool chain.
#[derive(Clone, Debug)]
pub enum LoxError {
    /// The scanner could not read a token; `lexeme` is the text it had consumed.
    ScanError { kind: ScanErrorKind, lexeme: String, line: usize },
    /// The compiler rejected the program; `lexeme` and `line` locate the token at fault.
    CompileError { reason: CompileErrorKind, lexeme: String, line: usize },
}

/// What an error of the bytecode tool chain says: its kind, text and line.
pub enum ErrorView {
    Scan(ScanErrorKind, Seq<char>, nat),
    Compile(CompileErrorKind, Seq<char>, nat),
}

/// What `e` says.
pub open spec fn error_view(e: LoxError) -> ErrorView {
    match e {
        LoxError::ScanError { kind, lexeme, line } => ErrorView::Scan(kind, lexeme@, line as nat),
        LoxError::CompileError { reason, lexeme, line } => ErrorView::Compile(reason, lexeme@, line as nat),
    }
}

/// What each of `es` says.
pub open spec fn errors_view(es: Seq<LoxError>) -> Seq<ErrorView> {
    es.map_values(|e: LoxError| error_view(e))
}

} // verus!
