use vstd::prelude::*;

verus! {

/// The reason a compilation stopped.
#[derive(Clone, Copy, Debug, PartialEq, Eq, Structural)]
pub enum ErrorCode {
    ErrNoError,
    ErrStreamError,
    ErrEOF,
    ErrInvalidInput,
    ErrInvalidIdentifier,
    ErrIntegerOverflow,
    ErrNoBegin,
    ErrNoEnd,
    ErrNeedIdentifier,
    ErrConstantNeedValue,
    ErrNoSemicolon,
    ErrInvalidVariableDeclaration,
    ErrIncompleteExpression,
    ErrNotDeclared,
    ErrAssignToConstant,
    ErrDuplicateDeclaration,
    ErrNotInitialized,
    ErrInvalidAssignment,
    ErrInvalidPrint,
}

/// A diagnostic: where the compilation stopped, and why.
#[derive(Clone, Copy, Debug)]
pub struct CompilationError {
    pos: (usize, usize),
    err_code: ErrorCode,
}

/// What a diagnostic says, as plain values: a `(line, column)` and a reason.
pub struct Diagnostic {
    pub pos: (nat, nat),
    pub code: ErrorCode,
}

impl View for CompilationError {
    type V = Diagnostic;

    closed spec fn view(&self) -> Diagnostic {
        Diagnostic { pos: (self.pos.0 as nat, self.pos.1 as nat), code: self.err_code }
    }
}

impl CompilationError {
    pub fn new(line: usize, col: usize, err: ErrorCode) -> (e: CompilationError)
        ensures
            e@ == (Diagnostic { pos: (line as nat, col as nat), code: err }),
    {
        CompilationError { pos: (line, col), err_code: err }
    }

    pub fn new_packed(ptr: (usize, usize), err: ErrorCode) -> (e: CompilationError)
        ensures
            e@ == (Diagnostic { pos: (ptr.0 as nat, ptr.1 as nat), code: err }),
    {
        CompilationError { pos: ptr, err_code: err }
    }

    pub fn get_err_code(&self) -> (code: &ErrorCode)
        ensures
            *code == self@.code,
    {
        &self.err_code
    }

    /// The `(line, column)` that the diagnostic points at.
    pub fn get_pos(&self) -> (pos: (usize, usize))
        ensures
            (pos.0 as nat, pos.1 as nat) == self@.pos,
    {
        self.pos
    }
}

} // verus!
