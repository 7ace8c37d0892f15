//! What the analyzer computes, stated over plain values.
//!
//! ```text
//! program     := 'begin' main 'end'
//! main        := constDecls varDecls stmts
//! constDecls  := { 'const' identifier '=' constExpr ';' }
//! varDecls    := { 'var' identifier [ '=' expr ] ';' }
//! stmts       := { assignStmt | printStmt | ';' }
//! assignStmt  := identifier '=' expr ';'
//! printStmt   := 'print' '(' expr ')' ';'
//! constExpr   := [ '+' | '-' ] unsignedInteger
//! expr        := term { ('+' | '-') term }
//! term        := factor { ('*' | '/') factor }
//! factor      := [ '+' | '-' ] ( identifier | unsignedInteger | '(' expr ')' )
//! ```
//!
//! The tokens are read from left to right with one token of lookahead, and
//! the first token that does not fit stops the analysis: the diagnostic
//! carries the end position of that token, or of the last token when the
//! tokens have run out.

use crate::analyzer::{Instruction, Operation};
use crate::error::{Diagnostic, ErrorCode};
use crate::symbols::{initialized, lookup, Symbol, SymbolKind};
use crate::tokenizer::{scan_all, TokenType, TokenView};
use vstd::prelude::*;

verus! {

/// Whether the token at `at` is the word or sign of the given kind.
pub open spec fn is_symbol(tokens: Seq<TokenView>, at: int, kind: TokenType) -> bool {
    &&& 0 <= at < tokens.len()
    &&& tokens[at] is Str
    &&& tokens[at].kind() == kind
}

/// The name that the token at `at` spells, if it is an identifier.
pub open spec fn identifier_at(tokens: Seq<TokenView>, at: int) -> Option<Seq<char>> {
    if is_symbol(tokens, at, TokenType::Identifier) {
        Some(tokens[at].text())
    } else {
        None
    }
}

/// The value of the token at `at`, if it is an integer literal.
pub open spec fn literal_at(tokens: Seq<TokenView>, at: int) -> Option<u32> {
    if 0 <= at < tokens.len() {
        match tokens[at] {
            TokenView::Integer(TokenType::UnsignedInteger, value, ..) => Some(value),
            _ => None,
        }
    } else {
        None
    }
}

/// The position that a diagnostic carries when the token at `at` does not
/// fit: the end of that token, or the end of the last token when there is
/// none at `at`, or the origin when there are no tokens at all.
pub open spec fn position_at(tokens: Seq<TokenView>, at: int) -> (nat, nat) {
    if 0 <= at < tokens.len() {
        tokens[at].end()
    } else if tokens.len() > 0 {
        tokens[tokens.len() - 1].end()
    } else {
        (0, 0)
    }
}

/// The diagnostic for the token at `at`.
pub open spec fn failure(tokens: Seq<TokenView>, at: int, code: ErrorCode) -> Diagnostic {
    Diagnostic { pos: position_at(tokens, at), code }
}

/// The number of tokens from `at` to the end.
pub open spec fn remaining(tokens: Seq<TokenView>, at: int) -> nat {
    if at < tokens.len() {
        (tokens.len() - at) as nat
    } else {
        0
    }
}

/// The operand that stands for a literal: its value, read as a signed
/// 32-bit number in two's complement.
pub open spec fn operand_of(value: u32) -> i32 {
    if value <= i32::MAX {
        value as i32
    } else {
        (value - 0x1_0000_0000) as i32
    }
}

/// The negation of a signed 32-bit number in two's complement.
pub open spec fn negated(value: i32) -> i32 {
    if value == i32::MIN {
        value
    } else {
        (-value) as i32
    }
}

/// `1` where a sign stands at `at`, `0` where none does.
pub open spec fn sign_length(tokens: Seq<TokenView>, at: int) -> nat {
    if is_symbol(tokens, at, TokenType::PlusSign) || is_symbol(tokens, at, TokenType::MinusSign) {
        1
    } else {
        0
    }
}

/// The instructions of a piece of the program, and the number of tokens it was made of.
pub struct Fragment {
    pub code: Seq<Instruction>,
    pub len: nat,
}

/// The instruction of an additive operator at `at`, if one stands there.
pub open spec fn additive_at(tokens: Seq<TokenView>, at: int) -> Option<Instruction> {
    if is_symbol(tokens, at, TokenType::PlusSign) {
        Some(Instruction(Operation::ADD, 0))
    } else if is_symbol(tokens, at, TokenType::MinusSign) {
        Some(Instruction(Operation::SUB, 0))
    } else {
        None
    }
}

/// The instruction of a multiplicative operator at `at`, if one stands there.
pub open spec fn multiplicative_at(tokens: Seq<TokenView>, at: int) -> Option<Instruction> {
    if is_symbol(tokens, at, TokenType::MultiplicationSign) {
        Some(Instruction(Operation::MUL, 0))
    } else if is_symbol(tokens, at, TokenType::DivisionSign) {
        Some(Instruction(Operation::DIV, 0))
    } else {
        None
    }
}

/// What a factor holds behind its sign, at `at`: a declared name that holds
/// a value, which is loaded from its slot; a literal; or an expression in
/// brackets.
pub open spec fn primary(tokens: Seq<TokenView>, symbols: Seq<Symbol>, at: int) -> Result<
    Fragment,
    Diagnostic,
>
    decreases remaining(tokens, at), 0nat,
{
    if identifier_at(tokens, at) is Some {
        match lookup(symbols, identifier_at(tokens, at)->0) {
            None => Err(failure(tokens, at, ErrorCode::ErrNotDeclared)),
            Some(slot) => if symbols[slot].kind == SymbolKind::Uninitialized {
                Err(failure(tokens, at, ErrorCode::ErrNotInitialized))
            } else {
                Ok(Fragment { code: seq![Instruction(Operation::LOD, slot as i32)], len: 1 })
            },
        }
    } else if literal_at(tokens, at) is Some {
        Ok(
            Fragment {
                code: seq![Instruction(Operation::LIT, operand_of(literal_at(tokens, at)->0))],
                len: 1,
            },
        )
    } else if is_symbol(tokens, at, TokenType::LeftBracket) {
        match expression(tokens, symbols, at + 1) {
            Err(diagnostic) => Err(diagnostic),
            Ok(inner) => if is_symbol(tokens, at + 1 + inner.len, TokenType::RightBracket) {
                Ok(Fragment { code: inner.code, len: inner.len + 2 })
            } else {
                Err(failure(tokens, at + 1 + inner.len, ErrorCode::ErrInvalidInput))
            },
        }
    } else {
        Err(failure(tokens, at, ErrorCode::ErrIncompleteExpression))
    }
}

/// A factor at `at`: an optional sign, and what stands behind it. A leading
/// minus appends `SUB` to the instructions of what it stands before; a
/// leading plus changes nothing.
pub open spec fn factor(tokens: Seq<TokenView>, symbols: Seq<Symbol>, at: int) -> Result<
    Fragment,
    Diagnostic,
>
    decreases remaining(tokens, at), 1nat,
{
    let sign = sign_length(tokens, at);
    match primary(tokens, symbols, at + sign) {
        Err(diagnostic) => Err(diagnostic),
        Ok(inner) => Ok(
            Fragment {
                code: if is_symbol(tokens, at, TokenType::MinusSign) {
                    inner.code.push(Instruction(Operation::SUB, 0))
                } else {
                    inner.code
                },
                len: sign + inner.len,
            },
        ),
    }
}

/// What follows the first factor of a term: any number of multiplicative
/// operators, each with its factor, each emitted after that factor.
pub open spec fn term_tail(tokens: Seq<TokenView>, symbols: Seq<Symbol>, at: int) -> Result<
    Fragment,
    Diagnostic,
>
    decreases remaining(tokens, at), 2nat,
{
    match multiplicative_at(tokens, at) {
        None => Ok(Fragment { code: Seq::empty(), len: 0 }),
        Some(instruction) => match factor(tokens, symbols, at + 1) {
            Err(diagnostic) => Err(diagnostic),
            Ok(operand) => match term_tail(tokens, symbols, at + 1 + operand.len) {
                Err(diagnostic) => Err(diagnostic),
                Ok(rest) => Ok(
                    Fragment {
                        code: operand.code.push(instruction) + rest.code,
                        len: 1 + operand.len + rest.len,
                    },
                ),
            },
        },
    }
}

/// A term at `at`: a factor and what follows it.
pub open spec fn term(tokens: Seq<TokenView>, symbols: Seq<Symbol>, at: int) -> Result<
    Fragment,
    Diagnostic,
>
    decreases remaining(tokens, at), 3nat,
{
    match factor(tokens, symbols, at) {
        Err(diagnostic) => Err(diagnostic),
        Ok(first) => match term_tail(tokens, symbols, at + first.len) {
            Err(diagnostic) => Err(diagnostic),
            Ok(rest) => Ok(Fragment { code: first.code + rest.code, len: first.len + rest.len }),
        },
    }
}

/// What follows the first term of an expression: any number of additive
/// operators, each with its term, each emitted after that term.
pub open spec fn expression_tail(tokens: Seq<TokenView>, symbols: Seq<Symbol>, at: int) -> Result<
    Fragment,
    Diagnostic,
>
    decreases remaining(tokens, at), 4nat,
{
    match additive_at(tokens, at) {
        None => Ok(Fragment { code: Seq::empty(), len: 0 }),
        Some(instruction) => match term(tokens, symbols, at + 1) {
            Err(diagnostic) => Err(diagnostic),
            Ok(operand) => match expression_tail(tokens, symbols, at + 1 + operand.len) {
                Err(diagnostic) => Err(diagnostic),
                Ok(rest) => Ok(
                    Fragment {
                        code: operand.code.push(instruction) + rest.code,
                        len: 1 + operand.len + rest.len,
                    },
                ),
            },
        },
    }
}

/// An expression at `at`: a term and what follows it.
pub open spec fn expression(tokens: Seq<TokenView>, symbols: Seq<Symbol>, at: int) -> Result<
    Fragment,
    Diagnostic,
>
    decreases remaining(tokens, at), 5nat,
{
    match term(tokens, symbols, at) {
        Err(diagnostic) => Err(diagnostic),
        Ok(first) => match expression_tail(tokens, symbols, at + first.len) {
            Err(diagnostic) => Err(diagnostic),
            Ok(rest) => Ok(Fragment { code: first.code + rest.code, len: first.len + rest.len }),
        },
    }
}

/// The value of a constant, and the number of tokens it was written with.
pub struct Constant {
    pub value: i32,
    pub len: nat,
}

/// A constant expression at `at`: an optional sign and a literal.
pub open spec fn constant_expression(tokens: Seq<TokenView>, at: int) -> Result<
    Constant,
    Diagnostic,
> {
    let sign = sign_length(tokens, at);
    match literal_at(tokens, at + sign) {
        None => Err(failure(tokens, at + sign, ErrorCode::ErrIncompleteExpression)),
        Some(value) => Ok(
            Constant {
                value: if is_symbol(tokens, at, TokenType::MinusSign) {
                    negated(operand_of(value))
                } else {
                    operand_of(value)
                },
                len: sign + 1,
            },
        ),
    }
}

/// How far the analysis has come: the next token to read, the names
/// declared so far, and the instructions emitted so far.
pub struct Progress {
    pub at: int,
    pub symbols: Seq<Symbol>,
    pub code: Seq<Instruction>,
}

impl Progress {
    /// The state before anything was read.
    pub open spec fn start() -> Progress {
        Progress { at: 0, symbols: Seq::empty(), code: Seq::empty() }
    }

    /// The state after `len` more tokens.
    pub open spec fn skip(self, len: nat) -> Progress {
        Progress { at: self.at + len, ..self }
    }

    /// The state after one more instruction.
    pub open spec fn emit(self, instruction: Instruction) -> Progress {
        Progress { code: self.code.push(instruction), ..self }
    }

    /// The state after some more instructions.
    pub open spec fn append(self, code: Seq<Instruction>) -> Progress {
        Progress { code: self.code + code, ..self }
    }

    /// The state after a piece of the program, or the error that the piece ended in.
    pub open spec fn with(self, fragment: Result<Fragment, Diagnostic>) -> Result<
        Progress,
        Diagnostic,
    > {
        match fragment {
            Ok(piece) => Ok(self.skip(piece.len).append(piece.code)),
            Err(diagnostic) => Err(diagnostic),
        }
    }

    /// The state after one more declaration.
    pub open spec fn declare(self, name: Seq<char>, kind: SymbolKind) -> Progress {
        Progress { symbols: self.symbols.push(Symbol { name, kind }), ..self }
    }
}

/// The constant declaration whose keyword stands at `progress.at`: it
/// registers its name in the next slot and emits `LIT` with its value.
pub open spec fn constant_declaration(tokens: Seq<TokenView>, progress: Progress) -> Result<
    Progress,
    Diagnostic,
> {
    let at = progress.at;
    match identifier_at(tokens, at + 1) {
        None => Err(failure(tokens, at + 1, ErrorCode::ErrNeedIdentifier)),
        Some(name) => if lookup(progress.symbols, name) is Some {
            Err(failure(tokens, at + 1, ErrorCode::ErrDuplicateDeclaration))
        } else if !is_symbol(tokens, at + 2, TokenType::EqualSign) {
            Err(failure(tokens, at + 2, ErrorCode::ErrConstantNeedValue))
        } else {
            match constant_expression(tokens, at + 3) {
                Err(diagnostic) => Err(diagnostic),
                Ok(constant) => if !is_symbol(tokens, at + 3 + constant.len, TokenType::Semicolon) {
                    Err(failure(tokens, at + 3 + constant.len, ErrorCode::ErrNoSemicolon))
                } else {
                    Ok(
                        progress.skip(4 + constant.len).declare(name, SymbolKind::Constant).emit(
                            Instruction(Operation::LIT, constant.value),
                        ),
                    )
                },
            }
        },
    }
}

/// The constant declarations from `progress.at` on, one after the other.
pub open spec fn constant_declarations(tokens: Seq<TokenView>, progress: Progress) -> Result<
    Progress,
    Diagnostic,
>
    decreases remaining(tokens, progress.at),
{
    if !is_symbol(tokens, progress.at, TokenType::Const) {
        Ok(progress)
    } else {
        match constant_declaration(tokens, progress) {
            Err(diagnostic) => Err(diagnostic),
            Ok(next) => constant_declarations(tokens, next),
        }
    }
}

/// The variable declaration whose keyword stands at `progress.at`. Without
/// a value it registers its name as uninitialized and emits `LIT 0`; with a
/// value it emits the instructions of the value and then registers its name.
pub open spec fn variable_declaration(tokens: Seq<TokenView>, progress: Progress) -> Result<
    Progress,
    Diagnostic,
> {
    let at = progress.at;
    match identifier_at(tokens, at + 1) {
        None => Err(failure(tokens, at + 1, ErrorCode::ErrNeedIdentifier)),
        Some(name) => if lookup(progress.symbols, name) is Some {
            Err(failure(tokens, at + 1, ErrorCode::ErrDuplicateDeclaration))
        } else if !is_symbol(tokens, at + 2, TokenType::EqualSign) {
            if !is_symbol(tokens, at + 2, TokenType::Semicolon) {
                Err(failure(tokens, at + 2, ErrorCode::ErrNoSemicolon))
            } else {
                Ok(
                    progress.skip(3).declare(name, SymbolKind::Uninitialized).emit(
                        Instruction(Operation::LIT, 0),
                    ),
                )
            }
        } else {
            match expression(tokens, progress.symbols, at + 3) {
                Err(diagnostic) => Err(diagnostic),
                Ok(value) => if !is_symbol(tokens, at + 3 + value.len, TokenType::Semicolon) {
                    Err(failure(tokens, at + 3 + value.len, ErrorCode::ErrNoSemicolon))
                } else {
                    Ok(
                        progress.skip(4 + value.len).append(value.code).declare(
                            name,
                            SymbolKind::Variable,
                        ),
                    )
                },
            }
        },
    }
}

/// The variable declarations from `progress.at` on, one after the other.
pub open spec fn variable_declarations(tokens: Seq<TokenView>, progress: Progress) -> Result<
    Progress,
    Diagnostic,
>
    decreases remaining(tokens, progress.at),
{
    if !is_symbol(tokens, progress.at, TokenType::Var) {
        Ok(progress)
    } else {
        match variable_declaration(tokens, progress) {
            Err(diagnostic) => Err(diagnostic),
            Ok(next) => variable_declarations(tokens, next),
        }
    }
}

/// An assignment at `progress.at`: the instructions of the value, then `STO`
/// to the slot of the name, which from then on holds a value.
pub open spec fn assignment_statement(tokens: Seq<TokenView>, progress: Progress) -> Result<
    Progress,
    Diagnostic,
> {
    let at = progress.at;
    match identifier_at(tokens, at) {
        None => Err(failure(tokens, at, ErrorCode::ErrNeedIdentifier)),
        Some(name) => match lookup(progress.symbols, name) {
            None => Err(failure(tokens, at, ErrorCode::ErrNotDeclared)),
            Some(slot) => if progress.symbols[slot].kind == SymbolKind::Constant {
                Err(failure(tokens, at, ErrorCode::ErrAssignToConstant))
            } else if !is_symbol(tokens, at + 1, TokenType::EqualSign) {
                Err(failure(tokens, at + 1, ErrorCode::ErrInvalidAssignment))
            } else {
                match expression(tokens, progress.symbols, at + 2) {
                    Err(diagnostic) => Err(diagnostic),
                    Ok(value) => if !is_symbol(tokens, at + 2 + value.len, TokenType::Semicolon) {
                        Err(failure(tokens, at + 2 + value.len, ErrorCode::ErrNoSemicolon))
                    } else {
                        Ok(
                            Progress {
                                at: at + 3 + value.len,
                                symbols: initialized(progress.symbols, slot),
                                code: (progress.code + value.code).push(
                                    Instruction(Operation::STO, slot as i32),
                                ),
                            },
                        )
                    },
                }
            },
        },
    }
}

/// A print statement at `progress.at`: the instructions of the value, then `WRT`.
pub open spec fn output_statement(tokens: Seq<TokenView>, progress: Progress) -> Result<
    Progress,
    Diagnostic,
> {
    let at = progress.at;
    if !is_symbol(tokens, at, TokenType::Print) {
        Err(failure(tokens, at, ErrorCode::ErrInvalidPrint))
    } else if !is_symbol(tokens, at + 1, TokenType::LeftBracket) {
        Err(failure(tokens, at + 1, ErrorCode::ErrInvalidPrint))
    } else {
        match expression(tokens, progress.symbols, at + 2) {
            Err(diagnostic) => Err(diagnostic),
            Ok(value) => if !is_symbol(tokens, at + 2 + value.len, TokenType::RightBracket) {
                Err(failure(tokens, at + 2 + value.len, ErrorCode::ErrInvalidPrint))
            } else if !is_symbol(tokens, at + 3 + value.len, TokenType::Semicolon) {
                Err(failure(tokens, at + 3 + value.len, ErrorCode::ErrNoSemicolon))
            } else {
                Ok(
                    progress.skip(4 + value.len).append(value.code).emit(
                        Instruction(Operation::WRT, 0),
                    ),
                )
            },
        }
    }
}

/// The statements from `progress.at` on: assignments, print statements and
/// empty statements, up to the first token that starts none of them.
pub open spec fn statement_sequence(tokens: Seq<TokenView>, progress: Progress) -> Result<
    Progress,
    Diagnostic,
>
    decreases remaining(tokens, progress.at),
{
    let at = progress.at;
    if is_symbol(tokens, at, TokenType::Identifier) {
        match assignment_statement(tokens, progress) {
            Err(diagnostic) => Err(diagnostic),
            Ok(next) => statement_sequence(tokens, next),
        }
    } else if is_symbol(tokens, at, TokenType::Print) {
        match output_statement(tokens, progress) {
            Err(diagnostic) => Err(diagnostic),
            Ok(next) => statement_sequence(tokens, next),
        }
    } else if is_symbol(tokens, at, TokenType::Semicolon) {
        statement_sequence(tokens, progress.skip(1))
    } else {
        Ok(progress)
    }
}

/// The declarations of a program: the constants, then the variables.
pub open spec fn declarations(tokens: Seq<TokenView>, progress: Progress) -> Result<
    Progress,
    Diagnostic,
> {
    match constant_declarations(tokens, progress) {
        Err(diagnostic) => Err(diagnostic),
        Ok(constants) => variable_declarations(tokens, constants),
    }
}

/// The body of a program: the declarations, then the statements.
pub open spec fn main_body(tokens: Seq<TokenView>, progress: Progress) -> Result<
    Progress,
    Diagnostic,
> {
    match declarations(tokens, progress) {
        Err(diagnostic) => Err(diagnostic),
        Ok(declared) => statement_sequence(tokens, declared),
    }
}

/// A program at `progress.at`: `begin`, the body, `end`. What follows `end` is not read.
pub open spec fn program(tokens: Seq<TokenView>, progress: Progress) -> Result<
    Progress,
    Diagnostic,
> {
    if !is_symbol(tokens, progress.at, TokenType::Begin) {
        Err(failure(tokens, progress.at, ErrorCode::ErrNoBegin))
    } else {
        match main_body(tokens, progress.skip(1)) {
            Err(diagnostic) => Err(diagnostic),
            Ok(body) => if !is_symbol(tokens, body.at, TokenType::End) {
                Err(failure(tokens, body.at, ErrorCode::ErrNoEnd))
            } else {
                Ok(body.skip(1))
            },
        }
    }
}

/// The instructions of the program that the tokens spell, or the first error.
pub open spec fn compile(tokens: Seq<TokenView>) -> Result<Seq<Instruction>, Diagnostic> {
    match program(tokens, Progress::start()) {
        Err(diagnostic) => Err(diagnostic),
        Ok(done) => Ok(done.code),
    }
}


/// The instructions of the program that a source text spells, or the first
/// error, lexical or not.
pub open spec fn compile_source(text: Seq<char>) -> Result<Seq<Instruction>, Diagnostic> {
    match scan_all(text, 0) {
        Err(diagnostic) => Err(diagnostic),
        Ok(tokens) => compile(tokens),
    }
}

} // verus!
