//! Laws of the names: what is rejected as declared twice, as undeclared, as
//! constant or as not initialized, and what an assignment changes.

use crate::analyzer::{Instruction, Operation};
use crate::error::{Diagnostic, ErrorCode};
use crate::grammar::{
    assignment_statement, declarations, expression, factor, failure, identifier_at, is_symbol,
    output_statement, remaining, statement_sequence, Fragment, Progress,
};
use crate::laws::slots::{keeps, lemma_initialized_keeps_slots};
use crate::symbols::{lemma_lookup, lookup, Symbol, SymbolKind};
use crate::tokenizer::{TokenType, TokenView};
use vstd::prelude::*;

verus! {

/// A declaration of a name that is declared already is rejected as a
/// duplicate, at the end of the name, whatever follows the name.
pub proof fn lemma_redeclaration_is_rejected(tokens: Seq<TokenView>, progress: Progress)
    requires
        is_symbol(tokens, progress.at, TokenType::Const) || is_symbol(
            tokens,
            progress.at,
            TokenType::Var,
        ),
        identifier_at(tokens, progress.at + 1) is Some,
        lookup(progress.symbols, identifier_at(tokens, progress.at + 1)->0) is Some,
    ensures
        declarations(tokens, progress) == Err::<Progress, Diagnostic>(
            failure(tokens, progress.at + 1, ErrorCode::ErrDuplicateDeclaration),
        ),
{
}

/// A name that is declared stays declared, whatever is declared or done after it.
pub proof fn lemma_declared_names_stay_declared(
    before: Progress,
    after: Progress,
    name: Seq<char>,
)
    requires
        keeps(before, after),
        lookup(before.symbols, name) is Some,
    ensures
        lookup(after.symbols, name) is Some,
{
    lemma_lookup(before.symbols, name);
    lemma_lookup(after.symbols, name);
    let slot = lookup(before.symbols, name)->0;
    assert(after.symbols[slot].name == name);
}

/// What a name in an expression compiles to: a name that is not declared is
/// rejected as undeclared, a variable that holds no value yet is rejected as
/// not initialized, and any other name is loaded from its slot.
pub proof fn lemma_name_in_expression(tokens: Seq<TokenView>, symbols: Seq<Symbol>, at: int)
    requires
        identifier_at(tokens, at) is Some,
    ensures
        factor(tokens, symbols, at) == (match lookup(symbols, identifier_at(tokens, at)->0) {
            None => Err::<Fragment, Diagnostic>(failure(tokens, at, ErrorCode::ErrNotDeclared)),
            Some(slot) => if symbols[slot].kind == SymbolKind::Uninitialized {
                Err(failure(tokens, at, ErrorCode::ErrNotInitialized))
            } else {
                Ok(Fragment { code: seq![Instruction(Operation::LOD, slot as i32)], len: 1 })
            },
        }),
{
}

/// An undeclared name is rejected wherever it stands first in an expression.
pub proof fn lemma_undeclared_name_is_rejected(
    tokens: Seq<TokenView>,
    symbols: Seq<Symbol>,
    at: int,
)
    requires
        identifier_at(tokens, at) is Some,
        lookup(symbols, identifier_at(tokens, at)->0) is None,
    ensures
        expression(tokens, symbols, at) == Err::<Fragment, Diagnostic>(
            failure(tokens, at, ErrorCode::ErrNotDeclared),
        ),
{
}

/// An assignment to a constant is rejected at the end of its name.
pub proof fn lemma_assignment_to_constant_is_rejected(tokens: Seq<TokenView>, progress: Progress)
    requires
        identifier_at(tokens, progress.at) is Some,
        lookup(progress.symbols, identifier_at(tokens, progress.at)->0) is Some,
        progress.symbols[lookup(progress.symbols, identifier_at(tokens, progress.at)->0)->0].kind
            == SymbolKind::Constant,
    ensures
        assignment_statement(tokens, progress) == Err::<Progress, Diagnostic>(
            failure(tokens, progress.at, ErrorCode::ErrAssignToConstant),
        ),
        statement_sequence(tokens, progress) == Err::<Progress, Diagnostic>(
            failure(tokens, progress.at, ErrorCode::ErrAssignToConstant),
        ),
{
}

/// A variable that holds no value is rejected where an expression reads it.
pub proof fn lemma_uninitialized_read_is_rejected(
    tokens: Seq<TokenView>,
    symbols: Seq<Symbol>,
    at: int,
)
    requires
        identifier_at(tokens, at) is Some,
        lookup(symbols, identifier_at(tokens, at)->0) is Some,
        symbols[lookup(symbols, identifier_at(tokens, at)->0)->0].kind == SymbolKind::Uninitialized,
    ensures
        expression(tokens, symbols, at) == Err::<Fragment, Diagnostic>(
            failure(tokens, at, ErrorCode::ErrNotInitialized),
        ),
{
}

/// An assignment ends in a store to the slot of its name, and leaves the
/// name in that slot as a variable that holds a value: from then on an
/// expression may read it.
pub proof fn lemma_assignment_initializes(tokens: Seq<TokenView>, progress: Progress)
    requires
        assignment_statement(tokens, progress) is Ok,
    ensures
        ({
            let name = identifier_at(tokens, progress.at)->0;
            let after = assignment_statement(tokens, progress)->Ok_0;
            let slot = lookup(progress.symbols, name)->0;
            &&& lookup(progress.symbols, name) is Some
            &&& lookup(after.symbols, name) == Some(slot)
            &&& after.symbols[slot].kind == SymbolKind::Variable
            &&& after.code.last() == Instruction(Operation::STO, slot as i32)
        }),
{
    let name = identifier_at(tokens, progress.at)->0;
    lemma_lookup(progress.symbols, name);
    lemma_initialized_keeps_slots(progress.symbols, lookup(progress.symbols, name)->0, name);
}

/// A variable that holds a value keeps it: no statement takes it back.
pub proof fn lemma_statements_keep_values(tokens: Seq<TokenView>, progress: Progress, slot: int)
    requires
        statement_sequence(tokens, progress) is Ok,
        0 <= slot < progress.symbols.len(),
        progress.symbols[slot].kind != SymbolKind::Uninitialized,
    ensures
        slot < statement_sequence(tokens, progress)->Ok_0.symbols.len(),
        statement_sequence(tokens, progress)->Ok_0.symbols[slot].kind
            != SymbolKind::Uninitialized,
    decreases remaining(tokens, progress.at),
{
    let at = progress.at;
    if is_symbol(tokens, at, TokenType::Identifier) {
        let next = assignment_statement(tokens, progress)->Ok_0;
        lemma_lookup(progress.symbols, identifier_at(tokens, at)->0);
        lemma_statements_keep_values(tokens, next, slot);
    } else if is_symbol(tokens, at, TokenType::Print) {
        lemma_statements_keep_values(tokens, output_statement(tokens, progress)->Ok_0, slot);
    } else if is_symbol(tokens, at, TokenType::Semicolon) {
        lemma_statements_keep_values(tokens, progress.skip(1), slot);
    }
}

} // verus!
