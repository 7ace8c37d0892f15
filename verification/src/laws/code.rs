//! Laws of the emitted instructions: every piece of a program is made of
//! tokens that are there, and its instructions are ones that a stack machine
//! can run.

use crate::analyzer::{takes_operand, Instruction, Operation};
use crate::grammar::{
    additive_at, assignment_statement, compile, constant_declarations, constant_expression,
    expression, expression_tail, factor, identifier_at, is_symbol, literal_at,
    multiplicative_at, output_statement, primary, program, remaining, sign_length,
    statement_sequence,
    term, term_tail, variable_declarations, Fragment, Progress,
};
use crate::symbols::{lemma_lookup, lookup, Symbol, SymbolKind};
use crate::tokenizer::{TokenType, TokenView};
use vstd::prelude::*;

verus! {

/// Whether an instruction is one that a listing may hold: its operation is
/// not `ILL`, and its operand is zero unless the operation uses it.
pub open spec fn regular(instruction: Instruction) -> bool {
    &&& instruction.0 != Operation::ILL
    &&& !takes_operand(instruction.0) ==> instruction.1 == 0
}

/// Whether all the instructions are regular.
pub open spec fn all_regular(code: Seq<Instruction>) -> bool {
    forall|i: int| 0 <= i < code.len() ==> regular(#[trigger] code[i])
}

/// Whether every `LOD` and every `STO` names one of the first `slots` slots.
pub open spec fn within_slots(code: Seq<Instruction>, slots: int) -> bool {
    forall|i: int|
        0 <= i < code.len() && ((#[trigger] code[i]).0 == Operation::LOD || code[i].0
            == Operation::STO) ==> 0 <= code[i].1 < slots
}

/// Whether a piece that starts at `at` is a piece of the tokens: it is made
/// of at least one token and of at least one instruction, it ends where the
/// tokens end or before, and its instructions are regular.
pub open spec fn sound(tokens: Seq<TokenView>, at: int, piece: Fragment) -> bool {
    &&& piece.len >= 1
    &&& at + piece.len <= tokens.len()
    &&& piece.code.len() >= 1
    &&& all_regular(piece.code)
}

/// Whether what follows the first operand of a chain, from `at` on, is a
/// piece of the tokens: as `sound`, but it may be empty.
pub open spec fn sound_tail(tokens: Seq<TokenView>, at: int, piece: Fragment) -> bool {
    &&& at + piece.len <= tokens.len()
    &&& all_regular(piece.code)
}

/// What stands behind the sign of a factor is a piece of the tokens.
pub proof fn lemma_primary_is_sound(tokens: Seq<TokenView>, symbols: Seq<Symbol>, at: int)
    requires
        0 <= at <= tokens.len(),
        primary(tokens, symbols, at) is Ok,
    ensures
        sound(tokens, at, primary(tokens, symbols, at)->Ok_0),
        symbols.len() <= i32::MAX ==> within_slots(
            primary(tokens, symbols, at)->Ok_0.code,
            symbols.len() as int,
        ),
    decreases remaining(tokens, at), 0nat,
{
    if identifier_at(tokens, at) is Some {
        lemma_lookup(symbols, identifier_at(tokens, at)->0);
    } else if literal_at(tokens, at) is Some {
    } else if is_symbol(tokens, at, TokenType::LeftBracket) {
        lemma_expression_is_sound(tokens, symbols, at + 1);
    }
}

/// A factor that is analyzed without error is a piece of the tokens.
pub proof fn lemma_factor_is_sound(tokens: Seq<TokenView>, symbols: Seq<Symbol>, at: int)
    requires
        0 <= at <= tokens.len(),
        factor(tokens, symbols, at) is Ok,
    ensures
        sound(tokens, at, factor(tokens, symbols, at)->Ok_0),
        symbols.len() <= i32::MAX ==> within_slots(
            factor(tokens, symbols, at)->Ok_0.code,
            symbols.len() as int,
        ),
    decreases remaining(tokens, at), 1nat,
{
    lemma_primary_is_sound(tokens, symbols, at + sign_length(tokens, at));
}

/// What follows the first factor of a term is a piece of the tokens.
pub proof fn lemma_term_tail_is_sound(tokens: Seq<TokenView>, symbols: Seq<Symbol>, at: int)
    requires
        0 <= at <= tokens.len(),
        term_tail(tokens, symbols, at) is Ok,
    ensures
        sound_tail(tokens, at, term_tail(tokens, symbols, at)->Ok_0),
        symbols.len() <= i32::MAX ==> within_slots(
            term_tail(tokens, symbols, at)->Ok_0.code,
            symbols.len() as int,
        ),
    decreases remaining(tokens, at), 2nat,
{
    if multiplicative_at(tokens, at) is Some {
        lemma_factor_is_sound(tokens, symbols, at + 1);
        let operand = factor(tokens, symbols, at + 1)->Ok_0;
        lemma_term_tail_is_sound(tokens, symbols, at + 1 + operand.len);
    }
}

/// A term that is analyzed without error is a piece of the tokens.
pub proof fn lemma_term_is_sound(tokens: Seq<TokenView>, symbols: Seq<Symbol>, at: int)
    requires
        0 <= at <= tokens.len(),
        term(tokens, symbols, at) is Ok,
    ensures
        sound(tokens, at, term(tokens, symbols, at)->Ok_0),
        symbols.len() <= i32::MAX ==> within_slots(
            term(tokens, symbols, at)->Ok_0.code,
            symbols.len() as int,
        ),
    decreases remaining(tokens, at), 3nat,
{
    lemma_factor_is_sound(tokens, symbols, at);
    let first = factor(tokens, symbols, at)->Ok_0;
    lemma_term_tail_is_sound(tokens, symbols, at + first.len);
}

/// What follows the first term of an expression is a piece of the tokens.
pub proof fn lemma_expression_tail_is_sound(
    tokens: Seq<TokenView>,
    symbols: Seq<Symbol>,
    at: int,
)
    requires
        0 <= at <= tokens.len(),
        expression_tail(tokens, symbols, at) is Ok,
    ensures
        sound_tail(tokens, at, expression_tail(tokens, symbols, at)->Ok_0),
        symbols.len() <= i32::MAX ==> within_slots(
            expression_tail(tokens, symbols, at)->Ok_0.code,
            symbols.len() as int,
        ),
    decreases remaining(tokens, at), 4nat,
{
    if additive_at(tokens, at) is Some {
        lemma_term_is_sound(tokens, symbols, at + 1);
        let operand = term(tokens, symbols, at + 1)->Ok_0;
        lemma_expression_tail_is_sound(tokens, symbols, at + 1 + operand.len);
    }
}

/// An expression that is analyzed without error is a piece of the tokens.
pub proof fn lemma_expression_is_sound(tokens: Seq<TokenView>, symbols: Seq<Symbol>, at: int)
    requires
        0 <= at <= tokens.len(),
        expression(tokens, symbols, at) is Ok,
    ensures
        sound(tokens, at, expression(tokens, symbols, at)->Ok_0),
        symbols.len() <= i32::MAX ==> within_slots(
            expression(tokens, symbols, at)->Ok_0.code,
            symbols.len() as int,
        ),
    decreases remaining(tokens, at), 5nat,
{
    lemma_term_is_sound(tokens, symbols, at);
    let first = term(tokens, symbols, at)->Ok_0;
    lemma_expression_tail_is_sound(tokens, symbols, at + first.len);
}

/// Whether the analysis has come to `progress` in good order: it stands
/// among the tokens, it has declared no more names than it has read tokens,
/// its instructions are regular, and, where the tokens are few enough for
/// every slot to fit an operand, its loads and stores name declared slots.
pub open spec fn orderly(tokens: Seq<TokenView>, progress: Progress) -> bool {
    &&& 0 <= progress.at <= tokens.len()
    &&& progress.symbols.len() <= progress.at
    &&& all_regular(progress.code)
    &&& tokens.len() <= i32::MAX ==> within_slots(progress.code, progress.symbols.len() as int)
}

/// Good order is kept when regular instructions that name declared slots are added.
proof fn lemma_orderly_step(tokens: Seq<TokenView>, before: Progress, after: Progress, piece: Seq<Instruction>)
    requires
        orderly(tokens, before),
        before.at <= after.at <= tokens.len(),
        before.symbols.len() <= after.symbols.len() <= after.at,
        after.code == before.code + piece,
        all_regular(piece),
        tokens.len() <= i32::MAX ==> within_slots(piece, after.symbols.len() as int),
    ensures
        orderly(tokens, after),
{
    assert forall|i: int| 0 <= i < after.code.len() implies regular(#[trigger] after.code[i]) by {
        if i < before.code.len() {
            assert(after.code[i] == before.code[i]);
        } else {
            assert(after.code[i] == piece[i - before.code.len()]);
        }
    }
    if tokens.len() <= i32::MAX {
        assert forall|i: int|
            0 <= i < after.code.len() && ((#[trigger] after.code[i]).0 == Operation::LOD
                || after.code[i].0 == Operation::STO) implies 0 <= after.code[i].1
            < after.symbols.len() by {
            if i < before.code.len() {
                assert(after.code[i] == before.code[i]);
            } else {
                assert(after.code[i] == piece[i - before.code.len()]);
            }
        }
    }
}

/// Constant declarations keep the analysis in good order.
pub proof fn lemma_constant_declarations_are_orderly(tokens: Seq<TokenView>, progress: Progress)
    requires
        orderly(tokens, progress),
        constant_declarations(tokens, progress) is Ok,
    ensures
        orderly(tokens, constant_declarations(tokens, progress)->Ok_0),
    decreases remaining(tokens, progress.at),
{
    let at = progress.at;
    if is_symbol(tokens, at, TokenType::Const) {
        let name = identifier_at(tokens, at + 1)->0;
        let constant = constant_expression(tokens, at + 3)->Ok_0;
        let instruction = Instruction(Operation::LIT, constant.value);
        let next = progress.skip(4 + constant.len).declare(name, SymbolKind::Constant).emit(
            instruction,
        );
        assert(next.code =~= progress.code + seq![instruction]);
        lemma_orderly_step(tokens, progress, next, seq![instruction]);
        lemma_constant_declarations_are_orderly(tokens, next);
    }
}

/// Variable declarations keep the analysis in good order.
pub proof fn lemma_variable_declarations_are_orderly(tokens: Seq<TokenView>, progress: Progress)
    requires
        orderly(tokens, progress),
        variable_declarations(tokens, progress) is Ok,
    ensures
        orderly(tokens, variable_declarations(tokens, progress)->Ok_0),
    decreases remaining(tokens, progress.at),
{
    let at = progress.at;
    if is_symbol(tokens, at, TokenType::Var) {
        let name = identifier_at(tokens, at + 1)->0;
        if !is_symbol(tokens, at + 2, TokenType::EqualSign) {
            let instruction = Instruction(Operation::LIT, 0);
            let next = progress.skip(3).declare(name, SymbolKind::Uninitialized).emit(instruction);
            assert(next.code =~= progress.code + seq![instruction]);
            lemma_orderly_step(tokens, progress, next, seq![instruction]);
            lemma_variable_declarations_are_orderly(tokens, next);
        } else {
            let value = expression(tokens, progress.symbols, at + 3)->Ok_0;
            let next = progress.skip(4 + value.len).append(value.code).declare(
                name,
                SymbolKind::Variable,
            );
            lemma_expression_is_sound(tokens, progress.symbols, at + 3);
            lemma_orderly_step(tokens, progress, next, value.code);
            lemma_variable_declarations_are_orderly(tokens, next);
        }
    }
}

/// Statements keep the analysis in good order.
pub proof fn lemma_statement_sequence_is_orderly(tokens: Seq<TokenView>, progress: Progress)
    requires
        orderly(tokens, progress),
        statement_sequence(tokens, progress) is Ok,
    ensures
        orderly(tokens, statement_sequence(tokens, progress)->Ok_0),
    decreases remaining(tokens, progress.at),
{
    let at = progress.at;
    if is_symbol(tokens, at, TokenType::Identifier) {
        let next = assignment_statement(tokens, progress)->Ok_0;
        let name = identifier_at(tokens, at)->0;
        let slot = lookup(progress.symbols, name)->0;
        let value = expression(tokens, progress.symbols, at + 2)->Ok_0;
        let store = Instruction(Operation::STO, slot as i32);
        lemma_lookup(progress.symbols, name);
        lemma_expression_is_sound(tokens, progress.symbols, at + 2);
        assert(next.code =~= progress.code + value.code.push(store));
        lemma_orderly_step(tokens, progress, next, value.code.push(store));
        lemma_statement_sequence_is_orderly(tokens, next);
    } else if is_symbol(tokens, at, TokenType::Print) {
        let next = output_statement(tokens, progress)->Ok_0;
        let value = expression(tokens, progress.symbols, at + 2)->Ok_0;
        let write = Instruction(Operation::WRT, 0);
        lemma_expression_is_sound(tokens, progress.symbols, at + 2);
        assert(next.code =~= progress.code + value.code.push(write));
        lemma_orderly_step(tokens, progress, next, value.code.push(write));
        lemma_statement_sequence_is_orderly(tokens, next);
    } else if is_symbol(tokens, at, TokenType::Semicolon) {
        let next = progress.skip(1);
        assert(next.code =~= progress.code + Seq::<Instruction>::empty());
        lemma_orderly_step(tokens, progress, next, Seq::empty());
        lemma_statement_sequence_is_orderly(tokens, next);
    }
}

/// A program that compiles holds no `ILL`, and no operand but zero where
/// the operation uses none. Where the tokens are few enough for every slot
/// to fit an operand, each `LOD` and each `STO` names the slot of a
/// declaration of the program.
pub proof fn lemma_compiled_code_is_regular(tokens: Seq<TokenView>)
    requires
        compile(tokens) is Ok,
    ensures
        all_regular(compile(tokens)->Ok_0),
        tokens.len() <= i32::MAX ==> within_slots(
            compile(tokens)->Ok_0,
            program(tokens, Progress::start())->Ok_0.symbols.len() as int,
        ),
{
    let start = Progress::start().skip(1);
    let constants = constant_declarations(tokens, start)->Ok_0;
    let declared = variable_declarations(tokens, constants)->Ok_0;
    lemma_constant_declarations_are_orderly(tokens, start);
    lemma_variable_declarations_are_orderly(tokens, constants);
    lemma_statement_sequence_is_orderly(tokens, declared);
}

} // verus!
