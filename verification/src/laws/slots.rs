//! Laws of the declarations: every declaration takes the next slot, and
//! the instructions that the declarations emit are counted.

use crate::analyzer::{Instruction, Operation};
use crate::grammar::{
    assignment_statement, compile, constant_declarations, constant_expression, declarations,
    expression, identifier_at, is_symbol, output_statement, program, remaining,
    statement_sequence, variable_declarations, Progress,
};
use crate::laws::code::lemma_expression_is_sound;
use crate::symbols::{
    distinct_names, initialized, lemma_lookup, lemma_lookup_finds_slot, lookup, Symbol, SymbolKind,
};
use crate::tokenizer::{TokenType, TokenView};
use vstd::prelude::*;

verus! {

/// Whether `after` has kept what `before` had: every name in its slot, and
/// every instruction in its place.
pub open spec fn keeps(before: Progress, after: Progress) -> bool {
    &&& before.at <= after.at
    &&& before.symbols.len() <= after.symbols.len()
    &&& forall|slot: int|
        0 <= slot < before.symbols.len() ==> (#[trigger] after.symbols[slot]).name
            == before.symbols[slot].name
    &&& before.code.len() <= after.code.len()
    &&& forall|i: int| 0 <= i < before.code.len() ==> #[trigger] after.code[i] == before.code[i]
}

/// Whether the names from slot `from` on were all declared without a value
/// of their own: as constants, or as variables that nothing was assigned to yet.
pub open spec fn none_with_a_value(symbols: Seq<Symbol>, from: int) -> bool {
    forall|slot: int|
        from <= slot < symbols.len() ==> (#[trigger] symbols[slot]).kind != SymbolKind::Variable
}

/// Whether every name that `after` has and `before` had not stands beside
/// one `LIT` instruction of its own, in the order of the slots, with the
/// operand `0` for a variable without a value.
pub open spec fn one_literal_each(before: Progress, after: Progress) -> bool {
    &&& after.code.len() - before.code.len() == after.symbols.len() - before.symbols.len()
    &&& forall|k: int|
        0 <= k < after.symbols.len() - before.symbols.len() ==> {
            let instruction = #[trigger] after.code[before.code.len() + k];
            &&& instruction.0 == Operation::LIT
            &&& after.symbols[before.symbols.len() + k].kind == SymbolKind::Uninitialized
                ==> instruction.1 == 0
        }
}

/// A table without repeated names stays one when a name that it does not
/// declare is added.
proof fn lemma_declare_keeps_names_distinct(symbols: Seq<Symbol>, name: Seq<char>, kind: SymbolKind)
    requires
        distinct_names(symbols),
        lookup(symbols, name) is None,
    ensures
        distinct_names(symbols.push(Symbol { name, kind })),
{
    lemma_lookup(symbols, name);
    let longer = symbols.push(Symbol { name, kind });
    assert forall|i: int, j: int| 0 <= i < j < longer.len() implies (#[trigger] longer[i]).name
        != (#[trigger] longer[j]).name by {
        assert(longer[i] == symbols[i]);
        if j < symbols.len() {
            assert(longer[j] == symbols[j]);
        }
    }
}

/// Constant declarations keep what was there, give each constant a slot of
/// its own under a name that was free, and emit one `LIT` for each.
pub proof fn lemma_constant_declarations(tokens: Seq<TokenView>, progress: Progress)
    requires
        constant_declarations(tokens, progress) is Ok,
    ensures
        ({
            let after = constant_declarations(tokens, progress)->Ok_0;
            &&& keeps(progress, after)
            &&& forall|slot: int|
                0 <= slot < progress.symbols.len() ==> #[trigger] after.symbols[slot]
                    == progress.symbols[slot]
            &&& forall|slot: int|
                progress.symbols.len() <= slot < after.symbols.len() ==> (
                #[trigger] after.symbols[slot]).kind == SymbolKind::Constant
            &&& distinct_names(progress.symbols) ==> distinct_names(after.symbols)
            &&& one_literal_each(progress, after)
        }),
    decreases remaining(tokens, progress.at),
{
    let at = progress.at;
    if is_symbol(tokens, at, TokenType::Const) {
        let name = identifier_at(tokens, at + 1)->0;
        let constant = constant_expression(tokens, at + 3)->Ok_0;
        let instruction = Instruction(Operation::LIT, constant.value);
        let next = progress.skip(4 + constant.len).declare(name, SymbolKind::Constant).emit(
            instruction,
        );
        let after = constant_declarations(tokens, next)->Ok_0;
        lemma_constant_declarations(tokens, next);
        if distinct_names(progress.symbols) {
            lemma_declare_keeps_names_distinct(progress.symbols, name, SymbolKind::Constant);
        }
        assert forall|slot: int| 0 <= slot < progress.symbols.len() implies #[trigger] after.symbols[slot]
            == progress.symbols[slot] by {
            assert(after.symbols[slot] == next.symbols[slot]);
        }
        assert forall|i: int| 0 <= i < progress.code.len() implies #[trigger] after.code[i]
            == progress.code[i] by {
            assert(after.code[i] == next.code[i]);
        }
        assert forall|slot: int|
            progress.symbols.len() <= slot < after.symbols.len() implies (
        #[trigger] after.symbols[slot]).kind == SymbolKind::Constant by {
            if slot == progress.symbols.len() {
                assert(after.symbols[slot] == next.symbols[slot]);
            }
        }
        assert forall|k: int| 0 <= k < after.symbols.len() - progress.symbols.len() implies {
            let found = #[trigger] after.code[progress.code.len() + k];
            &&& found.0 == Operation::LIT
            &&& after.symbols[progress.symbols.len() + k].kind == SymbolKind::Uninitialized
                ==> found.1 == 0
        } by {
            if k == 0 {
                assert(after.code[progress.code.len() as int] == next.code[progress.code.len() as int]);
                assert(after.symbols[progress.symbols.len() as int]
                    == next.symbols[progress.symbols.len() as int]);
            } else {
                assert(after.code[progress.code.len() + k] == after.code[next.code.len() + (k - 1)]);
                assert(after.symbols[progress.symbols.len() + k]
                    == after.symbols[next.symbols.len() + (k - 1)]);
            }
        }
    }
}

/// Variable declarations keep what was there and give each variable a slot
/// of its own under a name that was free. Each emits at least one
/// instruction, and where none of them has a value, each emits exactly `LIT 0`.
pub proof fn lemma_variable_declarations(tokens: Seq<TokenView>, progress: Progress)
    requires
        variable_declarations(tokens, progress) is Ok,
    ensures
        ({
            let after = variable_declarations(tokens, progress)->Ok_0;
            &&& keeps(progress, after)
            &&& forall|slot: int|
                0 <= slot < progress.symbols.len() ==> #[trigger] after.symbols[slot]
                    == progress.symbols[slot]
            &&& forall|slot: int|
                progress.symbols.len() <= slot < after.symbols.len() ==> (
                #[trigger] after.symbols[slot]).kind != SymbolKind::Constant
            &&& distinct_names(progress.symbols) ==> distinct_names(after.symbols)
            &&& after.code.len() - progress.code.len() >= after.symbols.len()
                - progress.symbols.len()
            &&& none_with_a_value(after.symbols, progress.symbols.len() as int)
                ==> one_literal_each(progress, after)
        }),
    decreases remaining(tokens, progress.at),
{
    let at = progress.at;
    if is_symbol(tokens, at, TokenType::Var) {
        let name = identifier_at(tokens, at + 1)->0;
        let next = if !is_symbol(tokens, at + 2, TokenType::EqualSign) {
            progress.skip(3).declare(name, SymbolKind::Uninitialized).emit(
                Instruction(Operation::LIT, 0),
            )
        } else {
            let value = expression(tokens, progress.symbols, at + 3)->Ok_0;
            progress.skip(4 + value.len).append(value.code).declare(name, SymbolKind::Variable)
        };
        if is_symbol(tokens, at + 2, TokenType::EqualSign) {
            lemma_expression_is_sound(tokens, progress.symbols, at + 3);
        }
        let after = variable_declarations(tokens, next)->Ok_0;
        lemma_variable_declarations(tokens, next);
        if distinct_names(progress.symbols) {
            lemma_declare_keeps_names_distinct(progress.symbols, name, next.symbols.last().kind);
            assert(next.symbols =~= progress.symbols.push(
                Symbol { name, kind: next.symbols.last().kind },
            ));
        }
        assert forall|slot: int| 0 <= slot < progress.symbols.len() implies #[trigger] after.symbols[slot]
            == progress.symbols[slot] by {
            assert(after.symbols[slot] == next.symbols[slot]);
        }
        assert forall|i: int| 0 <= i < progress.code.len() implies #[trigger] after.code[i]
            == progress.code[i] by {
            assert(after.code[i] == next.code[i]);
        }
        assert forall|slot: int|
            progress.symbols.len() <= slot < after.symbols.len() implies (
        #[trigger] after.symbols[slot]).kind != SymbolKind::Constant by {
            if slot == progress.symbols.len() {
                assert(after.symbols[slot] == next.symbols[slot]);
            }
        }
        if none_with_a_value(after.symbols, progress.symbols.len() as int) {
            assert(after.symbols[progress.symbols.len() as int]
                == next.symbols[progress.symbols.len() as int]);
            assert(!is_symbol(tokens, at + 2, TokenType::EqualSign));
            assert(none_with_a_value(after.symbols, next.symbols.len() as int));
            assert forall|k: int| 0 <= k < after.symbols.len() - progress.symbols.len() implies {
                let found = #[trigger] after.code[progress.code.len() + k];
                &&& found.0 == Operation::LIT
                &&& after.symbols[progress.symbols.len() + k].kind == SymbolKind::Uninitialized
                    ==> found.1 == 0
            } by {
                if k == 0 {
                    assert(after.code[progress.code.len() as int]
                        == next.code[progress.code.len() as int]);
                } else {
                    assert(after.code[progress.code.len() + k]
                        == after.code[next.code.len() + (k - 1)]);
                    assert(after.symbols[progress.symbols.len() + k]
                        == after.symbols[next.symbols.len() + (k - 1)]);
                }
            }
        }
    }
}

/// A table keeps its names, and a name its slot, when a variable receives its first value.
pub proof fn lemma_initialized_keeps_slots(symbols: Seq<Symbol>, slot: int, name: Seq<char>)
    requires
        0 <= slot < symbols.len(),
    ensures
        initialized(symbols, slot).len() == symbols.len(),
        forall|other: int|
            0 <= other < symbols.len() ==> (#[trigger] initialized(symbols, slot)[other]).name
                == symbols[other].name,
        lookup(initialized(symbols, slot), name) == lookup(symbols, name),
        distinct_names(symbols) ==> distinct_names(initialized(symbols, slot)),
    decreases symbols.len(),
{
    let updated = initialized(symbols, slot);
    if slot < symbols.len() - 1 {
        lemma_initialized_keeps_slots(symbols.drop_last(), slot, name);
        assert(updated.drop_last() =~= initialized(symbols.drop_last(), slot));
    } else {
        assert(updated.drop_last() =~= symbols.drop_last());
    }
    if distinct_names(symbols) {
        assert forall|i: int, j: int| 0 <= i < j < updated.len() implies (#[trigger] updated[i]).name
            != (#[trigger] updated[j]).name by {
            assert(symbols[i].name != symbols[j].name);
        }
    }
}

/// Statements declare nothing: they keep every name in its slot and every
/// instruction in its place.
pub proof fn lemma_statement_sequence(tokens: Seq<TokenView>, progress: Progress)
    requires
        statement_sequence(tokens, progress) is Ok,
    ensures
        ({
            let after = statement_sequence(tokens, progress)->Ok_0;
            &&& keeps(progress, after)
            &&& after.symbols.len() == progress.symbols.len()
            &&& distinct_names(progress.symbols) ==> distinct_names(after.symbols)
        }),
    decreases remaining(tokens, progress.at),
{
    let at = progress.at;
    if is_symbol(tokens, at, TokenType::Identifier) {
        let next = assignment_statement(tokens, progress)->Ok_0;
        let name = identifier_at(tokens, at)->0;
        lemma_lookup(progress.symbols, name);
        lemma_initialized_keeps_slots(progress.symbols, lookup(progress.symbols, name)->0, name);
        lemma_statement_sequence(tokens, next);
        let after = statement_sequence(tokens, next)->Ok_0;
        assert forall|slot: int| 0 <= slot < progress.symbols.len() implies (
        #[trigger] after.symbols[slot]).name == progress.symbols[slot].name by {
            assert(after.symbols[slot].name == next.symbols[slot].name);
        }
        assert forall|i: int| 0 <= i < progress.code.len() implies #[trigger] after.code[i]
            == progress.code[i] by {
            assert(after.code[i] == next.code[i]);
        }
    } else if is_symbol(tokens, at, TokenType::Print) {
        let next = output_statement(tokens, progress)->Ok_0;
        lemma_statement_sequence(tokens, next);
        let after = statement_sequence(tokens, next)->Ok_0;
        assert forall|i: int| 0 <= i < progress.code.len() implies #[trigger] after.code[i]
            == progress.code[i] by {
            assert(after.code[i] == next.code[i]);
        }
    } else if is_symbol(tokens, at, TokenType::Semicolon) {
        lemma_statement_sequence(tokens, progress.skip(1));
    }
}

/// In a program that compiles, every declaration takes exactly one slot,
/// and the slots are taken in the order of the declarations, counted from
/// zero: no name is declared twice, the name declared in a slot is found in
/// that slot, and the statements that follow leave it there.
pub proof fn lemma_each_declaration_takes_the_next_slot(tokens: Seq<TokenView>)
    requires
        compile(tokens) is Ok,
    ensures
        ({
            let declared = declarations(tokens, Progress::start().skip(1));
            let done = program(tokens, Progress::start())->Ok_0;
            &&& declared is Ok
            &&& distinct_names(declared->Ok_0.symbols)
            &&& done.symbols.len() == declared->Ok_0.symbols.len()
            &&& forall|slot: int|
                0 <= slot < done.symbols.len() ==> {
                    let name = (#[trigger] declared->Ok_0.symbols[slot]).name;
                    &&& lookup(declared->Ok_0.symbols, name) == Some(slot)
                    &&& lookup(done.symbols, name) == Some(slot)
                }
        }),
{
    let start = Progress::start().skip(1);
    let constants = constant_declarations(tokens, start)->Ok_0;
    let declared = variable_declarations(tokens, constants)->Ok_0;
    let body = statement_sequence(tokens, declared)->Ok_0;
    lemma_constant_declarations(tokens, start);
    lemma_variable_declarations(tokens, constants);
    lemma_statement_sequence(tokens, declared);
    assert forall|slot: int| 0 <= slot < body.symbols.len() implies {
        let name = (#[trigger] declared.symbols[slot]).name;
        &&& lookup(declared.symbols, name) == Some(slot)
        &&& lookup(body.symbols, name) == Some(slot)
    } by {
        lemma_lookup_finds_slot(declared.symbols, slot);
        lemma_lookup_finds_slot(body.symbols, slot);
        assert(body.symbols[slot].name == declared.symbols[slot].name);
    }
}

/// The number of `LIT` instructions among the given ones.
pub open spec fn literals(code: Seq<Instruction>) -> nat
    decreases code.len(),
{
    if code.len() == 0 {
        0
    } else {
        literals(code.drop_last()) + if code.last().0 == Operation::LIT {
            1nat
        } else {
            0nat
        }
    }
}

/// The number of names that are variables with a value.
pub open spec fn valued(symbols: Seq<Symbol>) -> nat
    decreases symbols.len(),
{
    if symbols.len() == 0 {
        0
    } else {
        valued(symbols.drop_last()) + if symbols.last().kind == SymbolKind::Variable {
            1nat
        } else {
            0nat
        }
    }
}

/// The number of `LIT` instructions in the values that the variable
/// declarations from `progress.at` on give to their variables.
pub open spec fn literals_of_values(tokens: Seq<TokenView>, progress: Progress) -> nat
    decreases remaining(tokens, progress.at),
{
    let at = progress.at;
    if !is_symbol(tokens, at, TokenType::Var) || identifier_at(tokens, at + 1) is None {
        0
    } else if is_symbol(tokens, at + 2, TokenType::EqualSign) {
        match expression(tokens, progress.symbols, at + 3) {
            Err(_) => 0,
            Ok(value) => literals(value.code) + literals_of_values(
                tokens,
                progress.skip(4 + value.len).append(value.code).declare(
                    identifier_at(tokens, at + 1)->0,
                    SymbolKind::Variable,
                ),
            ),
        }
    } else {
        literals_of_values(
            tokens,
            progress.skip(3).declare(
                identifier_at(tokens, at + 1)->0,
                SymbolKind::Uninitialized,
            ).emit(Instruction(Operation::LIT, 0)),
        )
    }
}

/// The `LIT` instructions of two pieces are those of the one and those of the other.
pub proof fn lemma_literals_of_pieces(first: Seq<Instruction>, second: Seq<Instruction>)
    ensures
        literals(first + second) == literals(first) + literals(second),
    decreases second.len(),
{
    if second.len() == 0 {
        assert(first + second =~= first);
    } else {
        lemma_literals_of_pieces(first, second.drop_last());
        assert((first + second).drop_last() =~= first + second.drop_last());
    }
}

/// Constant declarations emit one `LIT` for each constant, and give no variable a value.
proof fn lemma_literals_of_constants(tokens: Seq<TokenView>, progress: Progress)
    requires
        constant_declarations(tokens, progress) is Ok,
    ensures
        ({
            let after = constant_declarations(tokens, progress)->Ok_0;
            &&& after.symbols.len() >= progress.symbols.len()
            &&& valued(after.symbols) == valued(progress.symbols)
            &&& literals(after.code) == literals(progress.code) + (after.symbols.len()
                - progress.symbols.len())
        }),
    decreases remaining(tokens, progress.at),
{
    let at = progress.at;
    if is_symbol(tokens, at, TokenType::Const) {
        let name = identifier_at(tokens, at + 1)->0;
        let constant = constant_expression(tokens, at + 3)->Ok_0;
        let next = progress.skip(4 + constant.len).declare(name, SymbolKind::Constant).emit(
            Instruction(Operation::LIT, constant.value),
        );
        assert(next.symbols.drop_last() =~= progress.symbols);
        assert(next.code.drop_last() =~= progress.code);
        lemma_literals_of_constants(tokens, next);
    }
}

/// Variable declarations emit one `LIT` for each variable without a value;
/// their other `LIT` instructions are those of the values.
proof fn lemma_literals_of_variables(tokens: Seq<TokenView>, progress: Progress)
    requires
        variable_declarations(tokens, progress) is Ok,
    ensures
        ({
            let after = variable_declarations(tokens, progress)->Ok_0;
            &&& after.symbols.len() >= progress.symbols.len()
            &&& literals(after.code) + valued(after.symbols) == literals(progress.code) + valued(
                progress.symbols,
            ) + (after.symbols.len() - progress.symbols.len()) + literals_of_values(
                tokens,
                progress,
            )
        }),
    decreases remaining(tokens, progress.at),
{
    let at = progress.at;
    if is_symbol(tokens, at, TokenType::Var) {
        let name = identifier_at(tokens, at + 1)->0;
        if is_symbol(tokens, at + 2, TokenType::EqualSign) {
            let value = expression(tokens, progress.symbols, at + 3)->Ok_0;
            let next = progress.skip(4 + value.len).append(value.code).declare(
                name,
                SymbolKind::Variable,
            );
            assert(next.symbols.drop_last() =~= progress.symbols);
            lemma_literals_of_pieces(progress.code, value.code);
            lemma_literals_of_variables(tokens, next);
        } else {
            let next = progress.skip(3).declare(name, SymbolKind::Uninitialized).emit(
                Instruction(Operation::LIT, 0),
            );
            assert(next.symbols.drop_last() =~= progress.symbols);
            assert(next.code.drop_last() =~= progress.code);
            lemma_literals_of_variables(tokens, next);
        }
    }
}

/// There are no more variables with a value than names.
proof fn lemma_valued_is_bounded(symbols: Seq<Symbol>)
    ensures
        valued(symbols) <= symbols.len(),
    decreases symbols.len(),
{
    if symbols.len() > 0 {
        lemma_valued_is_bounded(symbols.drop_last());
    }
}

/// In a program that compiles, the declarations emit one `LIT` for each
/// constant and for each variable without a value; their other `LIT`
/// instructions are those of the values of the variables with a value.
pub proof fn lemma_literals_of_declarations(tokens: Seq<TokenView>)
    requires
        compile(tokens) is Ok,
    ensures
        ({
            let constants = constant_declarations(tokens, Progress::start().skip(1))->Ok_0;
            let declared = declarations(tokens, Progress::start().skip(1))->Ok_0;
            &&& valued(declared.symbols) <= declared.symbols.len()
            &&& literals(declared.code) == (declared.symbols.len() - valued(declared.symbols))
                + literals_of_values(tokens, constants)
        }),
{
    let start = Progress::start().skip(1);
    let constants = constant_declarations(tokens, start)->Ok_0;
    let declared = variable_declarations(tokens, constants)->Ok_0;
    lemma_literals_of_constants(tokens, start);
    lemma_literals_of_variables(tokens, constants);
    lemma_valued_is_bounded(declared.symbols);
}

/// In a program that compiles, the number of `LIT` instructions that the
/// declarations emit is the number of the declarations, provided that the
/// values of the variables that are declared with a value hold as many
/// `LIT` instructions as there are such variables.
pub proof fn lemma_as_many_literals_as_declarations(tokens: Seq<TokenView>)
    requires
        compile(tokens) is Ok,
        literals_of_values(
            tokens,
            constant_declarations(tokens, Progress::start().skip(1))->Ok_0,
        ) == valued(declarations(tokens, Progress::start().skip(1))->Ok_0.symbols),
    ensures
        ({
            let declared = declarations(tokens, Progress::start().skip(1))->Ok_0;
            literals(declared.code) == declared.symbols.len()
        }),
{
    lemma_literals_of_declarations(tokens);
}

/// In a program that compiles and gives none of its variables a value where
/// it declares it, there are as many `LIT` instructions for the
/// declarations as there are declarations: the program starts with one
/// `LIT` for each slot, in the order of the slots.
pub proof fn lemma_one_literal_for_each_declaration(tokens: Seq<TokenView>)
    requires
        compile(tokens) is Ok,
        none_with_a_value(declarations(tokens, Progress::start().skip(1))->Ok_0.symbols, 0),
    ensures
        ({
            let declared = declarations(tokens, Progress::start().skip(1))->Ok_0;
            let code = compile(tokens)->Ok_0;
            &&& declared.code.len() == declared.symbols.len()
            &&& declared.code.len() <= code.len()
            &&& forall|slot: int|
                0 <= slot < declared.symbols.len() ==> {
                    let instruction = #[trigger] code[slot];
                    &&& instruction == declared.code[slot]
                    &&& instruction.0 == Operation::LIT
                    &&& declared.symbols[slot].kind == SymbolKind::Uninitialized
                        ==> instruction.1 == 0
                }
        }),
{
    let start = Progress::start().skip(1);
    let constants = constant_declarations(tokens, start)->Ok_0;
    let declared = variable_declarations(tokens, constants)->Ok_0;
    let body = statement_sequence(tokens, declared)->Ok_0;
    lemma_constant_declarations(tokens, start);
    lemma_variable_declarations(tokens, constants);
    lemma_statement_sequence(tokens, declared);
    assert(none_with_a_value(declared.symbols, constants.symbols.len() as int));
    assert forall|slot: int| 0 <= slot < declared.symbols.len() implies {
        let instruction = #[trigger] body.code[slot];
        &&& instruction == declared.code[slot]
        &&& instruction.0 == Operation::LIT
        &&& declared.symbols[slot].kind == SymbolKind::Uninitialized ==> instruction.1 == 0
    } by {
        assert(body.code[slot] == declared.code[slot]);
        if slot < constants.symbols.len() {
            assert(declared.code[slot] == constants.code[slot]);
            assert(constants.code[slot] == constants.code[start.code.len() + slot]);
            assert(declared.symbols[slot] == constants.symbols[slot]);
            assert(constants.symbols[slot] == constants.symbols[start.symbols.len() + slot]);
        } else {
            let k = slot - constants.symbols.len();
            assert(declared.code[slot] == declared.code[constants.code.len() + k]);
            assert(declared.symbols[slot] == declared.symbols[constants.symbols.len() + k]);
        }
    }
}

} // verus!
