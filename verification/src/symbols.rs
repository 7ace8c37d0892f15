//! The symbol table: the declared names in the order of their declaration.
//! A name's slot is its place in that order.

use vstd::prelude::*;

verus! {

/// What a declared name stands for.
#[derive(Debug, Clone, Copy, PartialEq, Eq, Structural)]
pub enum SymbolKind {
    /// A constant.
    Constant,
    /// A variable that holds a value.
    Variable,
    /// A variable that was declared without a value and not assigned since.
    Uninitialized,
}

/// A declared name as plain values.
pub struct Symbol {
    pub name: Seq<char>,
    pub kind: SymbolKind,
}

/// A declared name.
pub struct SymbolEntry {
    pub name: String,
    pub kind: SymbolKind,
}

impl View for SymbolEntry {
    type V = Symbol;

    open spec fn view(&self) -> Symbol {
        Symbol { name: self.name@, kind: self.kind }
    }
}

/// A table of declared names as plain values.
pub open spec fn symbols_of(entries: Seq<SymbolEntry>) -> Seq<Symbol> {
    Seq::new(entries.len(), |i: int| entries[i]@)
}

/// The slot of a name, if the table declares it.
pub open spec fn lookup(symbols: Seq<Symbol>, name: Seq<char>) -> Option<int>
    decreases symbols.len(),
{
    if symbols.len() == 0 {
        None
    } else if symbols.last().name == name {
        Some(symbols.len() - 1)
    } else {
        lookup(symbols.drop_last(), name)
    }
}

/// No name is declared twice.
pub open spec fn distinct_names(symbols: Seq<Symbol>) -> bool {
    forall|i: int, j: int|
        0 <= i < j < symbols.len() ==> (#[trigger] symbols[i]).name != (#[trigger] symbols[j]).name
}

/// The table after the variable in `slot` has received its first value.
pub open spec fn initialized(symbols: Seq<Symbol>, slot: int) -> Seq<Symbol>
    recommends
        0 <= slot < symbols.len(),
{
    symbols.update(slot, Symbol { name: symbols[slot].name, kind: SymbolKind::Variable })
}

/// A name that is found stands in the slot that was found, and a name that
/// is not found stands in no slot.
pub proof fn lemma_lookup(symbols: Seq<Symbol>, name: Seq<char>)
    ensures
        match lookup(symbols, name) {
            Some(slot) => 0 <= slot < symbols.len() && symbols[slot].name == name,
            None => forall|i: int| 0 <= i < symbols.len() ==> (#[trigger] symbols[i]).name != name,
        },
    decreases symbols.len(),
{
    if symbols.len() > 0 && symbols.last().name != name {
        let shorter = symbols.drop_last();
        lemma_lookup(shorter, name);
        match lookup(shorter, name) {
            Some(slot) => {
                assert(shorter[slot] == symbols[slot]);
            },
            None => {
                assert forall|i: int| 0 <= i < symbols.len() implies (#[trigger] symbols[i]).name
                    != name by {
                    if i < shorter.len() {
                        assert(shorter[i] == symbols[i]);
                    }
                }
            },
        }
    }
}

/// In a table without repeated names, every slot is found again by its name.
pub proof fn lemma_lookup_finds_slot(symbols: Seq<Symbol>, slot: int)
    requires
        distinct_names(symbols),
        0 <= slot < symbols.len(),
    ensures
        lookup(symbols, symbols[slot].name) == Some(slot),
    decreases symbols.len(),
{
    if slot < symbols.len() - 1 {
        let shorter = symbols.drop_last();
        assert(symbols.last() == symbols[symbols.len() - 1]);
        assert(shorter[slot] == symbols[slot]);
        assert(distinct_names(shorter)) by {
            assert forall|i: int, j: int| 0 <= i < j < shorter.len() implies (#[trigger] shorter[i]).name
                != (#[trigger] shorter[j]).name by {
                assert(shorter[i] == symbols[i]);
                assert(shorter[j] == symbols[j]);
            }
        }
        lemma_lookup_finds_slot(shorter, slot);
    }
}

} // verus!
