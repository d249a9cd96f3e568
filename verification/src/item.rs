//! Earley items: a production, a dot position in its right-hand side, and the
//! chart position at which the match began.

use crate::grammar::{symbol_text, Grammar, ProductionView, Symbol, SymbolView};
use crate::text::{decimal, push_decimal};
use vstd::prelude::*;
use vstd::string::StringExecFns;

verus! {

/// Partial progress through one production. The production is named by its
/// index in the grammar; `pos` symbols of its right-hand side have been
/// matched, starting at chart position `start`.
#[derive(Debug, Clone, Copy, PartialEq, Eq, Structural, Hash)]
pub struct EarleyItem {
    pub production: usize,
    pub pos: usize,
    pub start: usize,
}

impl EarleyItem {
    /// The item refers to a production of `g` and its dot lies within that
    /// production's right-hand side (or just behind it).
    pub open spec fn wf(self, g: Seq<ProductionView>) -> bool {
        &&& self.production < g.len()
        &&& self.pos <= g[self.production as int].rhs.len()
    }

    /// The dot stands behind the last symbol.
    pub open spec fn is_complete(self, g: Seq<ProductionView>) -> bool {
        self.pos >= g[self.production as int].rhs.len()
    }

    /// The symbol right of the dot, if there is one.
    pub open spec fn spec_next_symbol(self, g: Seq<ProductionView>) -> Option<SymbolView> {
        if self.pos < g[self.production as int].rhs.len() {
            Some(g[self.production as int].rhs[self.pos as int])
        } else {
            None
        }
    }

    /// The left-hand side of the item's production.
    pub open spec fn lhs(self, g: Seq<ProductionView>) -> SymbolView {
        g[self.production as int].lhs
    }

    /// The same item with the dot moved one symbol to the right.
    pub open spec fn advanced(self) -> EarleyItem {
        EarleyItem { production: self.production, pos: (self.pos + 1) as usize, start: self.start }
    }

    /// The symbol right of the dot, or `None` when the item is complete.
    pub fn next_symbol<'a>(&self, grammar: &'a Grammar) -> (next: Option<&'a Symbol>)
        requires
            self.wf(grammar@),
        ensures
            match next {
                Some(s) => {
                    &&& self.pos < grammar.productions@[self.production as int].symbols@.len()
                    &&& self.pos < usize::MAX
                    &&& *s == grammar.productions@[self.production as int].symbols@[self.pos as int]
                    &&& self.spec_next_symbol(grammar@) == Some(s@)
                },
                None => self.spec_next_symbol(grammar@).is_none(),
            },
    {
        let production = &grammar.productions[self.production];
        if self.pos < production.symbols.len() {
            Some(&production.symbols[self.pos])
        } else {
            None
        }
    }
}

/// The first `n` of `symbols`, each written behind a blank, with the dot
/// marker in front of the symbol at index `pos`.
pub open spec fn dotted_text(symbols: Seq<Symbol>, pos: int, n: nat) -> Seq<char>
    decreases n,
{
    if n == 0 {
        Seq::empty()
    } else {
        dotted_text(symbols, pos, (n - 1) as nat) + (if n - 1 == pos {
            " •"@
        } else {
            Seq::empty()
        }) + " "@ + symbol_text(symbols[n - 1])
    }
}

/// How an item is written: its production with the dot marker at the dot's
/// place, at the very end if the item is complete, and the origin in
/// parentheses.
pub open spec fn item_text(g: Grammar, item: EarleyItem) -> Seq<char> {
    let production = g.productions@[item.production as int];
    symbol_text(production.nonterminal) + " ->"@ + dotted_text(
        production.symbols@,
        item.pos as int,
        production.symbols@.len(),
    ) + (if item.pos == production.symbols@.len() {
        " •"@
    } else {
        Seq::empty()
    }) + " ("@ + decimal(item.start as nat) + ")"@
}

impl EarleyItem {
    /// Appends the written form of the item to `text`.
    pub fn write_to(&self, grammar: &Grammar, text: &mut String)
        requires
            self.production < grammar@.len(),
        ensures
            final(text)@ == old(text)@ + item_text(*grammar, *self),
    {
        let production = &grammar.productions[self.production];
        production.nonterminal.write_to(text);
        text.append(" ->");
        let ghost head = text@;
        let mut i: usize = 0;
        while i < production.symbols.len()
            invariant
                i <= production.symbols.len(),
                text@ == head + dotted_text(production.symbols@, self.pos as int, i as nat),
            decreases production.symbols.len() - i,
        {
            if i == self.pos {
                text.append(" •");
            }
            text.append(" ");
            production.symbols[i].write_to(text);
            assert(text@ =~= head + dotted_text(production.symbols@, self.pos as int, (i + 1) as nat));
            i += 1;
        }
        if self.pos == production.symbols.len() {
            text.append(" •");
        }
        text.append(" (");
        push_decimal(text, self.start);
        text.append(")");
        assert(text@ =~= old(text)@ + item_text(*grammar, *self));
    }

    /// The written form of the item.
    pub fn to_string(&self, grammar: &Grammar) -> (text: String)
        requires
            self.production < grammar@.len(),
        ensures
            text@ == item_text(*grammar, *self),
    {
        let mut text = String::new();
        self.write_to(grammar, &mut text);
        assert(text@ =~= item_text(*grammar, *self));
        text
    }
}

} // verus!
