//! Symbols, productions and grammars, with their mathematical views.

use crate::text::push_char;
use vstd::prelude::*;
use vstd::string::StringExecFns;

verus! {

/// The mathematical value of a [`Symbol`].
pub enum SymbolView {
    /// Matches any one element of the set.
    Terminal(Set<char>),
    /// A grammar category, identified by its name.
    Nonterminal(Seq<char>),
}

/// The mathematical value of a [`Production`].
pub struct ProductionView {
    pub lhs: SymbolView,
    pub rhs: Seq<SymbolView>,
}

/// A grammar symbol: a class of input characters or a named category.
///
/// A terminal lists the characters that it accepts. Two terminals are the
/// same symbol when they accept the same characters, in whatever order and
/// how often they list them; two nonterminals when they have the same name.
/// The order of the characters only shows when the symbol is written.
#[derive(Debug, Clone)]
pub enum Symbol {
    Terminal(Vec<char>),
    Nonterminal { name: String },
}

/// A rewrite rule `nonterminal -> symbols`. The right-hand side may be empty.
#[derive(Debug, Clone)]
pub struct Production {
    pub nonterminal: Symbol,
    pub symbols: Vec<Symbol>,
}

/// An ordered collection of productions.
#[derive(Debug, Clone)]
pub struct Grammar {
    pub productions: Vec<Production>,
}

impl View for Symbol {
    type V = SymbolView;

    open spec fn view(&self) -> SymbolView {
        match self {
            Symbol::Terminal(chars) => SymbolView::Terminal(chars@.to_set()),
            Symbol::Nonterminal { name } => SymbolView::Nonterminal(name@),
        }
    }
}

impl View for Production {
    type V = ProductionView;

    open spec fn view(&self) -> ProductionView {
        ProductionView {
            lhs: self.nonterminal@,
            rhs: Seq::new(self.symbols@.len(), |i: int| self.symbols@[i]@),
        }
    }
}

impl View for Grammar {
    type V = Seq<ProductionView>;

    open spec fn view(&self) -> Seq<ProductionView> {
        Seq::new(self.productions@.len(), |i: int| self.productions@[i]@)
    }
}

/// The sizes of the grammar are those of a grammar held in memory.
pub open spec fn fits(g: Seq<ProductionView>) -> bool {
    &&& g.len() <= usize::MAX
    &&& forall|k: int| 0 <= k < g.len() ==> (#[trigger] g[k]).rhs.len() <= usize::MAX
}

/// No production has an empty right-hand side.
pub open spec fn epsilon_free(g: Seq<ProductionView>) -> bool {
    forall|k: int| 0 <= k < g.len() ==> (#[trigger] g[k]).rhs.len() > 0
}

/// The left-hand side of every production is a nonterminal.
pub open spec fn proper(g: Seq<ProductionView>) -> bool {
    forall|k: int| 0 <= k < g.len() ==> (#[trigger] g[k]).lhs is Nonterminal
}

impl Grammar {
    /// Every grammar value has sizes that fit.
    pub proof fn lemma_fits(&self)
        ensures
            fits(self@),
    {
        assert(self.productions.len() == self.productions@.len());
        assert forall|k: int| 0 <= k < self@.len() implies (#[trigger] self@[k]).rhs.len()
            <= usize::MAX by {
            assert(self.productions@[k].symbols.len() == self.productions@[k].symbols@.len());
        }
    }
}

/// Whether `c` occurs in `chars`.
pub fn char_in(chars: &Vec<char>, c: char) -> (found: bool)
    ensures
        found == chars@.contains(c),
{
    let mut i: usize = 0;
    while i < chars.len()
        invariant
            i <= chars.len(),
            forall|j: int| 0 <= j < i ==> chars@[j] != c,
        decreases chars.len() - i,
    {
        if chars[i] == c {
            return true;
        }
        i += 1;
    }
    false
}

/// Whether every character of `a` occurs in `b`.
pub fn all_in(a: &Vec<char>, b: &Vec<char>) -> (all: bool)
    ensures
        all == a@.to_set().subset_of(b@.to_set()),
{
    let mut i: usize = 0;
    while i < a.len()
        invariant
            i <= a.len(),
            forall|j: int| 0 <= j < i ==> b@.contains(#[trigger] a@[j]),
        decreases a.len() - i,
    {
        if !char_in(b, a[i]) {
            assert(a@.to_set().contains(a@[i as int]));
            return false;
        }
        i += 1;
    }
    assert forall|c: char| a@.to_set().contains(c) implies b@.to_set().contains(c) by {
        let j = choose|j: int| 0 <= j < a@.len() && a@[j] == c;
        assert(b@.contains(a@[j]));
    }
    true
}

/// Whether two character lists hold the same characters, in whatever order
/// and however often.
pub fn same_members(a: &Vec<char>, b: &Vec<char>) -> (same: bool)
    ensures
        same == (a@.to_set() == b@.to_set()),
{
    let same = all_in(a, b) && all_in(b, a);
    proof {
        if same {
            assert(a@.to_set() =~= b@.to_set());
        }
    }
    same
}

impl Symbol {
    /// Whether the two are the same symbol: terminals that accept the same
    /// characters, or nonterminals of the same name.
    pub fn same(&self, other: &Symbol) -> (same: bool)
        ensures
            same == (self@ == other@),
    {
        match self {
            Symbol::Terminal(a) => match other {
                Symbol::Terminal(b) => same_members(a, b),
                Symbol::Nonterminal { .. } => false,
            },
            Symbol::Nonterminal { name: a } => match other {
                Symbol::Terminal(_) => false,
                Symbol::Nonterminal { name: b } => *a == *b,
            },
        }
    }
}

/// Whether two symbol lists hold the same symbols position by position.
pub fn symbols_equal(a: &Vec<Symbol>, b: &Vec<Symbol>) -> (same: bool)
    ensures
        same == (Seq::new(a@.len(), |i: int| a@[i]@) == Seq::new(b@.len(), |i: int| b@[i]@)),
{
    let ghost va = Seq::new(a@.len(), |i: int| a@[i]@);
    let ghost vb = Seq::new(b@.len(), |i: int| b@[i]@);
    if a.len() != b.len() {
        assert(va.len() != vb.len());
        return false;
    }
    let mut i: usize = 0;
    while i < a.len()
        invariant
            a.len() == b.len(),
            i <= a.len(),
            va == Seq::new(a@.len(), |i: int| a@[i]@),
            vb == Seq::new(b@.len(), |i: int| b@[i]@),
            forall|j: int| 0 <= j < i ==> va[j] == vb[j],
        decreases a.len() - i,
    {
        if !a[i].same(&b[i]) {
            assert(va[i as int] != vb[i as int]);
            return false;
        }
        i += 1;
    }
    assert(va =~= vb);
    true
}

impl Production {
    /// Whether the two are the same production: the same symbol on the left
    /// and the same symbols, in order, on the right.
    pub fn same(&self, other: &Production) -> (same: bool)
        ensures
            same == (self@ == other@),
    {
        self.nonterminal.same(&other.nonterminal) && symbols_equal(&self.symbols, &other.symbols)
    }
}

/// How a symbol is written: a nonterminal by its name, a terminal that
/// lists one character as that character in quotes, any other terminal as
/// the characters it lists, in square brackets.
pub open spec fn symbol_text(symbol: Symbol) -> Seq<char> {
    match symbol {
        Symbol::Terminal(chars) => if chars@.len() == 1 {
            "'"@ + chars@ + "'"@
        } else {
            "["@ + chars@ + "]"@
        },
        Symbol::Nonterminal { name } => name@,
    }
}

/// The first `n` of `symbols`, each written behind a blank.
pub open spec fn symbols_text(symbols: Seq<Symbol>, n: nat) -> Seq<char>
    decreases n,
{
    if n == 0 {
        Seq::empty()
    } else {
        symbols_text(symbols, (n - 1) as nat) + " "@ + symbol_text(symbols[n - 1])
    }
}

/// How a production is written: `lhs -> s1 s2 ... sk`.
pub open spec fn production_text(production: Production) -> Seq<char> {
    symbol_text(production.nonterminal) + " ->"@ + symbols_text(
        production.symbols@,
        production.symbols@.len(),
    )
}

/// The first `n` productions of `g`, one to a line.
pub open spec fn grammar_text(g: Grammar, n: nat) -> Seq<char>
    decreases n,
{
    if n == 0 {
        Seq::empty()
    } else {
        grammar_text(g, (n - 1) as nat) + production_text(g.productions@[n - 1]) + "\n"@
    }
}

impl Symbol {
    /// Appends the written form of the symbol to `text`.
    pub fn write_to(&self, text: &mut String)
        ensures
            final(text)@ == old(text)@ + symbol_text(*self),
    {
        match self {
            Symbol::Terminal(chars) => {
                let single = chars.len() == 1;
                text.append(if single { "'" } else { "[" });
                let ghost opened = text@;
                let mut i: usize = 0;
                while i < chars.len()
                    invariant
                        i <= chars.len(),
                        text@ == opened + chars@.take(i as int),
                    decreases chars.len() - i,
                {
                    push_char(text, chars[i]);
                    assert(chars@.take(i + 1) =~= chars@.take(i as int).push(chars@[i as int]));
                    assert(text@ =~= opened + chars@.take(i + 1));
                    i += 1;
                }
                assert(chars@.take(i as int) =~= chars@);
                text.append(if single { "'" } else { "]" });
                assert(text@ =~= old(text)@ + symbol_text(*self));
            },
            Symbol::Nonterminal { name } => {
                text.append(name.as_str());
            },
        }
    }

    /// The written form of the symbol.
    pub fn to_string(&self) -> (text: String)
        ensures
            text@ == symbol_text(*self),
    {
        let mut text = String::new();
        self.write_to(&mut text);
        assert(text@ =~= symbol_text(*self));
        text
    }
}

impl Production {
    /// Appends the written form of the production to `text`.
    pub fn write_to(&self, text: &mut String)
        ensures
            final(text)@ == old(text)@ + production_text(*self),
    {
        self.nonterminal.write_to(text);
        text.append(" ->");
        let ghost head = text@;
        let mut i: usize = 0;
        while i < self.symbols.len()
            invariant
                i <= self.symbols.len(),
                text@ == head + symbols_text(self.symbols@, i as nat),
            decreases self.symbols.len() - i,
        {
            text.append(" ");
            self.symbols[i].write_to(text);
            assert(text@ =~= head + symbols_text(self.symbols@, (i + 1) as nat));
            i += 1;
        }
        assert(text@ =~= old(text)@ + production_text(*self));
    }

    /// The written form of the production.
    pub fn to_string(&self) -> (text: String)
        ensures
            text@ == production_text(*self),
    {
        let mut text = String::new();
        self.write_to(&mut text);
        assert(text@ =~= production_text(*self));
        text
    }
}

impl Grammar {
    /// The written form of the grammar: each production on a line of its own.
    pub fn to_string(&self) -> (text: String)
        ensures
            text@ == grammar_text(*self, self.productions@.len()),
    {
        let mut text = String::new();
        let mut i: usize = 0;
        while i < self.productions.len()
            invariant
                i <= self.productions.len(),
                text@ == grammar_text(*self, i as nat),
            decreases self.productions.len() - i,
        {
            self.productions[i].write_to(&mut text);
            text.append("\n");
            i += 1;
        }
        text
    }
}

} // verus!
