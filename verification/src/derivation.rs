//! What it means for a text to derive from a symbol: parse trees and their
//! yields.

use crate::grammar::{epsilon_free, ProductionView, SymbolView};
use vstd::prelude::*;

verus! {

/// A parse tree.
pub enum Tree {
    /// One input element, matched by a terminal.
    Leaf(char),
    /// A production, by its index in the grammar, with one subtree for each
    /// symbol of its right-hand side.
    Node(int, Seq<Tree>),
}

/// The tree that is the single element `c`.
pub open spec fn leaf(c: char) -> Tree {
    Tree::Leaf(c)
}

/// The text that the tree spans.
pub open spec fn yield_of(t: Tree) -> Seq<char>
    decreases t, 1int,
{
    match t {
        Tree::Leaf(c) => seq![c],
        Tree::Node(_, kids) => yields(kids),
    }
}

/// The texts of the trees, joined in order.
pub open spec fn yields(kids: Seq<Tree>) -> Seq<char>
    decreases kids, 0int,
{
    if kids.len() == 0 {
        Seq::empty()
    } else {
        yields(kids.drop_last()) + yield_of(kids.last())
    }
}

/// `t` is a parse tree for `symbol` under the grammar `g`: a leaf is an
/// element that the terminal accepts; a node is a production of the symbol
/// whose subtrees are parse trees for the symbols of its right-hand side.
pub open spec fn parses(g: Seq<ProductionView>, t: Tree, symbol: SymbolView) -> bool
    decreases t,
{
    match t {
        Tree::Leaf(c) => symbol matches SymbolView::Terminal(chars) && chars.contains(c),
        Tree::Node(p, kids) => {
            &&& symbol is Nonterminal
            &&& 0 <= p < g.len()
            &&& g[p].lhs == symbol
            &&& kids.len() == g[p].rhs.len()
            &&& forall|k: int| 0 <= k < kids.len() ==> parses(g, #[trigger] kids[k], g[p].rhs[k])
        },
    }
}

/// `kids` holds one parse tree for each of `symbols`, in order.
pub open spec fn forest(g: Seq<ProductionView>, kids: Seq<Tree>, symbols: Seq<SymbolView>) -> bool {
    &&& kids.len() == symbols.len()
    &&& forall|k: int| 0 <= k < kids.len() ==> parses(g, #[trigger] kids[k], symbols[k])
}

/// `text` derives from `symbol` under `g`: some parse tree for `symbol` spans
/// exactly `text`.
pub open spec fn derives(g: Seq<ProductionView>, symbol: SymbolView, text: Seq<char>) -> bool {
    exists|t: Tree| parses(g, t, symbol) && yield_of(t) == text
}

/// The yield of a forest that grows by one tree.
pub proof fn lemma_yields_push(kids: Seq<Tree>, t: Tree)
    ensures
        yields(kids.push(t)) == yields(kids) + yield_of(t),
{
    assert(kids.push(t).drop_last() =~= kids);
}

/// The yield of the first `n + 1` trees of a forest.
pub proof fn lemma_yields_take(kids: Seq<Tree>, n: int)
    requires
        0 <= n < kids.len(),
    ensures
        yields(kids.take(n + 1)) == yields(kids.take(n)) + yield_of(kids[n]),
{
    assert(kids.take(n + 1).drop_last() =~= kids.take(n));
}

/// Under a grammar without empty right-hand sides every parse tree spans at
/// least one element.
pub proof fn lemma_yield_nonempty(g: Seq<ProductionView>, t: Tree, symbol: SymbolView)
    requires
        epsilon_free(g),
        parses(g, t, symbol),
    ensures
        yield_of(t).len() > 0,
    decreases t,
{
    match t {
        Tree::Leaf(c) => {},
        Tree::Node(p, kids) => {
            assert(g[p].rhs.len() > 0);
            lemma_yield_nonempty(g, kids.last(), g[p].rhs[kids.len() - 1]);
        },
    }
}

} // verus!
