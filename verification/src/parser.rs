//! The chart engine: it owns the grammar, the input read so far and one item
//! set for each position that has been reached.

use crate::chart::{
    accepting, canonical, chart_ok, complete, extend, first_equal_from, initial_chart, input_at,
    is_final_item, item_ok, item_space, lemma_canonical, lemma_complete_extends,
    lemma_distinct_items_bounded, lemma_extend_ok, lemma_insert_ok, lemma_process_ok,
    lemma_run_from_no_input, lemma_run_from_ok, lemma_seed_ok, predict, predicted, process,
    run_from, seed, set_ok, stabilize, Work,
};
use crate::grammar::{char_in, fits, Grammar, ProductionView, Symbol, SymbolView};
use crate::item::EarleyItem;
use crate::state_set::{set_text, StateSet};
use crate::text::{decimal, push_decimal};
use vstd::prelude::*;
use vstd::std_specs::iter::IteratorSpec;
use vstd::string::StringExecFns;

verus! {

/// The mathematical value of an [`EarleyParser`].
pub struct ParserView {
    pub grammar: Seq<ProductionView>,
    pub start_symbol: SymbolView,
    /// One item set for each position reached so far.
    pub chart: Seq<Seq<EarleyItem>>,
    /// Every input element handed to the parser, consumed or not.
    pub input: Seq<char>,
}

impl ParserView {
    /// The chart is not empty, no longer than the input allows, and each of
    /// its sets is in order.
    pub open spec fn wf(self) -> bool {
        &&& fits(self.grammar)
        &&& 1 <= self.chart.len() <= self.input.len() + 1
        &&& chart_ok(self.grammar, self.chart)
    }

    /// The acceptance predicate on this state.
    pub open spec fn accepts(self) -> bool {
        accepting(self.grammar, self.start_symbol, self.chart, self.input)
    }
}

/// An Earley recognizer for one grammar and one start symbol.
pub struct EarleyParser {
    grammar: Grammar,
    start_symbol: Symbol,
    canon: Vec<usize>,
    pos: usize,
    state_sets: Vec<StateSet>,
    chars: Vec<char>,
}

impl View for EarleyParser {
    type V = ParserView;

    closed spec fn view(&self) -> ParserView {
        ParserView {
            grammar: self.grammar@,
            start_symbol: self.start_symbol@,
            chart: Seq::new(self.state_sets@.len(), |i: int| self.state_sets@[i]@),
            input: self.chars@,
        }
    }
}

/// `canon` lists, for each production of `g`, its canonical index.
pub open spec fn is_canon_table(g: Seq<ProductionView>, canon: Seq<usize>) -> bool {
    &&& canon.len() == g.len()
    &&& forall|k: int| 0 <= k < g.len() ==> #[trigger] canon[k] == canonical(g, k)
}

/// For each production, the index of the first production equal to it.
pub fn canonical_indices(grammar: &Grammar) -> (canon: Vec<usize>)
    ensures
        is_canon_table(grammar@, canon@),
{
    let mut canon: Vec<usize> = Vec::new();
    let mut k: usize = 0;
    while k < grammar.productions.len()
        invariant
            k <= grammar.productions.len(),
            canon@.len() == k,
            forall|i: int| 0 <= i < k ==> #[trigger] canon@[i] == canonical(grammar@, i),
        decreases grammar.productions.len() - k,
    {
        let mut j: usize = 0;
        while j < k && !grammar.productions[j].same(&grammar.productions[k])
            invariant
                j <= k < grammar.productions.len(),
                first_equal_from(grammar@, k as int, j as int) == canonical(grammar@, k as int),
            decreases k - j,
        {
            j += 1;
        }
        canon.push(j);
        k += 1;
    }
    canon
}

/// Inserts into `cur` every production whose left-hand side is `symbol`, dot
/// at the left, origin `at`.
pub fn predict_into(
    grammar: &Grammar,
    canon: &Vec<usize>,
    symbol: &Symbol,
    at: usize,
    cur: &mut StateSet,
)
    requires
        is_canon_table(grammar@, canon@),
    ensures
        final(cur)@ == predict(grammar@, symbol@, at, old(cur)@, grammar@.len()),
{
    let ghost before = cur@;
    let mut k: usize = 0;
    while k < grammar.productions.len()
        invariant
            k <= grammar.productions.len(),
            is_canon_table(grammar@, canon@),
            cur@ == predict(grammar@, symbol@, at, before, k as nat),
        decreases grammar.productions.len() - k,
    {
        if grammar.productions[k].nonterminal.same(symbol) {
            cur.insert(EarleyItem { production: canon[k], pos: 0, start: at });
        }
        k += 1;
    }
}

/// Inserts into `cur` every item of `parents` that waits for `lhs`, its dot
/// advanced by one.
pub fn complete_from(grammar: &Grammar, parents: &StateSet, lhs: &Symbol, cur: &mut StateSet)
    requires
        forall|k: int| 0 <= k < parents@.len() ==> (#[trigger] parents@[k]).wf(grammar@),
    ensures
        final(cur)@ == complete(grammar@, parents@, lhs@, old(cur)@, parents@.len()),
{
    let ghost before = cur@;
    let mut k: usize = 0;
    while k < parents.len()
        invariant
            k <= parents@.len(),
            forall|k: int| 0 <= k < parents@.len() ==> (#[trigger] parents@[k]).wf(grammar@),
            cur@ == complete(grammar@, parents@, lhs@, before, k as nat),
        decreases parents@.len() - k,
    {
        let parent = parents.get(k).unwrap();
        assert(parent == parents@[k as int]);
        match parent.next_symbol(grammar) {
            Some(symbol) => {
                if symbol.same(lhs) {
                    cur.insert(
                        EarleyItem {
                            production: parent.production,
                            pos: parent.pos + 1,
                            start: parent.start,
                        },
                    );
                }
            },
            None => {},
        }
        k += 1;
    }
}

/// As [`complete_from`], with the parents taken from `cur` itself as it
/// stands when the call begins.
pub fn complete_within(grammar: &Grammar, lhs: &Symbol, cur: &mut StateSet)
    requires
        forall|k: int| 0 <= k < old(cur)@.len() ==> (#[trigger] old(cur)@[k]).wf(grammar@),
    ensures
        final(cur)@ == complete(grammar@, old(cur)@, lhs@, old(cur)@, old(cur)@.len()),
{
    let ghost before = cur@;
    let n = cur.len();
    let mut k: usize = 0;
    while k < n
        invariant
            k <= n == before.len(),
            forall|k: int| 0 <= k < before.len() ==> (#[trigger] before[k]).wf(grammar@),
            cur@ == complete(grammar@, before, lhs@, before, k as nat),
        decreases n - k,
    {
        proof {
            lemma_complete_extends(grammar@, before, lhs@, before, k as nat);
        }
        let parent = cur.get(k).unwrap();
        assert(parent == before[k as int]);
        match parent.next_symbol(grammar) {
            Some(symbol) => {
                if symbol.same(lhs) {
                    cur.insert(
                        EarleyItem {
                            production: parent.production,
                            pos: parent.pos + 1,
                            start: parent.start,
                        },
                    );
                }
            },
            None => {},
        }
        k += 1;
    }
}

impl EarleyParser {
    /// The private tables agree with the grammar and the view is well formed.
    pub closed spec fn wf(&self) -> bool {
        &&& is_canon_table(self.grammar@, self.canon@)
        &&& self.pos + 1 == self.state_sets@.len()
        &&& self@.wf()
    }

    /// A parser for `grammar` that has read nothing: its chart is the seeded
    /// first set, not yet brought to its fixpoint.
    pub fn new(grammar: Grammar, start_symbol: Symbol) -> (parser: EarleyParser)
        ensures
            parser.wf(),
            parser@ == initial_state(grammar@, start_symbol@),
            parser.spec_grammar() == grammar,
    {
        let canon = canonical_indices(&grammar);
        let mut first = StateSet::new();
        proof {
            grammar.lemma_fits();
        }
        let mut k: usize = 0;
        while k < grammar.productions.len()
            invariant
                k <= grammar.productions.len(),
                fits(grammar@),
                is_canon_table(grammar@, canon@),
                first@ == seed(grammar@, k as nat),
                set_ok(grammar@, first@, 0),
            decreases grammar.productions.len() - k,
        {
            proof {
                lemma_canonical(grammar@, k as int);
                lemma_insert_ok(grammar@, first@, predicted(grammar@, k as int, 0), 0);
            }
            first.insert(EarleyItem { production: canon[k], pos: 0, start: 0 });
            k += 1;
        }
        let mut state_sets: Vec<StateSet> = Vec::new();
        state_sets.push(first);
        let parser = EarleyParser {
            grammar,
            start_symbol,
            canon,
            pos: 0,
            state_sets,
            chars: Vec::new(),
        };
        assert(parser@.chart =~= initial_chart(parser@.grammar));
        parser
    }

    /// Brings the last set of the chart to its fixpoint under prediction and
    /// completion and returns the set that scanning builds from it, or `None`
    /// when nothing could be scanned. `state_set_pos` names the last set.
    pub fn inner_loop(&mut self, state_set_pos: usize) -> (next: Option<StateSet>)
        requires
            old(self).wf(),
            state_set_pos + 1 == old(self)@.chart.len(),
        ensures
            final(self).wf(),
            final(self).spec_grammar() == old(self).spec_grammar(),
            ({
                let before = old(self)@;
                let w = stabilize(
                    before.grammar,
                    before.chart.drop_last(),
                    before.chart.last(),
                    input_at(before.input, state_set_pos as int),
                );
                &&& final(self)@ == (ParserView {
                    chart: before.chart.drop_last().push(w.cur),
                    ..before
                })
                &&& match next {
                    Some(set) => set@ == w.next && w.next.len() > 0,
                    None => w.next.len() == 0,
                }
            }),
    {
        let ghost before = self@;
        let ghost g = before.grammar;
        let ghost done = before.chart.drop_last();
        assert(self.state_sets.len() == self.state_sets@.len());
        let ch: Option<char> = if state_set_pos < self.chars.len() {
            Some(self.chars[state_set_pos])
        } else {
            None
        };
        let mut cur = self.state_sets.pop().unwrap();
        let mut next = StateSet::new();
        let ghost start = Work { cur: cur@, next: next@ };
        proof {
            assert(cur@ == before.chart.last());
            assert(set_ok(g, before.chart[state_set_pos as int], state_set_pos as int));
            assert(Seq::new(self.state_sets@.len(), |i: int| self.state_sets@[i]@) =~= done);
            assert forall|i: int| 0 <= i < done.len() implies set_ok(g, #[trigger] done[i], i) by {
                assert(done[i] == before.chart[i]);
            }
        }
        let mut i: usize = 0;
        while i < cur.len()
            invariant
                fits(g),
                g == self.grammar@,
                is_canon_table(g, self.canon@),
                chart_ok(g, done),
                done.len() == state_set_pos < usize::MAX,
                done == Seq::new(self.state_sets@.len(), |i: int| self.state_sets@[i]@),
                ch == input_at(before.input, state_set_pos as int),
                set_ok(g, cur@, state_set_pos as int),
                set_ok(g, next@, state_set_pos + 1),
                i <= cur@.len(),
                run_from(g, done, Work { cur: cur@, next: next@ }, ch, i as int) == run_from(
                    g,
                    done,
                    start,
                    ch,
                    0,
                ),
            decreases item_space() - i,
        {
            let ghost w = Work { cur: cur@, next: next@ };
            proof {
                lemma_distinct_items_bounded(cur@);
                lemma_process_ok(g, done, w, ch, i as int);
            }
            let item = cur.get(i).unwrap();
            assert(item == w.cur[i as int]);
            assert(item_ok(g, item, state_set_pos as int));
            match item.next_symbol(&self.grammar) {
                Some(symbol) => match symbol {
                    Symbol::Nonterminal { .. } => {
                        predict_into(&self.grammar, &self.canon, symbol, state_set_pos, &mut cur);
                    },
                    Symbol::Terminal(chars) => {
                        match ch {
                            Some(c) => {
                                if char_in(chars, c) {
                                    next.insert(
                                        EarleyItem {
                                            production: item.production,
                                            pos: item.pos + 1,
                                            start: item.start,
                                        },
                                    );
                                }
                            },
                            None => {},
                        }
                    },
                },
                None => {
                    let lhs = &self.grammar.productions[item.production].nonterminal;
                    if item.start < self.state_sets.len() {
                        assert(set_ok(g, done[item.start as int], item.start as int));
                        complete_from(&self.grammar, &self.state_sets[item.start], lhs, &mut cur);
                    } else {
                        complete_within(&self.grammar, lhs, &mut cur);
                    }
                },
            }
            assert(Work { cur: cur@, next: next@ } == process(g, done, w, ch, i as int));
            i += 1;
        }
        proof {
            lemma_distinct_items_bounded(cur@);
        }
        self.state_sets.push(cur);
        proof {
            let w = Work { cur: cur@, next: next@ };
            assert(w == stabilize(g, done, before.chart.last(), ch));
            assert(self@.chart =~= done.push(w.cur));
            assert forall|i: int| 0 <= i < self@.chart.len() implies set_ok(
                g,
                #[trigger] self@.chart[i],
                i,
            ) by {
                if i < done.len() {
                    assert(self@.chart[i] == done[i]);
                }
            }
        }
        if next.is_empty() {
            None
        } else {
            Some(next)
        }
    }

    /// Takes one input element: the last set is brought to its fixpoint and
    /// the element scanned. The result tells whether scanning gave a
    /// non-empty set, that is, whether the chart has grown and recognition
    /// can go on.
    pub fn consume_char(&mut self, ch: char) -> (more: bool)
        requires
            old(self).wf(),
        ensures
            final(self).wf(),
            final(self).spec_grammar() == old(self).spec_grammar(),
            final(self)@ == consumed(old(self)@, ch),
            more == (final(self)@.chart.len() > old(self)@.chart.len()),
    {
        let ghost before = self@;
        let ghost g = before.grammar;
        let ghost input = before.input.push(ch);
        let ghost target = extend(g, before.chart, input);
        self.chars.push(ch);
        assert(self@.chart =~= before.chart);
        let mut more = false;
        let mut going = true;
        while going
            invariant
                self.wf(),
                self.spec_grammar() == old(self).spec_grammar(),
                self@.grammar == g,
                self@.start_symbol == before.start_symbol,
                self@.input == input,
                self@.chart.len() >= before.chart.len(),
                more == (self@.chart.len() > before.chart.len()),
                going ==> extend(g, self@.chart, input) == target,
                !going ==> self@.chart == target,
            decreases input.len() + 1 - self@.chart.len(), (if going { 1int } else { 0int }),
        {
            let ghost chart = self@.chart;
            let ghost at = chart.len() - 1;
            assert(self.state_sets.len() == self.state_sets@.len());
            let ghost w = stabilize(g, chart.drop_last(), chart.last(), input_at(input, at));
            proof {
                assert forall|i: int| 0 <= i < chart.drop_last().len() implies set_ok(
                    g,
                    #[trigger] chart.drop_last()[i],
                    i,
                ) by {
                    assert(chart.drop_last()[i] == chart[i]);
                }
                assert(set_ok(g, chart[at], at));
                lemma_run_from_ok(
                    g,
                    chart.drop_last(),
                    Work { cur: chart.last(), next: Seq::empty() },
                    input_at(input, at),
                    0,
                );
                if at >= input.len() {
                    lemma_run_from_no_input(
                        g,
                        chart.drop_last(),
                        Work { cur: chart.last(), next: Seq::empty() },
                        0,
                    );
                }
            }
            match self.inner_loop(self.pos) {
                Some(next) => {
                    self.state_sets.push(next);
                    self.pos = self.state_sets.len() - 1;
                    more = true;
                    proof {
                        let settled = chart.drop_last().push(w.cur);
                        assert(self@.chart =~= settled.push(w.next));
                        assert forall|i: int| 0 <= i < self@.chart.len() implies set_ok(
                            g,
                            #[trigger] self@.chart[i],
                            i,
                        ) by {
                            if i < settled.len() {
                                assert(self@.chart[i] == settled[i]);
                            }
                        }
                    }
                },
                None => {
                    going = false;
                },
            }
        }
        more
    }

    /// Takes the elements of `input` in turn and stops behind the first one
    /// that does not extend the chart. The result tells whether every element
    /// extended it.
    pub fn consume_str(&mut self, input: String) -> (all: bool)
        requires
            old(self).wf(),
        ensures
            final(self).wf(),
            final(self).spec_grammar() == old(self).spec_grammar(),
            final(self)@ == fed(old(self)@, input@).state,
            all == fed(old(self)@, input@).all,
    {
        let ghost before = self@;
        let mut iter = input.as_str().chars();
        let mut all = true;
        let mut going = true;
        while going
            invariant
                self.wf(),
                self.spec_grammar() == old(self).spec_grammar(),
                iter.obeys_prophetic_iter_laws(),
                iter.decrease() is Some,
                going ==> fed(self@, iter.remaining()) == fed(before, input@),
                !going ==> self@ == fed(before, input@).state && all == fed(before, input@).all,
                going ==> all,
            decreases (if going { 1int } else { 0int }), iter.decrease()->0,
        {
            match iter.next() {
                Some(ch) => {
                    if !self.consume_char(ch) {
                        all = false;
                        going = false;
                    }
                },
                None => {
                    going = false;
                },
            }
        }
        all
    }

    /// Whether the input read so far is accepted: all of it has been consumed
    /// and the last set holds a complete production of the start symbol that
    /// began at position 0.
    pub fn accepts(&self) -> (accepted: bool)
        requires
            self.wf(),
        ensures
            accepted == self@.accepts(),
    {
        if self.pos != self.chars.len() {
            return false;
        }
        let last = &self.state_sets[self.pos];
        assert(last@ == self@.chart.last());
        let mut k: usize = 0;
        while k < last.len()
            invariant
                self.wf(),
                self.pos < self.state_sets@.len(),
                self.pos == self.chars@.len(),
                last@ == self@.chart.last(),
                *last == self.state_sets@[self.pos as int],
                k <= last@.len(),
                forall|j: int|
                    0 <= j < k ==> !is_final_item(self@.grammar, self@.start_symbol, #[trigger] last@[j]),
            decreases last@.len() - k,
        {
            let item = last.get(k).unwrap();
            assert(item == last@[k as int]);
            assert(set_ok(self@.grammar, self@.chart[self.pos as int], self.pos as int));
            assert(item_ok(self@.grammar, item, self.pos as int));
            let production = &self.grammar.productions[item.production];
            if item.start == 0 && item.pos >= production.symbols.len()
                && production.nonterminal.same(&self.start_symbol) {
                proof {
                    let g = self@.grammar;
                    assert(g[item.production as int] == production@);
                    assert(is_final_item(g, self@.start_symbol, self@.chart.last()[k as int]));
                }
                return true;
            }
            k += 1;
        }
        false
    }

    /// The written form of the chart: for each position a header with its
    /// number, the items of its set, and an empty line.
    pub fn to_string(&self) -> (text: String)
        requires
            self.wf(),
        ensures
            text@ == chart_text(self.spec_grammar(), self@.chart, self@.chart.len()),
    {
        let mut text = String::new();
        let mut i: usize = 0;
        while i < self.state_sets.len()
            invariant
                self.wf(),
                i <= self.state_sets@.len(),
                text@ == chart_text(self.spec_grammar(), self@.chart, i as nat),
            decreases self.state_sets@.len() - i,
        {
            let ghost before = text@;
            text.append("=== ");
            push_decimal(&mut text, i);
            text.append(" ===\n");
            let set = &self.state_sets[i];
            proof {
                assert(set@ == self@.chart[i as int]);
                assert(set_ok(self@.grammar, self@.chart[i as int], i as int));
                assert forall|k: int| 0 <= k < set@.len() implies (#[trigger] set@[k]).production
                    < self.grammar@.len() by {
                    assert(item_ok(self@.grammar, set@[k], i as int));
                }
            }
            set.write_to(&self.grammar, &mut text);
            text.append("\n");
            assert(text@ =~= chart_text(self.spec_grammar(), self@.chart, (i + 1) as nat));
            i += 1;
        }
        text
    }

    /// The number of item sets, which is one more than the number of input
    /// elements consumed.
    pub fn len(&self) -> (n: usize)
        ensures
            n == self@.chart.len(),
    {
        self.state_sets.len()
    }

    /// The item set at position `index`.
    pub fn state_set(&self, index: usize) -> (set: &StateSet)
        requires
            index < self@.chart.len(),
        ensures
            set@ == self@.chart[index as int],
    {
        &self.state_sets[index]
    }

    /// The grammar that the parser was made for.
    pub closed spec fn spec_grammar(&self) -> Grammar {
        self.grammar
    }

    /// The grammar that the parser was made for.
    pub fn grammar(&self) -> (grammar: &Grammar)
        ensures
            *grammar == self.spec_grammar(),
            grammar@ == self@.grammar,
    {
        &self.grammar
    }

    /// The state of a well-formed parser is well formed.
    pub proof fn lemma_view_wf(&self)
        requires
            self.wf(),
        ensures
            self@.wf(),
    {
    }
}

/// The first `n` sets of the chart, each under a header that gives its
/// position and followed by an empty line.
pub open spec fn chart_text(g: Grammar, chart: Seq<Seq<EarleyItem>>, n: nat) -> Seq<char>
    decreases n,
{
    if n == 0 {
        Seq::empty()
    } else {
        chart_text(g, chart, (n - 1) as nat) + "=== "@ + decimal((n - 1) as nat) + " ===\n"@ + set_text(
            g,
            chart[n - 1],
            chart[n - 1].len(),
        ) + "\n"@
    }
}

/// The state after one more input element has arrived.
pub open spec fn consumed(state: ParserView, ch: char) -> ParserView {
    ParserView {
        chart: extend(state.grammar, state.chart, state.input.push(ch)),
        input: state.input.push(ch),
        ..state
    }
}

/// The state after the first `n` elements of `text` have arrived one by
/// one, whether or not they could be scanned.
pub open spec fn taken(state: ParserView, text: Seq<char>, n: nat) -> ParserView
    decreases n,
{
    if n == 0 {
        state
    } else {
        consumed(taken(state, text, (n - 1) as nat), text[n - 1])
    }
}

/// What feeding a text leaves behind.
pub struct Fed {
    pub state: ParserView,
    /// Whether every element of the text extended the chart.
    pub all: bool,
}

/// The elements of `text` are consumed in turn, up to and including the
/// first one that does not extend the chart.
pub open spec fn fed(state: ParserView, text: Seq<char>) -> Fed
    decreases text.len(),
{
    if text.len() == 0 {
        Fed { state, all: true }
    } else {
        let after = consumed(state, text[0]);
        if after.chart.len() > state.chart.len() {
            fed(after, text.drop_first())
        } else {
            Fed { state: after, all: false }
        }
    }
}

/// The state of a parser for `g` and `start` that has read nothing.
pub open spec fn initial_state(g: Seq<ProductionView>, start: SymbolView) -> ParserView {
    ParserView { grammar: g, start_symbol: start, chart: initial_chart(g), input: Seq::empty() }
}

/// Whether a fresh parser for `g` and `start` accepts after it has been fed
/// `text`.
pub open spec fn recognizes(g: Seq<ProductionView>, start: SymbolView, text: Seq<char>) -> bool {
    fed(initial_state(g, start), text).state.accepts()
}

/// A fresh parser is in a well-formed state.
pub proof fn lemma_initial_wf(g: Seq<ProductionView>, start: SymbolView)
    requires
        fits(g),
    ensures
        initial_state(g, start).wf(),
{
    lemma_seed_ok(g, g.len());
}

/// Consuming an input element keeps the state well formed.
pub proof fn lemma_consumed_wf(state: ParserView, ch: char)
    requires
        state.wf(),
        state.input.len() + 1 < usize::MAX,
    ensures
        consumed(state, ch).wf(),
        consumed(state, ch).chart.len() >= state.chart.len(),
{
    lemma_extend_ok(state.grammar, state.chart, state.input.push(ch));
}

} // verus!
