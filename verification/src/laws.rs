//! What holds of the recognizer as a whole.

use crate::chart::{
    chart_ok, extends, item_space, lemma_distinct_items_bounded, lemma_extend_ok, set_ok,
    stabilize, Work,
};
use crate::completeness::{lemma_derives_accepted_stepwise, lemma_derives_recognized};
use crate::derivation::derives;
use crate::fixpoint::{handled_upto, lemma_run_from_handles, lemma_stabilize_idempotent};
use crate::grammar::{epsilon_free, fits, proper, ProductionView, SymbolView};
use crate::item::EarleyItem;
use crate::parser::{
    consumed, fed, initial_state, recognizes, taken, EarleyParser, ParserView,
};
use crate::soundness::{
    lemma_accepting_derives, lemma_fed_sound, lemma_initial_sound, lemma_taken_sound,
};
use vstd::prelude::*;

verus! {

/// Whatever the recognizer accepts derives from the start symbol. This
/// holds of every grammar whose productions have a nonterminal on the left,
/// empty right-hand sides included.
pub proof fn law_accepted_text_derives(g: Seq<ProductionView>, start: SymbolView, text: Seq<char>)
    requires
        fits(g),
        proper(g),
        text.len() < usize::MAX,
        recognizes(g, start, text),
    ensures
        derives(g, start, text),
{
    let state = initial_state(g, start);
    lemma_initial_sound(g, start);
    lemma_fed_sound(state, text);
    lemma_accepting_derives(fed(state, text).state);
    assert(state.input + text =~= text);
}

/// The recognizer accepts a text if and only if the text derives from the
/// start symbol, for every grammar whose productions have a nonterminal on
/// the left and at least one symbol on the right.
pub proof fn law_accepts_exactly_what_derives(
    g: Seq<ProductionView>,
    start: SymbolView,
    text: Seq<char>,
)
    requires
        fits(g),
        proper(g),
        epsilon_free(g),
        start is Nonterminal,
        text.len() < usize::MAX,
    ensures
        recognizes(g, start, text) <==> derives(g, start, text),
{
    if recognizes(g, start, text) {
        law_accepted_text_derives(g, start, text);
    }
    if derives(g, start, text) {
        lemma_derives_recognized(g, start, text);
    }
}

/// The same holds when the elements of the text are consumed one by one:
/// the state reached accepts if and only if the text derives from the start
/// symbol.
pub proof fn law_accepts_exactly_what_derives_stepwise(
    g: Seq<ProductionView>,
    start: SymbolView,
    text: Seq<char>,
)
    requires
        fits(g),
        proper(g),
        epsilon_free(g),
        start is Nonterminal,
        text.len() < usize::MAX,
    ensures
        taken(initial_state(g, start), text, text.len()).accepts() <==> derives(g, start, text),
{
    let state = initial_state(g, start);
    let end = taken(state, text, text.len());
    if end.accepts() {
        lemma_initial_sound(g, start);
        lemma_taken_sound(state, text, text.len());
        lemma_accepting_derives(end);
        assert(state.input + text.take(text.len() as int) =~= text);
    }
    if derives(g, start, text) {
        lemma_derives_accepted_stepwise(g, start, text);
    }
}

/// The fixpoint is a fixpoint: in the set that comes out, every item has
/// its consequences in place. What it predicts is in the set, what it scans
/// is in the next set, and the parents of a complete item that began at an
/// earlier position stand advanced in the set. No item occurs twice.
pub proof fn law_fixpoint_is_reached(
    g: Seq<ProductionView>,
    done: Seq<Seq<EarleyItem>>,
    cur: Seq<EarleyItem>,
    ch: Option<char>,
)
    requires
        cur.no_duplicates(),
    ensures
        stabilize(g, done, cur, ch).cur.no_duplicates(),
        extends(stabilize(g, done, cur, ch).cur, cur),
        handled_upto(
            g,
            done,
            stabilize(g, done, cur, ch),
            ch,
            stabilize(g, done, cur, ch).cur.len() as int,
        ),
{
    lemma_run_from_handles(g, done, Work { cur, next: Seq::empty() }, ch, 0);
}

/// Bringing an item set to its fixpoint a second time inserts no item and
/// scans what was scanned before, for every grammar whose productions have
/// at least one symbol on the right. `done` holds the sets of the earlier
/// positions and `cur` the set to work on.
pub proof fn law_fixpoint_is_idempotent(
    g: Seq<ProductionView>,
    done: Seq<Seq<EarleyItem>>,
    cur: Seq<EarleyItem>,
    ch: Option<char>,
)
    requires
        fits(g),
        epsilon_free(g),
        chart_ok(g, done),
        done.len() < usize::MAX,
        set_ok(g, cur, done.len() as int),
    ensures
        stabilize(g, done, stabilize(g, done, cur, ch).cur, ch) == stabilize(g, done, cur, ch),
{
    lemma_stabilize_idempotent(g, done, cur, ch);
}

/// In particular, for a well-formed state of a parser for such a grammar:
/// once the last set has been brought to its fixpoint, doing so again leaves
/// it as it is.
pub proof fn law_second_pass_changes_nothing(state: ParserView, ch: Option<char>)
    requires
        state.wf(),
        epsilon_free(state.grammar),
        state.chart.len() <= usize::MAX,
    ensures
        ({
            let done = state.chart.drop_last();
            let once = stabilize(state.grammar, done, state.chart.last(), ch);
            stabilize(state.grammar, done, once.cur, ch) == once
        }),
{
    let g = state.grammar;
    let done = state.chart.drop_last();
    assert forall|i: int| 0 <= i < done.len() implies set_ok(g, #[trigger] done[i], i) by {
        assert(done[i] == state.chart[i]);
    }
    assert(set_ok(g, state.chart[state.chart.len() - 1], state.chart.len() - 1));
    lemma_stabilize_idempotent(g, done, state.chart.last(), ch);
}

/// The fixpoint cannot run on for ever, whatever the grammar, recursive to
/// the left or to the right: it visits each item of the set once, the set
/// holds no item twice, and there are only so many items.
pub proof fn law_item_sets_are_bounded(
    g: Seq<ProductionView>,
    done: Seq<Seq<EarleyItem>>,
    cur: Seq<EarleyItem>,
    ch: Option<char>,
)
    requires
        cur.no_duplicates(),
    ensures
        stabilize(g, done, cur, ch).cur.len() <= item_space(),
{
    lemma_run_from_handles(g, done, Work { cur, next: Seq::empty() }, ch, 0);
    lemma_distinct_items_bounded(stabilize(g, done, cur, ch).cur);
}

/// Consuming an input element leaves every set but the last as it was, and
/// never shortens the chart: a set is worked on only while it is the last.
pub proof fn law_earlier_sets_are_kept(state: ParserView, ch: char)
    requires
        state.wf(),
        state.input.len() + 1 < usize::MAX,
    ensures
        consumed(state, ch).wf(),
        consumed(state, ch).chart.len() >= state.chart.len(),
        forall|i: int|
            0 <= i < state.chart.len() - 1 ==> consumed(state, ch).chart[i] == state.chart[i],
{
    lemma_extend_ok(state.grammar, state.chart, state.input.push(ch));
}

/// Two parsers that were made for the same grammar and start symbol and fed
/// the same text hold the same chart, item for item in the same order, and
/// agree on acceptance.
pub proof fn law_recognition_is_deterministic(
    first: &EarleyParser,
    second: &EarleyParser,
    g: Seq<ProductionView>,
    start: SymbolView,
    text: Seq<char>,
)
    requires
        first@ == fed(initial_state(g, start), text).state,
        second@ == fed(initial_state(g, start), text).state,
    ensures
        first@.chart == second@.chart,
        first@.accepts() == second@.accepts(),
{
}

} // verus!
