//! Every item of the chart is backed by parse trees: the symbols left of its
//! dot derive the input between its origin and its position.

use crate::chart::{
    chart_ok, complete, extend, input_at, is_final_item, item_ok, item_space, lemma_canonical,
    lemma_distinct_items_bounded, lemma_extend_ok, lemma_process_ok, lemma_run_from_ok,
    lemma_seed_ok, matches_input, parents_of, predict, predicted, process, run_from, seed,
    set_ok, stabilize, Work,
};
use crate::derivation::{derives, forest, leaf, lemma_yields_push, parses, yield_of, yields, Tree};
use crate::grammar::{fits, proper, ProductionView, SymbolView};
use crate::item::EarleyItem;
use crate::parser::{consumed, fed, initial_state, taken, ParserView};
use crate::state_set::insert_item;
use vstd::prelude::*;

verus! {

/// `kids` are parse trees for the symbols left of the dot of `item`, and
/// together they span the input from the item's origin to position `at`.
pub open spec fn justifies(
    g: Seq<ProductionView>,
    input: Seq<char>,
    item: EarleyItem,
    at: int,
    kids: Seq<Tree>,
) -> bool {
    &&& forest(g, kids, g[item.production as int].rhs.take(item.pos as int))
    &&& yields(kids) == input.subrange(item.start as int, at)
}

/// Some parse trees justify `item` at position `at`.
pub open spec fn justified(g: Seq<ProductionView>, input: Seq<char>, item: EarleyItem, at: int) -> bool {
    exists|kids: Seq<Tree>| justifies(g, input, item, at, kids)
}

/// Every item of `s` is justified at position `at`.
pub open spec fn set_sound(g: Seq<ProductionView>, input: Seq<char>, s: Seq<EarleyItem>, at: int) -> bool {
    forall|k: int| 0 <= k < s.len() ==> justified(g, input, #[trigger] s[k], at)
}

/// Every item of the chart is justified at the position of its set.
pub open spec fn chart_sound(g: Seq<ProductionView>, input: Seq<char>, chart: Seq<Seq<EarleyItem>>) -> bool {
    forall|i: int| 0 <= i < chart.len() ==> set_sound(g, input, #[trigger] chart[i], i)
}

/// Inserting a justified item keeps a set sound.
proof fn lemma_insert_sound(
    g: Seq<ProductionView>,
    input: Seq<char>,
    s: Seq<EarleyItem>,
    item: EarleyItem,
    at: int,
)
    requires
        set_sound(g, input, s, at),
        justified(g, input, item, at),
    ensures
        set_sound(g, input, insert_item(s, item), at),
{
}

/// A predicted item is justified where it is predicted: nothing stands
/// left of its dot.
proof fn lemma_predicted_justified(g: Seq<ProductionView>, input: Seq<char>, k: int, at: usize)
    requires
        fits(g),
        0 <= k < g.len(),
        at <= input.len(),
    ensures
        justified(g, input, predicted(g, k, at), at as int),
{
    lemma_canonical(g, k);
    let item = predicted(g, k, at);
    let kids = Seq::<Tree>::empty();
    assert(input.subrange(at as int, at as int) =~= Seq::<char>::empty());
    assert(justifies(g, input, item, at as int, kids));
}

/// The seeded first set is sound.
proof fn lemma_seed_sound(g: Seq<ProductionView>, input: Seq<char>, n: nat)
    requires
        fits(g),
        n <= g.len(),
    ensures
        set_sound(g, input, seed(g, n), 0),
    decreases n,
{
    if n > 0 {
        lemma_seed_sound(g, input, (n - 1) as nat);
        lemma_predicted_justified(g, input, n - 1, 0);
        lemma_insert_sound(g, input, seed(g, (n - 1) as nat), predicted(g, n - 1, 0), 0);
    }
}

/// Prediction keeps a set sound.
proof fn lemma_predict_sound(
    g: Seq<ProductionView>,
    input: Seq<char>,
    x: SymbolView,
    at: usize,
    cur: Seq<EarleyItem>,
    n: nat,
)
    requires
        fits(g),
        n <= g.len(),
        at <= input.len(),
        set_sound(g, input, cur, at as int),
    ensures
        set_sound(g, input, predict(g, x, at, cur, n), at as int),
    decreases n,
{
    if n > 0 {
        lemma_predict_sound(g, input, x, at, cur, (n - 1) as nat);
        lemma_predicted_justified(g, input, n - 1, at);
        lemma_insert_sound(
            g,
            input,
            predict(g, x, at, cur, (n - 1) as nat),
            predicted(g, n - 1, at),
            at as int,
        );
    }
}

/// An item that scans the input element at `at` is justified one position
/// further, by one more leaf.
proof fn lemma_scanned_justified(g: Seq<ProductionView>, input: Seq<char>, item: EarleyItem, at: int)
    requires
        fits(g),
        item_ok(g, item, at),
        0 <= at < input.len(),
        justified(g, input, item, at),
        item.spec_next_symbol(g) matches Some(symbol) && matches_input(symbol, Some(input[at])),
    ensures
        justified(g, input, item.advanced(), at + 1),
{
    let kids = choose|kids: Seq<Tree>| justifies(g, input, item, at, kids);
    let rhs = g[item.production as int].rhs;
    let more = kids.push(leaf(input[at]));
    lemma_yields_push(kids, leaf(input[at]));
    assert(input.subrange(item.start as int, at) + seq![input[at]] =~= input.subrange(
        item.start as int,
        at + 1,
    ));
    assert forall|k: int| 0 <= k < more.len() implies parses(
        g,
        #[trigger] more[k],
        rhs.take(item.pos + 1)[k],
    ) by {
        if k < kids.len() {
            assert(more[k] == kids[k]);
            assert(rhs.take(item.pos as int)[k] == rhs.take(item.pos + 1)[k]);
        }
    }
    assert(justifies(g, input, item.advanced(), at + 1, more));
}

/// A parent that waited for the left-hand side of a complete child is
/// justified, dot advanced, at the child's position, by one more node.
proof fn lemma_completed_justified(
    g: Seq<ProductionView>,
    input: Seq<char>,
    parent: EarleyItem,
    child: EarleyItem,
    at: int,
)
    requires
        fits(g),
        proper(g),
        item_ok(g, child, at),
        item_ok(g, parent, child.start as int),
        at <= input.len(),
        justified(g, input, child, at),
        justified(g, input, parent, child.start as int),
        child.spec_next_symbol(g).is_none(),
        parent.spec_next_symbol(g) == Some(child.lhs(g)),
    ensures
        justified(g, input, parent.advanced(), at),
{
    let below = choose|kids: Seq<Tree>| justifies(g, input, child, at, kids);
    let kids = choose|kids: Seq<Tree>| justifies(g, input, parent, child.start as int, kids);
    let rhs = g[parent.production as int].rhs;
    let child_rhs = g[child.production as int].rhs;
    assert(child_rhs.take(child.pos as int) =~= child_rhs);
    let node = Tree::Node(child.production as int, below);
    assert(parses(g, node, child.lhs(g)));
    let more = kids.push(node);
    lemma_yields_push(kids, node);
    assert(input.subrange(parent.start as int, child.start as int) + input.subrange(
        child.start as int,
        at,
    ) =~= input.subrange(parent.start as int, at));
    assert forall|k: int| 0 <= k < more.len() implies parses(
        g,
        #[trigger] more[k],
        rhs.take(parent.pos + 1)[k],
    ) by {
        if k < kids.len() {
            assert(more[k] == kids[k]);
            assert(rhs.take(parent.pos as int)[k] == rhs.take(parent.pos + 1)[k]);
        }
    }
    assert(justifies(g, input, parent.advanced(), at, more));
}

/// Completion for a justified child, from justified parents, keeps a set
/// sound.
proof fn lemma_complete_sound(
    g: Seq<ProductionView>,
    input: Seq<char>,
    parents: Seq<EarleyItem>,
    child: EarleyItem,
    cur: Seq<EarleyItem>,
    n: nat,
    at: int,
)
    requires
        fits(g),
        proper(g),
        n <= parents.len(),
        at <= input.len(),
        item_ok(g, child, at),
        justified(g, input, child, at),
        child.spec_next_symbol(g).is_none(),
        set_ok(g, parents, child.start as int),
        set_sound(g, input, parents, child.start as int),
        set_sound(g, input, cur, at),
    ensures
        set_sound(g, input, complete(g, parents, child.lhs(g), cur, n), at),
    decreases n,
{
    if n > 0 {
        lemma_complete_sound(g, input, parents, child, cur, (n - 1) as nat, at);
        let parent = parents[n - 1];
        if parent.spec_next_symbol(g) == Some(child.lhs(g)) {
            assert(item_ok(g, parent, child.start as int));
            lemma_completed_justified(g, input, parent, child, at);
            lemma_insert_sound(
                g,
                input,
                complete(g, parents, child.lhs(g), cur, (n - 1) as nat),
                parent.advanced(),
                at,
            );
        }
    }
}

/// One step of the fixpoint keeps both sets sound.
proof fn lemma_process_sound(
    g: Seq<ProductionView>,
    input: Seq<char>,
    done: Seq<Seq<EarleyItem>>,
    w: Work,
    cursor: int,
)
    requires
        fits(g),
        proper(g),
        chart_ok(g, done),
        chart_sound(g, input, done),
        done.len() < usize::MAX,
        done.len() <= input.len(),
        set_ok(g, w.cur, done.len() as int),
        set_ok(g, w.next, done.len() as int + 1),
        set_sound(g, input, w.cur, done.len() as int),
        set_sound(g, input, w.next, done.len() as int + 1),
        0 <= cursor < w.cur.len(),
    ensures
        set_sound(
            g,
            input,
            process(g, done, w, input_at(input, done.len() as int), cursor).cur,
            done.len() as int,
        ),
        set_sound(
            g,
            input,
            process(g, done, w, input_at(input, done.len() as int), cursor).next,
            done.len() as int + 1,
        ),
{
    let item = w.cur[cursor];
    let at = done.len() as int;
    let ch = input_at(input, at);
    assert(item_ok(g, item, at));
    assert(justified(g, input, item, at));
    match item.spec_next_symbol(g) {
        Some(SymbolView::Nonterminal(name)) => {
            let x = SymbolView::Nonterminal(name);
            lemma_predict_sound(g, input, x, done.len() as usize, w.cur, g.len());
        },
        Some(SymbolView::Terminal(chars)) => {
            if matches_input(SymbolView::Terminal(chars), ch) {
                lemma_scanned_justified(g, input, item, at);
                lemma_insert_sound(g, input, w.next, item.advanced(), at + 1);
            }
        },
        None => {
            let parents = parents_of(done, w.cur, item.start);
            if item.start < done.len() {
                assert(set_ok(g, done[item.start as int], item.start as int));
                assert(set_sound(g, input, done[item.start as int], item.start as int));
            }
            lemma_complete_sound(g, input, parents, item, w.cur, parents.len(), at);
        },
    }
}

/// The fixpoint keeps both sets sound.
proof fn lemma_run_from_sound(
    g: Seq<ProductionView>,
    input: Seq<char>,
    done: Seq<Seq<EarleyItem>>,
    w: Work,
    cursor: int,
)
    requires
        fits(g),
        proper(g),
        chart_ok(g, done),
        chart_sound(g, input, done),
        done.len() < usize::MAX,
        done.len() <= input.len(),
        set_ok(g, w.cur, done.len() as int),
        set_ok(g, w.next, done.len() as int + 1),
        set_sound(g, input, w.cur, done.len() as int),
        set_sound(g, input, w.next, done.len() as int + 1),
        0 <= cursor <= w.cur.len(),
    ensures
        set_sound(
            g,
            input,
            run_from(g, done, w, input_at(input, done.len() as int), cursor).cur,
            done.len() as int,
        ),
        set_sound(
            g,
            input,
            run_from(g, done, w, input_at(input, done.len() as int), cursor).next,
            done.len() as int + 1,
        ),
    decreases item_space() - cursor,
{
    if cursor < w.cur.len() {
        let ch = input_at(input, done.len() as int);
        lemma_distinct_items_bounded(w.cur);
        lemma_process_ok(g, done, w, ch, cursor);
        lemma_process_sound(g, input, done, w, cursor);
        lemma_run_from_sound(g, input, done, process(g, done, w, ch, cursor), cursor + 1);
    }
}

/// What justifies an item of the chart does so whatever input follows.
proof fn lemma_sound_input_push(
    g: Seq<ProductionView>,
    input: Seq<char>,
    chart: Seq<Seq<EarleyItem>>,
    c: char,
)
    requires
        chart_ok(g, chart),
        chart.len() <= input.len() + 1,
        chart_sound(g, input, chart),
    ensures
        chart_sound(g, input.push(c), chart),
{
    assert forall|i: int| 0 <= i < chart.len() implies set_sound(
        g,
        input.push(c),
        #[trigger] chart[i],
        i,
    ) by {
        assert(set_sound(g, input, chart[i], i));
        assert(set_ok(g, chart[i], i));
        assert forall|k: int| 0 <= k < chart[i].len() implies justified(
            g,
            input.push(c),
            #[trigger] chart[i][k],
            i,
        ) by {
            let item = chart[i][k];
            assert(item_ok(g, item, i));
            let kids = choose|kids: Seq<Tree>| justifies(g, input, item, i, kids);
            assert(input.subrange(item.start as int, i) =~= input.push(c).subrange(
                item.start as int,
                i,
            ));
            assert(justifies(g, input.push(c), item, i, kids));
        }
    }
}

/// Extending a sound chart gives a sound chart.
proof fn lemma_extend_sound(g: Seq<ProductionView>, chart: Seq<Seq<EarleyItem>>, input: Seq<char>)
    requires
        fits(g),
        proper(g),
        1 <= chart.len() <= input.len() + 1,
        input.len() < usize::MAX,
        chart_ok(g, chart),
        chart_sound(g, input, chart),
    ensures
        chart_sound(g, input, extend(g, chart, input)),
    decreases input.len() + 1 - chart.len(),
{
    let at = chart.len() - 1;
    let done = chart.drop_last();
    let start = Work { cur: chart.last(), next: Seq::empty() };
    let w = stabilize(g, done, chart.last(), input_at(input, at));
    assert(set_ok(g, chart[at], at));
    assert(set_sound(g, input, chart[at], at));
    assert forall|i: int| 0 <= i < done.len() implies set_ok(g, #[trigger] done[i], i) && set_sound(
        g,
        input,
        done[i],
        i,
    ) by {
        assert(done[i] == chart[i]);
    }
    lemma_run_from_ok(g, done, start, input_at(input, at), 0);
    lemma_run_from_sound(g, input, done, start, 0);
    let settled = done.push(w.cur);
    assert forall|i: int| 0 <= i < settled.len() implies set_ok(g, #[trigger] settled[i], i)
        && set_sound(g, input, settled[i], i) by {
        if i < done.len() {
            assert(settled[i] == done[i]);
        }
    }
    if at < input.len() && w.next.len() > 0 {
        let grown = settled.push(w.next);
        assert forall|i: int| 0 <= i < grown.len() implies set_ok(g, #[trigger] grown[i], i)
            && set_sound(g, input, grown[i], i) by {
            if i < settled.len() {
                assert(grown[i] == settled[i]);
            }
        }
        lemma_extend_sound(g, grown, input);
    }
}

/// The state is well formed and every item of its chart is justified.
pub open spec fn state_sound(state: ParserView) -> bool {
    &&& state.wf()
    &&& chart_sound(state.grammar, state.input, state.chart)
}

/// A fresh parser is in a sound state.
pub proof fn lemma_initial_sound(g: Seq<ProductionView>, start: SymbolView)
    requires
        fits(g),
    ensures
        state_sound(initial_state(g, start)),
{
    lemma_seed_ok(g, g.len());
    lemma_seed_sound(g, Seq::empty(), g.len());
}

/// Consuming an input element keeps the state sound.
pub proof fn lemma_consumed_sound(state: ParserView, ch: char)
    requires
        state_sound(state),
        proper(state.grammar),
        state.input.len() + 1 < usize::MAX,
    ensures
        state_sound(consumed(state, ch)),
{
    lemma_sound_input_push(state.grammar, state.input, state.chart, ch);
    lemma_extend_ok(state.grammar, state.chart, state.input.push(ch));
    lemma_extend_sound(state.grammar, state.chart, state.input.push(ch));
}

/// Feeding a text keeps the state sound; and if the state accepts in the
/// end, the whole text has been taken in.
pub proof fn lemma_fed_sound(state: ParserView, text: Seq<char>)
    requires
        state_sound(state),
        proper(state.grammar),
        state.input.len() + text.len() < usize::MAX,
    ensures
        state_sound(fed(state, text).state),
        fed(state, text).state.grammar == state.grammar,
        fed(state, text).state.start_symbol == state.start_symbol,
        fed(state, text).state.accepts() ==> fed(state, text).state.input == state.input + text,
    decreases text.len(),
{
    if text.len() == 0 {
        assert(state.input + text =~= state.input);
    } else {
        let after = consumed(state, text[0]);
        lemma_consumed_sound(state, text[0]);
        lemma_extend_ok(state.grammar, state.chart, state.input.push(text[0]));
        if after.chart.len() > state.chart.len() {
            lemma_fed_sound(after, text.drop_first());
            assert(state.input.push(text[0]) + text.drop_first() =~= state.input + text);
        }
    }
}

/// Consuming elements one by one keeps the state sound.
pub proof fn lemma_taken_sound(state: ParserView, text: Seq<char>, n: nat)
    requires
        state_sound(state),
        proper(state.grammar),
        n <= text.len(),
        state.input.len() + text.len() < usize::MAX,
    ensures
        state_sound(taken(state, text, n)),
        taken(state, text, n).grammar == state.grammar,
        taken(state, text, n).start_symbol == state.start_symbol,
        taken(state, text, n).input == state.input + text.take(n as int),
    decreases n,
{
    if n == 0 {
        assert(state.input + text.take(0) =~= state.input);
    } else {
        lemma_taken_sound(state, text, (n - 1) as nat);
        lemma_consumed_sound(taken(state, text, (n - 1) as nat), text[n - 1]);
        assert((state.input + text.take(n - 1)).push(text[n - 1]) =~= state.input + text.take(
            n as int,
        ));
    }
}

/// In a sound state that accepts, the input derives from the start symbol.
pub proof fn lemma_accepting_derives(state: ParserView)
    requires
        state_sound(state),
        proper(state.grammar),
        state.accepts(),
    ensures
        derives(state.grammar, state.start_symbol, state.input),
{
    let g = state.grammar;
    let last = state.chart.last();
    let at = state.chart.len() - 1;
    let k = choose|k: int| 0 <= k < last.len() && is_final_item(g, state.start_symbol, #[trigger] last[k]);
    let item = last[k];
    assert(set_ok(g, state.chart[at], at));
    assert(set_sound(g, state.input, state.chart[at], at));
    assert(item_ok(g, item, at));
    assert(justified(g, state.input, item, at));
    let kids = choose|kids: Seq<Tree>| justifies(g, state.input, item, at, kids);
    let rhs = g[item.production as int].rhs;
    assert(rhs.take(item.pos as int) =~= rhs);
    assert(state.input.subrange(0, at) =~= state.input);
    let t = Tree::Node(item.production as int, kids);
    assert(parses(g, t, state.start_symbol));
    assert(yield_of(t) == state.input);
}

} // verus!
