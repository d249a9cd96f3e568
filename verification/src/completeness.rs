//! Under a grammar without empty right-hand sides the chart misses nothing:
//! whatever the symbols right of an item's dot derive carries the item
//! through the chart.

use crate::chart::{
    extend, extends, input_at, is_final_item, lemma_canonical, lemma_extends_contains,
    lemma_run_from_ok, lemma_seed_ok, matches_input, predicted, set_ok, stabilize, Work,
};
use crate::derivation::{
    derives, forest, lemma_yield_nonempty, lemma_yields_take, parses, yield_of, yields, Tree,
};
use crate::fixpoint::{handled, handled_upto, lemma_run_from_handles};
use crate::grammar::{epsilon_free, fits, proper, ProductionView, SymbolView};
use crate::item::EarleyItem;
use crate::parser::{
    consumed, fed, initial_state, lemma_consumed_wf, lemma_initial_wf, recognizes, taken,
    ParserView,
};
use vstd::prelude::*;

verus! {

/// Every item of set `i` has what it predicts in the set, and every parent
/// of each complete item that began earlier stands advanced in the set.
pub open spec fn pc_closed(g: Seq<ProductionView>, sets: Seq<Seq<EarleyItem>>, i: int) -> bool {
    handled_upto(
        g,
        sets.take(i),
        Work { cur: sets[i], next: Seq::empty() },
        None,
        sets[i].len() as int,
    )
}

/// Every item of set `i` that scans the element of `text` at position `i`
/// stands advanced in set `i + 1`.
pub open spec fn scan_closed(
    g: Seq<ProductionView>,
    sets: Seq<Seq<EarleyItem>>,
    text: Seq<char>,
    i: int,
) -> bool {
    forall|k: int|
        0 <= k < sets[i].len() && scans(g, #[trigger] sets[i][k], text[i]) ==> sets[i + 1].contains(
            sets[i][k].advanced(),
        )
}

/// The symbol right of the dot of `item` is a terminal that accepts `c`.
pub open spec fn scans(g: Seq<ProductionView>, item: EarleyItem, c: char) -> bool {
    item.spec_next_symbol(g) matches Some(symbol) && matches_input(symbol, Some(c))
}

/// The sets up to `m` miss no prediction and no completion, and each set
/// before `m` has been scanned into the one behind it.
pub open spec fn closed(
    g: Seq<ProductionView>,
    sets: Seq<Seq<EarleyItem>>,
    text: Seq<char>,
    m: int,
) -> bool {
    &&& 0 <= m < sets.len()
    &&& m <= text.len()
    &&& forall|i: int| 0 <= i <= m ==> #[trigger] pc_closed(g, sets, i)
    &&& forall|i: int| 0 <= i < m ==> #[trigger] scan_closed(g, sets, text, i)
}

/// `item` with its dot moved `n` symbols to the right.
pub open spec fn advanced_by(item: EarleyItem, n: int) -> EarleyItem {
    EarleyItem { production: item.production, pos: (item.pos + n) as usize, start: item.start }
}

/// The two parts of a stretch of text.
proof fn lemma_split(text: Seq<char>, a: int, b: int, x: Seq<char>, y: Seq<char>)
    requires
        0 <= a <= b <= text.len(),
        x + y == text.subrange(a, b),
    ensures
        a + x.len() <= b,
        x == text.subrange(a, a + x.len()),
        y == text.subrange(a + x.len(), b),
{
    let whole = x + y;
    assert(whole.len() == b - a);
    assert forall|i: int| 0 <= i < x.len() implies x[i] == text.subrange(a, a + x.len())[i] by {
        assert(whole[i] == x[i]);
    }
    assert(x =~= text.subrange(a, a + x.len()));
    assert forall|i: int| 0 <= i < y.len() implies y[i] == text.subrange(a + x.len(), b)[i] by {
        assert(whole[x.len() + i] == y[i]);
    }
    assert(y =~= text.subrange(a + x.len(), b));
}

/// An item of set `a` whose next symbols derive the text from `a` to `b`
/// stands in set `b` with its dot behind those symbols.
pub proof fn lemma_forest_advances(
    g: Seq<ProductionView>,
    sets: Seq<Seq<EarleyItem>>,
    text: Seq<char>,
    m: int,
    item: EarleyItem,
    a: int,
    kids: Seq<Tree>,
    b: int,
)
    requires
        fits(g),
        epsilon_free(g),
        text.len() < usize::MAX,
        closed(g, sets, text, m),
        0 <= a <= b <= m,
        item.wf(g),
        sets[a].contains(item),
        item.pos + kids.len() <= g[item.production as int].rhs.len(),
        forest(
            g,
            kids,
            g[item.production as int].rhs.subrange(item.pos as int, item.pos + kids.len()),
        ),
        yields(kids) == text.subrange(a, b),
    ensures
        sets[b].contains(advanced_by(item, kids.len() as int)),
    decreases kids,
{
    let rhs = g[item.production as int].rhs;
    if kids.len() == 0 {
        assert(text.subrange(a, b).len() == 0);
        assert(advanced_by(item, 0) == item);
    } else {
        let front = kids.drop_last();
        let t = kids.last();
        lemma_split(text, a, b, yields(front), yield_of(t));
        let mid = a + yields(front).len();
        let symbol = rhs[item.pos + front.len()];
        assert(rhs.subrange(item.pos as int, item.pos + kids.len())[kids.len() - 1] == symbol);
        assert(parses(g, kids[kids.len() - 1], symbol));
        assert forall|k: int| 0 <= k < front.len() implies parses(
            g,
            #[trigger] front[k],
            rhs.subrange(item.pos as int, item.pos + front.len())[k],
        ) by {
            assert(front[k] == kids[k]);
            assert(rhs.subrange(item.pos as int, item.pos + kids.len())[k] == rhs.subrange(
                item.pos as int,
                item.pos + front.len(),
            )[k]);
        }
        lemma_forest_advances(g, sets, text, m, item, a, front, mid);
        let waiting = advanced_by(item, front.len() as int);
        assert(waiting.spec_next_symbol(g) == Some(symbol));
        assert(waiting.advanced() == advanced_by(item, kids.len() as int));
        let k1 = choose|k: int| 0 <= k < sets[mid].len() && sets[mid][k] == waiting;
        match t {
            Tree::Leaf(c) => {
                assert(yield_of(t) =~= seq![c]);
                assert(text.subrange(mid, b)[0] == c);
                assert(b == mid + 1);
                assert(scan_closed(g, sets, text, mid));
                assert(scans(g, sets[mid][k1], text[mid]));
            },
            Tree::Node(q, below) => {
                lemma_canonical(g, q);
                lemma_yield_nonempty(g, t, symbol);
                assert(pc_closed(g, sets, mid));
                assert(sets.take(mid).len() == mid);
                let first = predicted(g, q, mid as usize);
                let w = Work { cur: sets[mid], next: Seq::empty() };
                assert(handled_upto(g, sets.take(mid), w, None, sets[mid].len() as int));
                assert(handled(g, sets.take(mid), w.cur, w.next, None, w.cur[k1]));
                assert(sets[mid].contains(first));
                let child_rhs = g[first.production as int].rhs;
                assert(child_rhs.subrange(0, below.len() as int) =~= child_rhs);
                lemma_forest_advances(g, sets, text, m, first, mid, below, b);
                let finished = advanced_by(first, below.len() as int);
                let k2 = choose|k: int| 0 <= k < sets[b].len() && sets[b][k] == finished;
                assert(pc_closed(g, sets, b));
                assert(sets.take(b).len() == b);
                let v = Work { cur: sets[b], next: Seq::empty() };
                assert(handled_upto(g, sets.take(b), v, None, sets[b].len() as int));
                assert(handled(g, sets.take(b), v.cur, v.next, None, v.cur[k2]));
                assert(finished.spec_next_symbol(g).is_none());
                assert(sets.take(b)[mid] == sets[mid]);
                assert(sets.take(b)[finished.start as int][k1] == waiting);
            },
        }
    }
}

/// The yield of the first trees of a forest is the beginning of the yield
/// of the forest.
proof fn lemma_yields_take_prefix(kids: Seq<Tree>, c: int)
    requires
        0 <= c <= kids.len(),
    ensures
        yields(kids.take(c)).len() <= yields(kids).len(),
        yields(kids.take(c)) == yields(kids).take(yields(kids.take(c)).len() as int),
    decreases kids.len(),
{
    if c == kids.len() {
        assert(kids.take(c) =~= kids);
        assert(yields(kids).take(yields(kids).len() as int) =~= yields(kids));
    } else {
        let front = kids.drop_last();
        assert(kids.take(c) =~= front.take(c));
        lemma_yields_take_prefix(front, c);
        let part = yields(front.take(c));
        assert(part =~= yields(kids).take(part.len() as int));
    }
}

/// Below a production that was predicted at `a` and spans the text from `a`
/// to `b`, some item of set `m` scans the element at position `m`, for each
/// `m` from `a` up to `b`.
proof fn lemma_finds_scanner(
    g: Seq<ProductionView>,
    sets: Seq<Seq<EarleyItem>>,
    text: Seq<char>,
    m: int,
    q: int,
    kids: Seq<Tree>,
    a: int,
    b: int,
    c: int,
)
    requires
        fits(g),
        epsilon_free(g),
        text.len() < usize::MAX,
        closed(g, sets, text, m),
        0 <= a <= m < b <= text.len(),
        0 <= q < g.len(),
        forest(g, kids, g[q].rhs),
        yields(kids) == text.subrange(a, b),
        sets[a].contains(predicted(g, q, a as usize)),
        0 <= c <= kids.len(),
        a + yields(kids.take(c)).len() <= m,
    ensures
        exists|k: int| 0 <= k < sets[m].len() && scans(g, #[trigger] sets[m][k], text[m]),
    decreases kids, kids.len() - c,
{
    let rhs = g[q].rhs;
    let seen = yields(kids.take(c));
    let mid = a + seen.len();
    lemma_yields_take_prefix(kids, c);
    assert(seen =~= text.subrange(a, mid));
    if c == kids.len() {
        assert(kids.take(c) =~= kids);
        assert(false);
    }
    let first = predicted(g, q, a as usize);
    lemma_canonical(g, q);
    assert(g[first.production as int] == g[q]);
    assert forall|k: int| 0 <= k < kids.take(c).len() implies parses(
        g,
        #[trigger] kids.take(c)[k],
        rhs.subrange(0, c)[k],
    ) by {
        assert(kids.take(c)[k] == kids[k]);
    }
    lemma_forest_advances(g, sets, text, m, first, a, kids.take(c), mid);
    let waiting = advanced_by(first, c);
    let t = kids[c];
    let symbol = rhs[c];
    assert(parses(g, t, symbol));
    assert(waiting.spec_next_symbol(g) == Some(symbol));
    lemma_yield_nonempty(g, t, symbol);
    lemma_yields_take(kids, c);
    lemma_yields_take_prefix(kids, c + 1);
    let end = mid + yield_of(t).len();
    assert(seen + yield_of(t) =~= text.subrange(a, end));
    lemma_split(text, a, end, seen, yield_of(t));
    if end <= m {
        lemma_finds_scanner(g, sets, text, m, q, kids, a, b, c + 1);
    } else {
        let k1 = choose|k: int| 0 <= k < sets[mid].len() && sets[mid][k] == waiting;
        match t {
            Tree::Leaf(ch) => {
                assert(yield_of(t) =~= seq![ch]);
                assert(text.subrange(mid, end)[0] == ch);
                assert(scans(g, sets[m][k1], text[m]));
            },
            Tree::Node(q2, below) => {
                assert(pc_closed(g, sets, mid));
                assert(sets.take(mid).len() == mid);
                let w = Work { cur: sets[mid], next: Seq::empty() };
                assert(handled_upto(g, sets.take(mid), w, None, sets[mid].len() as int));
                assert(handled(g, sets.take(mid), w.cur, w.next, None, w.cur[k1]));
                assert(sets[mid].contains(predicted(g, q2, mid as usize)));
                assert(below.take(0) =~= Seq::<Tree>::empty());
                lemma_finds_scanner(g, sets, text, m, q2, below, mid, end, 0);
            },
        }
    }
}

/// The first set holds an item for every production.
pub open spec fn seeded(g: Seq<ProductionView>, sets: Seq<Seq<EarleyItem>>) -> bool {
    forall|q: int| 0 <= q < g.len() ==> sets[0].contains(#[trigger] predicted(g, q, 0))
}

/// The state has consumed the first `m` elements of `text` without halting,
/// and its chart misses nothing so far.
pub open spec fn on_track(state: ParserView, text: Seq<char>, m: int) -> bool {
    &&& state.wf()
    &&& 0 <= m <= text.len()
    &&& state.chart.len() == m + 1
    &&& state.input == text.take(m)
    &&& seeded(state.grammar, state.chart)
    &&& forall|i: int| 0 <= i < m ==> #[trigger] pc_closed(state.grammar, state.chart, i)
    &&& forall|i: int| 0 <= i < m ==> #[trigger] scan_closed(state.grammar, state.chart, text, i)
    &&& m >= 1 ==> pc_closed(state.grammar, state.chart, m)
}

/// What is handled with an input element at hand is handled without one.
proof fn lemma_handled_upto_without_input(
    g: Seq<ProductionView>,
    done: Seq<Seq<EarleyItem>>,
    w: Work,
    ch: Option<char>,
)
    requires
        handled_upto(g, done, w, ch, w.cur.len() as int),
    ensures
        handled_upto(g, done, Work { cur: w.cur, next: Seq::empty() }, None, w.cur.len() as int),
{
    let v = Work { cur: w.cur, next: Seq::<EarleyItem>::empty() };
    assert forall|c: int| 0 <= c < w.cur.len() implies handled(
        g,
        done,
        v.cur,
        v.next,
        None,
        #[trigger] v.cur[c],
    ) by {
        assert(handled(g, done, w.cur, w.next, ch, w.cur[c]));
    }
}

/// Set `i` is closed in `sets` if it is closed in a chart that agrees with
/// `sets` up to `i`.
proof fn lemma_pc_closed_same(
    g: Seq<ProductionView>,
    old_sets: Seq<Seq<EarleyItem>>,
    sets: Seq<Seq<EarleyItem>>,
    i: int,
)
    requires
        0 <= i < old_sets.len(),
        i < sets.len(),
        forall|j: int| 0 <= j <= i ==> sets[j] == old_sets[j],
        pc_closed(g, old_sets, i),
    ensures
        pc_closed(g, sets, i),
{
    assert(sets.take(i) =~= old_sets.take(i));
}

/// Set `i` stays scanned into its successor when the successor grows.
proof fn lemma_scan_closed_grows(
    g: Seq<ProductionView>,
    old_sets: Seq<Seq<EarleyItem>>,
    sets: Seq<Seq<EarleyItem>>,
    text: Seq<char>,
    i: int,
)
    requires
        0 <= i,
        i + 1 < old_sets.len(),
        i + 1 < sets.len(),
        sets[i] == old_sets[i],
        extends(sets[i + 1], old_sets[i + 1]),
        scan_closed(g, old_sets, text, i),
    ensures
        scan_closed(g, sets, text, i),
{
    assert forall|k: int| 0 <= k < sets[i].len() && scans(g, #[trigger] sets[i][k], text[i]) implies sets[i
        + 1].contains(sets[i][k].advanced()) by {
        assert(old_sets[i][k] == sets[i][k]);
        lemma_extends_contains(sets[i + 1], old_sets[i + 1], sets[i][k].advanced());
    }
}

/// Consuming the next element of a text that derives from a production
/// keeps the state on track.
proof fn lemma_consumed_on_track(state: ParserView, text: Seq<char>, m: int, q: int, kids: Seq<Tree>)
    requires
        on_track(state, text, m),
        m < text.len() < usize::MAX,
        epsilon_free(state.grammar),
        0 <= q < state.grammar.len(),
        forest(state.grammar, kids, state.grammar[q].rhs),
        yields(kids) == text,
    ensures
        on_track(consumed(state, text[m]), text, m + 1),
{
    let g = state.grammar;
    let chart = state.chart;
    let input = state.input.push(text[m]);
    assert(input =~= text.take(m + 1));
    lemma_consumed_wf(state, text[m]);
    let done = chart.drop_last();
    assert(done =~= chart.take(m));
    let ch = input_at(input, m);
    assert(ch == Some(text[m]));
    let start = Work { cur: chart[m], next: Seq::empty() };
    let r = stabilize(g, done, chart.last(), ch);
    assert(set_ok(g, chart[m], m));
    assert forall|i: int| 0 <= i < done.len() implies set_ok(g, #[trigger] done[i], i) by {
        assert(done[i] == chart[i]);
    }
    lemma_run_from_ok(g, done, start, ch, 0);
    lemma_run_from_handles(g, done, start, ch, 0);
    lemma_handled_upto_without_input(g, done, r, ch);
    let settled = done.push(r.cur);
    let sets = settled.push(r.next);
    // The chart with the scanned set appended is closed up to `m`.
    assert(sets.take(m) =~= done);
    assert forall|i: int| 0 <= i <= m implies #[trigger] pc_closed(g, sets, i) by {
        if i < m {
            assert(pc_closed(g, chart, i));
            lemma_pc_closed_same(g, chart, sets, i);
        }
    }
    assert forall|i: int| 0 <= i < m implies #[trigger] scan_closed(g, sets, text, i) by {
        assert(scan_closed(g, chart, text, i));
        lemma_scan_closed_grows(g, chart, sets, text, i);
    }
    assert(closed(g, sets, text, m));
    assert(scan_closed(g, sets, text, m)) by {
        assert forall|k: int|
            0 <= k < sets[m].len() && scans(g, #[trigger] sets[m][k], text[m]) implies sets[m
            + 1].contains(sets[m][k].advanced()) by {
            assert(handled(g, done, r.cur, r.next, ch, r.cur[k]));
        }
    }
    assert(seeded(g, sets)) by {
        assert forall|p: int| 0 <= p < g.len() implies sets[0].contains(#[trigger] predicted(g, p, 0)) by {
            lemma_extends_contains(sets[0], chart[0], predicted(g, p, 0));
        }
    }
    // Some item scans the element, so the chart grows.
    assert(kids.take(0) =~= Seq::<Tree>::empty());
    assert(text.subrange(0, text.len() as int) =~= text);
    lemma_finds_scanner(g, sets, text, m, q, kids, 0, text.len() as int, 0);
    let k = choose|k: int| 0 <= k < sets[m].len() && scans(g, #[trigger] sets[m][k], text[m]);
    assert(r.next.contains(sets[m][k].advanced()));
    assert(r.next.len() > 0);
    // The new set is brought to its fixpoint without input.
    assert(sets.drop_last() =~= settled);
    assert(input_at(input, m + 1) == None::<char>);
    let r2 = stabilize(g, settled, r.next, None);
    let last = settled.push(r2.cur);
    assert(extend(g, sets, input) == last);
    assert(extend(g, chart, input) == last);
    assert forall|i: int| 0 <= i < settled.len() implies set_ok(g, #[trigger] settled[i], i) by {
        if i < done.len() {
            assert(settled[i] == done[i]);
        }
    }
    let start2 = Work { cur: r.next, next: Seq::empty() };
    lemma_run_from_ok(g, settled, start2, None, 0);
    lemma_run_from_handles(g, settled, start2, None, 0);
    lemma_handled_upto_without_input(g, settled, r2, None);
    assert(last.take(m + 1) =~= settled);
    assert forall|i: int| 0 <= i < m + 1 implies #[trigger] pc_closed(g, last, i) by {
        lemma_pc_closed_same(g, sets, last, i);
    }
    assert forall|i: int| 0 <= i < m + 1 implies #[trigger] scan_closed(g, last, text, i) by {
        lemma_scan_closed_grows(g, sets, last, text, i);
    }
    assert(pc_closed(g, last, m + 1));
    assert(seeded(g, last)) by {
        assert forall|p: int| 0 <= p < g.len() implies last[0].contains(#[trigger] predicted(g, p, 0)) by {
            assert(last[0] == sets[0]);
        }
    }
}

/// Feeding the rest of a text that derives from a production takes in all
/// of it and leaves the state on track.
proof fn lemma_fed_on_track(state: ParserView, text: Seq<char>, m: int, q: int, kids: Seq<Tree>)
    requires
        on_track(state, text, m),
        text.len() < usize::MAX,
        epsilon_free(state.grammar),
        0 <= q < state.grammar.len(),
        forest(state.grammar, kids, state.grammar[q].rhs),
        yields(kids) == text,
    ensures
        on_track(fed(state, text.skip(m)).state, text, text.len() as int),
        fed(state, text.skip(m)).all,
        fed(state, text.skip(m)).state.grammar == state.grammar,
        fed(state, text.skip(m)).state.start_symbol == state.start_symbol,
    decreases text.len() - m,
{
    let rest = text.skip(m);
    if m < text.len() {
        assert(rest[0] == text[m]);
        lemma_consumed_on_track(state, text, m, q, kids);
        assert(rest.drop_first() =~= text.skip(m + 1));
        lemma_fed_on_track(consumed(state, text[m]), text, m + 1, q, kids);
    }
}

/// Consuming, one by one, the first elements of a text that derives from a
/// production leaves the state on track.
proof fn lemma_taken_on_track(state: ParserView, text: Seq<char>, n: nat, q: int, kids: Seq<Tree>)
    requires
        on_track(state, text, 0),
        n <= text.len() < usize::MAX,
        epsilon_free(state.grammar),
        0 <= q < state.grammar.len(),
        forest(state.grammar, kids, state.grammar[q].rhs),
        yields(kids) == text,
    ensures
        on_track(taken(state, text, n), text, n as int),
        taken(state, text, n).grammar == state.grammar,
        taken(state, text, n).start_symbol == state.start_symbol,
    decreases n,
{
    if n > 0 {
        lemma_taken_on_track(state, text, (n - 1) as nat, q, kids);
        lemma_consumed_on_track(taken(state, text, (n - 1) as nat), text, n - 1, q, kids);
    }
}

/// In a state that is on track at the end of a text which derives from a
/// production of the start symbol, the text is accepted.
proof fn lemma_on_track_accepts(state: ParserView, text: Seq<char>, q: int, kids: Seq<Tree>)
    requires
        on_track(state, text, text.len() as int),
        0 < text.len() < usize::MAX,
        fits(state.grammar),
        epsilon_free(state.grammar),
        0 <= q < state.grammar.len(),
        state.grammar[q].lhs == state.start_symbol,
        forest(state.grammar, kids, state.grammar[q].rhs),
        yields(kids) == text,
    ensures
        state.accepts(),
{
    let g = state.grammar;
    let n = text.len() as int;
    assert(text.take(n) =~= text);
    assert(closed(g, state.chart, text, n));
    let first = predicted(g, q, 0);
    lemma_canonical(g, q);
    let rhs = g[first.production as int].rhs;
    assert(rhs.subrange(0, kids.len() as int) =~= rhs);
    assert(text.subrange(0, n) =~= text);
    lemma_forest_advances(g, state.chart, text, n, first, 0, kids, n);
    let found = advanced_by(first, kids.len() as int);
    let k = choose|k: int| 0 <= k < state.chart[n].len() && state.chart[n][k] == found;
    assert(is_final_item(g, state.start_symbol, state.chart.last()[k]));
}

/// A text that derives from the start symbol is accepted after its elements
/// have been consumed one by one, under a grammar whose productions all have
/// a nonterminal on the left and at least one symbol on the right.
pub proof fn lemma_derives_accepted_stepwise(
    g: Seq<ProductionView>,
    start: SymbolView,
    text: Seq<char>,
)
    requires
        fits(g),
        proper(g),
        epsilon_free(g),
        start is Nonterminal,
        text.len() < usize::MAX,
        derives(g, start, text),
    ensures
        taken(initial_state(g, start), text, text.len()).accepts(),
{
    let t = choose|t: Tree| parses(g, t, start) && yield_of(t) == text;
    match t {
        Tree::Leaf(c) => {},
        Tree::Node(q, kids) => {
            let state = initial_state(g, start);
            lemma_initial_wf(g, start);
            lemma_seed_ok(g, g.len());
            assert(text.take(0) =~= Seq::<char>::empty());
            assert(on_track(state, text, 0));
            lemma_taken_on_track(state, text, text.len(), q, kids);
            lemma_yield_nonempty(g, t, start);
            lemma_on_track_accepts(taken(state, text, text.len()), text, q, kids);
        },
    }
}

/// A text that derives from the start symbol is recognized, under a grammar
/// whose productions all have a nonterminal on the left and at least one
/// symbol on the right.
pub proof fn lemma_derives_recognized(g: Seq<ProductionView>, start: SymbolView, text: Seq<char>)
    requires
        fits(g),
        proper(g),
        epsilon_free(g),
        start is Nonterminal,
        text.len() < usize::MAX,
        derives(g, start, text),
    ensures
        recognizes(g, start, text),
{
    let t = choose|t: Tree| parses(g, t, start) && yield_of(t) == text;
    match t {
        Tree::Leaf(c) => {},
        Tree::Node(q, kids) => {
            let state = initial_state(g, start);
            lemma_initial_wf(g, start);
            lemma_seed_ok(g, g.len());
            assert(text.take(0) =~= Seq::<char>::empty());
            assert(on_track(state, text, 0));
            assert(text.skip(0) =~= text);
            lemma_fed_on_track(state, text, 0, q, kids);
            lemma_yield_nonempty(g, t, start);
            lemma_on_track_accepts(fed(state, text).state, text, q, kids);
        },
    }
}

} // verus!
