//! What the fixpoint achieves: every item of a set that has been brought to
//! its fixpoint has its consequences in place, and bringing the set to its
//! fixpoint again changes nothing.

use crate::chart::{
    chart_ok, complete, extends, item_ok, item_space, lemma_complete_extends,
    lemma_distinct_items_bounded, lemma_extends_contains, lemma_insert_contains,
    lemma_process_ok, lemma_run_from_ok, matches_input, parents_of, predict, predicted, process,
    run_from, set_ok, stabilize, Work,
};
use crate::grammar::{epsilon_free, fits, ProductionView, SymbolView};
use crate::item::EarleyItem;
use vstd::prelude::*;

verus! {

/// The consequences of `item`, which stands in the set `cur` behind the sets
/// `done`, are in place: what it predicts is in `cur`; if it scans `ch`, its
/// advanced form is in `next`; if it is complete and began at an earlier
/// position, every parent that waited for it there stands advanced in `cur`.
pub open spec fn handled(
    g: Seq<ProductionView>,
    done: Seq<Seq<EarleyItem>>,
    cur: Seq<EarleyItem>,
    next: Seq<EarleyItem>,
    ch: Option<char>,
    item: EarleyItem,
) -> bool {
    match item.spec_next_symbol(g) {
        Some(SymbolView::Nonterminal(name)) => forall|q: int|
            0 <= q < g.len() && g[q].lhs == SymbolView::Nonterminal(name) ==> cur.contains(
                #[trigger] predicted(g, q, done.len() as usize),
            ),
        Some(SymbolView::Terminal(chars)) => matches_input(SymbolView::Terminal(chars), ch)
            ==> next.contains(item.advanced()),
        None => item.start < done.len() ==> {
            let parents = done[item.start as int];
            forall|k: int|
                0 <= k < parents.len() && (#[trigger] parents[k]).spec_next_symbol(g) == Some(
                    item.lhs(g),
                ) ==> cur.contains(parents[k].advanced())
        },
    }
}

/// The first `upto` items of `w.cur` are handled.
pub open spec fn handled_upto(
    g: Seq<ProductionView>,
    done: Seq<Seq<EarleyItem>>,
    w: Work,
    ch: Option<char>,
    upto: int,
) -> bool {
    forall|c: int| 0 <= c < upto ==> handled(g, done, w.cur, w.next, ch, #[trigger] w.cur[c])
}

/// After prediction the set holds what it held and every item that was
/// to be predicted.
proof fn lemma_predict_contains(
    g: Seq<ProductionView>,
    x: SymbolView,
    at: usize,
    cur: Seq<EarleyItem>,
    n: nat,
)
    ensures
        extends(predict(g, x, at, cur, n), cur),
        forall|q: int|
            0 <= q < n && g[q].lhs == x ==> predict(g, x, at, cur, n).contains(
                #[trigger] predicted(g, q, at),
            ),
    decreases n,
{
    if n > 0 {
        let before = predict(g, x, at, cur, (n - 1) as nat);
        lemma_predict_contains(g, x, at, cur, (n - 1) as nat);
        assert forall|q: int| 0 <= q < n && g[q].lhs == x implies predict(g, x, at, cur, n).contains(
            #[trigger] predicted(g, q, at),
        ) by {
            lemma_insert_contains(before, predicted(g, n - 1, at), predicted(g, q, at));
        }
    }
}

/// After completion the set holds what it held and every parent that was
/// to be advanced.
proof fn lemma_complete_contains(
    g: Seq<ProductionView>,
    parents: Seq<EarleyItem>,
    lhs: SymbolView,
    cur: Seq<EarleyItem>,
    n: nat,
)
    ensures
        extends(complete(g, parents, lhs, cur, n), cur),
        forall|k: int|
            0 <= k < n && (#[trigger] parents[k]).spec_next_symbol(g) == Some(lhs) ==> complete(
                g,
                parents,
                lhs,
                cur,
                n,
            ).contains(parents[k].advanced()),
    decreases n,
{
    if n > 0 {
        let before = complete(g, parents, lhs, cur, (n - 1) as nat);
        lemma_complete_contains(g, parents, lhs, cur, (n - 1) as nat);
        assert forall|k: int|
            0 <= k < n && (#[trigger] parents[k]).spec_next_symbol(g) == Some(lhs) implies complete(
            g,
            parents,
            lhs,
            cur,
            n,
        ).contains(parents[k].advanced()) by {
            lemma_insert_contains(before, parents[n - 1].advanced(), parents[k].advanced());
        }
    }
}

/// Prediction changes nothing in a set that holds all it would insert.
proof fn lemma_predict_absorbed(
    g: Seq<ProductionView>,
    x: SymbolView,
    at: usize,
    cur: Seq<EarleyItem>,
    n: nat,
)
    requires
        forall|q: int| 0 <= q < n && g[q].lhs == x ==> cur.contains(#[trigger] predicted(g, q, at)),
    ensures
        predict(g, x, at, cur, n) == cur,
    decreases n,
{
    if n > 0 {
        lemma_predict_absorbed(g, x, at, cur, (n - 1) as nat);
        if g[n - 1].lhs == x {
            assert(cur.contains(predicted(g, n - 1, at)));
        }
    }
}

/// Completion changes nothing in a set that holds all it would insert.
proof fn lemma_complete_absorbed(
    g: Seq<ProductionView>,
    parents: Seq<EarleyItem>,
    lhs: SymbolView,
    cur: Seq<EarleyItem>,
    n: nat,
)
    requires
        forall|k: int|
            0 <= k < n && (#[trigger] parents[k]).spec_next_symbol(g) == Some(lhs) ==> cur.contains(
                parents[k].advanced(),
            ),
    ensures
        complete(g, parents, lhs, cur, n) == cur,
    decreases n,
{
    if n > 0 {
        lemma_complete_absorbed(g, parents, lhs, cur, (n - 1) as nat);
        if parents[n - 1].spec_next_symbol(g) == Some(lhs) {
            assert(cur.contains(parents[n - 1].advanced()));
        }
    }
}

/// What is handled stays handled when the sets grow.
proof fn lemma_handled_grows(
    g: Seq<ProductionView>,
    done: Seq<Seq<EarleyItem>>,
    w: Work,
    bigger: Work,
    ch: Option<char>,
    item: EarleyItem,
)
    requires
        handled(g, done, w.cur, w.next, ch, item),
        extends(bigger.cur, w.cur),
        extends(bigger.next, w.next),
    ensures
        handled(g, done, bigger.cur, bigger.next, ch, item),
{
    match item.spec_next_symbol(g) {
        Some(SymbolView::Nonterminal(name)) => {
            assert forall|q: int|
                0 <= q < g.len() && g[q].lhs == SymbolView::Nonterminal(name) implies bigger.cur.contains(
                #[trigger] predicted(g, q, done.len() as usize),
            ) by {
                lemma_extends_contains(bigger.cur, w.cur, predicted(g, q, done.len() as usize));
            }
        },
        Some(SymbolView::Terminal(chars)) => {
            if matches_input(SymbolView::Terminal(chars), ch) {
                lemma_extends_contains(bigger.next, w.next, item.advanced());
            }
        },
        None => {
            if item.start < done.len() {
                let parents = done[item.start as int];
                assert forall|k: int|
                    0 <= k < parents.len() && (#[trigger] parents[k]).spec_next_symbol(g) == Some(
                        item.lhs(g),
                    ) implies bigger.cur.contains(parents[k].advanced()) by {
                    lemma_extends_contains(bigger.cur, w.cur, parents[k].advanced());
                }
            }
        },
    }
}

/// One step of the fixpoint handles the item at the cursor.
proof fn lemma_process_handles(
    g: Seq<ProductionView>,
    done: Seq<Seq<EarleyItem>>,
    w: Work,
    ch: Option<char>,
    cursor: int,
)
    requires
        0 <= cursor < w.cur.len(),
    ensures
        extends(process(g, done, w, ch, cursor).cur, w.cur),
        extends(process(g, done, w, ch, cursor).next, w.next),
        handled(
            g,
            done,
            process(g, done, w, ch, cursor).cur,
            process(g, done, w, ch, cursor).next,
            ch,
            w.cur[cursor],
        ),
{
    let item = w.cur[cursor];
    match item.spec_next_symbol(g) {
        Some(SymbolView::Nonterminal(name)) => {
            lemma_predict_contains(g, SymbolView::Nonterminal(name), done.len() as usize, w.cur, g.len());
        },
        Some(SymbolView::Terminal(chars)) => {
            lemma_insert_contains(w.next, item.advanced(), item.advanced());
        },
        None => {
            let parents = parents_of(done, w.cur, item.start);
            lemma_complete_contains(g, parents, item.lhs(g), w.cur, parents.len());
        },
    }
}

/// When the fixpoint is reached, every item of the set is handled.
pub proof fn lemma_run_from_handles(
    g: Seq<ProductionView>,
    done: Seq<Seq<EarleyItem>>,
    w: Work,
    ch: Option<char>,
    cursor: int,
)
    requires
        w.cur.no_duplicates(),
        0 <= cursor <= w.cur.len(),
        handled_upto(g, done, w, ch, cursor),
    ensures
        handled_upto(
            g,
            done,
            run_from(g, done, w, ch, cursor),
            ch,
            run_from(g, done, w, ch, cursor).cur.len() as int,
        ),
        extends(run_from(g, done, w, ch, cursor).cur, w.cur),
        extends(run_from(g, done, w, ch, cursor).next, w.next),
        run_from(g, done, w, ch, cursor).cur.no_duplicates(),
    decreases item_space() - cursor,
{
    if cursor < w.cur.len() {
        lemma_distinct_items_bounded(w.cur);
        let stepped = process(g, done, w, ch, cursor);
        lemma_process_handles(g, done, w, ch, cursor);
        lemma_process_distinct(g, done, w, ch, cursor);
        assert forall|c: int| 0 <= c < cursor + 1 implies handled(
            g,
            done,
            stepped.cur,
            stepped.next,
            ch,
            #[trigger] stepped.cur[c],
        ) by {
            assert(stepped.cur[c] == w.cur[c]);
            if c < cursor {
                lemma_handled_grows(g, done, w, stepped, ch, w.cur[c]);
            }
        }
        lemma_run_from_handles(g, done, stepped, ch, cursor + 1);
    }
}

/// Prediction keeps a set free of duplicates.
proof fn lemma_predict_distinct(
    g: Seq<ProductionView>,
    x: SymbolView,
    at: usize,
    cur: Seq<EarleyItem>,
    n: nat,
)
    requires
        cur.no_duplicates(),
    ensures
        predict(g, x, at, cur, n).no_duplicates(),
    decreases n,
{
    if n > 0 {
        lemma_predict_distinct(g, x, at, cur, (n - 1) as nat);
    }
}

/// One step of the fixpoint keeps the current set free of duplicates.
proof fn lemma_process_distinct(
    g: Seq<ProductionView>,
    done: Seq<Seq<EarleyItem>>,
    w: Work,
    ch: Option<char>,
    cursor: int,
)
    requires
        w.cur.no_duplicates(),
    ensures
        process(g, done, w, ch, cursor).cur.no_duplicates(),
{
    let item = w.cur[cursor];
    match item.spec_next_symbol(g) {
        Some(SymbolView::Nonterminal(name)) => {
            lemma_predict_distinct(g, SymbolView::Nonterminal(name), done.len() as usize, w.cur, g.len());
        },
        Some(SymbolView::Terminal(chars)) => {},
        None => {
            let parents = parents_of(done, w.cur, item.start);
            lemma_complete_extends(g, parents, item.lhs(g), w.cur, parents.len());
        },
    }
}

/// Processing an item of a set that already holds the outcome of the whole
/// run changes the current set no more, and scans as it did before.
proof fn lemma_rerun(
    g: Seq<ProductionView>,
    done: Seq<Seq<EarleyItem>>,
    w: Work,
    ch: Option<char>,
    cursor: int,
)
    requires
        fits(g),
        epsilon_free(g),
        chart_ok(g, done),
        done.len() < usize::MAX,
        set_ok(g, w.cur, done.len() as int),
        set_ok(g, w.next, done.len() as int + 1),
        0 <= cursor <= w.cur.len(),
    ensures
        run_from(
            g,
            done,
            Work { cur: run_from(g, done, w, ch, cursor).cur, next: w.next },
            ch,
            cursor,
        ) == run_from(g, done, w, ch, cursor),
    decreases item_space() - cursor,
{
    let end = run_from(g, done, w, ch, cursor);
    lemma_run_from_ok(g, done, w, ch, cursor);
    lemma_distinct_items_bounded(end.cur);
    if cursor < w.cur.len() {
        lemma_distinct_items_bounded(w.cur);
        let stepped = process(g, done, w, ch, cursor);
        lemma_process_ok(g, done, w, ch, cursor);
        lemma_process_handles(g, done, w, ch, cursor);
        lemma_run_from_ok(g, done, stepped, ch, cursor + 1);
        lemma_rerun(g, done, stepped, ch, cursor + 1);
        let again = Work { cur: end.cur, next: w.next };
        let item = w.cur[cursor];
        assert(again.cur[cursor] == item);
        assert(item_ok(g, item, done.len() as int));
        lemma_handled_grows(
            g,
            done,
            stepped,
            Work { cur: end.cur, next: stepped.next },
            ch,
            item,
        );
        match item.spec_next_symbol(g) {
            Some(SymbolView::Nonterminal(name)) => {
                lemma_predict_absorbed(
                    g,
                    SymbolView::Nonterminal(name),
                    done.len() as usize,
                    end.cur,
                    g.len(),
                );
            },
            Some(SymbolView::Terminal(chars)) => {},
            None => {
                assert(item.start < done.len());
                let parents = done[item.start as int];
                lemma_complete_absorbed(g, parents, item.lhs(g), end.cur, parents.len());
            },
        }
        assert(process(g, done, again, ch, cursor) == Work { cur: end.cur, next: stepped.next });
    } else {
        assert(end == w);
    }
}

/// Bringing a set to its fixpoint a second time inserts nothing: the set
/// stays as it is, and scanning gives what it gave. This holds of grammars
/// without empty right-hand sides.
pub proof fn lemma_stabilize_idempotent(
    g: Seq<ProductionView>,
    done: Seq<Seq<EarleyItem>>,
    cur: Seq<EarleyItem>,
    ch: Option<char>,
)
    requires
        fits(g),
        epsilon_free(g),
        chart_ok(g, done),
        done.len() < usize::MAX,
        set_ok(g, cur, done.len() as int),
    ensures
        stabilize(g, done, stabilize(g, done, cur, ch).cur, ch) == stabilize(g, done, cur, ch),
{
    lemma_rerun(g, done, Work { cur, next: Seq::empty() }, ch, 0);
}

} // verus!
