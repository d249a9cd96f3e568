//! The mathematical description of the chart: how one item set is brought to
//! its fixpoint by prediction and completion, how scanning builds the next
//! set, and how the chart grows as input arrives.

use crate::grammar::{epsilon_free, fits, ProductionView, SymbolView};
use crate::item::EarleyItem;
use crate::state_set::insert_item;
use vstd::prelude::*;

verus! {

/// The least index at or after `j` whose production equals production `k`.
pub open spec fn first_equal_from(g: Seq<ProductionView>, k: int, j: int) -> int
    decreases k - j,
{
    if j >= k {
        k
    } else if g[j] == g[k] {
        j
    } else {
        first_equal_from(g, k, j + 1)
    }
}

/// The index of the first production that equals production `k`. Items name
/// a production by this index, so that equal productions give equal items.
pub open spec fn canonical(g: Seq<ProductionView>, k: int) -> int {
    first_equal_from(g, k, 0)
}

/// The item that predicts production `k` at chart position `at`.
pub open spec fn predicted(g: Seq<ProductionView>, k: int, at: usize) -> EarleyItem {
    EarleyItem { production: canonical(g, k) as usize, pos: 0, start: at }
}

/// The first item set before any processing: one item for each of the first
/// `n` productions, dot at the left, origin 0.
pub open spec fn seed(g: Seq<ProductionView>, n: nat) -> Seq<EarleyItem>
    decreases n,
{
    if n == 0 {
        Seq::empty()
    } else {
        insert_item(seed(g, (n - 1) as nat), predicted(g, n - 1, 0))
    }
}

/// Prediction: `cur` after inserting, for each of the first `n` productions
/// whose left-hand side is `x`, that production with the dot at the left and
/// origin `at`.
pub open spec fn predict(
    g: Seq<ProductionView>,
    x: SymbolView,
    at: usize,
    cur: Seq<EarleyItem>,
    n: nat,
) -> Seq<EarleyItem>
    decreases n,
{
    if n == 0 {
        cur
    } else {
        let before = predict(g, x, at, cur, (n - 1) as nat);
        if g[n - 1].lhs == x {
            insert_item(before, predicted(g, n - 1, at))
        } else {
            before
        }
    }
}

/// Completion: `cur` after inserting, for each of the first `n` items of
/// `parents` that wait for the symbol `lhs`, that item with its dot advanced.
pub open spec fn complete(
    g: Seq<ProductionView>,
    parents: Seq<EarleyItem>,
    lhs: SymbolView,
    cur: Seq<EarleyItem>,
    n: nat,
) -> Seq<EarleyItem>
    decreases n,
{
    if n == 0 {
        cur
    } else {
        let before = complete(g, parents, lhs, cur, (n - 1) as nat);
        if parents[n - 1].spec_next_symbol(g) == Some(lhs) {
            insert_item(before, parents[n - 1].advanced())
        } else {
            before
        }
    }
}

/// The set being processed and the set that scanning builds beside it.
pub struct Work {
    pub cur: Seq<EarleyItem>,
    pub next: Seq<EarleyItem>,
}

/// The set in which a completed item that began at `start` looks for its
/// parents: an earlier set of the chart, or the current set as it stands.
pub open spec fn parents_of(done: Seq<Seq<EarleyItem>>, cur: Seq<EarleyItem>, start: usize) -> Seq<
    EarleyItem,
> {
    if start < done.len() {
        done[start as int]
    } else {
        cur
    }
}

/// Whether the terminal `symbol` accepts the input element `ch`.
pub open spec fn matches_input(symbol: SymbolView, ch: Option<char>) -> bool {
    symbol matches SymbolView::Terminal(chars) && ch matches Some(c) && chars.contains(c)
}

/// One step of the fixpoint: the item at `cursor` predicts, scans or
/// completes. `done` holds the earlier sets; `ch` is the input element at
/// this position, if any.
pub open spec fn process(
    g: Seq<ProductionView>,
    done: Seq<Seq<EarleyItem>>,
    w: Work,
    ch: Option<char>,
    cursor: int,
) -> Work {
    let item = w.cur[cursor];
    match item.spec_next_symbol(g) {
        Some(SymbolView::Nonterminal(name)) => Work {
            cur: predict(g, SymbolView::Nonterminal(name), done.len() as usize, w.cur, g.len()),
            next: w.next,
        },
        Some(SymbolView::Terminal(chars)) => if matches_input(SymbolView::Terminal(chars), ch) {
            Work { cur: w.cur, next: insert_item(w.next, item.advanced()) }
        } else {
            w
        },
        None => {
            let parents = parents_of(done, w.cur, item.start);
            Work { cur: complete(g, parents, item.lhs(g), w.cur, parents.len()), next: w.next }
        },
    }
}

/// The number of distinct items that can be written down at all. No item set
/// is longer, which is why the fixpoint is reached.
pub open spec fn item_space() -> int {
    (usize::MAX + 1) * (usize::MAX + 1) * (usize::MAX + 1)
}

/// The items from `cursor` on are processed in order, those inserted on the
/// way included, until the cursor reaches the end of the set.
pub open spec fn run_from(
    g: Seq<ProductionView>,
    done: Seq<Seq<EarleyItem>>,
    w: Work,
    ch: Option<char>,
    cursor: int,
) -> Work
    decreases item_space() - cursor,
    when w.cur.no_duplicates()
    via run_from_terminates
{
    if 0 <= cursor < w.cur.len() {
        run_from(g, done, process(g, done, w, ch, cursor), ch, cursor + 1)
    } else {
        w
    }
}

/// The cursor stays below the item space as long as the set holds no item
/// twice, so each step brings the run nearer to its end.
#[via_fn]
proof fn run_from_terminates(
    g: Seq<ProductionView>,
    done: Seq<Seq<EarleyItem>>,
    w: Work,
    ch: Option<char>,
    cursor: int,
) {
    lemma_distinct_items_bounded(w.cur);
}

/// The fixpoint of `cur` under prediction and completion, with the set that
/// scanning against `ch` builds.
pub open spec fn stabilize(
    g: Seq<ProductionView>,
    done: Seq<Seq<EarleyItem>>,
    cur: Seq<EarleyItem>,
    ch: Option<char>,
) -> Work {
    run_from(g, done, Work { cur, next: Seq::empty() }, ch, 0)
}

/// The input element at position `i`, if the input reaches that far.
pub open spec fn input_at(input: Seq<char>, i: int) -> Option<char> {
    if 0 <= i < input.len() {
        Some(input[i])
    } else {
        None
    }
}

/// The chart before any processing: the seeded first set alone.
pub open spec fn initial_chart(g: Seq<ProductionView>) -> Seq<Seq<EarleyItem>> {
    seq![seed(g, g.len())]
}

/// The chart after its last set has been brought to its fixpoint and, as long
/// as scanning the input at that position yields a non-empty set, that set
/// has been appended and treated in the same way.
pub open spec fn extend(g: Seq<ProductionView>, chart: Seq<Seq<EarleyItem>>, input: Seq<char>) -> Seq<
    Seq<EarleyItem>,
>
    decreases input.len() + 1 - chart.len(),
{
    if chart.len() == 0 {
        chart
    } else {
        let at = chart.len() - 1;
        let w = stabilize(g, chart.drop_last(), chart.last(), input_at(input, at));
        let settled = chart.drop_last().push(w.cur);
        if at < input.len() && w.next.len() > 0 {
            extend(g, settled.push(w.next), input)
        } else {
            settled
        }
    }
}

/// Whether `item` shows that the whole input read so far derives from
/// `start`: a complete production of `start` that began at position 0.
pub open spec fn is_final_item(g: Seq<ProductionView>, start: SymbolView, item: EarleyItem) -> bool {
    &&& item.lhs(g) == start
    &&& item.is_complete(g)
    &&& item.start == 0
}

/// The acceptance predicate: every input element has been consumed and the
/// last set holds a final item.
pub open spec fn accepting(
    g: Seq<ProductionView>,
    start: SymbolView,
    chart: Seq<Seq<EarleyItem>>,
    input: Seq<char>,
) -> bool {
    &&& chart.len() == input.len() + 1
    &&& exists|k: int| 0 <= k < chart.last().len() && is_final_item(g, start, #[trigger] chart.last()[k])
}

/// `item` is an item of `g` that can stand at position `at`: it began at or
/// before `at`, and before `at` if it has matched a symbol of a grammar whose
/// symbols all take up input.
pub open spec fn item_ok(g: Seq<ProductionView>, item: EarleyItem, at: int) -> bool {
    &&& item.wf(g)
    &&& item.start <= at
    &&& epsilon_free(g) && item.pos > 0 ==> item.start < at
}

/// `s` holds no item twice, and each of its items can stand at position `at`.
pub open spec fn set_ok(g: Seq<ProductionView>, s: Seq<EarleyItem>, at: int) -> bool {
    &&& s.no_duplicates()
    &&& forall|k: int| 0 <= k < s.len() ==> item_ok(g, #[trigger] s[k], at)
}

/// Every set of the chart is in order for its own position.
pub open spec fn chart_ok(g: Seq<ProductionView>, chart: Seq<Seq<EarleyItem>>) -> bool {
    forall|i: int| 0 <= i < chart.len() ==> set_ok(g, #[trigger] chart[i], i)
}

/// `big` begins with the items of `small`, in the same order.
pub open spec fn extends(big: Seq<EarleyItem>, small: Seq<EarleyItem>) -> bool {
    &&& small.len() <= big.len()
    &&& forall|k: int| 0 <= k < small.len() ==> big[k] == small[k]
}

/// The search from `j` ends at the first index from `j` on that holds a
/// production equal to production `k`.
proof fn lemma_first_equal_from(g: Seq<ProductionView>, k: int, j: int)
    requires
        0 <= j <= k < g.len(),
    ensures
        j <= first_equal_from(g, k, j) <= k,
        g[first_equal_from(g, k, j)] == g[k],
        forall|i: int| j <= i < first_equal_from(g, k, j) ==> g[i] != g[k],
    decreases k - j,
{
    if j < k && g[j] != g[k] {
        lemma_first_equal_from(g, k, j + 1);
    }
}

/// The canonical index of a production is the first index that holds an
/// equal production.
pub proof fn lemma_canonical(g: Seq<ProductionView>, k: int)
    requires
        0 <= k < g.len(),
    ensures
        0 <= canonical(g, k) <= k,
        g[canonical(g, k)] == g[k],
        forall|i: int| 0 <= i < canonical(g, k) ==> g[i] != g[k],
{
    lemma_first_equal_from(g, k, 0);
}

/// Inserting an item of `g` keeps a set in order and keeps what it held.
pub proof fn lemma_insert_ok(g: Seq<ProductionView>, s: Seq<EarleyItem>, item: EarleyItem, at: int)
    requires
        set_ok(g, s, at),
        item_ok(g, item, at),
    ensures
        set_ok(g, insert_item(s, item), at),
        extends(insert_item(s, item), s),
{
}

/// Prediction keeps a set in order and keeps what it held.
pub proof fn lemma_predict_ok(
    g: Seq<ProductionView>,
    x: SymbolView,
    at: usize,
    cur: Seq<EarleyItem>,
    n: nat,
)
    requires
        fits(g),
        n <= g.len(),
        set_ok(g, cur, at as int),
    ensures
        set_ok(g, predict(g, x, at, cur, n), at as int),
        extends(predict(g, x, at, cur, n), cur),
    decreases n,
{
    if n > 0 {
        lemma_predict_ok(g, x, at, cur, (n - 1) as nat);
        lemma_canonical(g, n - 1);
        lemma_insert_ok(g, predict(g, x, at, cur, (n - 1) as nat), predicted(g, n - 1, at), at as int);
    }
}

/// Completion keeps a set in order and keeps what it held.
pub proof fn lemma_complete_ok(
    g: Seq<ProductionView>,
    parents: Seq<EarleyItem>,
    lhs: SymbolView,
    cur: Seq<EarleyItem>,
    n: nat,
    at: int,
)
    requires
        fits(g),
        n <= parents.len(),
        forall|k: int|
            0 <= k < parents.len() ==> (#[trigger] parents[k]).wf(g) && parents[k].start <= at,
        epsilon_free(g) ==> forall|k: int| 0 <= k < parents.len() ==> (#[trigger] parents[k]).start < at,
        set_ok(g, cur, at),
    ensures
        set_ok(g, complete(g, parents, lhs, cur, n), at),
        extends(complete(g, parents, lhs, cur, n), cur),
    decreases n,
{
    if n > 0 {
        lemma_complete_ok(g, parents, lhs, cur, (n - 1) as nat, at);
        let parent = parents[n - 1];
        assert(parent.wf(g) && parents[n - 1].start <= at);
        if parent.spec_next_symbol(g) == Some(lhs) {
            lemma_insert_ok(g, complete(g, parents, lhs, cur, (n - 1) as nat), parent.advanced(), at);
        }
    }
}

/// Completion keeps what the set held.
pub proof fn lemma_complete_extends(
    g: Seq<ProductionView>,
    parents: Seq<EarleyItem>,
    lhs: SymbolView,
    cur: Seq<EarleyItem>,
    n: nat,
)
    ensures
        extends(complete(g, parents, lhs, cur, n), cur),
        cur.no_duplicates() ==> complete(g, parents, lhs, cur, n).no_duplicates(),
    decreases n,
{
    if n > 0 {
        lemma_complete_extends(g, parents, lhs, cur, (n - 1) as nat);
    }
}

/// One step of the fixpoint keeps both sets in order and keeps what they
/// held.
pub proof fn lemma_process_ok(
    g: Seq<ProductionView>,
    done: Seq<Seq<EarleyItem>>,
    w: Work,
    ch: Option<char>,
    cursor: int,
)
    requires
        fits(g),
        chart_ok(g, done),
        done.len() < usize::MAX,
        set_ok(g, w.cur, done.len() as int),
        set_ok(g, w.next, done.len() as int + 1),
        0 <= cursor < w.cur.len(),
    ensures
        set_ok(g, process(g, done, w, ch, cursor).cur, done.len() as int),
        set_ok(g, process(g, done, w, ch, cursor).next, done.len() as int + 1),
        extends(process(g, done, w, ch, cursor).cur, w.cur),
        extends(process(g, done, w, ch, cursor).next, w.next),
{
    let item = w.cur[cursor];
    let at = done.len() as int;
    assert(item_ok(g, item, at));
    match item.spec_next_symbol(g) {
        Some(SymbolView::Nonterminal(name)) => {
            lemma_predict_ok(g, SymbolView::Nonterminal(name), done.len() as usize, w.cur, g.len());
        },
        Some(SymbolView::Terminal(chars)) => {
            if matches_input(SymbolView::Terminal(chars), ch) {
                lemma_insert_ok(g, w.next, item.advanced(), at + 1);
            }
        },
        None => {
            let parents = parents_of(done, w.cur, item.start);
            assert forall|k: int| 0 <= k < parents.len() implies (#[trigger] parents[k]).wf(g)
                && parents[k].start <= at && (epsilon_free(g) ==> parents[k].start < at) by {
                if item.start < done.len() {
                    assert(set_ok(g, done[item.start as int], item.start as int));
                    assert(item_ok(g, parents[k], item.start as int));
                } else {
                    assert(item_ok(g, parents[k], at));
                }
            }
            lemma_complete_ok(g, parents, item.lhs(g), w.cur, parents.len(), at);
        },
    }
}

/// The fixpoint keeps both sets in order and keeps what they held.
pub proof fn lemma_run_from_ok(
    g: Seq<ProductionView>,
    done: Seq<Seq<EarleyItem>>,
    w: Work,
    ch: Option<char>,
    cursor: int,
)
    requires
        fits(g),
        chart_ok(g, done),
        done.len() < usize::MAX,
        set_ok(g, w.cur, done.len() as int),
        set_ok(g, w.next, done.len() as int + 1),
        0 <= cursor <= w.cur.len(),
    ensures
        set_ok(g, run_from(g, done, w, ch, cursor).cur, done.len() as int),
        set_ok(g, run_from(g, done, w, ch, cursor).next, done.len() as int + 1),
        extends(run_from(g, done, w, ch, cursor).cur, w.cur),
        extends(run_from(g, done, w, ch, cursor).next, w.next),
    decreases item_space() - cursor,
{
    if cursor < w.cur.len() {
        lemma_distinct_items_bounded(w.cur);
        lemma_process_ok(g, done, w, ch, cursor);
        lemma_run_from_ok(g, done, process(g, done, w, ch, cursor), ch, cursor + 1);
    }
}

/// Without an input element nothing is scanned.
pub proof fn lemma_run_from_no_input(
    g: Seq<ProductionView>,
    done: Seq<Seq<EarleyItem>>,
    w: Work,
    cursor: int,
)
    requires
        fits(g),
        chart_ok(g, done),
        done.len() < usize::MAX,
        set_ok(g, w.cur, done.len() as int),
        set_ok(g, w.next, done.len() as int + 1),
        0 <= cursor <= w.cur.len(),
    ensures
        run_from(g, done, w, None, cursor).next == w.next,
    decreases item_space() - cursor,
{
    if cursor < w.cur.len() {
        lemma_distinct_items_bounded(w.cur);
        lemma_process_ok(g, done, w, None, cursor);
        lemma_run_from_no_input(g, done, process(g, done, w, None, cursor), cursor + 1);
    }
}

/// The seeded first set is in order.
pub proof fn lemma_seed_ok(g: Seq<ProductionView>, n: nat)
    requires
        fits(g),
        n <= g.len(),
    ensures
        set_ok(g, seed(g, n), 0),
        forall|k: int| 0 <= k < n ==> seed(g, n).contains(#[trigger] predicted(g, k, 0)),
    decreases n,
{
    if n > 0 {
        lemma_seed_ok(g, (n - 1) as nat);
        lemma_canonical(g, n - 1);
        let before = seed(g, (n - 1) as nat);
        lemma_insert_ok(g, before, predicted(g, n - 1, 0), 0);
        assert forall|k: int| 0 <= k < n implies seed(g, n).contains(#[trigger] predicted(g, k, 0)) by {
            lemma_insert_contains(before, predicted(g, n - 1, 0), predicted(g, k, 0));
        }
    }
}

/// After an insertion the set holds the inserted item and all it held.
pub proof fn lemma_insert_contains(s: Seq<EarleyItem>, item: EarleyItem, other: EarleyItem)
    ensures
        insert_item(s, item).contains(item),
        s.contains(other) ==> insert_item(s, item).contains(other),
{
    if s.contains(item) {
    } else {
        assert(s.push(item)[s.len() as int] == item);
    }
    if s.contains(other) {
        let k = choose|k: int| 0 <= k < s.len() && s[k] == other;
        assert(insert_item(s, item)[k] == other);
    }
}

/// A set that begins with the items of another holds each of them.
pub proof fn lemma_extends_contains(big: Seq<EarleyItem>, small: Seq<EarleyItem>, item: EarleyItem)
    requires
        extends(big, small),
        small.contains(item),
    ensures
        big.contains(item),
{
    let k = choose|k: int| 0 <= k < small.len() && small[k] == item;
    assert(big[k] == item);
}

/// Extending the chart keeps it in order, never shortens it, and never
/// makes it longer than the input allows.
pub proof fn lemma_extend_ok(g: Seq<ProductionView>, chart: Seq<Seq<EarleyItem>>, input: Seq<char>)
    requires
        fits(g),
        1 <= chart.len() <= input.len() + 1,
        input.len() < usize::MAX,
        chart_ok(g, chart),
    ensures
        chart_ok(g, extend(g, chart, input)),
        chart.len() <= extend(g, chart, input).len() <= input.len() + 1,
        forall|i: int| 0 <= i < chart.len() - 1 ==> extend(g, chart, input)[i] == chart[i],
    decreases input.len() + 1 - chart.len(),
{
    let at = chart.len() - 1;
    let done = chart.drop_last();
    let start = Work { cur: chart.last(), next: Seq::empty() };
    let w = stabilize(g, done, chart.last(), input_at(input, at));
    assert(set_ok(g, chart[at], at));
    assert forall|i: int| 0 <= i < done.len() implies set_ok(g, #[trigger] done[i], i) by {
        assert(done[i] == chart[i]);
    }
    lemma_run_from_ok(g, done, start, input_at(input, at), 0);
    let settled = done.push(w.cur);
    assert forall|i: int| 0 <= i < settled.len() implies set_ok(g, #[trigger] settled[i], i) by {
        if i < done.len() {
            assert(settled[i] == done[i]);
        }
    }
    if at < input.len() && w.next.len() > 0 {
        let grown = settled.push(w.next);
        assert forall|i: int| 0 <= i < grown.len() implies set_ok(g, #[trigger] grown[i], i) by {
            if i < settled.len() {
                assert(grown[i] == settled[i]);
            }
        }
        lemma_extend_ok(g, grown, input);
        assert forall|i: int| 0 <= i < chart.len() - 1 implies extend(g, chart, input)[i]
            == chart[i] by {
            assert(grown[i] == settled[i]);
            assert(settled[i] == done[i]);
        }
    }
}

/// The number that stands for an item among `0 .. item_space()`.
pub open spec fn item_code(item: EarleyItem) -> int {
    (item.production * (usize::MAX + 1) + item.pos) * (usize::MAX + 1) + item.start
}

/// Item codes lie within the item space, and different items have
/// different codes.
proof fn lemma_item_code(a: EarleyItem, b: EarleyItem)
    ensures
        0 <= item_code(a) < item_space(),
        item_code(a) == item_code(b) ==> a == b,
{
    let m: int = usize::MAX + 1;
    let (p, d, j) = (a.production as int, a.pos as int, a.start as int);
    let (q, e, k) = (b.production as int, b.pos as int, b.start as int);
    assert(0 <= (p * m + d) * m + j < m * m * m) by (nonlinear_arith)
        requires
            0 <= p < m,
            0 <= d < m,
            0 <= j < m,
    ;
    if item_code(a) == item_code(b) {
        assert(p * m + d == q * m + e && j == k) by (nonlinear_arith)
            requires
                (p * m + d) * m + j == (q * m + e) * m + k,
                0 <= j < m,
                0 <= k < m,
        ;
        assert(p == q && d == e) by (nonlinear_arith)
            requires
                p * m + d == q * m + e,
                0 <= d < m,
                0 <= e < m,
        ;
    }
}

/// A sequence of distinct items is no longer than the item space.
pub proof fn lemma_distinct_items_bounded(s: Seq<EarleyItem>)
    requires
        s.no_duplicates(),
    ensures
        s.len() <= item_space(),
{
    let codes = Seq::new(s.len(), |i: int| item_code(s[i]));
    assert forall|i: int, j: int| 0 <= i < codes.len() && 0 <= j < codes.len() && i != j implies codes[i]
        != codes[j] by {
        lemma_item_code(s[i], s[j]);
    }
    codes.unique_seq_to_set();
    let range = vstd::set_lib::set_int_range(0, item_space());
    let zero = EarleyItem { production: 0, pos: 0, start: 0 };
    lemma_item_code(zero, zero);
    vstd::set_lib::lemma_int_range(0, item_space());
    assert forall|c: int| codes.to_set().contains(c) implies range.contains(c) by {
        let i = choose|i: int| 0 <= i < codes.len() && codes[i] == c;
        lemma_item_code(s[i], s[i]);
    }
    vstd::set_lib::lemma_len_subset(codes.to_set(), range);
}

} // verus!
