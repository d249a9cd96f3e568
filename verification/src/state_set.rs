//! The item set of one chart position: insertion-ordered and free of
//! duplicates, kept in an `indexmap::IndexSet` keyed by the item's three
//! numbers.

use crate::grammar::Grammar;
use crate::item::{item_text, EarleyItem};
use indexmap::IndexSet;
use vstd::prelude::*;
use vstd::string::StringExecFns;

verus! {

/// `indexmap::IndexSet`, taken as it is: nothing inside it is visible here.
#[verifier::external_type_specification]
#[verifier::external_body]
#[verifier::reject_recursive_types(T)]
#[verifier::reject_recursive_types(S)]
pub struct ExIndexSet<T, S>(IndexSet<T, S>);

/// The entries of an `IndexSet`, in the order of their indices.
pub uninterp spec fn set_entries(s: IndexSet<(usize, usize, usize)>) -> Seq<(usize, usize, usize)>;

/// `IndexSet::new`: the new set has no entries.
#[verifier::external_body]
fn index_set_new() -> (s: IndexSet<(usize, usize, usize)>)
    ensures
        set_entries(s) == Seq::<(usize, usize, usize)>::empty(),
{
    IndexSet::new()
}

/// `IndexSet::insert`: a key that is already present leaves the set as it
/// was and yields `false`; a new key is appended behind the last entry and
/// yields `true`.
#[verifier::external_body]
fn index_set_insert(s: &mut IndexSet<(usize, usize, usize)>, key: (usize, usize, usize)) -> (fresh:
    bool)
    ensures
        fresh == !set_entries(*old(s)).contains(key),
        fresh ==> set_entries(*final(s)) == set_entries(*old(s)).push(key),
        !fresh ==> set_entries(*final(s)) == set_entries(*old(s)),
{
    s.insert(key)
}

/// `IndexSet::len`: the number of entries.
#[verifier::external_body]
fn index_set_len(s: &IndexSet<(usize, usize, usize)>) -> (n: usize)
    ensures
        n == set_entries(*s).len(),
{
    s.len()
}

/// `IndexSet::is_empty`: whether the set has no entries.
#[verifier::external_body]
fn index_set_is_empty(s: &IndexSet<(usize, usize, usize)>) -> (empty: bool)
    ensures
        empty == (set_entries(*s).len() == 0),
{
    s.is_empty()
}

/// `IndexSet::get_index`: the entry at `index`, or `None` when `index` is
/// not below the number of entries.
#[verifier::external_body]
fn index_set_get_index(s: &IndexSet<(usize, usize, usize)>, index: usize) -> (entry: Option<
    (usize, usize, usize),
>)
    ensures
        index < set_entries(*s).len() ==> entry == Some(set_entries(*s)[index as int]),
        index >= set_entries(*s).len() ==> entry.is_none(),
{
    s.get_index(index).copied()
}

/// The item that a key stands for.
pub open spec fn item_of_key(key: (usize, usize, usize)) -> EarleyItem {
    EarleyItem { production: key.0, pos: key.1, start: key.2 }
}

/// The key under which an item is stored.
pub open spec fn key_of_item(item: EarleyItem) -> (usize, usize, usize) {
    (item.production, item.pos, item.start)
}

/// The items at one chart position, in the order in which they were first
/// inserted.
pub struct StateSet(IndexSet<(usize, usize, usize)>);

impl View for StateSet {
    type V = Seq<EarleyItem>;

    closed spec fn view(&self) -> Seq<EarleyItem> {
        Seq::new(set_entries(self.0).len(), |i: int| item_of_key(set_entries(self.0)[i]))
    }
}

/// `s` with `item` appended unless it already occurs.
pub open spec fn insert_item(s: Seq<EarleyItem>, item: EarleyItem) -> Seq<EarleyItem> {
    if s.contains(item) {
        s
    } else {
        s.push(item)
    }
}

impl StateSet {
    /// No item occurs twice. Every set that is built by inserting into an
    /// empty set is of this kind.
    pub open spec fn wf(&self) -> bool {
        self@.no_duplicates()
    }

    /// An empty set.
    pub fn new() -> (s: StateSet)
        ensures
            s@ == Seq::<EarleyItem>::empty(),
            s.wf(),
    {
        let s = StateSet(index_set_new());
        assert(s@ =~= Seq::<EarleyItem>::empty());
        s
    }

    /// Inserts `item` behind all others unless it is already present, and
    /// tells whether it was new.
    pub fn insert(&mut self, item: EarleyItem) -> (fresh: bool)
        ensures
            fresh == !old(self)@.contains(item),
            final(self)@ == insert_item(old(self)@, item),
            final(self)@.contains(item),
            old(self).wf() ==> final(self).wf(),
    {
        let ghost before = set_entries(self.0);
        let ghost key = key_of_item(item);
        let fresh = index_set_insert(&mut self.0, (item.production, item.pos, item.start));
        proof {
            if before.contains(key) {
                let j = choose|j: int| 0 <= j < before.len() && before[j] == key;
                assert(old(self)@[j] == item);
            }
            if old(self)@.contains(item) {
                let j = choose|j: int| 0 <= j < old(self)@.len() && old(self)@[j] == item;
                assert(before[j] == key);
            }
            if fresh {
                assert(self@ =~= old(self)@.push(item));
                assert(self@[old(self)@.len() as int] == item);
            } else {
                assert(self@ =~= old(self)@);
            }
        }
        fresh
    }

    /// The number of items.
    pub fn len(&self) -> (n: usize)
        ensures
            n == self@.len(),
    {
        index_set_len(&self.0)
    }

    /// Whether the set holds no item.
    pub fn is_empty(&self) -> (empty: bool)
        ensures
            empty == (self@.len() == 0),
    {
        index_set_is_empty(&self.0)
    }

    /// The item at `index` in insertion order, or `None` beyond the end.
    pub fn get(&self, index: usize) -> (item: Option<EarleyItem>)
        ensures
            index < self@.len() ==> item == Some(self@[index as int]),
            index >= self@.len() ==> item.is_none(),
    {
        match index_set_get_index(&self.0, index) {
            Some(key) => Some(EarleyItem { production: key.0, pos: key.1, start: key.2 }),
            None => None,
        }
    }

    /// The written form of the set: each item on a line of its own.
    pub fn write_to(&self, grammar: &Grammar, text: &mut String)
        requires
            forall|k: int| 0 <= k < self@.len() ==> (#[trigger] self@[k]).production < grammar@.len(),
        ensures
            final(text)@ == old(text)@ + set_text(*grammar, self@, self@.len()),
    {
        let mut k: usize = 0;
        assert(text@ =~= old(text)@ + set_text(*grammar, self@, 0));
        while k < self.len()
            invariant
                k <= self@.len(),
                forall|k: int|
                    0 <= k < self@.len() ==> (#[trigger] self@[k]).production < grammar@.len(),
                text@ == old(text)@ + set_text(*grammar, self@, k as nat),
            decreases self@.len() - k,
        {
            let item = self.get(k).unwrap();
            assert(item == self@[k as int]);
            item.write_to(grammar, text);
            text.append("\n");
            assert(text@ =~= old(text)@ + set_text(*grammar, self@, (k + 1) as nat));
            k += 1;
        }
    }

    /// The written form of the set.
    pub fn to_string(&self, grammar: &Grammar) -> (text: String)
        requires
            forall|k: int| 0 <= k < self@.len() ==> (#[trigger] self@[k]).production < grammar@.len(),
        ensures
            text@ == set_text(*grammar, self@, self@.len()),
    {
        let mut text = String::new();
        self.write_to(grammar, &mut text);
        assert(text@ =~= set_text(*grammar, self@, self@.len()));
        text
    }

    /// The set that results from inserting `items` one after another.
    pub fn from_iter(items: Vec<EarleyItem>) -> (s: StateSet)
        ensures
            s@ == insert_all(Seq::empty(), items@, items@.len()),
            s.wf(),
    {
        let mut s = StateSet::new();
        let mut i: usize = 0;
        while i < items.len()
            invariant
                i <= items.len(),
                s.wf(),
                s@ == insert_all(Seq::empty(), items@, i as nat),
            decreases items.len() - i,
        {
            s.insert(items[i]);
            i += 1;
        }
        s
    }
}

/// The first `n` of `items`, one to a line.
pub open spec fn set_text(g: Grammar, items: Seq<EarleyItem>, n: nat) -> Seq<char>
    decreases n,
{
    if n == 0 {
        Seq::empty()
    } else {
        set_text(g, items, (n - 1) as nat) + item_text(g, items[n - 1]) + "\n"@
    }
}

/// `s` after inserting the first `n` of `items` in turn.
pub open spec fn insert_all(s: Seq<EarleyItem>, items: Seq<EarleyItem>, n: nat) -> Seq<EarleyItem>
    decreases n,
{
    if n == 0 {
        s
    } else {
        insert_item(insert_all(s, items, (n - 1) as nat), items[n - 1])
    }
}

} // verus!
