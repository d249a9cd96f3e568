use earley::grammar::{
    all_in, char_in, same_members, symbols_equal, Grammar, Production, Symbol,
};
use earley::item::EarleyItem;
use earley::parser::{
    canonical_indices, complete_from, complete_within, predict_into, EarleyParser,
};
use earley::state_set::StateSet;
use earley::text::{digit_char, push_decimal};

fn nonterminal(name: &str) -> Symbol {
    Symbol::Nonterminal { name: name.to_string() }
}

fn terminal(chars: &str) -> Symbol {
    Symbol::Terminal(chars.chars().collect())
}

fn production(lhs: &str, rhs: Vec<Symbol>) -> Production {
    Production { nonterminal: nonterminal(lhs), symbols: rhs }
}

fn item(production: usize, pos: usize, start: usize) -> EarleyItem {
    EarleyItem { production, pos, start }
}

fn items_of(set: &StateSet) -> Vec<EarleyItem> {
    (0..set.len()).map(|k| set.get(k).unwrap()).collect()
}

fn list_grammar() -> Grammar {
    Grammar {
        productions: vec![
            production("L", vec![nonterminal("L"), terminal(","), nonterminal("E")]),
            production("L", vec![nonterminal("E")]),
            production("E", vec![terminal("xy")]),
        ],
    }
}

#[test]
fn new_state_set_is_empty() {
    let set = StateSet::new();
    assert!(set.is_empty());
    assert_eq!(set.len(), 0);
    assert_eq!(set.get(0), None);
}

#[test]
fn insert_tells_whether_the_item_is_new() {
    let mut set = StateSet::new();
    assert!(set.insert(item(1, 0, 0)));
    assert!(set.insert(item(0, 0, 0)));
    assert!(!set.insert(item(1, 0, 0)));
    assert!(set.insert(item(1, 1, 0)));
    assert!(set.insert(item(1, 0, 1)));
    assert!(!set.is_empty());
    assert_eq!(items_of(&set), vec![item(1, 0, 0), item(0, 0, 0), item(1, 1, 0), item(1, 0, 1)]);
    assert_eq!(set.get(4), None);
}

#[test]
fn insertion_during_traversal_is_seen() {
    let mut set = StateSet::new();
    set.insert(item(0, 0, 0));
    let mut k = 0;
    while k < set.len() {
        let current = set.get(k).unwrap();
        if current.pos < 3 {
            set.insert(item(0, current.pos + 1, 0));
        }
        k += 1;
    }
    assert_eq!(items_of(&set), vec![item(0, 0, 0), item(0, 1, 0), item(0, 2, 0), item(0, 3, 0)]);
}

#[test]
fn from_iter_keeps_the_first_of_equal_items() {
    let set = StateSet::from_iter(vec![item(2, 0, 0), item(1, 0, 0), item(2, 0, 0), item(0, 0, 0)]);
    assert_eq!(items_of(&set), vec![item(2, 0, 0), item(1, 0, 0), item(0, 0, 0)]);
    assert!(StateSet::from_iter(vec![]).is_empty());
}

#[test]
fn next_symbol_is_the_symbol_right_of_the_dot() {
    let grammar = list_grammar();
    let next = |item: EarleyItem| item.next_symbol(&grammar).map(|symbol| symbol.to_string());
    assert_eq!(next(item(0, 0, 0)), Some("L".to_string()));
    assert_eq!(next(item(0, 1, 0)), Some("','".to_string()));
    assert_eq!(next(item(0, 2, 0)), Some("E".to_string()));
    assert_eq!(next(item(0, 3, 0)), None);
    assert_eq!(next(item(2, 0, 4)), Some("[xy]".to_string()));
    assert_eq!(next(item(2, 1, 4)), None);
}

#[test]
fn digits_and_numerals() {
    let digits: String = (0..10).map(digit_char).collect();
    assert_eq!(digits, "0123456789");
    for (n, expected) in [(0, "0"), (7, "7"), (10, "10"), (99, "99"), (100, "100"), (12345, "12345")] {
        let mut text = String::from("#");
        push_decimal(&mut text, n);
        assert_eq!(text, format!("#{}", expected));
    }
    let mut text = String::new();
    push_decimal(&mut text, usize::MAX);
    assert_eq!(text, format!("{}", usize::MAX));
}

#[test]
fn membership_and_equality_of_character_lists() {
    let digits: Vec<char> = "0123456789".chars().collect();
    assert!(char_in(&digits, '0'));
    assert!(char_in(&digits, '9'));
    assert!(!char_in(&digits, 'a'));
    assert!(!char_in(&vec![], 'a'));
    assert!(all_in(&vec!['+'], &vec!['-', '+']));
    assert!(all_in(&vec![], &vec!['-']));
    assert!(!all_in(&vec!['+', '-'], &vec!['+']));
    assert!(same_members(&vec!['+', '-'], &vec!['+', '-']));
    assert!(same_members(&vec!['+', '-'], &vec!['-', '+']));
    assert!(same_members(&vec!['+', '-', '+'], &vec!['-', '+']));
    assert!(!same_members(&vec!['+'], &vec!['+', '-']));
    assert!(!same_members(&vec!['+', '-'], &vec!['+']));
    assert!(!same_members(&vec!['+', '-'], &vec!['+', '*']));
    assert!(same_members(&vec![], &vec![]));
    assert!(!same_members(&vec![], &vec!['a']));
}

#[test]
fn equality_of_symbols_and_productions() {
    assert!(nonterminal("A").same(&nonterminal("A")));
    assert!(!nonterminal("A").same(&nonterminal("B")));
    assert!(!nonterminal("a").same(&terminal("a")));
    assert!(!terminal("a").same(&nonterminal("a")));
    assert!(terminal("ab").same(&terminal("ab")));
    assert!(terminal("ab").same(&terminal("ba")));
    assert!(terminal("ab").same(&terminal("abba")));
    assert!(!terminal("ab").same(&terminal("abc")));
    assert!(!terminal("ab").same(&terminal("a")));
    assert!(symbols_equal(&vec![nonterminal("A"), terminal("a")], &vec![nonterminal("A"), terminal("a")]));
    assert!(!symbols_equal(&vec![nonterminal("A"), terminal("a")], &vec![nonterminal("A")]));
    assert!(!symbols_equal(&vec![nonterminal("A")], &vec![terminal("A")]));
    let rule = production("A", vec![terminal("a"), nonterminal("A")]);
    assert!(rule.same(&production("A", vec![terminal("a"), nonterminal("A")])));
    assert!(!rule.same(&production("B", vec![terminal("a"), nonterminal("A")])));
    assert!(!rule.same(&production("A", vec![terminal("a")])));
    assert!(!rule.same(&production("A", vec![nonterminal("A"), terminal("a")])));
    let signs = production("S", vec![terminal("+-"), nonterminal("S")]);
    assert!(signs.same(&production("S", vec![terminal("-+"), nonterminal("S")])));
}

#[test]
fn canonical_index_is_the_first_equal_production() {
    let grammar = Grammar {
        productions: vec![
            production("A", vec![terminal("a")]),
            production("B", vec![terminal("b")]),
            production("A", vec![terminal("a")]),
            production("B", vec![terminal("b")]),
            production("B", vec![terminal("a")]),
            production("A", vec![terminal("a")]),
        ],
    };
    assert_eq!(canonical_indices(&grammar), vec![0, 1, 0, 1, 4, 0]);
    let signs = Grammar {
        productions: vec![
            production("S", vec![terminal("+-")]),
            production("S", vec![terminal("-+")]),
            production("S", vec![terminal("+")]),
        ],
    };
    assert_eq!(canonical_indices(&signs), vec![0, 0, 2]);
    assert_eq!(canonical_indices(&Grammar { productions: vec![] }), Vec::<usize>::new());
}

#[test]
fn prediction_inserts_the_productions_of_the_symbol() {
    let grammar = list_grammar();
    let canon = canonical_indices(&grammar);
    let mut set = StateSet::from_iter(vec![item(1, 0, 3)]);
    predict_into(&grammar, &canon, &nonterminal("L"), 3, &mut set);
    assert_eq!(items_of(&set), vec![item(1, 0, 3), item(0, 0, 3)]);
    predict_into(&grammar, &canon, &nonterminal("E"), 3, &mut set);
    assert_eq!(items_of(&set), vec![item(1, 0, 3), item(0, 0, 3), item(2, 0, 3)]);
    predict_into(&grammar, &canon, &nonterminal("Missing"), 3, &mut set);
    predict_into(&grammar, &canon, &terminal(","), 3, &mut set);
    assert_eq!(set.len(), 3);
}

#[test]
fn completion_advances_the_parents_that_wait_for_the_symbol() {
    let grammar = list_grammar();
    let parents = StateSet::from_iter(vec![item(0, 0, 0), item(1, 0, 0), item(2, 0, 0), item(0, 2, 0)]);
    let mut set = StateSet::from_iter(vec![item(2, 1, 0)]);
    complete_from(&grammar, &parents, &nonterminal("E"), &mut set);
    assert_eq!(items_of(&set), vec![item(2, 1, 0), item(1, 1, 0), item(0, 3, 0)]);
    complete_from(&grammar, &parents, &nonterminal("L"), &mut set);
    assert_eq!(items_of(&set), vec![item(2, 1, 0), item(1, 1, 0), item(0, 3, 0), item(0, 1, 0)]);
}

#[test]
fn completion_within_a_set_looks_at_the_items_present_at_the_start() {
    let grammar = Grammar {
        productions: vec![
            production("S", vec![nonterminal("A"), nonterminal("A")]),
            production("A", vec![]),
        ],
    };
    let mut set = StateSet::from_iter(vec![item(0, 0, 0), item(1, 0, 0)]);
    complete_within(&grammar, &nonterminal("A"), &mut set);
    assert_eq!(items_of(&set), vec![item(0, 0, 0), item(1, 0, 0), item(0, 1, 0)]);
    complete_within(&grammar, &nonterminal("A"), &mut set);
    assert_eq!(items_of(&set), vec![item(0, 0, 0), item(1, 0, 0), item(0, 1, 0), item(0, 2, 0)]);
}

#[test]
fn empty_right_hand_side_is_completed_within_its_own_set() {
    let grammar = Grammar {
        productions: vec![
            production("S", vec![nonterminal("A"), terminal("a")]),
            production("A", vec![]),
        ],
    };
    let mut parser = EarleyParser::new(grammar, nonterminal("S"));
    assert!(parser.consume_char('a'));
    assert_eq!(items_of(parser.state_set(0)), vec![item(0, 0, 0), item(1, 0, 0), item(0, 1, 0)]);
    assert_eq!(items_of(parser.state_set(1)), vec![item(0, 2, 0)]);
    assert!(parser.accepts());
}

#[test]
fn chart_of_a_list() {
    let mut parser = EarleyParser::new(list_grammar(), nonterminal("L"));
    assert!(parser.consume_str("x,y".to_string()));
    assert_eq!(parser.len(), 4);
    assert_eq!(items_of(parser.state_set(0)), vec![item(0, 0, 0), item(1, 0, 0), item(2, 0, 0)]);
    assert_eq!(items_of(parser.state_set(1)), vec![item(2, 1, 0), item(1, 1, 0), item(0, 1, 0)]);
    assert_eq!(items_of(parser.state_set(2)), vec![item(0, 2, 0), item(2, 0, 2)]);
    assert_eq!(items_of(parser.state_set(3)), vec![item(2, 1, 2), item(0, 3, 0), item(0, 1, 0)]);
    assert!(parser.accepts());
}

#[test]
fn positions_are_written_in_decimal() {
    let grammar = Grammar { productions: vec![production("A", vec![terminal("a"), nonterminal("A")])] };
    let mut parser = EarleyParser::new(grammar, nonterminal("A"));
    assert!(parser.consume_str("aaaaaaaaaaaa".to_string()));
    let text = parser.to_string();
    assert!(text.ends_with("=== 12 ===\nA -> 'a' • A (11)\nA -> • 'a' A (12)\n\n"));
    assert!(text.contains("=== 10 ===\nA -> 'a' • A (9)\nA -> • 'a' A (10)\n\n"));
}
