use earley::grammar::{Grammar, Production, Symbol};
use earley::item::EarleyItem;
use earley::parser::EarleyParser;

fn nt(name: &str) -> Symbol {
    Symbol::Nonterminal { name: name.to_string() }
}

fn t(chars: &str) -> Symbol {
    Symbol::Terminal(chars.chars().collect())
}

fn rule(lhs: &str, rhs: Vec<Symbol>) -> Production {
    Production { nonterminal: nt(lhs), symbols: rhs }
}

fn arithmetic() -> Grammar {
    let pm = t("+-");
    let md = t("*/");
    let digit = t("0123456789");
    Grammar {
        productions: vec![
            rule("Sum", vec![nt("Sum"), pm.clone(), nt("Product")]),
            rule("Sum", vec![nt("Product")]),
            rule("Product", vec![nt("Product"), md.clone(), nt("Factor")]),
            rule("Product", vec![nt("Factor")]),
            rule("Factor", vec![t("("), nt("Sum"), t(")")]),
            rule("Factor", vec![nt("Number")]),
            rule("Number", vec![digit.clone(), nt("Number")]),
            rule("Number", vec![digit.clone()]),
        ],
    }
}

fn accepts(grammar: Grammar, start: &str, input: &str) -> bool {
    let mut parser = EarleyParser::new(grammar, nt(start));
    parser.consume_str(input.to_string());
    parser.accepts()
}

#[test]
fn arithmetic_accepts_nested_expression() {
    assert!(accepts(arithmetic(), "Sum", "1+(2*3-4)"));
}

#[test]
fn arithmetic_accepts_single_digit() {
    assert!(accepts(arithmetic(), "Sum", "5"));
}

#[test]
fn arithmetic_rejects_dangling_operator() {
    assert!(!accepts(arithmetic(), "Sum", "1+"));
}

#[test]
fn arithmetic_rejects_empty_parentheses() {
    assert!(!accepts(arithmetic(), "Sum", "()"));
}

#[test]
fn arithmetic_rejects_empty_input() {
    assert!(!accepts(arithmetic(), "Sum", ""));
}

#[test]
fn empty_input_is_accepted_with_an_epsilon_production_of_the_start_symbol() {
    let grammar = Grammar { productions: vec![rule("S", vec![]), rule("S", vec![t("a"), nt("S")])] };
    assert!(accepts(grammar, "S", ""));
}

#[test]
fn seeded_chart_holds_one_item_for_each_production() {
    let parser = EarleyParser::new(arithmetic(), nt("Sum"));
    assert_eq!(parser.len(), 1);
    let first = parser.state_set(0);
    assert_eq!(first.len(), 8);
    for k in 0..8 {
        assert_eq!(first.get(k), Some(EarleyItem { production: k, pos: 0, start: 0 }));
    }
    assert_eq!(first.get(8), None);
}

#[test]
fn consume_char_tells_whether_the_chart_grew() {
    let mut parser = EarleyParser::new(arithmetic(), nt("Sum"));
    assert!(parser.consume_char('1'));
    assert_eq!(parser.len(), 2);
    assert!(parser.consume_char('+'));
    assert_eq!(parser.len(), 3);
    assert!(!parser.consume_char('+'));
    assert_eq!(parser.len(), 3);
    assert!(!parser.consume_char('1'));
    assert_eq!(parser.len(), 3);
    assert!(!parser.accepts());
}

#[test]
fn consume_str_stops_at_the_first_element_that_cannot_be_scanned() {
    let mut parser = EarleyParser::new(arithmetic(), nt("Sum"));
    assert!(!parser.consume_str("1+?2".to_string()));
    assert_eq!(parser.len(), 3);
    assert!(!parser.accepts());
    let mut parser = EarleyParser::new(arithmetic(), nt("Sum"));
    assert!(parser.consume_str("1+2".to_string()));
    assert_eq!(parser.len(), 4);
    assert!(parser.accepts());
}

#[test]
fn chart_after_one_digit() {
    let mut parser = EarleyParser::new(arithmetic(), nt("Sum"));
    parser.consume_char('7');
    let second = parser.state_set(1);
    let items: Vec<EarleyItem> = (0..second.len()).map(|k| second.get(k).unwrap()).collect();
    let item = |production, pos, start| EarleyItem { production, pos, start };
    assert_eq!(
        items,
        vec![
            item(6, 1, 0),
            item(7, 1, 0),
            item(6, 0, 1),
            item(7, 0, 1),
            item(5, 1, 0),
            item(3, 1, 0),
            item(1, 1, 0),
            item(2, 1, 0),
            item(0, 1, 0),
        ]
    );
}

#[test]
fn equal_productions_give_one_item() {
    let grammar = Grammar {
        productions: vec![rule("S", vec![t("a")]), rule("S", vec![t("b")]), rule("S", vec![t("a")])],
    };
    let parser = EarleyParser::new(grammar, nt("S"));
    let first = parser.state_set(0);
    assert_eq!(first.len(), 2);
    assert_eq!(first.get(0), Some(EarleyItem { production: 0, pos: 0, start: 0 }));
    assert_eq!(first.get(1), Some(EarleyItem { production: 1, pos: 0, start: 0 }));
}

#[test]
fn terminals_with_the_same_members_make_equal_productions() {
    let grammar = Grammar {
        productions: vec![rule("S", vec![t("ab")]), rule("S", vec![t("ba")]), rule("S", vec![t("a")])],
    };
    let mut parser = EarleyParser::new(grammar, nt("S"));
    let first = parser.state_set(0);
    assert_eq!(first.len(), 2);
    assert_eq!(first.get(0), Some(EarleyItem { production: 0, pos: 0, start: 0 }));
    assert_eq!(first.get(1), Some(EarleyItem { production: 2, pos: 0, start: 0 }));
    assert!(parser.consume_char('b'));
    assert_eq!(parser.to_string(), "=== 0 ===\nS -> • [ab] (0)\nS -> • 'a' (0)\n\n=== 1 ===\nS -> [ab] • (0)\n\n");
    assert!(parser.accepts());
}

#[test]
fn left_recursive_grammar_terminates() {
    let grammar = Grammar { productions: vec![rule("A", vec![nt("A"), t("a")]), rule("A", vec![t("a")])] };
    assert!(accepts(grammar.clone(), "A", "aaaa"));
    assert!(!accepts(grammar, "A", "aab"));
}

#[test]
fn right_recursive_grammar_terminates() {
    let grammar = Grammar { productions: vec![rule("A", vec![t("a"), nt("A")]), rule("A", vec![t("a")])] };
    assert!(accepts(grammar.clone(), "A", "aaaa"));
    assert!(!accepts(grammar, "A", ""));
}

#[test]
fn undefined_nonterminal_never_derives() {
    let grammar = Grammar { productions: vec![rule("S", vec![nt("Missing")]), rule("S", vec![t("a")])] };
    assert!(accepts(grammar.clone(), "S", "a"));
    assert!(!accepts(grammar, "Missing", "a"));
}

#[test]
fn recognition_is_deterministic() {
    let run = || {
        let mut parser = EarleyParser::new(arithmetic(), nt("Sum"));
        parser.consume_str("1+(2*3-4)".to_string());
        let mut chart = Vec::new();
        for i in 0..parser.len() {
            let set = parser.state_set(i);
            let items: Vec<EarleyItem> = (0..set.len()).map(|k| set.get(k).unwrap()).collect();
            chart.push(items);
        }
        (chart, parser.accepts())
    };
    assert_eq!(run(), run());
}

#[test]
fn symbols_are_written_by_name_or_by_characters() {
    assert_eq!(nt("Sum").to_string(), "Sum");
    assert_eq!(t("(").to_string(), "'('");
    assert_eq!(t("+-").to_string(), "[+-]");
    assert_eq!(t("").to_string(), "[]");
}

#[test]
fn productions_are_written_with_an_arrow() {
    assert_eq!(rule("Sum", vec![nt("Sum"), t("+-"), nt("Product")]).to_string(), "Sum -> Sum [+-] Product");
    assert_eq!(rule("Empty", vec![]).to_string(), "Empty ->");
}

#[test]
fn grammar_is_written_one_production_to_a_line() {
    let grammar = Grammar { productions: vec![rule("A", vec![t("a"), nt("A")]), rule("A", vec![t("a")])] };
    assert_eq!(grammar.to_string(), "A -> 'a' A\nA -> 'a'\n");
    assert_eq!(Grammar { productions: vec![] }.to_string(), "");
}

#[test]
fn items_are_written_with_the_dot_and_the_origin() {
    let grammar = arithmetic();
    let item = |production, pos, start| EarleyItem { production, pos, start };
    assert_eq!(item(0, 0, 0).to_string(&grammar), "Sum -> • Sum [+-] Product (0)");
    assert_eq!(item(0, 1, 3).to_string(&grammar), "Sum -> Sum • [+-] Product (3)");
    assert_eq!(item(0, 3, 12).to_string(&grammar), "Sum -> Sum [+-] Product • (12)");
    assert_eq!(item(4, 2, 105).to_string(&grammar), "Factor -> '(' Sum • ')' (105)");
}

#[test]
fn chart_is_written_position_by_position() {
    let grammar = Grammar { productions: vec![rule("A", vec![t("a"), nt("A")]), rule("A", vec![t("a")])] };
    let mut parser = EarleyParser::new(grammar, nt("A"));
    assert_eq!(parser.to_string(), "=== 0 ===\nA -> • 'a' A (0)\nA -> • 'a' (0)\n\n");
    parser.consume_char('a');
    assert_eq!(
        parser.to_string(),
        "=== 0 ===\nA -> • 'a' A (0)\nA -> • 'a' (0)\n\n\
         === 1 ===\nA -> 'a' • A (0)\nA -> 'a' • (0)\nA -> • 'a' A (1)\nA -> • 'a' (1)\n\n"
    );
    assert_eq!(
        parser.state_set(1).to_string(parser.grammar()),
        "A -> 'a' • A (0)\nA -> 'a' • (0)\nA -> • 'a' A (1)\nA -> • 'a' (1)\n"
    );
}
