use earley::grammar::{Grammar, Production, Symbol};
use earley::item::EarleyItem;
use earley::parser::EarleyParser;

fn nonterminal(name: &str) -> Symbol {
    Symbol::Nonterminal { name: name.to_string() }
}

fn terminal(chars: &str) -> Symbol {
    Symbol::Terminal(chars.chars().collect())
}

fn production(lhs: &str, rhs: Vec<Symbol>) -> Production {
    Production { nonterminal: nonterminal(lhs), symbols: rhs }
}

fn chart_of(parser: &EarleyParser) -> Vec<Vec<EarleyItem>> {
    (0..parser.len())
        .map(|i| {
            let set = parser.state_set(i);
            (0..set.len()).map(|k| set.get(k).unwrap()).collect()
        })
        .collect()
}

/// Whether `text[from..to]` derives from the symbols, by trying every split.
/// `table[n][from][to]` tells it for the nonterminal of number `n`.
fn sequence_derives(
    symbols: &[Symbol],
    names: &[String],
    table: &[Vec<Vec<bool>>],
    text: &[char],
    from: usize,
    to: usize,
) -> bool {
    match symbols.split_first() {
        None => from == to,
        Some((first, rest)) => (from + 1..=to).any(|mid| {
            let head = match first {
                Symbol::Terminal(chars) => mid == from + 1 && chars.contains(&text[from]),
                Symbol::Nonterminal { name } => {
                    let n = names.iter().position(|other| other == name).unwrap();
                    table[n][from][mid]
                }
            };
            head && sequence_derives(rest, names, table, text, mid, to)
        }),
    }
}

/// A recognizer by exhaustive tabulation, for grammars whose productions
/// have at least one symbol on the right.
fn derives(grammar: &Grammar, start: &str, text: &[char]) -> bool {
    let mut names: Vec<String> = Vec::new();
    for rule in &grammar.productions {
        let mut symbols = vec![rule.nonterminal.clone()];
        symbols.extend(rule.symbols.iter().cloned());
        for symbol in symbols {
            if let Symbol::Nonterminal { name } = symbol {
                if !names.contains(&name) {
                    names.push(name);
                }
            }
        }
    }
    if !names.contains(&start.to_string()) {
        return false;
    }
    let n = text.len();
    let mut table = vec![vec![vec![false; n + 1]; n + 1]; names.len()];
    let mut changed = true;
    while changed {
        changed = false;
        for rule in &grammar.productions {
            let Symbol::Nonterminal { name } = &rule.nonterminal else {
                continue;
            };
            let lhs = names.iter().position(|other| other == name).unwrap();
            for from in 0..=n {
                for to in from..=n {
                    if !table[lhs][from][to]
                        && sequence_derives(&rule.symbols, &names, &table, text, from, to)
                    {
                        table[lhs][from][to] = true;
                        changed = true;
                    }
                }
            }
        }
    }
    let s = names.iter().position(|other| other == start).unwrap();
    table[s][0][n]
}

fn texts_up_to(alphabet: &[char], length: usize) -> Vec<String> {
    let mut all = vec![String::new()];
    let mut last = vec![String::new()];
    for _ in 0..length {
        let mut longer = Vec::new();
        for text in &last {
            for c in alphabet {
                let mut next = text.clone();
                next.push(*c);
                longer.push(next);
            }
        }
        all.extend(longer.iter().cloned());
        last = longer;
    }
    all
}

fn agrees_with_tabulation(grammar: &Grammar, start: &str, alphabet: &[char], length: usize) {
    for text in texts_up_to(alphabet, length) {
        let mut parser = EarleyParser::new(grammar.clone(), nonterminal(start));
        parser.consume_str(text.clone());
        let chars: Vec<char> = text.chars().collect();
        assert_eq!(parser.accepts(), derives(grammar, start, &chars), "text {:?}", text);
    }
}

#[test]
fn accepts_exactly_what_derives_balanced_parentheses() {
    let grammar = Grammar {
        productions: vec![
            production("S", vec![nonterminal("S"), nonterminal("S")]),
            production("S", vec![terminal("("), nonterminal("S"), terminal(")")]),
            production("S", vec![terminal("("), terminal(")")]),
        ],
    };
    agrees_with_tabulation(&grammar, "S", &['(', ')'], 8);
}

#[test]
fn accepts_exactly_what_derives_small_arithmetic() {
    let grammar = Grammar {
        productions: vec![
            production("E", vec![nonterminal("E"), terminal("+"), nonterminal("T")]),
            production("E", vec![nonterminal("T")]),
            production("T", vec![nonterminal("T"), terminal("*"), nonterminal("F")]),
            production("T", vec![nonterminal("F")]),
            production("F", vec![terminal("("), nonterminal("E"), terminal(")")]),
            production("F", vec![terminal("1")]),
        ],
    };
    agrees_with_tabulation(&grammar, "E", &['1', '+', '*', '(', ')'], 5);
    agrees_with_tabulation(&grammar, "T", &['1', '+', '*', '(', ')'], 4);
}

#[test]
fn accepts_exactly_what_derives_ambiguous_grammar() {
    let grammar = Grammar {
        productions: vec![
            production("A", vec![nonterminal("A"), nonterminal("A")]),
            production("A", vec![terminal("ab")]),
            production("A", vec![nonterminal("B"), terminal("b")]),
            production("B", vec![terminal("a"), nonterminal("B")]),
            production("B", vec![terminal("a")]),
        ],
    };
    agrees_with_tabulation(&grammar, "A", &['a', 'b'], 7);
    agrees_with_tabulation(&grammar, "B", &['a', 'b'], 7);
}

#[test]
fn what_is_accepted_derives_also_with_empty_right_hand_sides() {
    // With empty right-hand sides the recognizer may miss a derivation, but
    // whatever it accepts derives.
    let grammar = Grammar {
        productions: vec![
            production("S", vec![nonterminal("A"), terminal("a")]),
            production("A", vec![]),
        ],
    };
    let mut parser = EarleyParser::new(grammar.clone(), nonterminal("S"));
    assert!(parser.consume_str("a".to_string()));
    assert!(parser.accepts());
    let mut parser = EarleyParser::new(grammar, nonterminal("S"));
    parser.consume_str("aa".to_string());
    assert!(!parser.accepts());
}

#[test]
fn a_derivation_through_an_empty_right_hand_side_can_be_missed() {
    let grammar = Grammar {
        productions: vec![production("S", vec![nonterminal("A")]), production("A", vec![])],
    };
    let parser = EarleyParser::new(grammar, nonterminal("S"));
    assert!(!parser.accepts());
}

#[test]
fn second_fixpoint_inserts_nothing() {
    let grammar = Grammar {
        productions: vec![
            production("E", vec![nonterminal("E"), terminal("+"), nonterminal("T")]),
            production("E", vec![nonterminal("T")]),
            production("T", vec![terminal("1")]),
        ],
    };
    let mut parser = EarleyParser::new(grammar, nonterminal("E"));
    parser.consume_str("1+1".to_string());
    let before = chart_of(&parser);
    let last = parser.len() - 1;
    assert!(parser.inner_loop(last).is_none());
    assert_eq!(chart_of(&parser), before);
    assert!(parser.inner_loop(last).is_none());
    assert_eq!(chart_of(&parser), before);
    assert!(parser.accepts());
}

#[test]
fn fixpoint_of_the_seeded_set_is_reached_once() {
    let grammar = Grammar {
        productions: vec![
            production("E", vec![nonterminal("T")]),
            production("T", vec![terminal("1")]),
        ],
    };
    let mut parser = EarleyParser::new(grammar, nonterminal("E"));
    let seeded = chart_of(&parser);
    assert!(parser.inner_loop(0).is_none());
    let once = chart_of(&parser);
    assert_eq!(once, seeded);
    assert!(parser.inner_loop(0).is_none());
    assert_eq!(chart_of(&parser), once);
}

#[test]
fn same_input_gives_the_same_chart() {
    let grammar = Grammar {
        productions: vec![
            production("S", vec![nonterminal("S"), nonterminal("S")]),
            production("S", vec![terminal("x")]),
        ],
    };
    let run = |text: &str| {
        let mut parser = EarleyParser::new(grammar.clone(), nonterminal("S"));
        parser.consume_str(text.to_string());
        (chart_of(&parser), parser.to_string(), parser.accepts())
    };
    assert_eq!(run("xxxx"), run("xxxx"));
    assert_eq!(run("xxy"), run("xxy"));
}
