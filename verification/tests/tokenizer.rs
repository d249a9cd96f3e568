use earley::tok::{classify, tokenize, Lexeme, SyntaxError, Token};

#[test]
fn tokenize_splits_digits_and_operators() {
    let tokens = tokenize("1+(23)").unwrap();
    assert_eq!(
        tokens,
        vec![
            Token::Digit('1'),
            Token::Plus,
            Token::LParen,
            Token::Digit('2'),
            Token::Digit('3'),
            Token::RParen,
        ]
    );
}

#[test]
fn tokenize_drops_white_space() {
    let tokens = tokenize(" 1 +\t2\n\u{a0}").unwrap();
    assert_eq!(tokens, vec![Token::Digit('1'), Token::Plus, Token::Digit('2')]);
}

#[test]
fn tokenize_of_empty_text_is_empty() {
    assert_eq!(tokenize("").unwrap(), vec![]);
}

#[test]
fn tokenize_reports_a_character_outside_the_alphabet() {
    let error = tokenize("1+?").unwrap_err();
    assert_eq!(error.message().as_str(), "Unexpected character '?'");
}

#[test]
fn tokenize_reports_the_first_offending_character() {
    let error = tokenize("1 * 2 / x").unwrap_err();
    assert_eq!(error.message().as_str(), "Unexpected character '*'");
}

#[test]
fn classify_goes_by_the_character_before_white_space() {
    assert_eq!(classify('7', false), Lexeme::Token(Token::Digit('7')));
    assert_eq!(classify('+', true), Lexeme::Token(Token::Plus));
    assert_eq!(classify('(', false), Lexeme::Token(Token::LParen));
    assert_eq!(classify(')', false), Lexeme::Token(Token::RParen));
    assert_eq!(classify(' ', true), Lexeme::Skip);
    assert_eq!(classify('x', false), Lexeme::Unexpected);
}

#[test]
fn syntax_error_keeps_its_message() {
    let error = SyntaxError::new("broken".to_string());
    assert_eq!(error.message().as_str(), "broken");
}
