//! A tokenizer for arithmetic input: digits, `+` and parentheses, with white
//! space between them.

use crate::text::push_char;
use vstd::prelude::*;
use vstd::std_specs::iter::IteratorSpec;
use vstd::string::StringExecFns;

verus! {

/// One lexical element of the input.
#[derive(Debug, Clone, Copy, PartialEq, Eq, Structural)]
pub enum Token {
    Digit(char),
    Plus,
    LParen,
    RParen,
}

/// The failure to tokenize: the text holds a character that belongs to no
/// token and is not white space.
#[derive(Debug)]
pub struct SyntaxError {
    message: String,
}

impl View for SyntaxError {
    type V = Seq<char>;

    closed spec fn view(&self) -> Seq<char> {
        self.message@
    }
}

impl SyntaxError {
    /// An error with the given message.
    pub fn new(message: String) -> (error: SyntaxError)
        ensures
            error@ == message@,
    {
        SyntaxError { message }
    }

    /// The message of the error.
    pub fn message(&self) -> (message: &String)
        ensures
            message@ == self@,
    {
        &self.message
    }
}

/// Whether `char::is_whitespace` holds of a character: whether it has the
/// Unicode property `White_Space`.
pub uninterp spec fn has_white_space_property(c: char) -> bool;

/// `char::is_whitespace`.
#[verifier::external_body]
fn is_whitespace(c: char) -> (white: bool)
    ensures
        white == has_white_space_property(c),
{
    c.is_whitespace()
}

/// What one character of the input amounts to.
#[derive(Debug, Clone, Copy, PartialEq, Eq, Structural)]
pub enum Lexeme {
    /// The character is a token by itself.
    Token(Token),
    /// The character separates tokens and is dropped.
    Skip,
    /// The character cannot occur.
    Unexpected,
}

/// The meaning of the character `c`, given whether it is white space.
pub open spec fn lexeme_of(c: char, white: bool) -> Lexeme {
    if '0' <= c <= '9' {
        Lexeme::Token(Token::Digit(c))
    } else if c == '+' {
        Lexeme::Token(Token::Plus)
    } else if c == '(' {
        Lexeme::Token(Token::LParen)
    } else if c == ')' {
        Lexeme::Token(Token::RParen)
    } else if white {
        Lexeme::Skip
    } else {
        Lexeme::Unexpected
    }
}

/// Classifies one character; `white` tells whether it is white space.
pub fn classify(c: char, white: bool) -> (lexeme: Lexeme)
    ensures
        lexeme == lexeme_of(c, white),
{
    if '0' <= c && c <= '9' {
        Lexeme::Token(Token::Digit(c))
    } else if c == '+' {
        Lexeme::Token(Token::Plus)
    } else if c == '(' {
        Lexeme::Token(Token::LParen)
    } else if c == ')' {
        Lexeme::Token(Token::RParen)
    } else if white {
        Lexeme::Skip
    } else {
        Lexeme::Unexpected
    }
}

/// The tokens of `text` in order, white space dropped; or the first
/// character of `text` that cannot occur.
pub open spec fn tokens_of(text: Seq<char>) -> Result<Seq<Token>, char>
    decreases text.len(),
{
    if text.len() == 0 {
        Ok(Seq::empty())
    } else {
        match tokens_of(text.drop_last()) {
            Err(c) => Err(c),
            Ok(tokens) => match lexeme_of(text.last(), has_white_space_property(text.last())) {
                Lexeme::Token(token) => Ok(tokens.push(token)),
                Lexeme::Skip => Ok(tokens),
                Lexeme::Unexpected => Err(text.last()),
            },
        }
    }
}

/// The message that reports the character `c`.
pub open spec fn unexpected_message(c: char) -> Seq<char> {
    "Unexpected character '"@.push(c).push('\'')
}

/// Splits `string` into tokens. White space is dropped; any other character
/// that is no token is reported by the error.
pub fn tokenize(string: &str) -> (result: Result<Vec<Token>, SyntaxError>)
    ensures
        match result {
            Ok(tokens) => tokens_of(string@) == Ok::<Seq<Token>, char>(tokens@),
            Err(error) => tokens_of(string@) matches Err(c) && error@ == unexpected_message(c),
        },
{
    let mut tokens: Vec<Token> = Vec::new();
    let mut iter = string.chars();
    let ghost mut seen: Seq<char> = Seq::empty();
    loop
        invariant
            iter.obeys_prophetic_iter_laws(),
            iter.decrease() is Some,
            seen + iter.remaining() == string@,
            tokens_of(seen) == Ok::<Seq<Token>, char>(tokens@),
        decreases iter.decrease()->0,
    {
        match iter.next() {
            Some(ch) => {
                proof {
                    assert(seen.push(ch).drop_last() =~= seen);
                    assert(seen.push(ch) + iter.remaining() =~= string@);
                    lemma_tokens_of_failure(seen.push(ch), iter.remaining());
                    seen = seen.push(ch);
                }
                match classify(ch, is_whitespace(ch)) {
                    Lexeme::Token(token) => {
                        tokens.push(token);
                    },
                    Lexeme::Skip => {},
                    Lexeme::Unexpected => {
                        let mut message = String::from_str("Unexpected character '");
                        push_char(&mut message, ch);
                        push_char(&mut message, '\'');
                        return Err(SyntaxError::new(message));
                    },
                }
            },
            None => {
                assert(seen =~= string@);
                return Ok(tokens);
            },
        }
    }
}

/// Whether the character can occur in the input: whether it is a token or
/// white space.
pub open spec fn can_occur(c: char) -> bool {
    lexeme_of(c, has_white_space_property(c)) != Lexeme::Unexpected
}

/// Tokenizing succeeds exactly on the texts all of whose characters can
/// occur, and a failure names the first character that cannot.
pub proof fn lemma_tokens_of_outcome(text: Seq<char>)
    ensures
        tokens_of(text) is Ok <==> forall|i: int| 0 <= i < text.len() ==> can_occur(#[trigger] text[i]),
        tokens_of(text) matches Err(c) ==> exists|i: int|
            0 <= i < text.len() && #[trigger] text[i] == c && !can_occur(c) && forall|j: int|
                0 <= j < i ==> can_occur(#[trigger] text[j]),
    decreases text.len(),
{
    if text.len() > 0 {
        let front = text.drop_last();
        lemma_tokens_of_outcome(front);
        assert forall|i: int| 0 <= i < front.len() implies front[i] == text[i] by {}
        match tokens_of(front) {
            Err(c) => {
                let i = choose|i: int|
                    0 <= i < front.len() && #[trigger] front[i] == c && !can_occur(c) && forall|j: int|
                        0 <= j < i ==> can_occur(#[trigger] front[j]);
                assert(text[i] == c);
                assert forall|j: int| 0 <= j < i implies can_occur(#[trigger] text[j]) by {
                    assert(can_occur(front[j]));
                }
            },
            Ok(tokens) => {
                assert forall|j: int| 0 <= j < text.len() - 1 implies can_occur(#[trigger] text[j]) by {
                    assert(can_occur(front[j]));
                }
                if !can_occur(text.last()) {
                    assert(text[text.len() - 1] == text.last());
                }
            },
        }
    }
}

/// A failure in a prefix of the text is the failure of the whole text.
pub proof fn lemma_tokens_of_failure(prefix: Seq<char>, rest: Seq<char>)
    ensures
        tokens_of(prefix) is Err ==> tokens_of(prefix + rest) == tokens_of(prefix),
    decreases rest.len(),
{
    if rest.len() > 0 {
        assert((prefix + rest).drop_last() =~= prefix + rest.drop_last());
        lemma_tokens_of_failure(prefix, rest.drop_last());
    } else {
        assert(prefix + rest =~= prefix);
    }
}

} // verus!
