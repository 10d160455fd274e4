//! The lexical alphabet: nine token kinds, one per source symbol plus an
//! end-of-input marker.

use vstd::prelude::*;

verus! {

/// One lexical symbol of the language. Tokens carry no payload and are
/// immutable values; `EOF` marks the end of the input and never appears
/// in the middle of a lexed stream.
#[derive(Debug, Copy, Clone, PartialEq, Eq, Structural)]
pub enum Token {
    LAngle,
    RAngle,
    Plus,
    Minus,
    Dot,
    Comma,
    LBracket,
    RBracket,
    EOF,
}

/// Classifies a character against the eight-symbol alphabet: the token it
/// stands for, or `None` for every other character, which the tokenizer
/// skips.
pub open spec fn char_sym(c: char) -> Option<Token> {
    if c == '<' {
        Some(Token::LAngle)
    } else if c == '>' {
        Some(Token::RAngle)
    } else if c == '+' {
        Some(Token::Plus)
    } else if c == '-' {
        Some(Token::Minus)
    } else if c == '.' {
        Some(Token::Dot)
    } else if c == ',' {
        Some(Token::Comma)
    } else if c == '[' {
        Some(Token::LBracket)
    } else if c == ']' {
        Some(Token::RBracket)
    } else {
        None
    }
}

/// The printed form of a token, as a character sequence; `EOF` prints as
/// the marker text `<eof>`.
pub open spec fn token_text(t: Token) -> Seq<char> {
    match t {
        Token::LAngle => seq!['<'],
        Token::RAngle => seq!['>'],
        Token::Plus => seq!['+'],
        Token::Minus => seq!['-'],
        Token::Dot => seq!['.'],
        Token::Comma => seq![','],
        Token::LBracket => seq!['['],
        Token::RBracket => seq![']'],
        Token::EOF => seq!['<', 'e', 'o', 'f', '>'],
    }
}

impl Token {
    /// The printed form of the token, used in diagnostics.
    pub fn text(&self) -> (r: String)
        ensures
            r@ == token_text(*self),
    {
        proof {
            reveal_strlit("<");
            reveal_strlit(">");
            reveal_strlit("+");
            reveal_strlit("-");
            reveal_strlit(".");
            reveal_strlit(",");
            reveal_strlit("[");
            reveal_strlit("]");
            reveal_strlit("<eof>");
        }
        match self {
            Token::LAngle => "<".to_owned(),
            Token::RAngle => ">".to_owned(),
            Token::Plus => "+".to_owned(),
            Token::Minus => "-".to_owned(),
            Token::Dot => ".".to_owned(),
            Token::Comma => ",".to_owned(),
            Token::LBracket => "[".to_owned(),
            Token::RBracket => "]".to_owned(),
            Token::EOF => "<eof>".to_owned(),
        }
    }
}

} // verus!
