use bfc::Lexer;
use bfc::Token;

#[test]
fn lex_simple_program() {
    let mut lexer = Lexer::new("++>+".to_string());
    let tokens = lexer.lex();
    assert_eq!(
        tokens,
        vec![Token::Plus, Token::Plus, Token::RAngle, Token::Plus, Token::EOF]
    );
}

#[test]
fn lex_only_unrecognized_characters_yields_eof_alone() {
    let mut lexer = Lexer::new("hello world! 123 (tape)\n\t".to_string());
    assert_eq!(lexer.lex(), vec![Token::EOF]);
}

#[test]
fn lex_empty_input_yields_eof_alone() {
    let mut lexer = Lexer::new(String::new());
    assert_eq!(lexer.lex(), vec![Token::EOF]);
}

#[test]
fn lex_every_symbol_of_the_alphabet() {
    let mut lexer = Lexer::new("<>+-.,[]".to_string());
    assert_eq!(
        lexer.lex(),
        vec![
            Token::LAngle,
            Token::RAngle,
            Token::Plus,
            Token::Minus,
            Token::Dot,
            Token::Comma,
            Token::LBracket,
            Token::RBracket,
            Token::EOF,
        ]
    );
}

#[test]
fn lex_skips_characters_between_symbols() {
    let mut lexer = Lexer::new("+ comments are ignored + then <".to_string());
    assert_eq!(
        lexer.lex(),
        vec![Token::Plus, Token::Plus, Token::LAngle, Token::EOF]
    );
}

#[test]
fn next_token_streams_and_sticks_at_eof() {
    let mut lexer = Lexer::new("+x-".to_string());
    assert_eq!(lexer.next_token(), Token::Plus);
    assert_eq!(lexer.next_token(), Token::Minus);
    assert_eq!(lexer.next_token(), Token::EOF);
    assert_eq!(lexer.next_token(), Token::EOF);
}

#[test]
fn token_printed_forms() {
    assert_eq!(Token::LAngle.text(), "<");
    assert_eq!(Token::RAngle.text(), ">");
    assert_eq!(Token::Plus.text(), "+");
    assert_eq!(Token::Minus.text(), "-");
    assert_eq!(Token::Dot.text(), ".");
    assert_eq!(Token::Comma.text(), ",");
    assert_eq!(Token::LBracket.text(), "[");
    assert_eq!(Token::RBracket.text(), "]");
    assert_eq!(Token::EOF.text(), "<eof>");
}
