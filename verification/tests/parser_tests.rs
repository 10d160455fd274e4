use bfc::Lexer;
use bfc::Node;
use bfc::Parser;
use bfc::Token;
use bfc::parser::SyntaxError;

fn parse_text(text: &str) -> Result<Vec<Node>, SyntaxError> {
    let mut lexer = Lexer::new(text.to_string());
    let mut parser = Parser::new(lexer.lex());
    parser.parse()
}

#[test]
fn parse_simple_program() {
    assert_eq!(
        parse_text("++>+"),
        Ok(vec![Node::Inc, Node::Inc, Node::Right, Node::Inc, Node::EOF])
    );
}

#[test]
fn parse_clear_loop() {
    assert_eq!(
        parse_text("[-]"),
        Ok(vec![Node::Group(vec![Node::Dec]), Node::EOF])
    );
}

#[test]
fn parse_unterminated_loop_reports_eof() {
    let err = parse_text("[").unwrap_err();
    assert_eq!(err.token, Token::EOF);
    assert_eq!(err.message(), "Unexpected token: <eof>");
}

#[test]
fn parse_close_without_open_fails() {
    let err = parse_text("]").unwrap_err();
    assert_eq!(err.token, Token::RBracket);
    assert_eq!(err.message(), "Unexpected token: ]");
}

#[test]
fn parse_unbalanced_extra_close_fails() {
    let err = parse_text("[+]]").unwrap_err();
    assert_eq!(err.token, Token::RBracket);
}

#[test]
fn parse_unbalanced_extra_open_fails() {
    let err = parse_text("[[+]").unwrap_err();
    assert_eq!(err.token, Token::EOF);
}

#[test]
fn parse_nested_loops_preserve_depth() {
    assert_eq!(
        parse_text("[[+]-]"),
        Ok(vec![
            Node::Group(vec![Node::Group(vec![Node::Inc]), Node::Dec]),
            Node::EOF,
        ])
    );
}

#[test]
fn parse_deeply_nested_balanced_succeeds() {
    assert_eq!(
        parse_text("[[[[]]]]"),
        Ok(vec![
            Node::Group(vec![Node::Group(vec![Node::Group(vec![Node::Group(
                vec![]
            )])])]),
            Node::EOF,
        ])
    );
}

#[test]
fn parse_loop_body_length_counts_top_level_expressions() {
    let nodes = parse_text("[+->.,]").unwrap();
    match &nodes[0] {
        Node::Group(body) => assert_eq!(body.len(), 5),
        other => panic!("expected a loop node, got {:?}", other),
    }
    let nodes = parse_text("[+[-][.]]").unwrap();
    match &nodes[0] {
        Node::Group(body) => assert_eq!(body.len(), 3),
        other => panic!("expected a loop node, got {:?}", other),
    }
}

#[test]
fn parse_empty_input_yields_end_marker_alone() {
    assert_eq!(parse_text(""), Ok(vec![Node::EOF]));
}

#[test]
fn parse_skips_unrecognized_characters() {
    assert_eq!(
        parse_text("a + b [ - ] done"),
        Ok(vec![
            Node::Inc,
            Node::Group(vec![Node::Dec]),
            Node::EOF,
        ])
    );
}

#[test]
fn printed_parse_result_retokenizes_to_the_same_tokens() {
    let source = "say + [ - . ] , hello > <";
    let nodes = parse_text(source).unwrap();
    let mut printed = String::new();
    for node in &nodes {
        printed.push_str(&node.text());
    }
    let mut relexer = Lexer::new(printed);
    let mut lexer = Lexer::new(source.to_string());
    assert_eq!(relexer.lex(), lexer.lex());
}
