use parser::ast::{Lexer, Node, Parser, Token, TokenType};
use parser::diagnostic::{diagnostic, layout, locate, Span};

fn token(kind: TokenType, text: &str, at: usize) -> Token {
    let mut tk = Token::new(kind, at);
    for c in text.chars() {
        tk.push(c);
    }
    tk
}

#[test]
fn leaf_renders_as_its_text_and_a_space() {
    assert_eq!(Node::new(token(TokenType::Identifier, "abc", 0)).render(), "abc ");
    assert_eq!(Node::new(token(TokenType::Numerical, "1.5", 0)).render(), "1.5 ");
    assert_eq!(Node::new(token(TokenType::StringVar, "\"s\"", 0)).render(), "\"s\" ");
}

#[test]
fn other_nodes_render_in_parentheses() {
    assert_eq!(Node::new(token(TokenType::FuncCall, "f", 0)).render(), "( f ) ");
    assert_eq!(Node::new(token(TokenType::BinaryOper, "+", 0)).render(), "( + ) ");
    assert_eq!(Node::new(token(TokenType::Null, "", 0)).render(), "(  ) ");
}

#[test]
fn operands_follow_in_order() {
    let mut node = Node::new(token(TokenType::BinaryOper, "-", 1));
    node.push(Node::new(token(TokenType::Identifier, "a", 0)));
    node.push(Node::new(token(TokenType::Identifier, "b", 2)));
    assert_eq!(node.render(), "( - a b ) ");
}

#[test]
fn leaf_with_operands_still_lists_them() {
    let mut node = Node::new(token(TokenType::Identifier, "a", 0));
    node.push(Node::new(token(TokenType::Numerical, "1", 2)));
    assert_eq!(node.render(), "a 1 ");
}

#[test]
fn render_into_appends() {
    let mut out = String::from("> ");
    Node::new(token(TokenType::Identifier, "x", 0)).render_into(&mut out);
    assert_eq!(out, "> x ");
}

#[test]
fn is_leaf_goes_by_the_class() {
    assert!(Node::new(token(TokenType::Identifier, "x", 0)).is_leaf());
    assert!(Node::new(token(TokenType::Numerical, "1", 0)).is_leaf());
    assert!(Node::new(token(TokenType::StringVar, "\"\"", 0)).is_leaf());
    assert!(!Node::new(token(TokenType::FuncCall, "f", 0)).is_leaf());
    assert!(!Node::new(token(TokenType::UnaryOper, "-", 0)).is_leaf());
}

#[test]
fn rendering_is_not_the_input_again() {
    let first = Parser::new(Lexer::new(String::from("(1+2)*3"))).parse().unwrap().render();
    assert_eq!(first.trim_end(), "( * ( + 1 2 ) 3 )");
    let again = Parser::new(Lexer::new(first.clone())).parse();
    assert!(again.is_err());
}

#[test]
fn locate_gives_start_and_width_of_a_token() {
    assert_eq!(locate(&token(TokenType::Identifier, "abc", 4), "1 + abc"), Span { start: 4, len: 3 });
}

#[test]
fn locate_puts_the_null_token_past_the_line() {
    assert_eq!(locate(&Token::null(), "1 +"), Span { start: 3, len: 1 });
    assert_eq!(locate(&Token::null(), ""), Span { start: 0, len: 1 });
    assert_eq!(locate(&Token::null(), "éé"), Span { start: 2, len: 1 });
}

#[test]
fn locate_gives_no_width_to_a_backward_span() {
    let tk = Token { typing: TokenType::Identifier, value: String::from("x"), loc: (5, 2) };
    assert_eq!(locate(&tk, "abcdefg"), Span { start: 5, len: 0 });
}

#[test]
fn layout_puts_the_marks_under_the_span() {
    let out = layout("1 + * 2", Span { start: 4, len: 1 }, "^", "ERROR");
    assert_eq!(out, "\n1 + * 2\n    ^ ERROR\n\n");
}

#[test]
fn layout_repeats_the_mark_over_the_width() {
    let out = layout("foo(1", Span { start: 0, len: 3 }, "^", "ERROR");
    assert_eq!(out, "\nfoo(1\n^^^ ERROR\n\n");
    let out = layout("ab", Span { start: 2, len: 0 }, "^", "E");
    assert_eq!(out, "\nab\n   E\n\n");
    let out = layout("", Span { start: 0, len: 2 }, "<>", "!");
    assert_eq!(out, "\n\n<><> !\n\n");
}

#[test]
fn diagnostic_without_colours_is_plain() {
    colored::control::set_override(false);
    let out = diagnostic("1+", Span { start: 2, len: 1 });
    assert_eq!(out, "\n1+\n  ^ ERROR\n\n");
}

#[test]
fn diagnostic_with_colours_is_bold_red() {
    colored::control::set_override(true);
    let out = diagnostic("1=2", Span { start: 1, len: 1 });
    assert_eq!(out, "\n1=2\n \u{1b}[1;31m^\u{1b}[0m \u{1b}[1;31mERROR\u{1b}[0m\n\n");
}

#[test]
fn diagnostic_of_a_failed_parse() {
    colored::control::set_override(false);
    let mut parser = Parser::new(Lexer::new(String::from("foo(1,2")));
    let e = parser.parse().unwrap_err();
    let out = diagnostic(parser.lexer.line.as_str(), e.span);
    assert_eq!(out, "\nfoo(1,2\n       ^ ERROR\n\n");
}
