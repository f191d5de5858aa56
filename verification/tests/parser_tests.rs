use parser::ast::{Lexer, Node, Parser, Token, TokenType};
use parser::diagnostic::{ParseError, Span};
use parser::grammar::ParseErrorKind;

fn parse(input: &str) -> Result<Node, ParseError> {
    Parser::new(Lexer::new(String::from(input))).parse()
}

fn sexpr(input: &str) -> String {
    parse(input).unwrap().render()
}

fn failure(input: &str) -> ParseError {
    parse(input).unwrap_err()
}

#[test]
fn product_binds_tighter_than_sum() {
    assert_eq!(sexpr("1+2*3"), "( + 1 ( * 2 3 ) ) ");
    assert_eq!(sexpr("1+2*3").trim_end(), "( + 1 ( * 2 3 ) )");
}

#[test]
fn parentheses_leave_no_node() {
    assert_eq!(sexpr("1+(2*3)"), sexpr("1+2*3"));
    assert_eq!(sexpr("1+(2*3)").trim_end(), "( + 1 ( * 2 3 ) )");
    assert_eq!(sexpr("(1+2)*3").trim_end(), "( * ( + 1 2 ) 3 )");
    assert_eq!(sexpr("((x))").trim_end(), "x");
}

#[test]
fn subtraction_groups_to_the_left() {
    assert_eq!(sexpr("1-2-3").trim_end(), "( - ( - 1 2 ) 3 )");
    assert_ne!(sexpr("1-2-3").trim_end(), "( - 1 ( - 2 3 ) )");
}

#[test]
fn division_and_remainder_group_to_the_left() {
    assert_eq!(sexpr("8/4%3").trim_end(), "( % ( / 8 4 ) 3 )");
}

#[test]
fn comparisons_group_to_the_left() {
    assert_eq!(sexpr("a<b==c").trim_end(), "( == ( < a b ) c )");
    assert_eq!(sexpr("a>=1").trim_end(), "( >= a 1 )");
    assert_eq!(sexpr("a<=1").trim_end(), "( <= a 1 )");
    assert_eq!(sexpr("a!=1").trim_end(), "( != a 1 )");
    assert_eq!(sexpr("a>1").trim_end(), "( > a 1 )");
}

#[test]
fn sum_binds_tighter_than_comparison() {
    assert_eq!(sexpr("a+1<b*2").trim_end(), "( < ( + a 1 ) ( * b 2 ) )");
}

#[test]
fn assignment_groups_to_the_right() {
    assert_eq!(sexpr("a=b=1").trim_end(), "( = a ( = b 1 ) )");
}

#[test]
fn assignment_binds_loosest() {
    assert_eq!(sexpr("a=b<c+1").trim_end(), "( = a ( < b ( + c 1 ) ) )");
}

#[test]
fn parenthesized_identifier_is_an_assignment_target() {
    assert_eq!(sexpr("(a)=1").trim_end(), "( = a 1 )");
}

#[test]
fn prefix_operators_chain() {
    assert_eq!(sexpr("--1").trim_end(), "( - ( - 1 ) )");
    assert_eq!(sexpr("!!x").trim_end(), "( ! ( ! x ) )");
    assert_eq!(sexpr("~x").trim_end(), "( ~ x )");
}

#[test]
fn prefix_binds_tighter_than_product() {
    assert_eq!(sexpr("-a*b").trim_end(), "( * ( - a ) b )");
    assert_eq!(sexpr("a*-b").trim_end(), "( * a ( - b ) )");
}

#[test]
fn call_with_arguments() {
    assert_eq!(sexpr("f(1+2,x)").trim_end(), "( f ( + 1 2 ) x )");
}

#[test]
fn call_without_arguments() {
    let node = parse("f()").unwrap();
    assert_eq!(node.typing, TokenType::FuncCall);
    assert_eq!(node.value, "f");
    assert!(node.branch.is_empty());
    assert_eq!(node.render().trim_end(), "( f )");
}

#[test]
fn nested_calls() {
    assert_eq!(sexpr("f(g(x),h())").trim_end(), "( f ( g x ) ( h ) )");
}

#[test]
fn commas_in_a_call_are_passed_over() {
    assert_eq!(sexpr("f(,a,,b,)").trim_end(), "( f a b )");
}

#[test]
fn call_in_an_expression() {
    assert_eq!(sexpr("1+f(2)*3").trim_end(), "( + 1 ( * ( f 2 ) 3 ) )");
}

#[test]
fn leaves_parse_to_themselves() {
    let node = parse("abc").unwrap();
    assert_eq!(node.typing, TokenType::Identifier);
    assert_eq!(node.value, "abc");
    assert!(node.branch.is_empty());
    assert_eq!(parse("12.5").unwrap().typing, TokenType::Numerical);
    assert_eq!(parse("\"s\"").unwrap().typing, TokenType::StringVar);
    assert_eq!(sexpr("\"a b\""), "\"a b\" ");
}

#[test]
fn binary_node_has_two_operands() {
    let node = parse("1+2").unwrap();
    assert_eq!(node.typing, TokenType::BinaryOper);
    assert_eq!(node.value, "+");
    assert_eq!(node.branch.len(), 2);
    assert_eq!(node.branch[0].value, "1");
    assert_eq!(node.branch[1].value, "2");
}

#[test]
fn unary_node_has_one_operand() {
    let node = parse("-1").unwrap();
    assert_eq!(node.typing, TokenType::UnaryOper);
    assert_eq!(node.branch.len(), 1);
}

#[test]
fn assignment_to_a_number_is_rejected() {
    let e = failure("1=2");
    assert_eq!(e.kind, ParseErrorKind::InvalidAssignTarget);
    assert_eq!(e.span, Span { start: 1, len: 1 });
}

#[test]
fn assignment_to_an_expression_is_rejected() {
    assert_eq!(failure("a+b=2").kind, ParseErrorKind::InvalidAssignTarget);
    assert_eq!(failure("f(x)=2").kind, ParseErrorKind::InvalidAssignTarget);
    assert_eq!(failure("a=1=2").kind, ParseErrorKind::InvalidAssignTarget);
}

#[test]
fn empty_input_ends_too_early() {
    let e = failure("");
    assert_eq!(e.kind, ParseErrorKind::UnexpectedEnd);
    assert_eq!(e.span, Span { start: 0, len: 1 });
}

#[test]
fn trailing_operator_ends_too_early() {
    let e = failure("1+");
    assert_eq!(e.kind, ParseErrorKind::UnexpectedEnd);
    assert_eq!(e.span, Span { start: 2, len: 1 });
    assert_eq!(failure("a=").kind, ParseErrorKind::UnexpectedEnd);
    assert_eq!(failure("-").kind, ParseErrorKind::UnexpectedEnd);
    assert_eq!(failure("(").kind, ParseErrorKind::UnexpectedEnd);
}

#[test]
fn end_of_input_is_reported_past_the_last_character() {
    let e = failure("é-");
    assert_eq!(e.kind, ParseErrorKind::UnexpectedEnd);
    assert_eq!(e.span, Span { start: 2, len: 1 });
}

#[test]
fn operator_in_operand_position_is_unexpected() {
    let e = failure("1+*2");
    assert_eq!(e.kind, ParseErrorKind::UnexpectedToken);
    assert_eq!(e.span, Span { start: 2, len: 1 });
    assert_eq!(failure(")").kind, ParseErrorKind::UnexpectedToken);
    assert_eq!(failure(",").kind, ParseErrorKind::UnexpectedToken);
    assert_eq!(failure(">=1").span, Span { start: 0, len: 2 });
}

#[test]
fn call_without_closing_parenthesis_is_unterminated() {
    let e = failure("foo(1,2");
    assert_eq!(e.kind, ParseErrorKind::UnterminatedCall);
    assert_eq!(e.span, Span { start: 7, len: 1 });
    let e = failure("f(1");
    assert_eq!(e.kind, ParseErrorKind::UnterminatedCall);
    assert_eq!(e.span, Span { start: 3, len: 1 });
    let e = failure("f(");
    assert_eq!(e.kind, ParseErrorKind::UnterminatedCall);
    assert_eq!(e.span, Span { start: 2, len: 1 });
    assert_eq!(failure("g(f(1)").span, Span { start: 6, len: 1 });
}

#[test]
fn first_failure_wins() {
    assert_eq!(failure("1=2+").kind, ParseErrorKind::InvalidAssignTarget);
    assert_eq!(failure("f(1+").kind, ParseErrorKind::UnexpectedEnd);
}

#[test]
fn missing_closing_parenthesis_is_not_noticed() {
    assert_eq!(sexpr("(1+2").trim_end(), "( + 1 2 )");
}

#[test]
fn token_after_a_group_is_dropped_whatever_it_is() {
    let mut parser = Parser::new(Lexer::new(String::from("(1 x + 3")));
    let node = parser.parse().unwrap();
    assert_eq!(node.render().trim_end(), "( + 1 3 )");
    let mut parser = Parser::new(Lexer::new(String::from("(a,+b")));
    let node = parser.parse().unwrap();
    assert_eq!(node.render().trim_end(), "( + a b )");
}

#[test]
fn tokens_after_the_expression_stay_in_the_queue() {
    let mut parser = Parser::new(Lexer::new(String::from("a)b")));
    let node = parser.parse().unwrap();
    assert_eq!(node.render(), "a ");
    assert_eq!(parser.lexer.next().unwrap().value, ")");
    assert_eq!(parser.lexer.next().unwrap().value, "b");
    assert!(parser.lexer.next().is_none());
}

#[test]
fn parser_new_keeps_the_lexer() {
    let parser = Parser::new(Lexer::new(String::from("a+b")));
    assert_eq!(parser.lexer.line, "a+b");
    assert_eq!(parser.lexer.data.len(), 3);
}

#[test]
fn each_level_can_be_called_on_its_own() {
    let mut parser = Parser::new(Lexer::new(String::from("1*2+3<4=5")));
    assert_eq!(parser.primary().unwrap().render(), "1 ");
    let mut parser = Parser::new(Lexer::new(String::from("-1*2")));
    assert_eq!(parser.unary().unwrap().render().trim_end(), "( - 1 )");
    let mut parser = Parser::new(Lexer::new(String::from("1*2+3")));
    assert_eq!(parser.multi().unwrap().render().trim_end(), "( * 1 2 )");
    let mut parser = Parser::new(Lexer::new(String::from("1+2<3")));
    assert_eq!(parser.add().unwrap().render().trim_end(), "( + 1 2 )");
    let mut parser = Parser::new(Lexer::new(String::from("a<3=4")));
    assert_eq!(parser.compare().unwrap().render().trim_end(), "( < a 3 )");
    let mut parser = Parser::new(Lexer::new(String::from("a=4")));
    assert_eq!(parser.assign().unwrap().render().trim_end(), "( = a 4 )");
}

#[test]
fn arguments_reads_up_to_the_closing_parenthesis() {
    let mut parser = Parser::new(Lexer::new(String::from("1,2)+3")));
    let mut name = Token::new(TokenType::FuncCall, 0);
    name.push('f');
    let node = parser.arguments(Node::new(name)).unwrap();
    assert_eq!(node.render().trim_end(), "( f 1 2 )");
    assert_eq!(parser.lexer.next().unwrap().value, "+");
}

#[test]
fn hand_built_queue_is_parsed_like_any_other() {
    let mut lexer = Lexer::new(String::new());
    let mut two = Token::new(TokenType::Numerical, 2);
    two.push('2');
    let mut plus = Token::new(TokenType::BinaryOper, 1);
    plus.push('+');
    let mut one = Token::new(TokenType::Numerical, 0);
    one.push('1');
    lexer.push(two);
    lexer.push(plus);
    lexer.push(one);
    let node = Parser::new(lexer).parse().unwrap();
    assert_eq!(node.render().trim_end(), "( + 1 2 )");
}

#[test]
fn null_token_in_operand_position_is_reported_past_the_line() {
    let mut lexer = Lexer::new(String::from("abc"));
    let _ = lexer.next();
    lexer.push(Token::null());
    let e = Parser::new(lexer).parse().unwrap_err();
    assert_eq!(e.kind, ParseErrorKind::UnexpectedToken);
    assert_eq!(e.span, Span { start: 3, len: 1 });
}

#[test]
fn warn_reports_at_the_token() {
    let parser = Parser::new(Lexer::new(String::from("a+b")));
    let mut tk = Token::new(TokenType::BinaryOper, 1);
    tk.push('+');
    let e = parser.warn(ParseErrorKind::UnexpectedToken, &tk);
    assert_eq!(e, ParseError { kind: ParseErrorKind::UnexpectedToken, span: Span { start: 1, len: 1 } });
    let e = parser.warn(ParseErrorKind::UnexpectedEnd, &Token::null());
    assert_eq!(e.span, Span { start: 3, len: 1 });
}

#[test]
fn node_new_takes_class_and_text() {
    let mut tk = Token::new(TokenType::Identifier, 0);
    tk.push('x');
    let node = Node::new(tk);
    assert_eq!(node.typing, TokenType::Identifier);
    assert_eq!(node.value, "x");
    assert!(node.branch.is_empty());
}

#[test]
fn node_push_appends_an_operand() {
    let mut op = Token::new(TokenType::UnaryOper, 0);
    op.push('-');
    let mut x = Token::new(TokenType::Identifier, 1);
    x.push('x');
    let mut node = Node::new(op);
    node.push(Node::new(x));
    assert_eq!(node.branch.len(), 1);
    assert_eq!(node.branch[0].value, "x");
    assert_eq!(node.render(), "( - x ) ");
}

#[test]
fn duplicate_is_a_separate_equal_tree() {
    let node = parse("f(1+2,x)").unwrap();
    let copy = node.duplicate();
    assert_eq!(copy.render(), node.render());
    let cloned = node.clone();
    assert_eq!(cloned.render(), "( f ( + 1 2 ) x ) ");
}

fn well_shaped(node: &Node) -> bool {
    let leaf = matches!(
        node.typing,
        TokenType::Identifier | TokenType::Numerical | TokenType::StringVar
    );
    let known = leaf
        || matches!(
            node.typing,
            TokenType::FuncCall | TokenType::UnaryOper | TokenType::BinaryOper
        );
    let operands = match node.typing {
        TokenType::BinaryOper => node.branch.len() == 2,
        TokenType::UnaryOper => node.branch.len() == 1 || node.branch.len() == 2,
        _ => !leaf || node.branch.is_empty(),
    };
    let assignment = node.value != "="
        || (node.branch.len() == 2
            && node.branch[0].typing == TokenType::Identifier
            && node.branch[0].branch.is_empty());
    known && operands && assignment && node.branch.iter().all(well_shaped)
}

#[test]
fn parsed_trees_are_well_shaped() {
    for input in [
        "1+2*3",
        "a=b=f(1+2,x)",
        "--x*(y-1)>=\"s\"",
        "f(g(x),a=1)",
        "(1(+2",
        "f(,a,,b,)",
        "!a<-b",
    ] {
        let node = parse(input).unwrap();
        assert!(well_shaped(&node));
    }
}

#[test]
fn parentheses_and_commas_leave_no_node() {
    let node = parse("f((a),((b)))").unwrap();
    assert_eq!(node.render().trim_end(), "( f a b )");
    assert!(well_shaped(&node));
    let node = parse("f((a),(b,c))").unwrap();
    assert_eq!(node.render().trim_end(), "( f a b c )");
    assert!(well_shaped(&node));
}

#[test]
fn assignment_node_has_an_identifier_leaf_first() {
    let node = parse("f(g(x),a=1)").unwrap();
    let assign = &node.branch[1];
    assert_eq!(assign.value, "=");
    assert_eq!(assign.branch.len(), 2);
    assert_eq!(assign.branch[0].typing, TokenType::Identifier);
    assert!(assign.branch[0].branch.is_empty());
}

#[test]
fn prefix_sign_between_two_operands_has_two_operands() {
    let node = parse("(1(+2").unwrap();
    assert_eq!(node.typing, TokenType::UnaryOper);
    assert_eq!(node.value, "+");
    assert_eq!(node.branch.len(), 2);
    assert_eq!(node.render().trim_end(), "( + 1 2 )");
}
