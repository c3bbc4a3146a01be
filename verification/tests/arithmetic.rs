use rule_parser::primitives::{signed, token};
use rule_parser::{Node, ParseError, ParseKey, Parser, Rule};

fn rule(name: &'static str) -> Rule<'static> {
    Rule::NonTerminal(ParseKey(name))
}

fn math_expression_parsing() -> Parser<'static> {
    let rule_map = vec![
        (
            ParseKey("expr"),
            vec![vec![rule("term"), rule("add_op"), rule("expr")], vec![rule("term")]],
        ),
        (
            ParseKey("term"),
            vec![vec![rule("fact"), rule("mul_op"), rule("term")], vec![rule("fact")]],
        ),
        (
            ParseKey("fact"),
            vec![vec![rule("number")], vec![token("("), rule("expr"), token(")")]],
        ),
        (ParseKey("add_op"), vec![vec![token("+")], vec![token("-")]]),
        (ParseKey("mul_op"), vec![vec![token("*")], vec![token("/")]]),
        (ParseKey("number"), vec![vec![signed()]]),
    ];

    Parser::new(rule_map)
}

#[test]
fn basic_expression() {
    let parser = math_expression_parsing();
    let expr = parser.parse("expr", "3+2").unwrap();
    assert_eq!(
        expr,
        Node::Expr(vec![
            Node::LiteralSigned(3),
            Node::Token("+"),
            Node::LiteralSigned(2)
        ])
    );
}

#[test]
fn precedence_1() {
    let parser = math_expression_parsing();
    let expr = parser.parse("expr", "3+2*4").unwrap();
    assert_eq!(
        expr,
        Node::Expr(vec![
            Node::LiteralSigned(3),
            Node::Token("+"),
            Node::Expr(vec![
                Node::LiteralSigned(2),
                Node::Token("*"),
                Node::LiteralSigned(4)
            ])
        ])
    );
}

#[test]
fn precedence_2() {
    let parser = math_expression_parsing();
    let expr = parser.parse("expr", "3*2+4").unwrap();
    assert_eq!(
        expr,
        Node::Expr(vec![
            Node::Expr(vec![
                Node::LiteralSigned(3),
                Node::Token("*"),
                Node::LiteralSigned(2)
            ]),
            Node::Token("+"),
            Node::LiteralSigned(4),
        ])
    );
}

#[test]
fn parentheses_1() {
    let parser = math_expression_parsing();
    let expr = parser.parse("expr", "3*(2+4)").unwrap();
    assert_eq!(
        expr,
        Node::Expr(vec![
            Node::LiteralSigned(3),
            Node::Token("*"),
            Node::Expr(vec![
                Node::Token("("),
                Node::Expr(vec![
                    Node::LiteralSigned(2),
                    Node::Token("+"),
                    Node::LiteralSigned(4),
                ]),
                Node::Token(")"),
            ]),
        ])
    );
}

#[test]
fn parentheses_2() {
    let parser = math_expression_parsing();
    let expr = parser.parse("expr", "(3*2)+4").unwrap();
    assert_eq!(
        expr,
        Node::Expr(vec![
            Node::Expr(vec![
                Node::Token("("),
                Node::Expr(vec![
                    Node::LiteralSigned(3),
                    Node::Token("*"),
                    Node::LiteralSigned(2),
                ]),
                Node::Token(")"),
            ]),
            Node::Token("+"),
            Node::LiteralSigned(4),
        ])
    );
}

#[test]
fn empty_input_is_rejected() {
    let parser = math_expression_parsing();
    assert_eq!(parser.parse("expr", "").unwrap_err(), ParseError::EmptyInput);
    assert_eq!(parser.parse("expr", "   ").unwrap_err(), ParseError::EmptyInput);
    assert_eq!(parser.parse("expr", " \t\r\n").unwrap_err(), ParseError::EmptyInput);
}

#[test]
fn dangling_operator_leaves_the_operator_behind() {
    // The first alternative of `expr` fails behind the operator, the second
    // matches the number alone and stops in front of the operator.
    let parser = math_expression_parsing();
    assert_eq!(parser.parse("expr", "3+").unwrap_err(), ParseError::TrailingCharacters(1));
}

#[test]
fn second_number_is_trailing() {
    // The offset is the one behind the last rule that matched, in front of
    // the whitespace that follows it.
    let parser = math_expression_parsing();
    assert_eq!(parser.parse("expr", "3 2").unwrap_err(), ParseError::TrailingCharacters(1));
}

#[test]
fn operator_alone_matches_no_rule() {
    let parser = math_expression_parsing();
    assert_eq!(parser.parse("expr", "+").unwrap_err(), ParseError::NoRuleMatched);
    assert_eq!(parser.parse("expr", "(3").unwrap_err(), ParseError::NoRuleMatched);
}

#[test]
fn single_number_is_a_leaf() {
    let parser = math_expression_parsing();
    assert_eq!(parser.parse("expr", "42").unwrap(), Node::LiteralSigned(42));
    assert_eq!(parser.parse("number", "42").unwrap(), Node::LiteralSigned(42));
}

#[test]
fn whitespace_between_tokens_keeps_the_tree() {
    let parser = math_expression_parsing();
    let dense = parser.parse("expr", "3*(2+4)").unwrap();
    assert_eq!(parser.parse("expr", "3 * ( 2 + 4 )").unwrap(), dense);
    assert_eq!(parser.parse("expr", "  3\t*\n(2   +4)").unwrap(), dense);
    assert_eq!(parser.parse("expr", "\u{a0}3*\u{3000}(2+\u{2003}4)").unwrap(), dense);
}

#[test]
fn longer_whitespace_runs_keep_the_tree_and_the_failure() {
    let parser = math_expression_parsing();
    assert_eq!(
        parser.parse("expr", "3 + 2").unwrap(),
        parser.parse("expr", "   3 \t +     2").unwrap()
    );
    assert_eq!(parser.parse("expr", "3 2").unwrap_err(), ParseError::TrailingCharacters(1));
    assert_eq!(parser.parse("expr", "  3    2").unwrap_err(), ParseError::TrailingCharacters(3));
}

#[test]
fn whitespace_at_the_end_is_trailing() {
    let parser = math_expression_parsing();
    assert_eq!(parser.parse("expr", "3+2 ").unwrap_err(), ParseError::TrailingCharacters(3));
}

#[test]
fn parsing_twice_gives_the_same() {
    let parser = math_expression_parsing();
    assert_eq!(parser.parse("expr", "3*(2+4)"), parser.parse("expr", "3*(2+4)"));
    assert_eq!(parser.parse("expr", "3+"), parser.parse("expr", "3+"));
    assert_eq!(parser.parse("expr", ""), parser.parse("expr", ""));
}

#[test]
fn number_too_large_for_a_signed_integer() {
    let parser = math_expression_parsing();
    assert_eq!(
        parser.parse("expr", "9223372036854775807").unwrap(),
        Node::LiteralSigned(9223372036854775807)
    );
    assert_eq!(
        parser.parse("expr", "9223372036854775808").unwrap_err(),
        ParseError::NoRuleMatched
    );
}
