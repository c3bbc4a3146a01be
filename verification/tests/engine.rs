use rule_parser::node::copy_node;
use rule_parser::parser::DEFAULT_MAX_DEPTH;
use rule_parser::primitives::{token, unsigned, word};
use rule_parser::semantics::Halt;
use rule_parser::{
    AlternativeRules, Node, ParseError, ParseKey, Parser, PrintableCallback, Rule,
};

fn rule(name: &'static str) -> Rule<'static> {
    Rule::NonTerminal(ParseKey(name))
}

#[test]
fn first_alternative_wins_over_a_longer_one() {
    let parser = Parser::new(vec![(
        ParseKey("start"),
        vec![vec![token("a")], vec![token("a"), token("b")]],
    )]);
    assert_eq!(parser.parse("start", "a").unwrap(), Node::Token("a"));
    assert_eq!(parser.parse("start", "ab").unwrap_err(), ParseError::TrailingCharacters(1));
}

#[test]
fn later_alternative_is_tried_after_a_failure() {
    let parser = Parser::new(vec![(
        ParseKey("start"),
        vec![vec![token("a"), token("b")], vec![token("a")]],
    )]);
    assert_eq!(
        parser.parse("start", "ab").unwrap(),
        Node::Expr(vec![Node::Token("a"), Node::Token("b")])
    );
    assert_eq!(parser.parse("start", "a").unwrap(), Node::Token("a"));
}

#[test]
fn failure_inside_a_rule_does_not_reopen_its_choice() {
    // `pair` settles for "a" "b"; that "c" is missing behind it does not
    // make `pair` try its second alternative.
    let parser = Parser::new(vec![
        (ParseKey("start"), vec![vec![rule("pair"), token("c")]]),
        (ParseKey("pair"), vec![vec![token("a")], vec![token("a"), token("b")]]),
    ]);
    assert_eq!(parser.parse("start", "abc").unwrap_err(), ParseError::NoRuleMatched);
    assert_eq!(
        parser.parse("start", "ac").unwrap(),
        Node::Expr(vec![Node::Token("a"), Node::Token("c")])
    );
}

#[test]
fn one_child_is_not_wrapped() {
    let parser = Parser::new(vec![
        (ParseKey("outer"), vec![vec![rule("inner")]]),
        (ParseKey("inner"), vec![vec![word()]]),
    ]);
    assert_eq!(parser.parse("outer", "hello").unwrap(), Node::LiteralStr("hello"));
}

#[test]
fn two_children_are_wrapped_once() {
    let parser = Parser::new(vec![
        (ParseKey("outer"), vec![vec![rule("inner")]]),
        (ParseKey("inner"), vec![vec![word(), word()]]),
    ]);
    assert_eq!(
        parser.parse("outer", "hello world").unwrap(),
        Node::Expr(vec![Node::LiteralStr("hello"), Node::LiteralStr("world")])
    );
}

#[test]
fn empty_alternative_never_matches() {
    let parser = Parser::new(vec![(ParseKey("start"), vec![vec![]])]);
    assert_eq!(parser.parse("start", "x").unwrap_err(), ParseError::NoRuleMatched);
    let parser = Parser::new(vec![(ParseKey("start"), vec![vec![], vec![token("x")]])]);
    assert_eq!(parser.parse("start", "x").unwrap(), Node::Token("x"));
}

#[test]
fn rule_without_alternatives_never_matches() {
    let parser = Parser::new(vec![(ParseKey("start"), vec![])]);
    assert_eq!(parser.parse("start", "x").unwrap_err(), ParseError::NoRuleMatched);
}

#[test]
fn undefined_start_rule_is_reported() {
    let parser = Parser::new(vec![(ParseKey("start"), vec![vec![token("x")]])]);
    assert_eq!(parser.parse("other", "x").unwrap_err(), ParseError::UndefinedRule);
}

#[test]
fn undefined_rule_ends_the_parse() {
    // The second alternative would match, but the first reaches a name that
    // the table lacks.
    let parser = Parser::new(vec![(
        ParseKey("start"),
        vec![vec![token("x"), rule("missing")], vec![token("x")]],
    )]);
    assert_eq!(parser.parse("start", "x").unwrap_err(), ParseError::UndefinedRule);
}

#[test]
fn undefined_rule_that_is_not_reached_does_no_harm() {
    let parser = Parser::new(vec![(
        ParseKey("start"),
        vec![vec![token("y"), rule("missing")], vec![token("x")]],
    )]);
    assert_eq!(parser.parse("start", "x").unwrap(), Node::Token("x"));
}

#[test]
fn empty_input_comes_before_an_undefined_rule() {
    let parser = Parser::new(vec![]);
    assert_eq!(parser.parse("start", "  ").unwrap_err(), ParseError::EmptyInput);
    assert_eq!(parser.parse("start", "x").unwrap_err(), ParseError::UndefinedRule);
}

#[test]
fn left_recursion_is_cut_off() {
    let parser = Parser::new(vec![(
        ParseKey("list"),
        vec![vec![rule("list"), token("x")], vec![token("x")]],
    )]);
    assert_eq!(parser.max_depth(), DEFAULT_MAX_DEPTH);
    assert_eq!(parser.parse("list", "x").unwrap_err(), ParseError::DepthExceeded);
}

#[test]
fn depth_limit_counts_nested_rules() {
    let table = || {
        vec![
            (ParseKey("a"), vec![vec![rule("b")]]),
            (ParseKey("b"), vec![vec![rule("c")]]),
            (ParseKey("c"), vec![vec![token("x")]]),
        ]
    };
    assert_eq!(Parser::with_max_depth(table(), 3).parse("a", "x").unwrap(), Node::Token("x"));
    assert_eq!(
        Parser::with_max_depth(table(), 2).parse("a", "x").unwrap_err(),
        ParseError::DepthExceeded
    );
    assert_eq!(Parser::with_max_depth(table(), 1).parse("c", "x").unwrap(), Node::Token("x"));
    assert_eq!(
        Parser::with_max_depth(table(), 0).parse("c", "x").unwrap_err(),
        ParseError::DepthExceeded
    );
    assert_eq!(Parser::with_max_depth(table(), 7).max_depth(), 7);
}

#[test]
fn right_recursion_goes_as_deep_as_the_input() {
    let parser = Parser::new(vec![(
        ParseKey("list"),
        vec![vec![unsigned(), token(","), rule("list")], vec![unsigned()]],
    )]);
    assert_eq!(
        parser.parse("list", "1, 2, 3").unwrap(),
        Node::Expr(vec![
            Node::LiteralUnsigned(1),
            Node::Token(","),
            Node::Expr(vec![
                Node::LiteralUnsigned(2),
                Node::Token(","),
                Node::LiteralUnsigned(3)
            ])
        ])
    );
}

#[test]
fn later_entry_of_a_name_counts() {
    let parser = Parser::new(vec![
        (ParseKey("start"), vec![vec![token("old")]]),
        (ParseKey("other"), vec![vec![token("o")]]),
        (ParseKey("start"), vec![vec![token("new")]]),
    ]);
    assert_eq!(parser.parse("start", "new").unwrap(), Node::Token("new"));
    assert_eq!(parser.parse("start", "old").unwrap_err(), ParseError::NoRuleMatched);
    assert_eq!(parser.parse("other", "o").unwrap(), Node::Token("o"));
}

#[test]
fn trim_skips_whitespace_only() {
    assert_eq!(Parser::trim("  ab ", 0), 2);
    assert_eq!(Parser::trim("  ab ", 2), 2);
    assert_eq!(Parser::trim("  ab ", 4), 5);
    assert_eq!(Parser::trim("  ab ", 5), 5);
    assert_eq!(Parser::trim("", 0), 0);
    assert_eq!(Parser::trim("\t\n\u{b}\u{c}\r \u{85}\u{a0}\u{1680}\u{2000}\u{200a}x", 0), 11);
    assert_eq!(Parser::trim("\u{2028}\u{2029}\u{202f}\u{205f}\u{3000}x", 0), 5);
    assert_eq!(Parser::trim("\u{200b}x", 0), 0);
    assert_eq!(Parser::trim("\u{1c}x", 0), 0);
}

#[test]
fn a_rule_as_the_alternatives_of_a_name() {
    let alternatives = AlternativeRules::from(token("x"));
    assert_eq!(alternatives.len(), 1);
    assert_eq!(alternatives[0].len(), 1);
    let parser = Parser::new(vec![(ParseKey("start"), alternatives)]);
    assert_eq!(parser.parse("start", " x").unwrap(), Node::Token("x"));
}

#[test]
fn copy_of_a_tree_is_equal() {
    let parser = Parser::new(vec![(ParseKey("start"), vec![vec![word(), unsigned()]])]);
    let tree = parser.parse("start", "abc 12").unwrap();
    assert_eq!(tree.clone(), tree);
    assert_eq!(
        tree.clone(),
        Node::Expr(vec![Node::LiteralStr("abc"), Node::LiteralUnsigned(12)])
    );
}

#[test]
fn copy_of_a_node() {
    let leaf = Node::Token("+");
    assert_eq!(copy_node(&leaf), Node::Token("+"));
    let tree = Node::Expr(vec![
        Node::LiteralSigned(-3),
        Node::Expr(vec![Node::LiteralFloat("1.5"), Node::LiteralStr("x")]),
        Node::Expr(vec![]),
    ]);
    assert_eq!(copy_node(&tree), tree);
}

fn pairs() -> Parser<'static> {
    Parser::new(vec![
        (ParseKey("pair"), vec![vec![rule("item"), token(","), rule("item")], vec![rule("item")]]),
        (ParseKey("item"), vec![vec![unsigned()], vec![word()]]),
        (ParseKey("broken"), vec![vec![token("x"), rule("nowhere")]]),
    ])
}

#[test]
fn a_rule_resolved_in_the_middle_of_the_input() {
    let parser = pairs();
    assert_eq!(
        ParseKey("pair").unify_key(&parser, "a 1 , b c", 1, 5),
        Ok(Some((
            Node::Expr(vec![Node::LiteralUnsigned(1), Node::Token(","), Node::LiteralStr("b")]),
            7
        )))
    );
    assert_eq!(
        ParseKey("pair").unify_key(&parser, "a 1 , b c", 7, 5),
        Ok(Some((Node::LiteralStr("c"), 9)))
    );
    assert_eq!(ParseKey("pair").unify_key(&parser, "a 1 , b c", 9, 5), Ok(None));
    assert_eq!(ParseKey("item").unify_key(&parser, "a 1", 3, 5), Ok(None));
}

#[test]
fn a_rule_resolved_within_a_depth() {
    let parser = pairs();
    assert_eq!(ParseKey("pair").unify_key(&parser, "7", 0, 0), Err(Halt::DepthExceeded));
    assert_eq!(ParseKey("pair").unify_key(&parser, "7", 0, 1), Err(Halt::DepthExceeded));
    assert_eq!(
        ParseKey("pair").unify_key(&parser, "7", 0, 2),
        Ok(Some((Node::LiteralUnsigned(7), 1)))
    );
    assert_eq!(
        ParseKey("item").unify_key(&parser, "7", 0, 1),
        Ok(Some((Node::LiteralUnsigned(7), 1)))
    );
}

#[test]
fn a_rule_that_the_table_lacks() {
    let parser = pairs();
    assert_eq!(ParseKey("nowhere").unify_key(&parser, "x", 0, 9), Err(Halt::UndefinedRule));
    assert_eq!(ParseKey("broken").unify_key(&parser, "x", 0, 9), Err(Halt::UndefinedRule));
    assert_eq!(ParseKey("broken").unify_key(&parser, "y", 0, 9), Ok(None));
    assert_eq!(ParseKey("nowhere").unify_key(&parser, "x", 0, 0), Err(Halt::DepthExceeded));
}

#[test]
fn a_rule_resolved_by_a_key_given_away() {
    let parser = pairs();
    assert_eq!(
        ParseKey("item").unify_key_move(&parser, " 12 ", 0, 3),
        Ok(Some((Node::LiteralUnsigned(12), 3)))
    );
    assert_eq!(ParseKey("item").unify_key_move(&parser, " , ", 0, 3), Ok(Some((Node::LiteralStr(","), 2))));
    assert_eq!(ParseKey("item").unify_key_move(&parser, "   ", 0, 3), Ok(None));
}

#[test]
fn one_alternative_matched_by_itself() {
    let parser = pairs();
    let three = vec![word(), token("="), rule("item")];
    assert_eq!(
        ParseKey::unify_rule_set(&parser, &three, "k = 4;", 0, 1),
        Ok(Some((
            Node::Expr(vec![Node::LiteralStr("k"), Node::Token("="), Node::LiteralUnsigned(4)]),
            5
        )))
    );
    assert_eq!(ParseKey::unify_rule_set(&parser, &three, "k = 4;", 0, 0), Err(Halt::DepthExceeded));
    assert_eq!(ParseKey::unify_rule_set(&parser, &three, "k : 4;", 0, 1), Ok(None));
    let one = vec![token("k")];
    assert_eq!(
        ParseKey::unify_rule_set(&parser, &one, "  k  ", 0, 0),
        Ok(Some((Node::Token("k"), 3)))
    );
    let none: Vec<Rule<'static>> = vec![];
    assert_eq!(ParseKey::unify_rule_set(&parser, &none, "k", 0, 0), Ok(None));
}

#[test]
fn whitespace_put_into_a_word_makes_two_words() {
    let parser = Parser::new(vec![(ParseKey("start"), vec![vec![word()]])]);
    assert_eq!(parser.parse("start", "ab").unwrap(), Node::LiteralStr("ab"));
    assert_eq!(parser.parse("start", "a b").unwrap_err(), ParseError::TrailingCharacters(1));
    assert_eq!(parser.parse("start", "  ab").unwrap(), Node::LiteralStr("ab"));
}

#[test]
fn behind_the_end_no_rule_matches() {
    let parser = pairs();
    assert_eq!(Parser::trim("ab ", 4), 4);
    assert_eq!(Parser::trim("", usize::MAX), usize::MAX);
    assert_eq!(ParseKey("pair").unify_key(&parser, "1", 2, 5), Ok(None));
    assert_eq!(ParseKey("pair").unify_key_move(&parser, "1", 2, 5), Ok(None));
    assert_eq!(ParseKey("nowhere").unify_key(&parser, "1", 2, 5), Err(Halt::UndefinedRule));
    let one = vec![unsigned()];
    assert_eq!(ParseKey::unify_rule_set(&parser, &one, "1", 2, 5), Ok(None));
    let none: Vec<Rule<'static>> = vec![];
    assert_eq!(ParseKey::unify_rule_set(&parser, &none, "1", 2, 5), Ok(None));
}

struct Vowel;

impl PrintableCallback for Vowel {
    fn call<'a>(&self, expr: &'a str, offset: usize) -> Option<(Node<'a>, usize)> {
        match expr.chars().nth(offset) {
            Some(c) if "aeiou".contains(c) => Some((Node::LiteralStr(&expr[offset..offset + 1]), offset + 1)),
            _ => None,
        }
    }

    fn name(&self) -> &'static str {
        "vowel"
    }
}

#[test]
fn matcher_of_the_caller() {
    let vowel = || Rule::Terminal(Box::new(Vowel));
    let parser = Parser::new(vec![(
        ParseKey("start"),
        vec![vec![vowel(), token("x"), vowel()]],
    )]);
    assert_eq!(
        parser.parse("start", "a x e").unwrap(),
        Node::Expr(vec![Node::LiteralStr("a"), Node::Token("x"), Node::LiteralStr("e")])
    );
    assert_eq!(parser.parse("start", "b x e").unwrap_err(), ParseError::NoRuleMatched);
    assert_eq!(parser.parse("start", "a x").unwrap_err(), ParseError::NoRuleMatched);
    assert_eq!(Vowel.name(), "vowel");
    assert_eq!(Vowel.call("ae", 2), None);
}
