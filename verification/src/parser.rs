//! The parser: a grammar table, and the engine that matches an input
//! against it.

use crate::grammar::{
    AlternativeRules, Grammar, ParseKey, PrintableCallback, Rule, RuleSet, alternatives_view,
    rule_set_view,
};
use crate::node::{Node, NodeView, lemma_expr_view, match_view, views};
use crate::scan::{CharClass, is_run_end, scan_run, skip_whitespace};
use crate::semantics::{
    Failure, Halt, Outcome, ParseError, first_match, match_rules, match_sequence, parse_outcome,
    prepend, resolve, rule_outcome,
};
use vstd::hash_map::StringHashMap;
use vstd::prelude::*;

verus! {

/// How deep rules may be nested in a parser that was given no other limit.
/// Each rule that is resolved inside another counts one; the engine calls
/// itself as deep as that.
pub const DEFAULT_MAX_DEPTH: usize = 1024;

/// A grammar table, ready to parse. The table is fixed when the parser is
/// made; a parse reads it and changes nothing.
///
/// The table is filed under the texts of the rule names. A hash map keyed
/// by `ParseKey` itself would rest on the `Hash` and `Eq` that `derive`
/// writes for it, of which nothing is known to the verifier: not even that
/// a map holds one entry after one `insert`. So a parser is made of a list
/// of entries.
pub struct Parser<'a> {
    table: StringHashMap<AlternativeRules<'a>>,
    max_depth: usize,
}

/// The table that a list of entries makes: each name with its alternatives;
/// where a name comes twice, the later entry counts.
pub open spec fn table_of(entries: Seq<(ParseKey<'_>, AlternativeRules<'_>)>) -> Grammar
    decreases entries.len(),
{
    if entries.len() == 0 {
        Map::empty()
    } else {
        table_of(entries.drop_last()).insert(
            entries.last().0@,
            alternatives_view(entries.last().1),
        )
    }
}

/// The value of what the engine hands back.
pub open spec fn outcome_view(found: Result<Option<(Node<'_>, usize)>, Halt>) -> Outcome {
    match found {
        Ok(found) => Ok(match_view(found)),
        Err(halt) => Err(halt),
    }
}

/// The value of the result of a parse.
pub open spec fn result_view(result: Result<Node<'_>, ParseError>) -> Result<NodeView, Failure> {
    match result {
        Ok(node) => Ok(node@),
        Err(error) => Err(error@),
    }
}

impl<'a> View for Parser<'a> {
    type V = Grammar;

    closed spec fn view(&self) -> Grammar {
        self.table@.map_values(|alternatives: AlternativeRules<'a>| alternatives_view(alternatives))
    }
}

impl<'a> Parser<'a> {
    /// The depth to which this parser lets rules be nested.
    pub closed spec fn depth_limit(&self) -> nat {
        self.max_depth as nat
    }

    /// Makes a parser of the entries of a grammar table, with the default
    /// limit on nesting.
    pub fn new(rule_map: Vec<(ParseKey<'a>, AlternativeRules<'a>)>) -> (parser: Parser<'a>)
        ensures
            parser@ == table_of(rule_map@),
            parser.depth_limit() == DEFAULT_MAX_DEPTH,
    {
        Parser::with_max_depth(rule_map, DEFAULT_MAX_DEPTH)
    }

    /// Makes a parser that lets rules be nested `max_depth` deep.
    pub fn with_max_depth(
        rule_map: Vec<(ParseKey<'a>, AlternativeRules<'a>)>,
        max_depth: usize,
    ) -> (parser: Parser<'a>)
        ensures
            parser@ == table_of(rule_map@),
            parser.depth_limit() == max_depth,
    {
        let ghost entries = rule_map@;
        let ghost value = |alternatives: AlternativeRules<'a>| alternatives_view(alternatives);
        let mut rest = rule_map;
        let mut table: StringHashMap<AlternativeRules<'a>> = StringHashMap::new();
        proof {
            assert(table_of(entries) =~= table_of(rest@).union_prefer_right(
                table@.map_values(value),
            ));
        }
        while rest.len() > 0
            invariant
                value == |alternatives: AlternativeRules<'a>| alternatives_view(alternatives),
                table_of(entries) == table_of(rest@).union_prefer_right(table@.map_values(value)),
            decreases rest.len(),
        {
            let ghost before = rest@;
            let ghost held = table@;
            match rest.pop() {
                Some((key, alternatives)) => {
                    proof {
                        assert(rest@ =~= before.drop_last());
                        assert(before.last() == (key, alternatives));
                    }
                    if !table.contains_key(key.0) {
                        table.insert(key.0.to_owned(), alternatives);
                        proof {
                            assert(table@.map_values(value) =~= held.map_values(value).insert(
                                key@,
                                alternatives_view(alternatives),
                            ));
                        }
                    }
                    proof {
                        assert(table_of(before).union_prefer_right(held.map_values(value))
                            =~= table_of(rest@).union_prefer_right(table@.map_values(value)));
                    }
                },
                None => {},
            }
        }
        proof {
            assert(table_of(rest@).union_prefer_right(table@.map_values(value))
                =~= table@.map_values(value));
        }
        Parser { table, max_depth }
    }

    /// The depth to which this parser lets rules be nested.
    pub fn max_depth(&self) -> (depth: usize)
        ensures
            depth == self.depth_limit(),
    {
        self.max_depth
    }

    /// Skips the whitespace of `expr` at `offset` and returns the offset of
    /// what follows it. An offset behind the end of `expr` comes back as it
    /// is.
    pub fn trim(expr: &str, offset: usize) -> (next: usize)
        ensures
            next == skip_whitespace(expr@, offset as int),
            offset <= next,
            offset <= expr@.len() ==> is_run_end(
                expr@,
                offset as int,
                CharClass::Space,
                next as int,
            ),
    {
        scan_run(expr, offset, CharClass::Space)
    }

    /// Parses `expr` as the rule named `key`. The tree must account for the
    /// whole input behind its leading whitespace.
    pub fn parse<'e>(&self, key: &str, expr: &'e str) -> (result: Result<Node<'e>, ParseError>)
        ensures
            result_view(result) == parse_outcome(self@, self.depth_limit(), key@, expr@),
    {
        let offset = Parser::trim(expr, 0);
        if offset >= expr.unicode_len() {
            return Err(ParseError::EmptyInput);
        }
        match ParseKey(key).unify_key_move(self, expr, offset, self.max_depth) {
            Ok(Some((node, end))) => {
                if end != expr.unicode_len() {
                    Err(ParseError::TrailingCharacters(end))
                } else {
                    Ok(node)
                }
            },
            Ok(None) => Err(ParseError::NoRuleMatched),
            Err(Halt::UndefinedRule) => Err(ParseError::UndefinedRule),
            Err(Halt::DepthExceeded) => Err(ParseError::DepthExceeded),
        }
    }
}

impl<'k> ParseKey<'k> {
    /// Resolves this rule at `offset`, giving the key away.
    pub fn unify_key_move<'e>(
        self,
        parser: &Parser<'_>,
        expr: &'e str,
        offset: usize,
        depth: usize,
    ) -> (found: Result<Option<(Node<'e>, usize)>, Halt>)
        ensures
            outcome_view(found) == resolve(parser@, self@, expr@, offset as nat, depth as nat),
            found matches Ok(Some((_, end))) ==> offset <= end <= expr@.len(),
    {
        self.unify_key(parser, expr, offset, depth)
    }

    /// Resolves this rule at `offset`: tries its alternatives in order and
    /// hands back what the first match gives.
    pub fn unify_key<'e>(
        &self,
        parser: &Parser<'_>,
        expr: &'e str,
        offset: usize,
        depth: usize,
    ) -> (found: Result<Option<(Node<'e>, usize)>, Halt>)
        ensures
            outcome_view(found) == resolve(parser@, self@, expr@, offset as nat, depth as nat),
            found matches Ok(Some((_, end))) ==> offset <= end <= expr@.len(),
        decreases depth, 0nat,
    {
        if depth == 0 {
            return Err(Halt::DepthExceeded);
        }
        match parser.table.get(self.0) {
            Some(alternative_rules) => {
                let ghost choices = parser@[self@];
                proof {
                    assert(choices == alternatives_view(*alternative_rules));
                }
                let mut i: usize = 0;
                while i < alternative_rules.len()
                    invariant
                        depth > 0,
                        i <= alternative_rules.len(),
                        choices == alternatives_view(*alternative_rules),
                        resolve(parser@, self@, expr@, offset as nat, depth as nat) == first_match(
                            parser@,
                            choices,
                            i as nat,
                            expr@,
                            offset as nat,
                            (depth - 1) as nat,
                        ),
                    decreases alternative_rules.len() - i,
                {
                    proof {
                        assert(choices[i as int] == rule_set_view(alternative_rules[i as int]));
                    }
                    match ParseKey::unify_rule_set(
                        parser,
                        &alternative_rules[i],
                        expr,
                        offset,
                        depth - 1,
                    ) {
                        Ok(None) => {},
                        decided => {
                            return decided;
                        },
                    }
                    i += 1;
                }
                Ok(None)
            },
            None => Err(Halt::UndefinedRule),
        }
    }

    /// Matches the alternative `rule_set` at `offset`: each rule in turn,
    /// behind the whitespace in front of it. One node comes back as it is,
    /// several in a composite, none as no match.
    pub fn unify_rule_set<'e>(
        parser: &Parser<'_>,
        rule_set: &RuleSet<'_>,
        expr: &'e str,
        offset: usize,
        depth: usize,
    ) -> (found: Result<Option<(Node<'e>, usize)>, Halt>)
        ensures
            outcome_view(found) == match_sequence(
                parser@,
                rule_set_view(*rule_set),
                expr@,
                offset as nat,
                depth as nat,
            ),
            found matches Ok(Some((_, end))) ==> offset <= end <= expr@.len(),
        decreases depth, 1nat,
    {
        let ghost rules = rule_set_view(*rule_set);
        let ghost whole = match_rules(parser@, rules, 0, expr@, offset as nat, depth as nat);
        let mut out: Vec<Node<'e>> = Vec::new();
        let mut cursor: usize = offset;
        let mut i: usize = 0;
        proof {
            assert(views(out@) =~= Seq::<NodeView>::empty());
            let rest = match_rules(parser@, rules, 0, expr@, offset as nat, depth as nat);
            assert(prepend(Seq::empty(), rest) == rest) by {
                if let Ok(Some((nodes, end))) = rest {
                    assert(Seq::<NodeView>::empty() + nodes =~= nodes);
                }
            }
        }
        while i < rule_set.len()
            invariant
                offset <= cursor,
                i > 0 ==> cursor <= expr@.len(),
                i <= rule_set.len(),
                out.len() == i,
                rules == rule_set_view(*rule_set),
                whole == match_rules(parser@, rules, 0, expr@, offset as nat, depth as nat),
                whole == prepend(
                    views(out@),
                    match_rules(parser@, rules, i as nat, expr@, cursor as nat, depth as nat),
                ),
            decreases rule_set.len() - i,
        {
            let at = Parser::trim(expr, cursor);
            let ghost step = rule_outcome(parser@, rules[i as int], expr@, at as nat, depth as nat);
            proof {
                assert(rules[i as int] == rule_set[i as int]@);
            }
            let matched = match &rule_set[i] {
                Rule::NonTerminal(parse_key) => parse_key.unify_key(parser, expr, at, depth),
                Rule::Terminal(parser_fn) => Ok(parser_fn.call(expr, at)),
            };
            proof {
                assert(outcome_view(matched) == step);
            }
            match matched {
                Ok(Some((node, new_offset))) => {
                    proof {
                        let before = views(out@);
                        let rest = match_rules(
                            parser@,
                            rules,
                            (i + 1) as nat,
                            expr@,
                            new_offset as nat,
                            depth as nat,
                        );
                        assert(views(out@.push(node)) =~= before + seq![node@]);
                        assert(prepend(before, prepend(seq![node@], rest)) == prepend(
                            before + seq![node@],
                            rest,
                        )) by {
                            if let Ok(Some((nodes, end))) = rest {
                                assert(before + (seq![node@] + nodes) =~= (before + seq![node@])
                                    + nodes);
                            }
                        }
                    }
                    out.push(node);
                    cursor = new_offset;
                },
                Ok(None) => {
                    return Ok(None);
                },
                Err(halt) => {
                    return Err(halt);
                },
            }
            i += 1;
        }
        proof {
            assert(views(out@) + Seq::<NodeView>::empty() =~= views(out@));
            assert(whole == Ok::<Option<(Seq<NodeView>, nat)>, Halt>(
                Some((views(out@), cursor as nat)),
            ));
        }
        if out.len() == 0 {
            Ok(None)
        } else if out.len() == 1 {
            match out.pop() {
                Some(node) => Ok(Some((node, cursor))),
                None => Ok(None),
            }
        } else {
            proof {
                lemma_expr_view(out);
            }
            Ok(Some((Node::Expr(out), cursor)))
        }
    }
}

} // verus!
