//! The grammar as a set of trees, and how the parser relates to it.
//!
//! [`derives`] says which trees the grammar admits for a rule. The parser is
//! sound: a tree that it returns is one of them, and its terminals are the
//! tokens that were read, in order. It is complete: the tokens of any such
//! tree parse, and parse to that tree. So a row of tokens parses if and only
//! if the grammar derives it, and then in one way only.

use crate::cfg::mathparser::{
    dispatch, is_chain_rule, lemma_parse_rule_advances, look_ahead, operand_rule, parse_rule,
    parse_tokens, rank, terminal_of, Dispatch,
};
use crate::cfg::{CfgTerm, ParseError, ParseTree};
use crate::lex::simple::LexToken;
use vstd::prelude::*;

verus! {

/// Whether `symbol` is an operator of the chain rule `rule`.
pub open spec fn is_operator_of(rule: CfgTerm, symbol: CfgTerm) -> bool {
    match rule {
        CfgTerm::NonTermExpr => symbol == CfgTerm::TermPlus || symbol == CfgTerm::TermMinus,
        CfgTerm::NonTermMultiDivExpr => symbol == CfgTerm::TermMultiply,
        CfgTerm::NonTermDivExpr => symbol == CfgTerm::TermDivide,
        _ => false,
    }
}

/// Whether the grammar derives `tree` from `rule`, with the root at depth
/// `depth` and every child one deeper than its parent.
///
/// A chain rule derives a node of its own symbol with one child, an operand,
/// or with three: an operand, one of its operators, and what the rule itself
/// derives. `Term` derives a number, which is a leaf, and a `Term` node with
/// `(`, what `Expr` derives, and `)`.
pub open spec fn derives(rule: CfgTerm, tree: ParseTree, depth: nat) -> bool
    decreases tree,
{
    if is_chain_rule(rule) {
        &&& tree.symbol == rule
        &&& tree.depth == depth
        &&& {
            ||| {
                &&& tree.children.len() == 1
                &&& derives(operand_rule(rule), tree.children[0], depth + 1)
            }
            ||| {
                &&& tree.children.len() == 3
                &&& derives(operand_rule(rule), tree.children[0], depth + 1)
                &&& is_operator_of(rule, tree.children[1].symbol)
                &&& tree.children[1] == ParseTree::leaf(tree.children[1].symbol, depth + 1)
                &&& derives(rule, tree.children[2], depth + 1)
            }
        }
    } else if rule == CfgTerm::NonTermTermExpr {
        &&& tree.depth == depth
        &&& {
            ||| {
                &&& tree.symbol is TermNumber
                &&& tree.children.len() == 0
            }
            ||| {
                &&& tree.symbol == CfgTerm::NonTermTermExpr
                &&& tree.children.len() == 3
                &&& tree.children[0] == ParseTree::leaf(CfgTerm::TermLeftParens, depth + 1)
                &&& derives(CfgTerm::NonTermExpr, tree.children[1], depth + 1)
                &&& tree.children[2] == ParseTree::leaf(CfgTerm::TermRightParens, depth + 1)
            }
        }
    } else {
        false
    }
}

/// The terminal symbols that stand for a row of tokens, in order.
pub open spec fn terminals(tokens: Seq<LexToken>) -> Seq<CfgTerm> {
    tokens.map_values(|token: LexToken| terminal_of(token))
}

/// Whether `look` may stand after what `rule` derives: `rule` and every rule
/// that binds tighter leave it to their caller.
pub open spec fn may_follow(rule: CfgTerm, look: Option<LexToken>) -> bool
    decreases rank(rule),
{
    if is_chain_rule(rule) {
        dispatch(rule, look) is FallThrough && may_follow(operand_rule(rule), look)
    } else {
        true
    }
}

/// The terminals of a row of one tree are those of the tree.
pub proof fn lemma_leaves_of_one(a: ParseTree)
    ensures
        ParseTree::leaves_of(seq![a]) == a.leaves(),
{
    let row = seq![a];
    assert(row.drop_last() =~= Seq::<ParseTree>::empty());
    assert(ParseTree::leaves_of(row) == ParseTree::leaves_of(row.drop_last()) + row.last().leaves());
    assert(ParseTree::leaves_of(row.drop_last()) =~= Seq::<CfgTerm>::empty());
    assert(Seq::<CfgTerm>::empty() + a.leaves() =~= a.leaves());
}

/// The terminals of a row of three trees are those of the first, then those
/// of the second, then those of the third.
pub proof fn lemma_leaves_of_three(a: ParseTree, b: ParseTree, c: ParseTree)
    ensures
        ParseTree::leaves_of(seq![a, b, c]) == a.leaves() + b.leaves() + c.leaves(),
{
    let row = seq![a, b, c];
    let two = seq![a, b];
    assert(row.drop_last() =~= two);
    assert(two.drop_last() =~= seq![a]);
    lemma_leaves_of_one(a);
    assert(ParseTree::leaves_of(two) == ParseTree::leaves_of(two.drop_last()) + two.last().leaves());
    assert(ParseTree::leaves_of(row) == ParseTree::leaves_of(row.drop_last()) + row.last().leaves());
}

/// The parser is sound for each rule: what `rule` reads is a tree that the
/// grammar derives from it, and the terminals of the tree are the tokens
/// that it has read, in order.
pub proof fn lemma_parse_rule_sound(rule: CfgTerm, tokens: Seq<LexToken>, pos: int, depth: nat)
    requires
        is_chain_rule(rule) || rule == CfgTerm::NonTermTermExpr,
        0 <= pos,
    ensures
        parse_rule(rule, tokens, pos, depth) matches Ok((tree, next)) ==> {
            &&& pos < next <= tokens.len()
            &&& derives(rule, tree, depth)
            &&& tree.leaves() == terminals(tokens.subrange(pos, next))
        },
    decreases tokens.len() - pos, rank(rule),
{
    lemma_parse_rule_advances(rule, tokens, pos, depth);
    if is_chain_rule(rule) {
        lemma_parse_rule_sound(operand_rule(rule), tokens, pos, depth + 1);
        match parse_rule(operand_rule(rule), tokens, pos, depth + 1) {
            Ok((operand, next)) => {
                match dispatch(rule, look_ahead(tokens, next)) {
                    Dispatch::FallThrough => {
                        lemma_leaves_of_one(operand);
                    },
                    Dispatch::Consume(operator) => {
                        lemma_parse_rule_sound(rule, tokens, next + 1, depth + 1);
                        lemma_parse_rule_advances(rule, tokens, next + 1, depth + 1);
                        match parse_rule(rule, tokens, next + 1, depth + 1) {
                            Ok((tail, end)) => {
                                let mark = ParseTree::leaf(operator, depth + 1);
                                lemma_leaves_of_three(operand, mark, tail);
                                assert(mark.leaves() == seq![operator]);
                                assert(terminals(tokens.subrange(pos, end)) =~= terminals(
                                    tokens.subrange(pos, next),
                                ) + seq![operator] + terminals(tokens.subrange(next + 1, end)));
                            },
                            Err(_) => {},
                        }
                    },
                    Dispatch::Fail => {},
                }
            },
            Err(_) => {},
        }
    } else {
        match look_ahead(tokens, pos) {
            Some(LexToken::Num(n)) => {
                assert(terminals(tokens.subrange(pos, pos + 1)) =~= seq![CfgTerm::TermNumber(n)]);
            },
            Some(LexToken::LeftParen(_)) => {
                lemma_parse_rule_sound(CfgTerm::NonTermExpr, tokens, pos + 1, depth + 1);
                match parse_rule(CfgTerm::NonTermExpr, tokens, pos + 1, depth + 1) {
                    Ok((inner, next)) => {
                        if look_ahead(tokens, next) matches Some(LexToken::RightParen(_)) {
                            let open = ParseTree::leaf(CfgTerm::TermLeftParens, depth + 1);
                            let close = ParseTree::leaf(CfgTerm::TermRightParens, depth + 1);
                            lemma_leaves_of_three(open, inner, close);
                            assert(open.leaves() == seq![CfgTerm::TermLeftParens]);
                            assert(close.leaves() == seq![CfgTerm::TermRightParens]);
                            assert(terminals(tokens.subrange(pos, next + 1)) =~= seq![
                                CfgTerm::TermLeftParens,
                            ] + terminals(tokens.subrange(pos + 1, next)) + seq![
                                CfgTerm::TermRightParens,
                            ]);
                        }
                    },
                    Err(_) => {},
                }
            },
            _ => {},
        }
    }
}

/// The parser is complete for each rule: where the tokens from `pos` on
/// spell the terminals of a tree that the grammar derives from `rule`, and
/// the token after them may follow the rule, `rule` reads exactly that tree.
pub proof fn lemma_derivation_parses(
    rule: CfgTerm,
    tree: ParseTree,
    depth: nat,
    tokens: Seq<LexToken>,
    pos: int,
)
    requires
        derives(rule, tree, depth),
        0 <= pos,
        pos + tree.leaves().len() <= tokens.len(),
        terminals(tokens.subrange(pos, pos + tree.leaves().len())) == tree.leaves(),
        may_follow(rule, look_ahead(tokens, pos + tree.leaves().len())),
    ensures
        parse_rule(rule, tokens, pos, depth) == Ok::<(ParseTree, int), ParseError>(
            (tree, pos + tree.leaves().len()),
        ),
    decreases tree,
{
    let n = tree.leaves().len() as int;
    let spelled = terminals(tokens.subrange(pos, pos + n));
    assert forall|k: int| 0 <= k < n implies terminal_of(tokens[pos + k]) == tree.leaves()[k] by {
        assert(spelled[k] == terminal_of(tokens.subrange(pos, pos + n)[k]));
    }
    if is_chain_rule(rule) {
        let operand = tree.children[0];
        if tree.children.len() == 1 {
            assert(tree.children =~= seq![operand]);
            lemma_leaves_of_one(operand);
            lemma_derivation_parses(operand_rule(rule), operand, depth + 1, tokens, pos);
        } else {
            let mark = tree.children[1];
            let tail = tree.children[2];
            assert(tree.children =~= seq![operand, mark, tail]);
            lemma_leaves_of_three(operand, mark, tail);
            assert(mark.leaves() == seq![mark.symbol]);
            let n0 = operand.leaves().len() as int;
            let n2 = tail.leaves().len() as int;
            assert(n == n0 + 1 + n2);
            assert(terminal_of(tokens[pos + n0]) == mark.symbol) by {
                assert(tree.leaves()[n0] == mark.symbol);
            }
            assert(terminals(tokens.subrange(pos, pos + n0)) =~= operand.leaves()) by {
                assert forall|k: int| 0 <= k < n0 implies terminals(
                    tokens.subrange(pos, pos + n0),
                )[k] == operand.leaves()[k] by {
                    assert(tree.leaves()[k] == operand.leaves()[k]);
                }
            }
            assert(terminals(tokens.subrange(pos + n0 + 1, pos + n0 + 1 + n2)) =~= tail.leaves())
                by {
                assert forall|k: int| 0 <= k < n2 implies terminals(
                    tokens.subrange(pos + n0 + 1, pos + n0 + 1 + n2),
                )[k] == tail.leaves()[k] by {
                    assert(tree.leaves()[n0 + 1 + k] == tail.leaves()[k]);
                    assert(terminal_of(tokens[pos + (n0 + 1 + k)]) == tree.leaves()[n0 + 1 + k]);
                }
            }
            assert(may_follow(operand_rule(rule), look_ahead(tokens, pos + n0))) by {
                reveal_with_fuel(may_follow, 3);
            }
            lemma_derivation_parses(operand_rule(rule), operand, depth + 1, tokens, pos);
            lemma_derivation_parses(rule, tail, depth + 1, tokens, pos + n0 + 1);
        }
    } else {
        if tree.children.len() == 0 {
            assert(tree.children =~= Seq::<ParseTree>::empty());
            assert(terminal_of(tokens[pos + 0]) == tree.leaves()[0]);
        } else {
            let open = tree.children[0];
            let inner = tree.children[1];
            let close = tree.children[2];
            assert(tree.children =~= seq![open, inner, close]);
            lemma_leaves_of_three(open, inner, close);
            assert(open.leaves() == seq![CfgTerm::TermLeftParens]);
            assert(close.leaves() == seq![CfgTerm::TermRightParens]);
            let n1 = inner.leaves().len() as int;
            assert(n == n1 + 2);
            assert(terminal_of(tokens[pos + 0]) == CfgTerm::TermLeftParens) by {
                assert(tree.leaves()[0] == CfgTerm::TermLeftParens);
            }
            assert(terminal_of(tokens[pos + (n1 + 1)]) == CfgTerm::TermRightParens) by {
                assert(tree.leaves()[n1 + 1] == CfgTerm::TermRightParens);
            }
            assert(terminals(tokens.subrange(pos + 1, pos + 1 + n1)) =~= inner.leaves()) by {
                assert forall|k: int| 0 <= k < n1 implies terminals(
                    tokens.subrange(pos + 1, pos + 1 + n1),
                )[k] == inner.leaves()[k] by {
                    assert(tree.leaves()[1 + k] == inner.leaves()[k]);
                    assert(terminal_of(tokens[pos + (1 + k)]) == tree.leaves()[1 + k]);
                }
            }
            assert(may_follow(CfgTerm::NonTermExpr, look_ahead(tokens, pos + 1 + n1))) by {
                reveal_with_fuel(may_follow, 4);
            }
            lemma_derivation_parses(CfgTerm::NonTermExpr, inner, depth + 1, tokens, pos + 1);
        }
    }
}

/// A tree that the grammar derives has at least one terminal.
pub proof fn lemma_derivation_has_leaves(rule: CfgTerm, tree: ParseTree, depth: nat)
    requires
        derives(rule, tree, depth),
    ensures
        tree.leaves().len() > 0,
    decreases tree,
{
    if is_chain_rule(rule) {
        let operand = tree.children[0];
        lemma_derivation_has_leaves(operand_rule(rule), operand, depth + 1);
        if tree.children.len() == 1 {
            assert(tree.children =~= seq![operand]);
            lemma_leaves_of_one(operand);
        } else {
            assert(tree.children =~= seq![operand, tree.children[1], tree.children[2]]);
            lemma_leaves_of_three(operand, tree.children[1], tree.children[2]);
        }
    } else if tree.children.len() == 3 {
        assert(tree.children =~= seq![tree.children[0], tree.children[1], tree.children[2]]);
        lemma_leaves_of_three(tree.children[0], tree.children[1], tree.children[2]);
        assert(tree.children[0].leaves() == seq![CfgTerm::TermLeftParens]);
    }
}

/// Parsing is sound: the tree of a row of tokens is an `Expr` that the
/// grammar derives, and its terminals, read left to right, are the tokens in
/// order. So the numbers in the tree are the numbers among the tokens, each
/// in its place.
pub proof fn lemma_parse_sound(tokens: Seq<LexToken>, depth: nat)
    ensures
        parse_tokens(tokens, depth) matches Ok(tree) ==> {
            &&& derives(CfgTerm::NonTermExpr, tree, depth)
            &&& tree.leaves() == terminals(tokens)
        },
{
    lemma_parse_rule_sound(CfgTerm::NonTermExpr, tokens, 0, depth);
    assert(tokens.subrange(0, tokens.len() as int) =~= tokens);
}

/// Parsing is complete: a row of tokens that spells the terminals of an
/// `Expr` that the grammar derives parses, and parses to that tree.
pub proof fn lemma_parse_complete(tokens: Seq<LexToken>, tree: ParseTree, depth: nat)
    requires
        derives(CfgTerm::NonTermExpr, tree, depth),
        tree.leaves() == terminals(tokens),
    ensures
        parse_tokens(tokens, depth) == Ok::<ParseTree, ParseError>(tree),
{
    lemma_derivation_has_leaves(CfgTerm::NonTermExpr, tree, depth);
    assert(tokens.subrange(0, tokens.len() as int) =~= tokens);
    assert(may_follow(CfgTerm::NonTermExpr, look_ahead(tokens, tokens.len() as int))) by {
        reveal_with_fuel(may_follow, 4);
    }
    lemma_derivation_parses(CfgTerm::NonTermExpr, tree, depth, tokens, 0);
}

/// What a rule reads, with every node `by` deeper; a failure is the same at
/// any depth.
pub open spec fn deepened_result(
    read: Result<(ParseTree, int), ParseError>,
    by: nat,
) -> Result<(ParseTree, int), ParseError> {
    match read {
        Ok((tree, next)) => Ok((tree.deepened(by), next)),
        Err(e) => Err(e),
    }
}

/// A row of one tree, deepened, is the row of the deepened tree.
pub proof fn lemma_deepened_one(a: ParseTree, by: nat)
    ensures
        ParseTree::deepened_rows(seq![a], by) == seq![a.deepened(by)],
{
    let row = seq![a];
    assert(row.drop_last() =~= Seq::<ParseTree>::empty());
    assert(ParseTree::deepened_rows(row, by) == ParseTree::deepened_rows(row.drop_last(), by).push(
        row.last().deepened(by),
    ));
    assert(ParseTree::deepened_rows(row.drop_last(), by) =~= Seq::<ParseTree>::empty());
    assert(ParseTree::deepened_rows(row, by) =~= seq![a.deepened(by)]);
}

/// A row of three trees, deepened, is the row of the three deepened trees.
pub proof fn lemma_deepened_three(a: ParseTree, b: ParseTree, c: ParseTree, by: nat)
    ensures
        ParseTree::deepened_rows(seq![a, b, c], by) == seq![
            a.deepened(by),
            b.deepened(by),
            c.deepened(by),
        ],
{
    let row = seq![a, b, c];
    let two = seq![a, b];
    assert(row.drop_last() =~= two);
    assert(two.drop_last() =~= seq![a]);
    lemma_deepened_one(a, by);
    assert(ParseTree::deepened_rows(two, by) == ParseTree::deepened_rows(two.drop_last(), by).push(
        two.last().deepened(by),
    ));
    assert(ParseTree::deepened_rows(row, by) == ParseTree::deepened_rows(row.drop_last(), by).push(
        row.last().deepened(by),
    ));
    assert(ParseTree::deepened_rows(row, by) =~= seq![
        a.deepened(by),
        b.deepened(by),
        c.deepened(by),
    ]);
}

/// The depth at which a tree is rooted changes nothing but the depths: what
/// a rule reads at depth `depth + by` is what it reads at depth `depth`, with
/// every node `by` deeper.
pub proof fn lemma_depth_only_relabels(
    rule: CfgTerm,
    tokens: Seq<LexToken>,
    pos: int,
    depth: nat,
    by: nat,
)
    ensures
        parse_rule(rule, tokens, pos, depth + by) == deepened_result(
            parse_rule(rule, tokens, pos, depth),
            by,
        ),
    decreases tokens.len() - pos, rank(rule),
{
    if is_chain_rule(rule) {
        lemma_depth_only_relabels(operand_rule(rule), tokens, pos, depth + 1, by);
        assert(depth + 1 + by == depth + by + 1);
        match parse_rule(operand_rule(rule), tokens, pos, depth + 1) {
            Ok((operand, next)) => {
                match dispatch(rule, look_ahead(tokens, next)) {
                    Dispatch::FallThrough => {
                        lemma_deepened_one(operand, by);
                    },
                    Dispatch::Consume(operator) => {
                        lemma_parse_rule_advances(operand_rule(rule), tokens, pos, depth + 1);
                        lemma_depth_only_relabels(rule, tokens, next + 1, depth + 1, by);
                        match parse_rule(rule, tokens, next + 1, depth + 1) {
                            Ok((tail, _)) => {
                                let mark = ParseTree::leaf(operator, depth + 1);
                                lemma_deepened_three(operand, mark, tail, by);
                                assert(mark.deepened(by) == ParseTree::leaf(
                                    operator,
                                    depth + by + 1,
                                ));
                            },
                            Err(_) => {},
                        }
                    },
                    Dispatch::Fail => {},
                }
            },
            Err(_) => {},
        }
    } else {
        match look_ahead(tokens, pos) {
            Some(LexToken::Num(n)) => {
                assert(ParseTree::leaf(CfgTerm::TermNumber(n), depth).deepened(by)
                    == ParseTree::leaf(CfgTerm::TermNumber(n), depth + by));
            },
            Some(LexToken::LeftParen(_)) => {
                lemma_depth_only_relabels(CfgTerm::NonTermExpr, tokens, pos + 1, depth + 1, by);
                assert(depth + 1 + by == depth + by + 1);
                match parse_rule(CfgTerm::NonTermExpr, tokens, pos + 1, depth + 1) {
                    Ok((inner, next)) => {
                        let open = ParseTree::leaf(CfgTerm::TermLeftParens, depth + 1);
                        let close = ParseTree::leaf(CfgTerm::TermRightParens, depth + 1);
                        lemma_deepened_three(open, inner, close, by);
                        assert(open.deepened(by) == ParseTree::leaf(
                            CfgTerm::TermLeftParens,
                            depth + by + 1,
                        ));
                        assert(close.deepened(by) == ParseTree::leaf(
                            CfgTerm::TermRightParens,
                            depth + by + 1,
                        ));
                    },
                    Err(_) => {},
                }
            },
            _ => {},
        }
    }
}

/// The tree of a row of tokens rooted at depth `depth + by` is its tree
/// rooted at depth `depth` with every node `by` deeper, and it fails as that
/// one fails. So the `Expr` under a start node is the tree that `parse`
/// returns, one deeper.
pub proof fn lemma_parse_at_any_depth(tokens: Seq<LexToken>, depth: nat, by: nat)
    ensures
        parse_tokens(tokens, depth + by) == match parse_tokens(tokens, depth) {
            Ok(tree) => Ok::<ParseTree, ParseError>(tree.deepened(by)),
            Err(e) => Err(e),
        },
{
    lemma_depth_only_relabels(CfgTerm::NonTermExpr, tokens, 0, depth, by);
}

} // verus!
