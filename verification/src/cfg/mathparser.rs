//! The recursive-descent parser.
//!
//! The grammar has four rules, from the loosest binding to the tightest:
//!
//! ```text
//! Expr         := MultiDivExpr ( ('+' | '-') Expr )?
//! MultiDivExpr := DivExpr ( '*' MultiDivExpr )?
//! DivExpr      := Term ( '/' DivExpr )?
//! Term         := Number | '(' Expr ')'
//! ```
//!
//! [`parse_rule`] says what each rule reads from a row of tokens, and
//! [`parse_tokens`] what a whole row of tokens parses to. The functions of
//! [`MathParser`] compute exactly that.

use crate::cfg::{CfgTerm, ParseError, ParseNode, ParseTree};
use crate::lex::laws::lemma_tokens_within_text;
use crate::lex::simple::{lexer, tokenize, LexError, LexToken};
use vstd::prelude::*;

verus! {

/// What a rule does once it has read its first operand and looks at the token
/// after it.
pub enum Dispatch {
    /// Take the token as the operator with the given symbol, and read the
    /// rule again for what follows.
    Consume(CfgTerm),
    /// Leave the token to the caller and end the rule.
    FallThrough,
    /// Fail.
    Fail,
}

/// The token at position `pos`, or `None` at the end of the tokens.
pub open spec fn look_ahead(tokens: Seq<LexToken>, pos: int) -> Option<LexToken> {
    if 0 <= pos < tokens.len() {
        Some(tokens[pos])
    } else {
        None
    }
}

/// The terminal symbol that stands for a token.
pub open spec fn terminal_of(token: LexToken) -> CfgTerm {
    match token {
        LexToken::Num(n) => CfgTerm::TermNumber(n),
        LexToken::Add(_) => CfgTerm::TermPlus,
        LexToken::Subtract(_) => CfgTerm::TermMinus,
        LexToken::Multi(_) => CfgTerm::TermMultiply,
        LexToken::Div(_) => CfgTerm::TermDivide,
        LexToken::LeftParen(_) => CfgTerm::TermLeftParens,
        LexToken::RightParen(_) => CfgTerm::TermRightParens,
    }
}

/// The three rules that read an operand and then, maybe, an operator and
/// themselves again.
pub open spec fn is_chain_rule(rule: CfgTerm) -> bool {
    rule == CfgTerm::NonTermExpr || rule == CfgTerm::NonTermMultiDivExpr || rule
        == CfgTerm::NonTermDivExpr
}

/// The rule that reads the operands of a chain rule: the next tighter one.
pub open spec fn operand_rule(rule: CfgTerm) -> CfgTerm
    recommends
        is_chain_rule(rule),
{
    match rule {
        CfgTerm::NonTermExpr => CfgTerm::NonTermMultiDivExpr,
        CfgTerm::NonTermMultiDivExpr => CfgTerm::NonTermDivExpr,
        _ => CfgTerm::NonTermTermExpr,
    }
}

/// How many rules bind tighter than `rule`.
pub open spec fn rank(rule: CfgTerm) -> nat {
    match rule {
        CfgTerm::NonTermExpr => 3,
        CfgTerm::NonTermMultiDivExpr => 2,
        CfgTerm::NonTermDivExpr => 1,
        _ => 0,
    }
}

/// The dispatch table: what the chain rule `rule` does on the look-ahead
/// `look`.
///
/// A rule consumes its own operator. It falls through on the operator of
/// another rule, on `)` and at the end of the tokens. It fails on a number
/// and on `(`.
pub open spec fn dispatch(rule: CfgTerm, look: Option<LexToken>) -> Dispatch
    recommends
        is_chain_rule(rule),
{
    match look {
        None => Dispatch::FallThrough,
        Some(LexToken::Add(_)) => if rule == CfgTerm::NonTermExpr {
            Dispatch::Consume(CfgTerm::TermPlus)
        } else {
            Dispatch::FallThrough
        },
        Some(LexToken::Subtract(_)) => if rule == CfgTerm::NonTermExpr {
            Dispatch::Consume(CfgTerm::TermMinus)
        } else {
            Dispatch::FallThrough
        },
        Some(LexToken::Multi(_)) => if rule == CfgTerm::NonTermMultiDivExpr {
            Dispatch::Consume(CfgTerm::TermMultiply)
        } else {
            Dispatch::FallThrough
        },
        Some(LexToken::Div(_)) => if rule == CfgTerm::NonTermDivExpr {
            Dispatch::Consume(CfgTerm::TermDivide)
        } else {
            Dispatch::FallThrough
        },
        Some(LexToken::RightParen(_)) => Dispatch::FallThrough,
        Some(LexToken::Num(_)) | Some(LexToken::LeftParen(_)) => Dispatch::Fail,
    }
}

/// What `rule` reads from `tokens` at position `pos`, as a tree rooted at
/// depth `depth`: the tree and the position after it, or the first failure.
///
/// `Term` reads a number, which is a leaf by itself, or `(`, an `Expr` and
/// `)`, which are the three children of a `Term` node. A chain rule reads an
/// operand by the next tighter rule and then goes by the dispatch table: it
/// ends with the operand as its only child, or takes the operator and reads
/// itself again, which nests a chain of equal operators to the right. A child
/// stands one deeper than its parent.
///
/// A rule ends after the position at which it starts (see
/// `lemma_parse_rule_advances`), so the test `pos <= next` below never fails:
/// it is there for the definition to be well-founded.
pub open spec fn parse_rule(rule: CfgTerm, tokens: Seq<LexToken>, pos: int, depth: nat) -> Result<
    (ParseTree, int),
    ParseError,
>
    recommends
        is_chain_rule(rule) || rule == CfgTerm::NonTermTermExpr,
    decreases tokens.len() - pos, rank(rule),
{
    if is_chain_rule(rule) {
        match parse_rule(operand_rule(rule), tokens, pos, depth + 1) {
            Err(e) => Err(e),
            Ok((operand, next)) => match dispatch(rule, look_ahead(tokens, next)) {
                Dispatch::FallThrough => Ok(
                    (ParseTree { symbol: rule, children: seq![operand], depth }, next),
                ),
                Dispatch::Consume(operator) if pos <= next => match parse_rule(
                    rule,
                    tokens,
                    next + 1,
                    depth + 1,
                ) {
                    Err(e) => Err(e),
                    Ok((tail, end)) => Ok(
                        (
                            ParseTree {
                                symbol: rule,
                                children: seq![
                                    operand,
                                    ParseTree::leaf(operator, depth + 1),
                                    tail,
                                ],
                                depth,
                            },
                            end,
                        ),
                    ),
                },
                _ => Err(ParseError::ExpectedOperator(rule, tokens[next])),
            },
        }
    } else {
        match look_ahead(tokens, pos) {
            Some(LexToken::Num(n)) => Ok((ParseTree::leaf(CfgTerm::TermNumber(n), depth), pos + 1)),
            Some(LexToken::LeftParen(_)) => match parse_rule(
                CfgTerm::NonTermExpr,
                tokens,
                pos + 1,
                depth + 1,
            ) {
                Err(e) => Err(e),
                Ok((inner, next)) => match look_ahead(tokens, next) {
                    Some(LexToken::RightParen(_)) => Ok(
                        (
                            ParseTree {
                                symbol: CfgTerm::NonTermTermExpr,
                                children: seq![
                                    ParseTree::leaf(CfgTerm::TermLeftParens, depth + 1),
                                    inner,
                                    ParseTree::leaf(CfgTerm::TermRightParens, depth + 1),
                                ],
                                depth,
                            },
                            next + 1,
                        ),
                    ),
                    _ => Err(ParseError::UnmatchedParen(pos as usize)),
                },
            },
            found => Err(ParseError::UnexpectedToken(CfgTerm::NonTermTermExpr, found)),
        }
    }
}

/// What a whole row of tokens parses to, as a tree rooted at depth `depth`:
/// the `Expr` that takes all of them. No tokens fail with `EmptyInput`, and
/// tokens left after the `Expr` fail with `TrailingInput` and the position of
/// the first of them.
pub open spec fn parse_tokens(tokens: Seq<LexToken>, depth: nat) -> Result<ParseTree, ParseError> {
    if tokens.len() == 0 {
        Err(ParseError::EmptyInput)
    } else {
        match parse_rule(CfgTerm::NonTermExpr, tokens, 0, depth) {
            Err(e) => Err(e),
            Ok((tree, next)) => if next < tokens.len() {
                Err(ParseError::TrailingInput(next as usize))
            } else {
                Ok(tree)
            },
        }
    }
}

/// A rule that succeeds ends after the position at which it starts, and
/// within the tokens: the cursor only moves forward.
pub proof fn lemma_parse_rule_advances(rule: CfgTerm, tokens: Seq<LexToken>, pos: int, depth: nat)
    ensures
        parse_rule(rule, tokens, pos, depth) matches Ok((_, next)) ==> pos < next <= tokens.len(),
    decreases tokens.len() - pos, rank(rule),
{
    if is_chain_rule(rule) {
        lemma_parse_rule_advances(operand_rule(rule), tokens, pos, depth + 1);
        match parse_rule(operand_rule(rule), tokens, pos, depth + 1) {
            Ok((_, next)) => {
                if dispatch(rule, look_ahead(tokens, next)) is Consume {
                    lemma_parse_rule_advances(rule, tokens, next + 1, depth + 1);
                }
            },
            Err(_) => {},
        }
    } else if look_ahead(tokens, pos) matches Some(LexToken::LeftParen(_)) {
        lemma_parse_rule_advances(CfgTerm::NonTermExpr, tokens, pos + 1, depth + 1);
    }
}

/// The view of what the function of a rule returns.
pub open spec fn parsed(r: Result<(ParseNode, usize), ParseError>) -> Result<
    (ParseTree, int),
    ParseError,
> {
    match r {
        Ok((node, next)) => Ok((node@, next as int)),
        Err(e) => Err(e),
    }
}

/// The view of what parsing a whole row of tokens returns.
pub open spec fn parsed_tree(r: Result<ParseNode, ParseError>) -> Result<ParseTree, ParseError> {
    match r {
        Ok(node) => Ok(node@),
        Err(e) => Err(e),
    }
}

/// The view of the tree that a parser keeps, if it keeps one.
pub open spec fn tree_of(parsed_node: Option<ParseNode>) -> Option<ParseTree> {
    match parsed_node {
        Some(node) => Some(node@),
        None => None,
    }
}

/// The tree that the start rule puts around the `Expr` of all the tokens: one
/// node at depth 0, whose only child is the `Expr`.
pub open spec fn start_tree(expr: ParseTree) -> ParseTree {
    ParseTree { symbol: CfgTerm::NonTermStartRule, children: seq![expr], depth: 0 }
}

/// Whether the depth of every node that `rule` may make from position `pos`
/// on, as a tree rooted at depth `depth`, fits the machine's integers. A tree
/// grows at most four deeper with each token.
pub open spec fn depth_fits(rule: CfgTerm, tokens: Seq<LexToken>, pos: int, depth: nat) -> bool {
    depth + 4 * (tokens.len() - pos) + rank(rule) + 1 <= usize::MAX
}

/// Why `MathParser::start` failed: in reading the text, or in parsing its
/// tokens.
#[derive(Debug, PartialEq, Eq, Clone, Copy)]
pub enum MathError {
    Lex(LexError),
    Parse(ParseError),
}

/// A parser for one expression: the text, its tokens, and the tree once the
/// tokens are parsed.
#[derive(Debug)]
pub struct MathParser {
    pub s: String,
    pub lex_tokens: Vec<LexToken>,
    pub parsed_node: Option<ParseNode>,
}

impl MathParser {
    /// A parser for the text `s`, with no tokens and no tree yet.
    pub fn new(s: String) -> (parser: MathParser)
        ensures
            parser.s == s,
            parser.lex_tokens@ == Seq::<LexToken>::empty(),
            parser.parsed_node is None,
    {
        MathParser { s, lex_tokens: Vec::new(), parsed_node: None }
    }

    /// A parser for tokens that were read already, with no text and no tree
    /// yet.
    pub fn from_tokens(tokens: &[LexToken]) -> (parser: MathParser)
        ensures
            parser.s@ == Seq::<char>::empty(),
            parser.lex_tokens@ == tokens@,
            parser.parsed_node is None,
    {
        let mut lex_tokens: Vec<LexToken> = Vec::new();
        let mut i: usize = 0;
        while i < tokens.len()
            invariant
                i <= tokens.len(),
                lex_tokens@ == tokens@.take(i as int),
            decreases tokens.len() - i,
        {
            lex_tokens.push(tokens[i]);
            i += 1;
        }
        MathParser { s: String::new(), lex_tokens, parsed_node: None }
    }

    /// The token at position `pos`, without consuming it, or `None` at the
    /// end of the tokens.
    pub fn peek(&self, pos: usize) -> (token: Option<LexToken>)
        ensures
            token == look_ahead(self.lex_tokens@, pos as int),
            token is Some ==> pos < self.lex_tokens@.len() <= usize::MAX,
    {
        if pos < self.lex_tokens.len() {
            Some(self.lex_tokens[pos])
        } else {
            None
        }
    }

    /// Reads a `Term` at position `pos`: a number, or an expression in
    /// parentheses.
    fn parse_term(&self, pos: usize, node_depth: usize) -> (r: Result<
        (ParseNode, usize),
        ParseError,
    >)
        requires
            pos <= self.lex_tokens@.len(),
            depth_fits(CfgTerm::NonTermTermExpr, self.lex_tokens@, pos as int, node_depth as nat),
        ensures
            parsed(r) == parse_rule(
                CfgTerm::NonTermTermExpr,
                self.lex_tokens@,
                pos as int,
                node_depth as nat,
            ),
        decreases self.lex_tokens@.len() - pos, 0nat,
    {
        match self.peek(pos) {
            Some(LexToken::LeftParen(_)) => {
                let mut term_node = ParseNode::new(CfgTerm::NonTermTermExpr, node_depth);
                term_node.add_child_node(ParseNode::new(CfgTerm::TermLeftParens, node_depth + 1));
                let (expr_node, expr_pos) = match self.parse_expr(pos + 1, node_depth + 1) {
                    Ok(read) => read,
                    Err(e) => {
                        return Err(e);
                    },
                };
                proof {
                    lemma_parse_rule_advances(
                        CfgTerm::NonTermExpr,
                        self.lex_tokens@,
                        pos + 1,
                        (node_depth + 1) as nat,
                    );
                }
                term_node.add_child_node(expr_node);
                match self.peek(expr_pos) {
                    Some(LexToken::RightParen(_)) => {
                        term_node.add_child_node(
                            ParseNode::new(CfgTerm::TermRightParens, node_depth + 1),
                        );
                        assert(term_node@.children =~= seq![
                            ParseTree::leaf(CfgTerm::TermLeftParens, (node_depth + 1) as nat),
                            expr_node@,
                            ParseTree::leaf(CfgTerm::TermRightParens, (node_depth + 1) as nat),
                        ]);
                        Ok((term_node, expr_pos + 1))
                    },
                    _ => Err(ParseError::UnmatchedParen(pos)),
                }
            },
            Some(LexToken::Num(n)) => Ok((ParseNode::new(CfgTerm::TermNumber(n), node_depth), pos + 1)),
            found => Err(ParseError::UnexpectedToken(CfgTerm::NonTermTermExpr, found)),
        }
    }

    /// Reads a `DivExpr` at position `pos`: a term, or a term, `/` and a
    /// `DivExpr`.
    fn parse_div_expr(&self, pos: usize, node_depth: usize) -> (r: Result<
        (ParseNode, usize),
        ParseError,
    >)
        requires
            pos <= self.lex_tokens@.len(),
            depth_fits(CfgTerm::NonTermDivExpr, self.lex_tokens@, pos as int, node_depth as nat),
        ensures
            parsed(r) == parse_rule(
                CfgTerm::NonTermDivExpr,
                self.lex_tokens@,
                pos as int,
                node_depth as nat,
            ),
        decreases self.lex_tokens@.len() - pos, 1nat,
    {
        let (term_node, new_pos) = match self.parse_term(pos, node_depth + 1) {
            Ok(read) => read,
            Err(e) => {
                return Err(e);
            },
        };
        proof {
            lemma_parse_rule_advances(
                CfgTerm::NonTermTermExpr,
                self.lex_tokens@,
                pos as int,
                (node_depth + 1) as nat,
            );
        }
        let mut dive_node = ParseNode::new(CfgTerm::NonTermDivExpr, node_depth);
        dive_node.add_child_node(term_node);
        match self.peek(new_pos) {
            Some(LexToken::Div(_)) => {
                dive_node.add_child_node(ParseNode::new(CfgTerm::TermDivide, node_depth + 1));
            },
            Some(LexToken::Add(_))
            | Some(LexToken::Subtract(_))
            | Some(LexToken::Multi(_))
            | Some(LexToken::RightParen(_))
            | None => {
                assert(dive_node@.children =~= seq![term_node@]);
                return Ok((dive_node, new_pos));
            },
            Some(found) => {
                return Err(ParseError::ExpectedOperator(CfgTerm::NonTermDivExpr, found));
            },
        }
        let (tail_dive_node, tail_dive_pos) = match self.parse_div_expr(
            new_pos + 1,
            node_depth + 1,
        ) {
            Ok(read) => read,
            Err(e) => {
                return Err(e);
            },
        };
        dive_node.add_child_node(tail_dive_node);
        assert(dive_node@.children =~= seq![
            term_node@,
            ParseTree::leaf(CfgTerm::TermDivide, (node_depth + 1) as nat),
            tail_dive_node@,
        ]);
        Ok((dive_node, tail_dive_pos))
    }

    /// Reads a `MultiDivExpr` at position `pos`: a `DivExpr`, or a `DivExpr`,
    /// `*` and a `MultiDivExpr`.
    fn parse_multi_div_expr(&self, pos: usize, node_depth: usize) -> (r: Result<
        (ParseNode, usize),
        ParseError,
    >)
        requires
            pos <= self.lex_tokens@.len(),
            depth_fits(
                CfgTerm::NonTermMultiDivExpr,
                self.lex_tokens@,
                pos as int,
                node_depth as nat,
            ),
        ensures
            parsed(r) == parse_rule(
                CfgTerm::NonTermMultiDivExpr,
                self.lex_tokens@,
                pos as int,
                node_depth as nat,
            ),
        decreases self.lex_tokens@.len() - pos, 2nat,
    {
        let (div_expr_node, new_pos) = match self.parse_div_expr(pos, node_depth + 1) {
            Ok(read) => read,
            Err(e) => {
                return Err(e);
            },
        };
        proof {
            lemma_parse_rule_advances(
                CfgTerm::NonTermDivExpr,
                self.lex_tokens@,
                pos as int,
                (node_depth + 1) as nat,
            );
        }
        let mut mde_node = ParseNode::new(CfgTerm::NonTermMultiDivExpr, node_depth);
        mde_node.add_child_node(div_expr_node);
        match self.peek(new_pos) {
            Some(LexToken::Multi(_)) => {
                mde_node.add_child_node(ParseNode::new(CfgTerm::TermMultiply, node_depth + 1));
            },
            Some(LexToken::Add(_))
            | Some(LexToken::Subtract(_))
            | Some(LexToken::Div(_))
            | Some(LexToken::RightParen(_))
            | None => {
                assert(mde_node@.children =~= seq![div_expr_node@]);
                return Ok((mde_node, new_pos));
            },
            Some(found) => {
                return Err(ParseError::ExpectedOperator(CfgTerm::NonTermMultiDivExpr, found));
            },
        }
        let (tail_mde_node, tail_mde_pos) = match self.parse_multi_div_expr(
            new_pos + 1,
            node_depth + 1,
        ) {
            Ok(read) => read,
            Err(e) => {
                return Err(e);
            },
        };
        mde_node.add_child_node(tail_mde_node);
        assert(mde_node@.children =~= seq![
            div_expr_node@,
            ParseTree::leaf(CfgTerm::TermMultiply, (node_depth + 1) as nat),
            tail_mde_node@,
        ]);
        Ok((mde_node, tail_mde_pos))
    }

    /// Reads an `Expr` at position `pos`: a `MultiDivExpr`, or a
    /// `MultiDivExpr`, `+` or `-`, and an `Expr`.
    fn parse_expr(&self, pos: usize, node_depth: usize) -> (r: Result<
        (ParseNode, usize),
        ParseError,
    >)
        requires
            pos <= self.lex_tokens@.len(),
            depth_fits(CfgTerm::NonTermExpr, self.lex_tokens@, pos as int, node_depth as nat),
        ensures
            parsed(r) == parse_rule(
                CfgTerm::NonTermExpr,
                self.lex_tokens@,
                pos as int,
                node_depth as nat,
            ),
        decreases self.lex_tokens@.len() - pos, 3nat,
    {
        let (multi_expr_node, new_pos) = match self.parse_multi_div_expr(pos, node_depth + 1) {
            Ok(read) => read,
            Err(e) => {
                return Err(e);
            },
        };
        proof {
            lemma_parse_rule_advances(
                CfgTerm::NonTermMultiDivExpr,
                self.lex_tokens@,
                pos as int,
                (node_depth + 1) as nat,
            );
        }
        let mut expr_node = ParseNode::new(CfgTerm::NonTermExpr, node_depth);
        expr_node.add_child_node(multi_expr_node);
        let operator = match self.peek(new_pos) {
            Some(LexToken::Add(_)) => CfgTerm::TermPlus,
            Some(LexToken::Subtract(_)) => CfgTerm::TermMinus,
            Some(LexToken::Multi(_))
            | Some(LexToken::Div(_))
            | Some(LexToken::RightParen(_))
            | None => {
                assert(expr_node@.children =~= seq![multi_expr_node@]);
                return Ok((expr_node, new_pos));
            },
            Some(found) => {
                return Err(ParseError::ExpectedOperator(CfgTerm::NonTermExpr, found));
            },
        };
        expr_node.add_child_node(ParseNode::new(operator, node_depth + 1));
        let (tail_expr_node, tail_expr_pos) = match self.parse_expr(new_pos + 1, node_depth + 1) {
            Ok(read) => read,
            Err(e) => {
                return Err(e);
            },
        };
        expr_node.add_child_node(tail_expr_node);
        assert(expr_node@.children =~= seq![
            multi_expr_node@,
            ParseTree::leaf(operator, (node_depth + 1) as nat),
            tail_expr_node@,
        ]);
        Ok((expr_node, tail_expr_pos))
    }

    /// Parses all the tokens as one `Expr` rooted at depth `node_depth`.
    fn parse_all(&self, node_depth: usize) -> (r: Result<ParseNode, ParseError>)
        requires
            depth_fits(CfgTerm::NonTermExpr, self.lex_tokens@, 0, node_depth as nat),
        ensures
            parsed_tree(r) == parse_tokens(self.lex_tokens@, node_depth as nat),
    {
        if self.lex_tokens.len() == 0 {
            return Err(ParseError::EmptyInput);
        }
        match self.parse_expr(0, node_depth) {
            Ok((expr_node, next)) => {
                if next < self.lex_tokens.len() {
                    Err(ParseError::TrailingInput(next))
                } else {
                    proof {
                        lemma_parse_rule_advances(
                            CfgTerm::NonTermExpr,
                            self.lex_tokens@,
                            0,
                            node_depth as nat,
                        );
                    }
                    Ok(expr_node)
                }
            },
            Err(e) => Err(e),
        }
    }

    /// The start rule of the grammar: parses all the tokens as one `Expr` and
    /// keeps it as the only child of a start node. On failure the parser
    /// keeps no tree.
    pub fn start_rule(&mut self) -> (r: Result<(), ParseError>)
        requires
            depth_fits(CfgTerm::NonTermExpr, old(self).lex_tokens@, 0, 1),
        ensures
            final(self).s == old(self).s,
            final(self).lex_tokens == old(self).lex_tokens,
            match parse_tokens(old(self).lex_tokens@, 1) {
                Ok(expr) => r is Ok && tree_of(final(self).parsed_node) == Some(start_tree(expr)),
                Err(e) => r == Err::<(), ParseError>(e) && final(self).parsed_node is None,
            },
    {
        match self.parse_all(1) {
            Ok(expr_node) => {
                let mut start_node = ParseNode::new(CfgTerm::NonTermStartRule, 0);
                start_node.add_child_node(expr_node);
                assert(start_node@.children =~= seq![expr_node@]);
                self.parsed_node = Some(start_node);
                Ok(())
            },
            Err(e) => {
                self.parsed_node = None;
                Err(e)
            },
        }
    }

    /// Parses the tokens that the parser holds: the start rule under the name
    /// that callers with tokens of their own know.
    pub fn parse(&mut self) -> (r: Result<(), ParseError>)
        requires
            depth_fits(CfgTerm::NonTermExpr, old(self).lex_tokens@, 0, 1),
        ensures
            final(self).s == old(self).s,
            final(self).lex_tokens == old(self).lex_tokens,
            match parse_tokens(old(self).lex_tokens@, 1) {
                Ok(expr) => r is Ok && tree_of(final(self).parsed_node) == Some(start_tree(expr)),
                Err(e) => r == Err::<(), ParseError>(e) && final(self).parsed_node is None,
            },
    {
        self.start_rule()
    }

    /// Tokenizes the text and parses its tokens by the start rule.
    ///
    /// If the text cannot be tokenized, the parser keeps the tokens it held
    /// and no tree. Else it holds the tokens of the text, and the tree if
    /// they parse.
    pub fn start(&mut self) -> (r: Result<(), MathError>)
        requires
            4 * old(self).s@.len() + 5 <= usize::MAX,
        ensures
            final(self).s == old(self).s,
            match tokenize(old(self).s@) {
                Err(e) => r == Err::<(), MathError>(MathError::Lex(e)) && final(self).lex_tokens
                    == old(self).lex_tokens && final(self).parsed_node is None,
                Ok(tokens) => final(self).lex_tokens@ == tokens && match parse_tokens(tokens, 1) {
                    Ok(expr) => r is Ok && tree_of(final(self).parsed_node) == Some(
                        start_tree(expr),
                    ),
                    Err(e) => r == Err::<(), MathError>(MathError::Parse(e))
                        && final(self).parsed_node is None,
                },
            },
    {
        match lexer(self.s.as_str()) {
            Err(e) => {
                self.parsed_node = None;
                Err(MathError::Lex(e))
            },
            Ok(tokens) => {
                proof {
                    lemma_tokens_within_text(self.s@, 0);
                }
                self.lex_tokens = tokens;
                match self.start_rule() {
                    Ok(()) => Ok(()),
                    Err(e) => Err(MathError::Parse(e)),
                }
            },
        }
    }
}

/// Parses a row of tokens: the tree of the `Expr` that takes all of them,
/// rooted at depth 0, or the first failure.
pub fn parse(tokens: &[LexToken]) -> (r: Result<ParseNode, ParseError>)
    requires
        depth_fits(CfgTerm::NonTermExpr, tokens@, 0, 0),
    ensures
        parsed_tree(r) == parse_tokens(tokens@, 0),
{
    let parser = MathParser::from_tokens(tokens);
    parser.parse_all(0)
}

} // verus!
