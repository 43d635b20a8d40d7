//! The parser: whole trees, the depth of their nodes, and each failure.

use math_parser::cfg::mathparser::{parse, MathError, MathParser};
use math_parser::cfg::{CfgTerm, ParseError, ParseNode};
use math_parser::lex::simple::{lexer, LexError, LexToken};

/// A node with the given children.
fn node(symbol: CfgTerm, depth: usize, children: Vec<ParseNode>) -> ParseNode {
    let mut made = ParseNode::new(symbol, depth);
    for child in children {
        made.add_child_node(child);
    }
    made
}

/// The chain of `MultiDivExpr`, `DivExpr` and number that a lone number makes,
/// with the `MultiDivExpr` at the given depth.
fn number_chain(n: u32, depth: usize) -> ParseNode {
    node(
        CfgTerm::NonTermMultiDivExpr,
        depth,
        vec![node(
            CfgTerm::NonTermDivExpr,
            depth + 1,
            vec![node(CfgTerm::TermNumber(n), depth + 2, vec![])],
        )],
    )
}

/// The tree of a text, rooted at an `Expr` at depth 0.
fn tree(text: &str) -> Result<ParseNode, ParseError> {
    parse(&lexer(text).unwrap())
}

/// Whether two trees have the same symbols in the same places, whatever the
/// depth at which they stand.
fn same_shape(a: &ParseNode, b: &ParseNode) -> bool {
    a.current_node == b.current_node
        && a.child_nodes.len() == b.child_nodes.len()
        && a.child_nodes
            .iter()
            .zip(b.child_nodes.iter())
            .all(|(x, y)| same_shape(x, y))
}

/// The terminal symbols of a tree, read left to right.
fn terminals(tree: &ParseNode, into: &mut Vec<CfgTerm>) {
    if tree.child_nodes.is_empty() {
        into.push(tree.current_node);
    }
    for child in &tree.child_nodes {
        terminals(child, into);
    }
}

/// The terminal symbol of a token.
fn terminal_of(token: &LexToken) -> CfgTerm {
    match token {
        LexToken::Num(n) => CfgTerm::TermNumber(*n),
        LexToken::Add(_) => CfgTerm::TermPlus,
        LexToken::Subtract(_) => CfgTerm::TermMinus,
        LexToken::Multi(_) => CfgTerm::TermMultiply,
        LexToken::Div(_) => CfgTerm::TermDivide,
        LexToken::LeftParen(_) => CfgTerm::TermLeftParens,
        LexToken::RightParen(_) => CfgTerm::TermRightParens,
    }
}

#[test]
fn a_new_node_has_no_children() {
    let made = ParseNode::new(CfgTerm::TermNumber(5), 3);
    assert_eq!(made.current_node, CfgTerm::TermNumber(5));
    assert_eq!(made.node_depth, 3);
    assert!(made.child_nodes.is_empty());
}

#[test]
fn children_are_kept_in_the_order_they_were_added() {
    let mut made = ParseNode::new(CfgTerm::NonTermExpr, 0);
    made.add_child_node(ParseNode::new(CfgTerm::TermNumber(1), 1));
    made.add_child_node(ParseNode::new(CfgTerm::TermPlus, 1));
    made.add_child_node(ParseNode::new(CfgTerm::TermNumber(2), 1));
    assert_eq!(made.child_nodes.len(), 3);
    assert_eq!(made.child_nodes[0].current_node, CfgTerm::TermNumber(1));
    assert_eq!(made.child_nodes[1].current_node, CfgTerm::TermPlus);
    assert_eq!(made.child_nodes[2].current_node, CfgTerm::TermNumber(2));
    assert_eq!(made.current_node, CfgTerm::NonTermExpr);
    assert_eq!(made.node_depth, 0);
}

#[test]
fn a_lone_number_is_a_chain_of_single_children() {
    assert_eq!(
        tree("3"),
        Ok(node(CfgTerm::NonTermExpr, 0, vec![number_chain(3, 1)]))
    );
}

#[test]
fn multiplication_binds_tighter_than_addition() {
    let product = node(
        CfgTerm::NonTermMultiDivExpr,
        2,
        vec![
            node(
                CfgTerm::NonTermDivExpr,
                3,
                vec![node(CfgTerm::TermNumber(3), 4, vec![])],
            ),
            node(CfgTerm::TermMultiply, 3, vec![]),
            number_chain(4, 3),
        ],
    );
    let expected = node(
        CfgTerm::NonTermExpr,
        0,
        vec![
            number_chain(2, 1),
            node(CfgTerm::TermPlus, 1, vec![]),
            node(CfgTerm::NonTermExpr, 1, vec![product]),
        ],
    );
    assert_eq!(tree("2 + 3 * 4"), Ok(expected));
}

#[test]
fn a_chain_of_additions_nests_to_the_right() {
    let expected = node(
        CfgTerm::NonTermExpr,
        0,
        vec![
            number_chain(1, 1),
            node(CfgTerm::TermPlus, 1, vec![]),
            node(
                CfgTerm::NonTermExpr,
                1,
                vec![
                    number_chain(2, 2),
                    node(CfgTerm::TermPlus, 2, vec![]),
                    node(CfgTerm::NonTermExpr, 2, vec![number_chain(3, 3)]),
                ],
            ),
        ],
    );
    assert_eq!(tree("1+2+3"), Ok(expected));
}

#[test]
fn subtraction_chains_like_addition() {
    let root = tree("7-2-1").unwrap();
    assert_eq!(root.child_nodes.len(), 3);
    assert_eq!(root.child_nodes[1].current_node, CfgTerm::TermMinus);
    let rest = &root.child_nodes[2];
    assert_eq!(rest.current_node, CfgTerm::NonTermExpr);
    assert_eq!(rest.child_nodes.len(), 3);
    assert_eq!(rest.child_nodes[1].current_node, CfgTerm::TermMinus);
    assert_eq!(rest.child_nodes[2].child_nodes.len(), 1);
}

#[test]
fn division_binds_tighter_than_multiplication() {
    let quotient = node(
        CfgTerm::NonTermDivExpr,
        2,
        vec![
            node(CfgTerm::TermNumber(1), 3, vec![]),
            node(CfgTerm::TermDivide, 3, vec![]),
            node(
                CfgTerm::NonTermDivExpr,
                3,
                vec![node(CfgTerm::TermNumber(2), 4, vec![])],
            ),
        ],
    );
    let expected = node(
        CfgTerm::NonTermExpr,
        0,
        vec![node(
            CfgTerm::NonTermMultiDivExpr,
            1,
            vec![
                quotient,
                node(CfgTerm::TermMultiply, 2, vec![]),
                number_chain(3, 2),
            ],
        )],
    );
    assert_eq!(tree("1/2*3"), Ok(expected));
}

#[test]
fn parentheses_wrap_an_expression_in_a_term() {
    let root = tree("(2/3)+4").unwrap();
    assert_eq!(root.current_node, CfgTerm::NonTermExpr);
    assert_eq!(root.child_nodes.len(), 3);
    assert_eq!(root.child_nodes[1].current_node, CfgTerm::TermPlus);
    let left = &root.child_nodes[0];
    assert_eq!(left.current_node, CfgTerm::NonTermMultiDivExpr);
    assert_eq!(left.child_nodes.len(), 1);
    let div = &left.child_nodes[0];
    assert_eq!(div.current_node, CfgTerm::NonTermDivExpr);
    assert_eq!(div.child_nodes.len(), 1);
    let term = &div.child_nodes[0];
    assert_eq!(term.current_node, CfgTerm::NonTermTermExpr);
    assert_eq!(term.node_depth, 3);
    assert_eq!(term.child_nodes.len(), 3);
    assert_eq!(
        term.child_nodes[0],
        node(CfgTerm::TermLeftParens, 4, vec![])
    );
    assert_eq!(
        term.child_nodes[2],
        node(CfgTerm::TermRightParens, 4, vec![])
    );
    let wrapped = &term.child_nodes[1];
    assert_eq!(wrapped.current_node, CfgTerm::NonTermExpr);
    assert_eq!(wrapped.node_depth, 4);
    let alone = tree("2/3").unwrap();
    assert!(same_shape(wrapped, &alone));
    assert_eq!(alone.child_nodes.len(), 1);
    assert_eq!(alone.child_nodes[0].child_nodes[0].child_nodes.len(), 3);
}

#[test]
fn nested_parentheses_nest_terms() {
    let root = tree("((7))").unwrap();
    let outer = &root.child_nodes[0].child_nodes[0].child_nodes[0];
    assert_eq!(outer.current_node, CfgTerm::NonTermTermExpr);
    let inner = &outer.child_nodes[1].child_nodes[0].child_nodes[0].child_nodes[0];
    assert_eq!(inner.current_node, CfgTerm::NonTermTermExpr);
    assert_eq!(inner.node_depth, 7);
    assert_eq!(
        inner.child_nodes[1],
        node(CfgTerm::NonTermExpr, 8, vec![number_chain(7, 9)])
    );
}

#[test]
fn the_terminals_of_a_tree_are_its_tokens() {
    for text in ["3", "2 + 3 * 4", "1+2+3", "(2/3)+4", "((1-2)*(3/4))/5", "10*(20+30)-40"] {
        let tokens = lexer(text).unwrap();
        let root = parse(&tokens).unwrap();
        let mut read = Vec::new();
        terminals(&root, &mut read);
        let expected: Vec<CfgTerm> = tokens.iter().map(terminal_of).collect();
        assert_eq!(read, expected);
    }
}

#[test]
fn the_numbers_of_a_tree_are_those_of_the_text() {
    let root = tree("12 + (345 * 6) / 7890").unwrap();
    let mut read = Vec::new();
    terminals(&root, &mut read);
    let numbers: Vec<u32> = read
        .iter()
        .filter_map(|symbol| match symbol {
            CfgTerm::TermNumber(n) => Some(*n),
            _ => None,
        })
        .collect();
    assert_eq!(numbers, vec![12, 345, 6, 7890]);
}

#[test]
fn a_child_stands_one_deeper_than_its_parent() {
    fn check(tree: &ParseNode) {
        for child in &tree.child_nodes {
            assert_eq!(child.node_depth, tree.node_depth + 1);
            check(child);
        }
    }
    let root = tree("(1+2)*3/(4-5)").unwrap();
    assert_eq!(root.node_depth, 0);
    check(&root);
}

#[test]
fn the_operator_token_decides_not_its_character() {
    let tokens = [LexToken::Num(1), LexToken::Add('?'), LexToken::Num(2)];
    assert_eq!(parse(&tokens), tree("1+2"));
}

#[test]
fn no_tokens_fail_as_empty_input() {
    assert_eq!(parse(&[]), Err(ParseError::EmptyInput));
    assert_eq!(tree("  "), Err(ParseError::EmptyInput));
}

#[test]
fn an_open_parenthesis_without_its_partner_fails() {
    assert_eq!(tree("(2+3"), Err(ParseError::UnmatchedParen(0)));
    assert_eq!(tree("1+(2*(3)"), Err(ParseError::UnmatchedParen(2)));
    assert_eq!(tree("((1)"), Err(ParseError::UnmatchedParen(0)));
}

#[test]
fn a_dangling_operator_fails_at_the_missing_term() {
    let at_end = ParseError::UnexpectedToken(CfgTerm::NonTermTermExpr, None);
    assert_eq!(tree("2+"), Err(at_end));
    assert_eq!(tree("2*"), Err(at_end));
    assert_eq!(tree("2/"), Err(at_end));
    assert_eq!(tree("2-"), Err(at_end));
    assert_eq!(tree("("), Err(at_end));
}

#[test]
fn a_term_cannot_start_with_an_operator_or_a_closing_parenthesis() {
    assert_eq!(
        tree("+2"),
        Err(ParseError::UnexpectedToken(
            CfgTerm::NonTermTermExpr,
            Some(LexToken::Add('+'))
        ))
    );
    assert_eq!(
        tree("2**3"),
        Err(ParseError::UnexpectedToken(
            CfgTerm::NonTermTermExpr,
            Some(LexToken::Multi('*'))
        ))
    );
    assert_eq!(
        tree("()"),
        Err(ParseError::UnexpectedToken(
            CfgTerm::NonTermTermExpr,
            Some(LexToken::RightParen(')'))
        ))
    );
    assert_eq!(
        tree("1-/2"),
        Err(ParseError::UnexpectedToken(
            CfgTerm::NonTermTermExpr,
            Some(LexToken::Div('/'))
        ))
    );
}

#[test]
fn two_operands_without_an_operator_fail() {
    assert_eq!(
        tree("2 3"),
        Err(ParseError::ExpectedOperator(
            CfgTerm::NonTermDivExpr,
            LexToken::Num(3)
        ))
    );
    assert_eq!(
        tree("2 (3)"),
        Err(ParseError::ExpectedOperator(
            CfgTerm::NonTermDivExpr,
            LexToken::LeftParen('(')
        ))
    );
    assert_eq!(
        tree("(1 2)"),
        Err(ParseError::ExpectedOperator(
            CfgTerm::NonTermDivExpr,
            LexToken::Num(2)
        ))
    );
    assert_eq!(
        tree("(1)(2)"),
        Err(ParseError::ExpectedOperator(
            CfgTerm::NonTermDivExpr,
            LexToken::LeftParen('(')
        ))
    );
}

#[test]
fn tokens_after_a_whole_expression_fail_as_trailing_input() {
    assert_eq!(tree("2)"), Err(ParseError::TrailingInput(1)));
    assert_eq!(tree("(1))"), Err(ParseError::TrailingInput(3)));
    assert_eq!(tree("1+2)+3"), Err(ParseError::TrailingInput(3)));
}

#[test]
fn the_first_failure_wins() {
    assert_eq!(tree("(1 2"), Err(ParseError::ExpectedOperator(
        CfgTerm::NonTermDivExpr,
        LexToken::Num(2)
    )));
    assert_eq!(
        tree("(+"),
        Err(ParseError::UnexpectedToken(
            CfgTerm::NonTermTermExpr,
            Some(LexToken::Add('+'))
        ))
    );
}

#[test]
fn peek_reads_without_consuming() {
    let tokens = lexer("1+2").unwrap();
    let parser = MathParser::from_tokens(&tokens);
    assert_eq!(parser.peek(0), Some(LexToken::Num(1)));
    assert_eq!(parser.peek(1), Some(LexToken::Add('+')));
    assert_eq!(parser.peek(1), Some(LexToken::Add('+')));
    assert_eq!(parser.peek(2), Some(LexToken::Num(2)));
    assert_eq!(parser.peek(3), None);
    assert_eq!(parser.peek(usize::MAX), None);
}

#[test]
fn a_new_parser_has_no_tokens_and_no_tree() {
    let parser = MathParser::new(String::from("1+2"));
    assert_eq!(parser.s, "1+2");
    assert!(parser.lex_tokens.is_empty());
    assert!(parser.parsed_node.is_none());
}

#[test]
fn a_parser_from_tokens_holds_them() {
    let tokens = lexer("(1)").unwrap();
    let parser = MathParser::from_tokens(&tokens);
    assert_eq!(parser.s, "");
    assert_eq!(parser.lex_tokens, tokens);
    assert!(parser.parsed_node.is_none());
}

#[test]
fn start_puts_the_expression_under_a_start_node() {
    let mut parser = MathParser::new(String::from("2 + 3 * 4"));
    assert_eq!(parser.start(), Ok(()));
    assert_eq!(parser.lex_tokens, lexer("2 + 3 * 4").unwrap());
    let root = parser.parsed_node.unwrap();
    assert_eq!(root.current_node, CfgTerm::NonTermStartRule);
    assert_eq!(root.node_depth, 0);
    assert_eq!(root.child_nodes.len(), 1);
    let expr = &root.child_nodes[0];
    assert_eq!(expr.node_depth, 1);
    assert!(same_shape(expr, &tree("2 + 3 * 4").unwrap()));
    assert_eq!(
        expr.child_nodes[0],
        number_chain(2, 2)
    );
}

#[test]
fn start_rule_and_parse_do_the_same() {
    let tokens = lexer("(2 / 3) / ( 3 / 4)").unwrap();
    let mut first = MathParser::from_tokens(&tokens);
    let mut second = MathParser::from_tokens(&tokens);
    assert_eq!(first.start_rule(), Ok(()));
    assert_eq!(second.parse(), Ok(()));
    assert!(first.parsed_node.is_some());
    assert_eq!(first.parsed_node, second.parsed_node);
}

#[test]
fn start_reports_a_text_that_cannot_be_tokenized() {
    let mut parser = MathParser::new(String::from("2 + x"));
    assert_eq!(
        parser.start(),
        Err(MathError::Lex(LexError::UnexpectedChar('x', 4)))
    );
    assert!(parser.lex_tokens.is_empty());
    assert!(parser.parsed_node.is_none());
}

#[test]
fn start_reports_tokens_that_cannot_be_parsed() {
    let mut parser = MathParser::new(String::from("(2+3"));
    assert_eq!(
        parser.start(),
        Err(MathError::Parse(ParseError::UnmatchedParen(0)))
    );
    assert_eq!(parser.lex_tokens, lexer("(2+3").unwrap());
    assert!(parser.parsed_node.is_none());
    let mut empty = MathParser::new(String::new());
    assert_eq!(empty.start(), Err(MathError::Parse(ParseError::EmptyInput)));
}

#[test]
fn a_failed_parse_keeps_no_tree() {
    let good = lexer("1+2").unwrap();
    let mut parser = MathParser::from_tokens(&good);
    assert_eq!(parser.parse(), Ok(()));
    assert!(parser.parsed_node.is_some());
    parser.lex_tokens = lexer("1+").unwrap();
    assert_eq!(
        parser.parse(),
        Err(ParseError::UnexpectedToken(CfgTerm::NonTermTermExpr, None))
    );
    assert!(parser.parsed_node.is_none());
}

#[test]
fn symbols_have_their_texts() {
    assert_eq!(CfgTerm::NonTermStartRule.to_text(), "NonTermStartRule::");
    assert_eq!(CfgTerm::NonTermExpr.to_text(), "NonTermExpr::");
    assert_eq!(CfgTerm::NonTermMultiDivExpr.to_text(), "NonTermMultiDiv::");
    assert_eq!(CfgTerm::NonTermDivExpr.to_text(), "NonTermDiv::");
    assert_eq!(CfgTerm::NonTermTermExpr.to_text(), "NonTermTerm::");
    assert_eq!(CfgTerm::TermDivide.to_text(), "Term('/')");
    assert_eq!(CfgTerm::TermMultiply.to_text(), "Term('*')");
    assert_eq!(CfgTerm::TermPlus.to_text(), "Term('+')");
    assert_eq!(CfgTerm::TermMinus.to_text(), "Term('-')");
    assert_eq!(CfgTerm::TermLeftParens.to_text(), "Term('(')");
    assert_eq!(CfgTerm::TermRightParens.to_text(), "Term(')')");
    assert_eq!(CfgTerm::TermNumber(0).to_text(), "Term(0)");
    assert_eq!(CfgTerm::TermNumber(7).to_text(), "Term(7)");
    assert_eq!(CfgTerm::TermNumber(10).to_text(), "Term(10)");
    assert_eq!(CfgTerm::TermNumber(4294967295).to_text(), "Term(4294967295)");
}

#[test]
fn a_leaf_is_one_line() {
    assert_eq!(
        ParseNode::new(CfgTerm::TermNumber(42), 0).to_text(),
        " +[Term(42)](child count=0) "
    );
    assert_eq!(
        ParseNode::new(CfgTerm::TermPlus, 3).to_text(),
        "    +[Term('+')](child count=0) "
    );
}

#[test]
fn a_tree_is_listed_line_by_line() {
    let mut parser = MathParser::new(String::from("2 + 3"));
    assert_eq!(parser.start(), Ok(()));
    let expected = [
        " +[NonTermStartRule::](child count=1) ",
        "  +[NonTermExpr::](child count=3) ",
        "   +[NonTermMultiDiv::](child count=1) ",
        "    +[NonTermDiv::](child count=1) ",
        "     +[Term(2)](child count=0) ",
        "   +[Term('+')](child count=0) ",
        "   +[NonTermExpr::](child count=1) ",
        "    +[NonTermMultiDiv::](child count=1) ",
        "     +[NonTermDiv::](child count=1) ",
        "      +[Term(3)](child count=0) ",
    ]
    .join("\n");
    assert_eq!(parser.parsed_node.unwrap().to_text(), expected);
}

#[test]
fn a_node_with_many_children_counts_them_in_decimal() {
    let mut made = ParseNode::new(CfgTerm::NonTermExpr, 0);
    for n in 0..12 {
        made.add_child_node(ParseNode::new(CfgTerm::TermNumber(n), 1));
    }
    let text = made.to_text();
    assert!(text.starts_with(" +[NonTermExpr::](child count=12) \n  +[Term(0)](child count=0) \n"));
    assert!(text.ends_with("\n  +[Term(11)](child count=0) "));
    assert_eq!(text.lines().count(), 13);
}

#[test]
fn the_root_depth_shifts_every_node_alike() {
    fn deepened(tree: &ParseNode, by: usize) -> ParseNode {
        node(
            tree.current_node,
            tree.node_depth + by,
            tree.child_nodes.iter().map(|child| deepened(child, by)).collect(),
        )
    }
    for text in ["3", "2 + 3 * 4", "(2/3)+4", "((1-2)*(3/4))/5"] {
        let tokens = lexer(text).unwrap();
        let mut parser = MathParser::from_tokens(&tokens);
        assert_eq!(parser.parse(), Ok(()));
        let root = parser.parsed_node.unwrap();
        assert_eq!(root.child_nodes[0], deepened(&parse(&tokens).unwrap(), 1));
    }
}
