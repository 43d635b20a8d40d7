//! The grammar's symbols, the parse tree, and the ways in which parsing fails.

pub mod grammar;
pub mod mathparser;

use crate::lex::simple::LexToken;
use crate::text::{decimal_text, push_char, push_decimal, push_spaces, spaces};
use vstd::prelude::*;

verus! {

/// A grammar symbol: a non-terminal, which expands into other symbols, or a
/// terminal, which stands for one token.
#[derive(Debug, PartialEq, Eq, Clone, Copy, Structural)]
pub enum CfgTerm {
    NonTermStartRule,
    NonTermExpr,
    NonTermMultiDivExpr,
    NonTermDivExpr,
    NonTermTermExpr,
    TermNumber(u32),
    TermDivide,
    TermMultiply,
    TermPlus,
    TermMinus,
    TermLeftParens,
    TermRightParens,
}

impl CfgTerm {
    /// The symbol as text: a non-terminal by its name, a terminal by what it
    /// stands for.
    pub open spec fn text(self) -> Seq<char> {
        match self {
            CfgTerm::NonTermStartRule => "NonTermStartRule::"@,
            CfgTerm::NonTermExpr => "NonTermExpr::"@,
            CfgTerm::NonTermMultiDivExpr => "NonTermMultiDiv::"@,
            CfgTerm::NonTermDivExpr => "NonTermDiv::"@,
            CfgTerm::NonTermTermExpr => "NonTermTerm::"@,
            CfgTerm::TermDivide => "Term('/')"@,
            CfgTerm::TermMultiply => "Term('*')"@,
            CfgTerm::TermPlus => "Term('+')"@,
            CfgTerm::TermMinus => "Term('-')"@,
            CfgTerm::TermNumber(n) => "Term("@ + decimal_text(n as nat) + ")"@,
            CfgTerm::TermLeftParens => "Term('(')"@,
            CfgTerm::TermRightParens => "Term(')')"@,
        }
    }

    /// The symbol as text.
    pub fn to_text(&self) -> (text: String)
        ensures
            text@ == self.text(),
    {
        match self {
            CfgTerm::NonTermStartRule => String::from_str("NonTermStartRule::"),
            CfgTerm::NonTermExpr => String::from_str("NonTermExpr::"),
            CfgTerm::NonTermMultiDivExpr => String::from_str("NonTermMultiDiv::"),
            CfgTerm::NonTermDivExpr => String::from_str("NonTermDiv::"),
            CfgTerm::NonTermTermExpr => String::from_str("NonTermTerm::"),
            CfgTerm::TermDivide => String::from_str("Term('/')"),
            CfgTerm::TermMultiply => String::from_str("Term('*')"),
            CfgTerm::TermPlus => String::from_str("Term('+')"),
            CfgTerm::TermMinus => String::from_str("Term('-')"),
            CfgTerm::TermNumber(n) => {
                let mut text = String::from_str("Term(");
                push_decimal(&mut text, *n as usize);
                text.append(")");
                text
            },
            CfgTerm::TermLeftParens => String::from_str("Term('(')"),
            CfgTerm::TermRightParens => String::from_str("Term(')')"),
        }
    }

    /// Whether the symbol stands for a token.
    pub open spec fn is_terminal(self) -> bool {
        match self {
            CfgTerm::TermNumber(_)
            | CfgTerm::TermDivide
            | CfgTerm::TermMultiply
            | CfgTerm::TermPlus
            | CfgTerm::TermMinus
            | CfgTerm::TermLeftParens
            | CfgTerm::TermRightParens => true,
            _ => false,
        }
    }
}

/// Why a row of tokens could not be parsed. Parsing stops at the first
/// failure.
#[derive(Debug, PartialEq, Eq, Clone, Copy)]
pub enum ParseError {
    /// The given rule needed a number or `(` and found the given token, or
    /// the end of the tokens.
    UnexpectedToken(CfgTerm, Option<LexToken>),
    /// The `(` at the given position has no `)` after the expression that
    /// follows it.
    UnmatchedParen(usize),
    /// After an operand, the given rule found the given token where only an
    /// operator, `)` or the end of the tokens may stand.
    ExpectedOperator(CfgTerm, LexToken),
    /// The tokens from the given position on follow a complete expression.
    TrailingInput(usize),
    /// There are no tokens.
    EmptyInput,
}

/// The mathematical parse tree: a symbol, the depth at which it stands, and
/// the subtrees in order.
pub struct ParseTree {
    pub symbol: CfgTerm,
    pub children: Seq<ParseTree>,
    pub depth: nat,
}

impl ParseTree {
    /// A tree without children.
    pub open spec fn leaf(symbol: CfgTerm, depth: nat) -> ParseTree {
        ParseTree { symbol, children: Seq::empty(), depth }
    }

    /// The same tree with every node `by` deeper.
    pub open spec fn deepened(self, by: nat) -> ParseTree
        decreases self, 1nat,
    {
        ParseTree {
            symbol: self.symbol,
            children: Self::deepened_rows(self.children, by),
            depth: self.depth + by,
        }
    }

    /// A row of trees, each with every node `by` deeper.
    pub open spec fn deepened_rows(trees: Seq<ParseTree>, by: nat) -> Seq<ParseTree>
        decreases trees, 0nat,
    {
        if trees.len() == 0 {
            Seq::empty()
        } else {
            Self::deepened_rows(trees.drop_last(), by).push(trees.last().deepened(by))
        }
    }

    /// The tree as an indented listing. A node is one line: one space more
    /// than its depth, its symbol in `+[` and `]`, the number of its
    /// children, and a space. The lines of its children follow in order.
    pub open spec fn text(self) -> Seq<char>
        decreases self, 1nat,
    {
        spaces(self.depth + 1) + "+["@ + self.symbol.text() + "](child count="@ + decimal_text(
            self.children.len(),
        ) + ") "@ + Self::text_of_rows(self.children)
    }

    /// The listings of a row of trees, each on a new line.
    pub open spec fn text_of_rows(trees: Seq<ParseTree>) -> Seq<char>
        decreases trees, 0nat,
    {
        if trees.len() == 0 {
            Seq::empty()
        } else {
            Self::text_of_rows(trees.drop_last()) + "\n"@ + trees.last().text()
        }
    }

    /// The terminal symbols of the tree, read left to right.
    pub open spec fn leaves(self) -> Seq<CfgTerm>
        decreases self, 1nat,
    {
        if self.symbol.is_terminal() {
            seq![self.symbol]
        } else {
            Self::leaves_of(self.children)
        }
    }

    /// The terminal symbols of a row of trees, read left to right.
    pub open spec fn leaves_of(trees: Seq<ParseTree>) -> Seq<CfgTerm>
        decreases trees, 0nat,
    {
        if trees.len() == 0 {
            Seq::empty()
        } else {
            Self::leaves_of(trees.drop_last()) + trees.last().leaves()
        }
    }
}

/// A node of the parse tree, which owns its children.
#[derive(Debug, PartialEq)]
pub struct ParseNode {
    pub current_node: CfgTerm,
    pub child_nodes: Vec<ParseNode>,
    pub node_depth: usize,
}

impl View for ParseNode {
    type V = ParseTree;

    open spec fn view(&self) -> ParseTree
        decreases self, 1nat,
    {
        ParseTree {
            symbol: self.current_node,
            children: views_of(self.child_nodes@),
            depth: self.node_depth as nat,
        }
    }
}

/// The trees of a row of nodes, in order.
pub open spec fn views_of(nodes: Seq<ParseNode>) -> Seq<ParseTree>
    decreases nodes, 0nat,
{
    if nodes.len() == 0 {
        Seq::empty()
    } else {
        views_of(nodes.drop_last()).push(nodes.last()@)
    }
}

/// `views_of` keeps the length and takes the view of each node in place.
pub proof fn lemma_views_of(nodes: Seq<ParseNode>)
    ensures
        views_of(nodes).len() == nodes.len(),
        forall|i: int| 0 <= i < nodes.len() ==> (#[trigger] views_of(nodes)[i]) == nodes[i]@,
    decreases nodes.len(),
{
    if nodes.len() > 0 {
        lemma_views_of(nodes.drop_last());
        assert(views_of(nodes) == views_of(nodes.drop_last()).push(nodes.last()@));
    }
}

impl ParseNode {
    /// A node without children.
    pub fn new(current_node: CfgTerm, node_depth: usize) -> (node: ParseNode)
        ensures
            node@ == ParseTree::leaf(current_node, node_depth as nat),
    {
        let node = ParseNode { current_node, child_nodes: Vec::new(), node_depth };
        assert(node@.children =~= Seq::empty());
        node
    }

    /// The tree as an indented listing, one line for each node.
    pub fn to_text(&self) -> (text: String)
        ensures
            text@ == self@.text(),
        decreases self,
    {
        let mut text = String::new();
        push_spaces(&mut text, self.node_depth);
        push_char(&mut text, ' ');
        assert(text@ =~= spaces((self.node_depth + 1) as nat));
        text.append("+[");
        let symbol = self.current_node.to_text();
        text.append(symbol.as_str());
        text.append("](child count=");
        push_decimal(&mut text, self.child_nodes.len());
        text.append(") ");
        let ghost head = text@;
        let ghost rows = self@.children;
        proof {
            lemma_views_of(self.child_nodes@);
            assert(rows.take(0) =~= Seq::<ParseTree>::empty());
            assert(text@ =~= head + ParseTree::text_of_rows(rows.take(0)));
        }
        let mut i: usize = 0;
        while i < self.child_nodes.len()
            invariant
                i <= self.child_nodes.len(),
                rows == self@.children,
                rows.len() == self.child_nodes@.len(),
                forall|k: int| 0 <= k < rows.len() ==> (#[trigger] rows[k]) == self.child_nodes@[k]@,
                text@ == head + ParseTree::text_of_rows(rows.take(i as int)),
            decreases self.child_nodes.len() - i,
        {
            text.append("\n");
            let child = self.child_nodes[i].to_text();
            text.append(child.as_str());
            proof {
                let before = rows.take(i as int);
                let now = rows.take(i as int + 1);
                assert(now.drop_last() =~= before);
                assert(now.last() == rows[i as int]);
                assert(ParseTree::text_of_rows(now) == ParseTree::text_of_rows(before) + "\n"@
                    + now.last().text());
                assert(text@ =~= head + ParseTree::text_of_rows(now));
            }
            i += 1;
        }
        assert(rows.take(i as int) =~= rows);
        text
    }

    /// Appends a child after the children that the node already has.
    pub fn add_child_node(&mut self, child_node: ParseNode)
        ensures
            final(self)@ == (ParseTree {
                children: old(self)@.children.push(child_node@),
                ..old(self)@
            }),
    {
        self.child_nodes.push(child_node);
        proof {
            assert(self.child_nodes@.drop_last() =~= old(self).child_nodes@);
        }
    }
}

} // verus!
