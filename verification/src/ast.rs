//! The data that the lexer and the parser exchange, and its mathematical model.

use vstd::prelude::*;

verus! {

/// The class of a token, and of the tree node built from it.
#[derive(Debug, Clone, Copy, PartialEq, Eq, Structural)]
pub enum TokenType {
    Identifier,
    BinaryOper,
    UnaryOper,
    OpenParen,
    CloseParen,
    FuncCall,
    ParamSplit,
    Numerical,
    StringVar,
    /// Marks the absence of a token: the start of a scan, or the end of the input.
    Null,
}

/// A lexical unit: its class, the characters it was built from, and the
/// character offsets `loc.0 .. loc.1` it stands at in the input.
#[derive(Debug)]
pub struct Token {
    pub typing: TokenType,
    pub value: String,
    pub loc: (usize, usize),
}

impl Clone for Token {
    fn clone(&self) -> (copy: Self)
        ensures
            copy == *self,
    {
        Token { typing: self.typing, value: self.value.clone(), loc: (self.loc.0, self.loc.1) }
    }
}

/// The mathematical value of a [`Token`].
pub ghost struct TokenView {
    pub kind: TokenType,
    pub text: Seq<char>,
    pub start: nat,
    pub end: nat,
}

impl TokenView {
    /// The value of the token that stands for "no token".
    pub open spec fn null() -> TokenView {
        TokenView { kind: TokenType::Null, text: Seq::empty(), start: 0, end: 0 }
    }
}

impl View for Token {
    type V = TokenView;

    open spec fn view(&self) -> TokenView {
        TokenView {
            kind: self.typing,
            text: self.value@,
            start: self.loc.0 as nat,
            end: self.loc.1 as nat,
        }
    }
}

/// The token queue: what the lexer found in `line`, handed out from the
/// front. `data` holds the queue back to front, so that its last element is
/// the next token.
pub struct Lexer {
    pub line: String,
    pub data: Vec<Token>,
}

/// A node of the syntax tree. Identifiers, numbers and string literals are
/// leaves; every other node lists its operands in `branch`.
#[derive(Debug)]
pub struct Node {
    pub typing: TokenType,
    pub value: String,
    pub branch: Vec<Node>,
}

/// The parser: it owns the token queue that it reads from.
pub struct Parser {
    pub lexer: Lexer,
}

/// The mathematical value of a [`Node`].
pub ghost struct NodeView {
    pub kind: TokenType,
    pub text: Seq<char>,
    pub children: Seq<NodeView>,
}

impl View for Node {
    type V = NodeView;

    open spec fn view(&self) -> NodeView
        decreases self,
    {
        NodeView { kind: self.typing, text: self.value@, children: views_of(self.branch@) }
    }
}

/// The values of a sequence of nodes, in order.
pub open spec fn views_of(nodes: Seq<Node>) -> Seq<NodeView>
    decreases nodes,
{
    if nodes.len() == 0 {
        Seq::empty()
    } else {
        views_of(nodes.drop_last()).push(nodes.last()@)
    }
}

/// `views_of` maps the nodes one by one.
pub proof fn lemma_views_of_index(nodes: Seq<Node>)
    ensures
        views_of(nodes).len() == nodes.len(),
        forall|i: int| 0 <= i < nodes.len() ==> (#[trigger] views_of(nodes)[i]) == nodes[i]@,
    decreases nodes.len(),
{
    reveal_with_fuel(views_of, 2);
    if nodes.len() > 0 {
        lemma_views_of_index(nodes.drop_last());
    }
}

/// Appending a node appends its value.
pub proof fn lemma_views_of_push(nodes: Seq<Node>, node: Node)
    ensures
        views_of(nodes.push(node)) == views_of(nodes).push(node@),
{
    assert(nodes.push(node).drop_last() =~= nodes);
}

impl Node {
    /// A separate tree with the same value.
    pub fn duplicate(&self) -> (copy: Node)
        ensures
            copy@ == self@,
        decreases self,
    {
        let mut branch: Vec<Node> = Vec::new();
        let mut i: usize = 0;
        while i < self.branch.len()
            invariant
                i <= self.branch.len(),
                views_of(branch@) == views_of(self.branch@.take(i as int)),
            decreases self.branch.len() - i,
        {
            let child = self.branch[i].duplicate();
            proof {
                lemma_views_of_push(branch@, child);
                lemma_views_of_push(self.branch@.take(i as int), self.branch@[i as int]);
                assert(self.branch@.take(i as int).push(self.branch@[i as int])
                    =~= self.branch@.take(i + 1));
            }
            branch.push(child);
            i += 1;
        }
        assert(self.branch@.take(i as int) =~= self.branch@);
        Node { typing: self.typing, value: self.value.clone(), branch }
    }
}

impl Clone for Node {
    fn clone(&self) -> (copy: Self)
        ensures
            copy@ == self@,
    {
        self.duplicate()
    }
}

} // verus!
