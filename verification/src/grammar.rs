//! The grammar as a function from token sequences to trees.
//!
//! Each precedence level is a function that takes the tokens still to be read
//! and gives the tree it builds together with the tokens it leaves, or the
//! failure it stops at. From loosest to tightest binding the levels are
//! [`assign_of`], [`compare_of`], [`add_of`], [`multi_of`], [`unary_of`] and
//! [`primary_of`]. The parser computes exactly these functions.

use vstd::prelude::*;
use crate::ast::{NodeView, TokenType, TokenView};

verus! {

/// Why a parse stopped.
#[derive(Debug, Clone, Copy, PartialEq, Eq, Structural)]
pub enum ParseErrorKind {
    /// A rule needed a token and none was left.
    UnexpectedEnd,
    /// The left side of `=` is not an identifier.
    InvalidAssignTarget,
    /// A token stands where an expression has to begin and cannot begin one.
    UnexpectedToken,
    /// The input ended inside the argument list of a call, before its
    /// closing parenthesis.
    UnterminatedCall,
}

/// A failed parse: the reason and the token it is reported at.
pub ghost struct Failure {
    pub kind: ParseErrorKind,
    pub token: TokenView,
}

/// The tree built and the tokens left over, or the failure.
pub type Parsed = Result<(NodeView, Seq<TokenView>), Failure>;

/// The arguments built and the tokens left over, or the failure.
pub type ParsedArgs = Result<(Seq<NodeView>, Seq<TokenView>), Failure>;

pub open spec fn leaf(tk: TokenView) -> NodeView {
    NodeView { kind: tk.kind, text: tk.text, children: Seq::empty() }
}

pub open spec fn prefix_node(op: TokenView, operand: NodeView) -> NodeView {
    NodeView { kind: op.kind, text: op.text, children: seq![operand] }
}

pub open spec fn infix_node(op: TokenView, left: NodeView, right: NodeView) -> NodeView {
    NodeView { kind: op.kind, text: op.text, children: seq![left, right] }
}

pub open spec fn call_node(name: TokenView, args: Seq<NodeView>) -> NodeView {
    NodeView { kind: name.kind, text: name.text, children: args }
}

pub open spec fn is_assign_op(text: Seq<char>) -> bool {
    text == seq!['=']
}

pub open spec fn is_compare_op(text: Seq<char>) -> bool {
    text == seq!['>'] || text == seq!['>', '='] || text == seq!['=', '='] || text == seq!['<']
        || text == seq!['<', '='] || text == seq!['!', '=']
}

pub open spec fn is_add_op(text: Seq<char>) -> bool {
    text == seq!['+'] || text == seq!['-']
}

pub open spec fn is_multi_op(text: Seq<char>) -> bool {
    text == seq!['*'] || text == seq!['/'] || text == seq!['%']
}

pub open spec fn is_leaf_kind(kind: TokenType) -> bool {
    kind == TokenType::Identifier || kind == TokenType::Numerical || kind == TokenType::StringVar
}

/// The failure of a rule that found no token to read.
pub open spec fn at_end() -> Failure {
    Failure { kind: ParseErrorKind::UnexpectedEnd, token: TokenView::null() }
}

/// `left`, cut to the length of `from` where it is longer. What a rule
/// leaves is never longer than what it was given ([`lemma_levels_consume`]),
/// so this changes nothing; it is written where a rule goes on with what
/// another rule left, and makes plain that the rules terminate.
pub open spec fn no_longer(left: Seq<TokenView>, from: Seq<TokenView>) -> Seq<TokenView> {
    if left.len() <= from.len() {
        left
    } else {
        from
    }
}

/// The whole grammar: an assignment expression.
pub open spec fn parse_of(s: Seq<TokenView>) -> Parsed {
    assign_of(s)
}

/// `compare`, then, if `=` follows, the assignment on its right. The left
/// side of `=` has to be an identifier. Groups to the right.
pub open spec fn assign_of(s: Seq<TokenView>) -> Parsed
    decreases s.len(), 12nat,
{
    match compare_of(s) {
        Err(f) => Err(f),
        Ok((left, after)) => {
            let after = no_longer(after, s);
            if after.len() > 0 && is_assign_op(after[0].text) {
                if left.kind != TokenType::Identifier {
                    Err(Failure { kind: ParseErrorKind::InvalidAssignTarget, token: after[0] })
                } else {
                    match assign_of(after.drop_first()) {
                        Err(f) => Err(f),
                        Ok((right, rest)) => Ok((infix_node(after[0], left, right), rest)),
                    }
                }
            } else {
                Ok((left, after))
            }
        },
    }
}

/// `add`, then any number of comparisons against further `add` terms.
pub open spec fn compare_of(s: Seq<TokenView>) -> Parsed
    decreases s.len(), 11nat,
{
    match add_of(s) {
        Err(f) => Err(f),
        Ok((left, after)) => compare_rest(left, no_longer(after, s)),
    }
}

/// The comparisons that follow the operand `left`, grouped to the left.
pub open spec fn compare_rest(left: NodeView, s: Seq<TokenView>) -> Parsed
    decreases s.len(), 10nat,
{
    if s.len() > 0 && is_compare_op(s[0].text) {
        match add_of(s.drop_first()) {
            Err(f) => Err(f),
            Ok((right, after)) => compare_rest(
                infix_node(s[0], left, right),
                no_longer(after, s.drop_first()),
            ),
        }
    } else {
        Ok((left, s))
    }
}

/// `multi`, then any number of `+` or `-` against further `multi` terms.
pub open spec fn add_of(s: Seq<TokenView>) -> Parsed
    decreases s.len(), 9nat,
{
    match multi_of(s) {
        Err(f) => Err(f),
        Ok((left, after)) => add_rest(left, no_longer(after, s)),
    }
}

/// The sums and differences that follow the operand `left`, grouped to the left.
pub open spec fn add_rest(left: NodeView, s: Seq<TokenView>) -> Parsed
    decreases s.len(), 8nat,
{
    if s.len() > 0 && is_add_op(s[0].text) {
        match multi_of(s.drop_first()) {
            Err(f) => Err(f),
            Ok((right, after)) => add_rest(
                infix_node(s[0], left, right),
                no_longer(after, s.drop_first()),
            ),
        }
    } else {
        Ok((left, s))
    }
}

/// `unary`, then any number of `*`, `/` or `%` against further `unary` terms.
pub open spec fn multi_of(s: Seq<TokenView>) -> Parsed
    decreases s.len(), 7nat,
{
    match unary_of(s) {
        Err(f) => Err(f),
        Ok((left, after)) => multi_rest(left, no_longer(after, s)),
    }
}

/// The products that follow the operand `left`, grouped to the left.
pub open spec fn multi_rest(left: NodeView, s: Seq<TokenView>) -> Parsed
    decreases s.len(), 6nat,
{
    if s.len() > 0 && is_multi_op(s[0].text) {
        match unary_of(s.drop_first()) {
            Err(f) => Err(f),
            Ok((right, after)) => multi_rest(
                infix_node(s[0], left, right),
                no_longer(after, s.drop_first()),
            ),
        }
    } else {
        Ok((left, s))
    }
}

/// A prefix operator applied to a `unary`, or else a `primary`.
pub open spec fn unary_of(s: Seq<TokenView>) -> Parsed
    decreases s.len(), 5nat,
{
    if s.len() == 0 {
        Err(at_end())
    } else if s[0].kind == TokenType::UnaryOper {
        match unary_of(s.drop_first()) {
            Err(f) => Err(f),
            Ok((operand, rest)) => Ok((prefix_node(s[0], operand), rest)),
        }
    } else {
        primary_of(s)
    }
}

/// A leaf, a parenthesized expression, or a call.
///
/// After a parenthesized expression one more token is dropped, whatever it
/// is, and none where the input has ended. After the name of a call one
/// token is dropped in the same way before the arguments are read.
pub open spec fn primary_of(s: Seq<TokenView>) -> Parsed
    decreases s.len(), 4nat,
{
    if s.len() == 0 {
        Err(at_end())
    } else if is_leaf_kind(s[0].kind) {
        Ok((leaf(s[0]), s.drop_first()))
    } else if s[0].kind == TokenType::OpenParen {
        match assign_of(s.drop_first()) {
            Err(f) => Err(f),
            Ok((inner, after)) => Ok((inner, skip_one(after))),
        }
    } else if s[0].kind == TokenType::FuncCall {
        match args_of(Seq::empty(), skip_one(s.drop_first())) {
            Err(f) => Err(f),
            Ok((args, rest)) => Ok((call_node(s[0], args), rest)),
        }
    } else {
        Err(Failure { kind: ParseErrorKind::UnexpectedToken, token: s[0] })
    }
}

/// `s` without its first token, or `s` itself where it is empty.
pub open spec fn skip_one(s: Seq<TokenView>) -> Seq<TokenView> {
    if s.len() > 0 {
        s.drop_first()
    } else {
        s
    }
}

/// The arguments of a call that follow the arguments `so_far`, up to the
/// closing parenthesis. Commas are passed over wherever they stand. Where
/// the input ends before the closing parenthesis, the failure is reported
/// like every end of input: just past the line.
pub open spec fn args_of(so_far: Seq<NodeView>, s: Seq<TokenView>) -> ParsedArgs
    decreases s.len(), 13nat,
{
    if s.len() == 0 {
        Err(Failure { kind: ParseErrorKind::UnterminatedCall, token: TokenView::null() })
    } else if s[0].kind == TokenType::CloseParen {
        Ok((so_far, s.drop_first()))
    } else if s[0].kind == TokenType::ParamSplit {
        args_of(so_far, s.drop_first())
    } else {
        match assign_of(s) {
            Err(f) => Err(f),
            Ok((arg, after)) => args_of(so_far.push(arg), no_longer(after, s.drop_first())),
        }
    }
}

} // verus!
