//! The parser: recursive descent over the token queue, one method per
//! precedence level, each computing the function of the same level in
//! [`crate::grammar`].

use vstd::prelude::*;
use crate::ast::{lemma_views_of_push, Lexer, Node, NodeView, Parser, Token, TokenType};
use crate::diagnostic::{locate, reports, ParseError};
use crate::grammar::{
    add_of, add_rest, args_of, assign_of, at_end, compare_of, compare_rest, infix_node, leaf,
    multi_of, multi_rest, parse_of, primary_of, skip_one, unary_of, Failure, ParseErrorKind,
    Parsed,
};
use crate::grammar_laws::lemma_levels_consume;
use crate::text::{is_char, is_pair};

verus! {

impl Node {
    /// The node of the token `tk`, without operands.
    pub fn new(tk: Token) -> (node: Node)
        ensures
            node@ == leaf(tk@),
    {
        Node { typing: tk.typing, value: tk.value, branch: Vec::new() }
    }

    /// Adds `n` as the last operand.
    pub fn push(&mut self, n: Node)
        ensures
            final(self)@ == (NodeView {
                kind: old(self)@.kind,
                text: old(self)@.text,
                children: old(self)@.children.push(n@),
            }),
    {
        proof {
            lemma_views_of_push(self.branch@, n);
        }
        self.branch.push(n);
    }
}

/// The call left the line alone and ended as `expected` says: with the tree
/// and the queue it names, or with the report of its failure.
pub open spec fn settled(
    before: Parser,
    after: Parser,
    result: Result<Node, ParseError>,
    expected: Parsed,
) -> bool {
    &&& after.lexer.line == before.lexer.line
    &&& match expected {
        Ok((node, rest)) => result matches Ok(built) && built@ == node && after.lexer@ == rest,
        Err(f) => result matches Err(e) && reports(e, f, before.lexer.line@.len()),
    }
}

/// A node with `op` at its head and the two operands below it.
fn join(op: Token, left: Node, right: Node) -> (node: Node)
    ensures
        node@ == infix_node(op@, left@, right@),
{
    let mut node = Node::new(op);
    node.push(left);
    node.push(right);
    assert(node@.children =~= seq![left@, right@]);
    node
}

fn is_compare(text: &str) -> (yes: bool)
    ensures
        yes == crate::grammar::is_compare_op(text@),
{
    is_char(text, '>') || is_pair(text, '>', '=') || is_pair(text, '=', '=') || is_char(text, '<')
        || is_pair(text, '<', '=') || is_pair(text, '!', '=')
}

fn is_additive(text: &str) -> (yes: bool)
    ensures
        yes == crate::grammar::is_add_op(text@),
{
    is_char(text, '+') || is_char(text, '-')
}

fn is_multiplicative(text: &str) -> (yes: bool)
    ensures
        yes == crate::grammar::is_multi_op(text@),
{
    is_char(text, '*') || is_char(text, '/') || is_char(text, '%')
}

impl Parser {
    /// A parser that reads from `lxr`.
    pub fn new(lxr: Lexer) -> (parser: Parser)
        ensures
            parser.lexer == lxr,
    {
        Parser { lexer: lxr }
    }

    /// Parses one expression from the front of the queue.
    ///
    /// On success the tree is that of [`parse_of`] and the queue holds what
    /// the expression did not use. On failure the error names the first rule
    /// that was broken and where.
    pub fn parse(&mut self) -> (result: Result<Node, ParseError>)
        ensures
            settled(*old(self), *final(self), result, parse_of(old(self).lexer@)),
        decreases old(self).lexer@.len(), 14nat,
    {
        self.assign()
    }

    /// The report of a failure of kind `kind` at the token `tk`.
    pub fn warn(&self, kind: ParseErrorKind, tk: &Token) -> (e: ParseError)
        ensures
            reports(e, Failure { kind: kind, token: tk@ }, self.lexer.line@.len()),
    {
        ParseError { kind, span: locate(tk, self.lexer.line.as_str()) }
    }

    /// The level of `=`.
    pub fn assign(&mut self) -> (result: Result<Node, ParseError>)
        ensures
            settled(*old(self), *final(self), result, assign_of(old(self).lexer@)),
        decreases old(self).lexer@.len(), 12nat,
    {
        proof {
            lemma_levels_consume(self.lexer@);
        }
        let left = match self.compare() {
            Ok(node) => node,
            Err(e) => {
                return Err(e);
            },
        };
        let ghost after = self.lexer@;
        match self.lexer.next() {
            Some(tk) => {
                if is_char(tk.value.as_str(), '=') {
                    if left.typing != TokenType::Identifier {
                        return Err(self.warn(ParseErrorKind::InvalidAssignTarget, &tk));
                    }
                    let right = match self.assign() {
                        Ok(node) => node,
                        Err(e) => {
                            return Err(e);
                        },
                    };
                    return Ok(join(tk, left, right));
                }
                self.lexer.push(tk);
                assert(self.lexer@ =~= after);
                Ok(left)
            },
            None => Ok(left),
        }
    }

    /// The level of the comparisons.
    pub fn compare(&mut self) -> (result: Result<Node, ParseError>)
        ensures
            settled(*old(self), *final(self), result, compare_of(old(self).lexer@)),
        decreases old(self).lexer@.len(), 11nat,
    {
        proof {
            lemma_levels_consume(self.lexer@);
        }
        let mut left = match self.add() {
            Ok(node) => node,
            Err(e) => {
                return Err(e);
            },
        };
        loop
            invariant
                self.lexer.line == old(self).lexer.line,
                self.lexer@.len() < old(self).lexer@.len(),
                compare_of(old(self).lexer@) == compare_rest(left@, self.lexer@),
            decreases self.lexer@.len(),
        {
            let ghost here = self.lexer@;
            match self.lexer.next() {
                Some(tk) => {
                    if is_compare(tk.value.as_str()) {
                        proof {
                            lemma_levels_consume(here.drop_first());
                        }
                        let right = match self.add() {
                            Ok(node) => node,
                            Err(e) => {
                                return Err(e);
                            },
                        };
                        left = join(tk, left, right);
                    } else {
                        self.lexer.push(tk);
                        assert(self.lexer@ =~= here);
                        return Ok(left);
                    }
                },
                None => {
                    return Ok(left);
                },
            }
        }
    }

    /// The level of `+` and `-`.
    pub fn add(&mut self) -> (result: Result<Node, ParseError>)
        ensures
            settled(*old(self), *final(self), result, add_of(old(self).lexer@)),
        decreases old(self).lexer@.len(), 9nat,
    {
        proof {
            lemma_levels_consume(self.lexer@);
        }
        let mut left = match self.multi() {
            Ok(node) => node,
            Err(e) => {
                return Err(e);
            },
        };
        loop
            invariant
                self.lexer.line == old(self).lexer.line,
                self.lexer@.len() < old(self).lexer@.len(),
                add_of(old(self).lexer@) == add_rest(left@, self.lexer@),
            decreases self.lexer@.len(),
        {
            let ghost here = self.lexer@;
            match self.lexer.next() {
                Some(tk) => {
                    if is_additive(tk.value.as_str()) {
                        proof {
                            lemma_levels_consume(here.drop_first());
                        }
                        let right = match self.multi() {
                            Ok(node) => node,
                            Err(e) => {
                                return Err(e);
                            },
                        };
                        left = join(tk, left, right);
                    } else {
                        self.lexer.push(tk);
                        assert(self.lexer@ =~= here);
                        return Ok(left);
                    }
                },
                None => {
                    return Ok(left);
                },
            }
        }
    }

    /// The level of `*`, `/` and `%`.
    pub fn multi(&mut self) -> (result: Result<Node, ParseError>)
        ensures
            settled(*old(self), *final(self), result, multi_of(old(self).lexer@)),
        decreases old(self).lexer@.len(), 7nat,
    {
        proof {
            lemma_levels_consume(self.lexer@);
        }
        let mut left = match self.unary() {
            Ok(node) => node,
            Err(e) => {
                return Err(e);
            },
        };
        loop
            invariant
                self.lexer.line == old(self).lexer.line,
                self.lexer@.len() < old(self).lexer@.len(),
                multi_of(old(self).lexer@) == multi_rest(left@, self.lexer@),
            decreases self.lexer@.len(),
        {
            let ghost here = self.lexer@;
            match self.lexer.next() {
                Some(tk) => {
                    if is_multiplicative(tk.value.as_str()) {
                        proof {
                            lemma_levels_consume(here.drop_first());
                        }
                        let right = match self.unary() {
                            Ok(node) => node,
                            Err(e) => {
                                return Err(e);
                            },
                        };
                        left = join(tk, left, right);
                    } else {
                        self.lexer.push(tk);
                        assert(self.lexer@ =~= here);
                        return Ok(left);
                    }
                },
                None => {
                    return Ok(left);
                },
            }
        }
    }

    /// The level of the prefix operators.
    pub fn unary(&mut self) -> (result: Result<Node, ParseError>)
        ensures
            settled(*old(self), *final(self), result, unary_of(old(self).lexer@)),
        decreases old(self).lexer@.len(), 5nat,
    {
        match self.lexer.next() {
            Some(tk) => {
                if tk.typing == TokenType::UnaryOper {
                    let operand = match self.unary() {
                        Ok(node) => node,
                        Err(e) => {
                            return Err(e);
                        },
                    };
                    let mut this = Node::new(tk);
                    this.push(operand);
                    assert(this@.children =~= seq![operand@]);
                    Ok(this)
                } else {
                    self.lexer.push(tk);
                    assert(self.lexer@ =~= old(self).lexer@);
                    self.primary()
                }
            },
            None => Err(self.warn(ParseErrorKind::UnexpectedEnd, &Token::null())),
        }
    }

    /// Reads the arguments of a call up to its closing parenthesis and adds
    /// them to `node`, which holds the name and the arguments read before.
    /// Where the input ends first, the failure is reported just past the line.
    pub fn arguments(&mut self, node: Node) -> (result: Result<Node, ParseError>)
        ensures
            final(self).lexer.line == old(self).lexer.line,
            match args_of(node@.children, old(self).lexer@) {
                Ok((args, rest)) => result matches Ok(built) && built@ == (NodeView {
                    kind: node@.kind,
                    text: node@.text,
                    children: args,
                }) && final(self).lexer@ == rest,
                Err(f) => result matches Err(e) && reports(e, f, old(self).lexer.line@.len()),
            },
        decreases old(self).lexer@.len(), 15nat,
    {
        let ghost here = self.lexer@;
        let tk = match self.lexer.next() {
            Some(tk) => tk,
            None => {
                return Err(self.warn(ParseErrorKind::UnterminatedCall, &Token::null()));
            },
        };
        if tk.typing == TokenType::CloseParen {
            return Ok(node);
        }
        if tk.typing == TokenType::ParamSplit {
            return self.arguments(node);
        }
        self.lexer.push(tk);
        proof {
            assert(self.lexer@ =~= here);
            lemma_levels_consume(here);
        }
        let arg = match self.parse() {
            Ok(arg) => arg,
            Err(e) => {
                return Err(e);
            },
        };
        let mut node = node;
        node.push(arg);
        self.arguments(node)
    }

    /// A leaf, a parenthesized expression, or a call with its arguments.
    pub fn primary(&mut self) -> (result: Result<Node, ParseError>)
        ensures
            settled(*old(self), *final(self), result, primary_of(old(self).lexer@)),
        decreases old(self).lexer@.len(), 4nat,
    {
        let tk = match self.lexer.next() {
            Some(tk) => tk,
            None => {
                return Err(self.warn(ParseErrorKind::UnexpectedEnd, &Token::null()));
            },
        };
        match tk.typing {
            TokenType::Identifier | TokenType::Numerical | TokenType::StringVar => Ok(
                Node::new(tk),
            ),
            TokenType::OpenParen => {
                let node = match self.parse() {
                    Ok(node) => node,
                    Err(e) => {
                        return Err(e);
                    },
                };
                let _ = self.lexer.next();
                Ok(node)
            },
            TokenType::FuncCall => {
                let node = Node::new(tk);
                let _ = self.lexer.next();
                self.arguments(node)
            },
            _ => Err(self.warn(ParseErrorKind::UnexpectedToken, &tk)),
        }
    }
}

} // verus!
