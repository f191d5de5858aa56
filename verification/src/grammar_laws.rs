//! What holds of every parse.

use vstd::prelude::*;
use crate::ast::{NodeView, TokenType, TokenView};
use crate::grammar::{
    add_of, add_rest, args_of, assign_of, call_node, compare_of, compare_rest, infix_node,
    is_add_op, is_assign_op, is_compare_op, is_leaf_kind, is_multi_op, leaf, multi_of, multi_rest,
    no_longer, parse_of, prefix_node, primary_of, skip_one, unary_of, Parsed, ParsedArgs,
};
use crate::lexer::lex;
use crate::lexer_laws::{all_fit, fits, lemma_lex_fits};

verus! {

/// `rest` is what stays of `s` when tokens are taken from its front.
pub open spec fn is_tail(rest: Seq<TokenView>, s: Seq<TokenView>) -> bool {
    rest.len() <= s.len() && rest == s.skip(s.len() - rest.len())
}

/// A successful `p` leaves a tail of `s` that is shorter than `s`.
pub open spec fn consumes(p: Parsed, s: Seq<TokenView>) -> bool {
    p matches Ok((_, rest)) ==> rest.len() < s.len() && is_tail(rest, s)
}

/// A successful `p` leaves a tail of `s`.
pub open spec fn keeps(p: Parsed, s: Seq<TokenView>) -> bool {
    p matches Ok((_, rest)) ==> is_tail(rest, s)
}

/// A tail of a tail is a tail.
pub proof fn lemma_tail_of_tail(a: Seq<TokenView>, b: Seq<TokenView>, c: Seq<TokenView>)
    requires
        is_tail(a, b),
        is_tail(b, c),
    ensures
        is_tail(a, c),
{
    assert(a =~= c.skip(c.len() - a.len()));
}

/// A sequence is a tail of itself, and so is what follows its first token.
pub proof fn lemma_tail_of_self(s: Seq<TokenView>)
    ensures
        is_tail(s, s),
        is_tail(skip_one(s), s),
        s.len() > 0 ==> is_tail(s.drop_first(), s),
{
    assert(s =~= s.skip(0));
    if s.len() > 0 {
        assert(s.drop_first() =~= s.skip(1));
    }
}

/// A successful argument list `p` leaves a tail of `s` that is shorter than `s`.
pub open spec fn args_consume(p: ParsedArgs, s: Seq<TokenView>) -> bool {
    p matches Ok((_, rest)) ==> rest.len() < s.len() && is_tail(rest, s)
}

proof fn lemma_primary_consumes(s: Seq<TokenView>)
    ensures
        consumes(primary_of(s), s),
    decreases s.len(), 4nat,
{
    if s.len() > 0 {
        let d = s.drop_first();
        lemma_tail_of_self(s);
        lemma_tail_of_self(d);
        lemma_assign_consumes(d);
        lemma_args_consume(Seq::empty(), skip_one(d));
        match assign_of(d) {
            Ok((_, after)) => {
                lemma_tail_of_self(after);
                lemma_tail_of_tail(skip_one(after), after, d);
                lemma_tail_of_tail(skip_one(after), d, s);
            },
            Err(_) => {},
        }
        match args_of(Seq::empty(), skip_one(d)) {
            Ok((_, rest)) => {
                lemma_tail_of_tail(rest, skip_one(d), d);
                lemma_tail_of_tail(rest, d, s);
            },
            Err(_) => {},
        }
    }
}

proof fn lemma_args_consume(so_far: Seq<NodeView>, s: Seq<TokenView>)
    ensures
        args_consume(args_of(so_far, s), s),
    decreases s.len(), 13nat,
{
    if s.len() > 0 {
        let d = s.drop_first();
        lemma_tail_of_self(s);
        lemma_args_consume(so_far, d);
        match args_of(so_far, d) {
            Ok((_, rest)) => {
                lemma_tail_of_tail(rest, d, s);
            },
            Err(_) => {},
        }
        lemma_assign_consumes(s);
        match assign_of(s) {
            Ok((arg, after)) => {
                let next = no_longer(after, d);
                assert(next == after);
                lemma_args_consume(so_far.push(arg), next);
                match args_of(so_far.push(arg), next) {
                    Ok((_, rest)) => {
                        lemma_tail_of_tail(rest, after, s);
                    },
                    Err(_) => {},
                }
            },
            Err(_) => {},
        }
    }
}

proof fn lemma_unary_consumes(s: Seq<TokenView>)
    ensures
        consumes(unary_of(s), s),
    decreases s.len(), 5nat,
{
    if s.len() > 0 {
        let d = s.drop_first();
        lemma_tail_of_self(s);
        lemma_unary_consumes(d);
        match unary_of(d) {
            Ok((_, rest)) => {
                lemma_tail_of_tail(rest, d, s);
            },
            Err(_) => {},
        }
        lemma_primary_consumes(s);
    }
}

proof fn lemma_multi_rest_keeps(left: NodeView, s: Seq<TokenView>)
    ensures
        keeps(multi_rest(left, s), s),
    decreases s.len(), 6nat,
{
    lemma_tail_of_self(s);
    if s.len() > 0 {
        let d = s.drop_first();
        lemma_unary_consumes(d);
        match unary_of(d) {
            Ok((right, after)) => {
                let node = infix_node(s[0], left, right);
                lemma_multi_rest_keeps(node, no_longer(after, d));
                match multi_rest(node, no_longer(after, d)) {
                    Ok((_, rest)) => {
                        lemma_tail_of_tail(rest, after, d);
                        lemma_tail_of_tail(rest, d, s);
                    },
                    Err(_) => {},
                }
            },
            Err(_) => {},
        }
    }
}

proof fn lemma_multi_consumes(s: Seq<TokenView>)
    ensures
        consumes(multi_of(s), s),
    decreases s.len(), 7nat,
{
    lemma_unary_consumes(s);
    match unary_of(s) {
        Ok((left, after)) => {
            lemma_multi_rest_keeps(left, no_longer(after, s));
            match multi_rest(left, no_longer(after, s)) {
                Ok((_, rest)) => {
                    lemma_tail_of_tail(rest, after, s);
                },
                Err(_) => {},
            }
        },
        Err(_) => {},
    }
}

proof fn lemma_add_rest_keeps(left: NodeView, s: Seq<TokenView>)
    ensures
        keeps(add_rest(left, s), s),
    decreases s.len(), 8nat,
{
    lemma_tail_of_self(s);
    if s.len() > 0 {
        let d = s.drop_first();
        lemma_multi_consumes(d);
        match multi_of(d) {
            Ok((right, after)) => {
                let node = infix_node(s[0], left, right);
                lemma_add_rest_keeps(node, no_longer(after, d));
                match add_rest(node, no_longer(after, d)) {
                    Ok((_, rest)) => {
                        lemma_tail_of_tail(rest, after, d);
                        lemma_tail_of_tail(rest, d, s);
                    },
                    Err(_) => {},
                }
            },
            Err(_) => {},
        }
    }
}

proof fn lemma_add_consumes(s: Seq<TokenView>)
    ensures
        consumes(add_of(s), s),
    decreases s.len(), 9nat,
{
    lemma_multi_consumes(s);
    match multi_of(s) {
        Ok((left, after)) => {
            lemma_add_rest_keeps(left, no_longer(after, s));
            match add_rest(left, no_longer(after, s)) {
                Ok((_, rest)) => {
                    lemma_tail_of_tail(rest, after, s);
                },
                Err(_) => {},
            }
        },
        Err(_) => {},
    }
}

proof fn lemma_compare_rest_keeps(left: NodeView, s: Seq<TokenView>)
    ensures
        keeps(compare_rest(left, s), s),
    decreases s.len(), 10nat,
{
    lemma_tail_of_self(s);
    if s.len() > 0 {
        let d = s.drop_first();
        lemma_add_consumes(d);
        match add_of(d) {
            Ok((right, after)) => {
                let node = infix_node(s[0], left, right);
                lemma_compare_rest_keeps(node, no_longer(after, d));
                match compare_rest(node, no_longer(after, d)) {
                    Ok((_, rest)) => {
                        lemma_tail_of_tail(rest, after, d);
                        lemma_tail_of_tail(rest, d, s);
                    },
                    Err(_) => {},
                }
            },
            Err(_) => {},
        }
    }
}

proof fn lemma_compare_consumes(s: Seq<TokenView>)
    ensures
        consumes(compare_of(s), s),
    decreases s.len(), 11nat,
{
    lemma_add_consumes(s);
    match add_of(s) {
        Ok((left, after)) => {
            lemma_compare_rest_keeps(left, no_longer(after, s));
            match compare_rest(left, no_longer(after, s)) {
                Ok((_, rest)) => {
                    lemma_tail_of_tail(rest, after, s);
                },
                Err(_) => {},
            }
        },
        Err(_) => {},
    }
}

proof fn lemma_assign_consumes(s: Seq<TokenView>)
    ensures
        consumes(assign_of(s), s),
    decreases s.len(), 12nat,
{
    lemma_compare_consumes(s);
    match compare_of(s) {
        Ok((left, after)) => {
            assert(no_longer(after, s) == after);
            if after.len() > 0 {
                let d = after.drop_first();
                lemma_tail_of_self(after);
                lemma_assign_consumes(d);
                match assign_of(d) {
                    Ok((_, rest)) => {
                        lemma_tail_of_tail(rest, d, after);
                        lemma_tail_of_tail(rest, after, s);
                    },
                    Err(_) => {},
                }
            }
        },
        Err(_) => {},
    }
}

/// Progress: every level that succeeds has read at least one token, and what
/// any rule leaves is a tail of what it was given: tokens are only ever
/// taken from the front, in order.
pub proof fn lemma_levels_consume(s: Seq<TokenView>)
    ensures
        consumes(parse_of(s), s),
        consumes(assign_of(s), s),
        consumes(compare_of(s), s),
        consumes(add_of(s), s),
        consumes(multi_of(s), s),
        consumes(unary_of(s), s),
        consumes(primary_of(s), s),
        forall|left: NodeView| keeps(#[trigger] compare_rest(left, s), s),
        forall|left: NodeView| keeps(#[trigger] add_rest(left, s), s),
        forall|left: NodeView| keeps(#[trigger] multi_rest(left, s), s),
        forall|so_far: Seq<NodeView>| args_consume(#[trigger] args_of(so_far, s), s),
{
    lemma_assign_consumes(s);
    lemma_compare_consumes(s);
    lemma_add_consumes(s);
    lemma_multi_consumes(s);
    lemma_unary_consumes(s);
    lemma_primary_consumes(s);
    assert forall|left: NodeView| keeps(#[trigger] compare_rest(left, s), s) by {
        lemma_compare_rest_keeps(left, s);
    }
    assert forall|left: NodeView| keeps(#[trigger] add_rest(left, s), s) by {
        lemma_add_rest_keeps(left, s);
    }
    assert forall|left: NodeView| keeps(#[trigger] multi_rest(left, s), s) by {
        lemma_multi_rest_keeps(left, s);
    }
    assert forall|so_far: Seq<NodeView>| args_consume(#[trigger] args_of(so_far, s), s) by {
        lemma_args_consume(so_far, s);
    }
}

/// The shape of a tree that the grammar builds from the tokens of a text.
///
/// Every node is a leaf, a call or an operator: parentheses and commas
/// leave no node. Identifiers, numbers and string literals have no operands.
/// A node of class `BinaryOper` has two operands, one of class `UnaryOper`
/// one, or two where a sign that was read as a prefix stands between two
/// operands. A node `=` has two operands, the first an identifier. The
/// same holds of every operand.
pub open spec fn well_shaped(node: NodeView) -> bool
    decreases node,
{
    &&& is_leaf_kind(node.kind) || node.kind == TokenType::FuncCall || node.kind
        == TokenType::UnaryOper || node.kind == TokenType::BinaryOper
    &&& is_leaf_kind(node.kind) ==> node.children.len() == 0
    &&& node.kind == TokenType::BinaryOper ==> node.children.len() == 2
    &&& node.kind == TokenType::UnaryOper ==> node.children.len() == 1 || node.children.len()
        == 2
    &&& is_assign_op(node.text) ==> node.children.len() == 2 && node.children[0].kind
        == TokenType::Identifier
    &&& forall|i: int|
        0 <= i < node.children.len() ==> well_shaped(#[trigger] node.children[i])
}

/// Every node of the sequence is well shaped.
pub open spec fn all_shaped(nodes: Seq<NodeView>) -> bool {
    forall|i: int| 0 <= i < nodes.len() ==> well_shaped(#[trigger] nodes[i])
}

/// A successful `p` gives a well shaped tree.
pub open spec fn gives_shaped(p: Parsed) -> bool {
    p matches Ok((node, _)) ==> well_shaped(node)
}

/// What stays of tokens that fit, fits.
pub proof fn lemma_tail_fits(rest: Seq<TokenView>, s: Seq<TokenView>)
    requires
        is_tail(rest, s),
        all_fit(s),
    ensures
        all_fit(rest),
{
    assert forall|k: int| 0 <= k < rest.len() implies fits(#[trigger] rest[k]) by {
        assert(rest[k] == s[s.len() - rest.len() + k]);
    }
}

/// A token that fits and is written like an infix operator is an operator,
/// and `=` is of class `BinaryOper`; a token of another class is not
/// written `=`.
pub proof fn lemma_operator_class(t: TokenView)
    requires
        fits(t),
    ensures
        is_assign_op(t.text) || is_compare_op(t.text) || is_add_op(t.text) || is_multi_op(t.text)
            ==> t.kind == TokenType::UnaryOper || t.kind == TokenType::BinaryOper,
        is_assign_op(t.text) ==> t.kind == TokenType::BinaryOper,
        is_compare_op(t.text) || is_add_op(t.text) || is_multi_op(t.text) ==> !is_assign_op(
            t.text,
        ),
{
    assert(seq!['='].len() == 1 && seq!['='][0] == '=');
    assert(seq!['>'].len() == 1 && seq!['>'][0] == '>');
    assert(seq!['<'].len() == 1 && seq!['<'][0] == '<');
    assert(seq!['+'].len() == 1 && seq!['+'][0] == '+');
    assert(seq!['-'].len() == 1 && seq!['-'][0] == '-');
    assert(seq!['*'].len() == 1 && seq!['*'][0] == '*');
    assert(seq!['/'].len() == 1 && seq!['/'][0] == '/');
    assert(seq!['%'].len() == 1 && seq!['%'][0] == '%');
    assert(seq!['>', '='].len() == 2 && seq!['>', '='][0] == '>');
    assert(seq!['=', '='].len() == 2 && seq!['=', '='][0] == '=');
    assert(seq!['<', '='].len() == 2 && seq!['<', '='][0] == '<');
    assert(seq!['!', '='].len() == 2 && seq!['!', '='][0] == '!');
}

proof fn lemma_leaf_shaped(t: TokenView)
    requires
        fits(t),
        is_leaf_kind(t.kind),
    ensures
        well_shaped(leaf(t)),
{
    lemma_operator_class(t);
}

proof fn lemma_prefix_shaped(op: TokenView, operand: NodeView)
    requires
        fits(op),
        op.kind == TokenType::UnaryOper,
        well_shaped(operand),
    ensures
        well_shaped(prefix_node(op, operand)),
{
    lemma_operator_class(op);
    let node = prefix_node(op, operand);
    assert(node.children.len() == 1);
    assert forall|i: int| 0 <= i < node.children.len() implies well_shaped(
        #[trigger] node.children[i],
    ) by {
        assert(node.children[i] == operand);
    }
}

proof fn lemma_infix_shaped(op: TokenView, left: NodeView, right: NodeView)
    requires
        fits(op),
        is_compare_op(op.text) || is_add_op(op.text) || is_multi_op(op.text) || (is_assign_op(
            op.text,
        ) && left.kind == TokenType::Identifier),
        well_shaped(left),
        well_shaped(right),
    ensures
        well_shaped(infix_node(op, left, right)),
{
    lemma_operator_class(op);
    let node = infix_node(op, left, right);
    assert(node.children.len() == 2);
    assert(node.children[0] == left);
    assert(node.children[1] == right);
    assert forall|i: int| 0 <= i < node.children.len() implies well_shaped(
        #[trigger] node.children[i],
    ) by {
        if i == 0 {
            assert(node.children[i] == left);
        } else {
            assert(node.children[i] == right);
        }
    }
}

proof fn lemma_call_shaped(name: TokenView, args: Seq<NodeView>)
    requires
        fits(name),
        name.kind == TokenType::FuncCall,
        all_shaped(args),
    ensures
        well_shaped(call_node(name, args)),
{
    lemma_operator_class(name);
}

proof fn lemma_primary_shaped(s: Seq<TokenView>)
    requires
        all_fit(s),
    ensures
        gives_shaped(primary_of(s)),
    decreases s.len(), 4nat,
{
    if s.len() > 0 {
        let d = s.drop_first();
        assert(fits(s[0]));
        lemma_tail_of_self(s);
        lemma_tail_of_self(d);
        lemma_tail_fits(d, s);
        lemma_tail_fits(skip_one(d), d);
        if is_leaf_kind(s[0].kind) {
            lemma_leaf_shaped(s[0]);
        } else if s[0].kind == TokenType::OpenParen {
            lemma_assign_shaped(d);
        } else if s[0].kind == TokenType::FuncCall {
            lemma_args_shaped(Seq::empty(), skip_one(d));
            match args_of(Seq::empty(), skip_one(d)) {
                Ok((args, _)) => {
                    lemma_call_shaped(s[0], args);
                },
                Err(_) => {},
            }
        }
    }
}

proof fn lemma_args_shaped(so_far: Seq<NodeView>, s: Seq<TokenView>)
    requires
        all_fit(s),
        all_shaped(so_far),
    ensures
        args_of(so_far, s) matches Ok((args, _)) ==> all_shaped(args),
    decreases s.len(), 13nat,
{
    if s.len() > 0 {
        let d = s.drop_first();
        lemma_tail_of_self(s);
        lemma_tail_fits(d, s);
        if s[0].kind == TokenType::CloseParen {
        } else if s[0].kind == TokenType::ParamSplit {
            lemma_args_shaped(so_far, d);
        } else {
            lemma_assign_shaped(s);
            lemma_levels_consume(s);
            match assign_of(s) {
                Ok((arg, after)) => {
                    let next = no_longer(after, d);
                    assert(next == after);
                    lemma_tail_fits(after, s);
                    let more = so_far.push(arg);
                    assert forall|i: int| 0 <= i < more.len() implies well_shaped(
                        #[trigger] more[i],
                    ) by {
                        if i < so_far.len() {
                            assert(more[i] == so_far[i]);
                        } else {
                            assert(more[i] == arg);
                        }
                    }
                    lemma_args_shaped(more, next);
                },
                Err(_) => {},
            }
        }
    }
}

proof fn lemma_unary_shaped(s: Seq<TokenView>)
    requires
        all_fit(s),
    ensures
        gives_shaped(unary_of(s)),
    decreases s.len(), 5nat,
{
    if s.len() > 0 {
        let d = s.drop_first();
        assert(fits(s[0]));
        lemma_tail_of_self(s);
        lemma_tail_fits(d, s);
        if s[0].kind == TokenType::UnaryOper {
            lemma_unary_shaped(d);
            match unary_of(d) {
                Ok((operand, _)) => {
                    lemma_prefix_shaped(s[0], operand);
                },
                Err(_) => {},
            }
        } else {
            lemma_primary_shaped(s);
        }
    }
}

proof fn lemma_multi_rest_shaped(left: NodeView, s: Seq<TokenView>)
    requires
        all_fit(s),
        well_shaped(left),
    ensures
        gives_shaped(multi_rest(left, s)),
    decreases s.len(), 6nat,
{
    if s.len() > 0 && is_multi_op(s[0].text) {
        let d = s.drop_first();
        assert(fits(s[0]));
        lemma_tail_of_self(s);
        lemma_tail_fits(d, s);
        lemma_unary_shaped(d);
        lemma_levels_consume(d);
        match unary_of(d) {
            Ok((right, after)) => {
                assert(no_longer(after, d) == after);
                lemma_tail_fits(after, d);
                lemma_infix_shaped(s[0], left, right);
                lemma_multi_rest_shaped(infix_node(s[0], left, right), after);
            },
            Err(_) => {},
        }
    }
}

proof fn lemma_multi_shaped(s: Seq<TokenView>)
    requires
        all_fit(s),
    ensures
        gives_shaped(multi_of(s)),
    decreases s.len(), 7nat,
{
    lemma_unary_shaped(s);
    lemma_levels_consume(s);
    match unary_of(s) {
        Ok((left, after)) => {
            assert(no_longer(after, s) == after);
            lemma_tail_fits(after, s);
            lemma_multi_rest_shaped(left, after);
        },
        Err(_) => {},
    }
}

proof fn lemma_add_rest_shaped(left: NodeView, s: Seq<TokenView>)
    requires
        all_fit(s),
        well_shaped(left),
    ensures
        gives_shaped(add_rest(left, s)),
    decreases s.len(), 8nat,
{
    if s.len() > 0 && is_add_op(s[0].text) {
        let d = s.drop_first();
        assert(fits(s[0]));
        lemma_tail_of_self(s);
        lemma_tail_fits(d, s);
        lemma_multi_shaped(d);
        lemma_levels_consume(d);
        match multi_of(d) {
            Ok((right, after)) => {
                assert(no_longer(after, d) == after);
                lemma_tail_fits(after, d);
                lemma_infix_shaped(s[0], left, right);
                lemma_add_rest_shaped(infix_node(s[0], left, right), after);
            },
            Err(_) => {},
        }
    }
}

proof fn lemma_add_shaped(s: Seq<TokenView>)
    requires
        all_fit(s),
    ensures
        gives_shaped(add_of(s)),
    decreases s.len(), 9nat,
{
    lemma_multi_shaped(s);
    lemma_levels_consume(s);
    match multi_of(s) {
        Ok((left, after)) => {
            assert(no_longer(after, s) == after);
            lemma_tail_fits(after, s);
            lemma_add_rest_shaped(left, after);
        },
        Err(_) => {},
    }
}

proof fn lemma_compare_rest_shaped(left: NodeView, s: Seq<TokenView>)
    requires
        all_fit(s),
        well_shaped(left),
    ensures
        gives_shaped(compare_rest(left, s)),
    decreases s.len(), 10nat,
{
    if s.len() > 0 && is_compare_op(s[0].text) {
        let d = s.drop_first();
        assert(fits(s[0]));
        lemma_tail_of_self(s);
        lemma_tail_fits(d, s);
        lemma_add_shaped(d);
        lemma_levels_consume(d);
        match add_of(d) {
            Ok((right, after)) => {
                assert(no_longer(after, d) == after);
                lemma_tail_fits(after, d);
                lemma_infix_shaped(s[0], left, right);
                lemma_compare_rest_shaped(infix_node(s[0], left, right), after);
            },
            Err(_) => {},
        }
    }
}

proof fn lemma_compare_shaped(s: Seq<TokenView>)
    requires
        all_fit(s),
    ensures
        gives_shaped(compare_of(s)),
    decreases s.len(), 11nat,
{
    lemma_add_shaped(s);
    lemma_levels_consume(s);
    match add_of(s) {
        Ok((left, after)) => {
            assert(no_longer(after, s) == after);
            lemma_tail_fits(after, s);
            lemma_compare_rest_shaped(left, after);
        },
        Err(_) => {},
    }
}

proof fn lemma_assign_shaped(s: Seq<TokenView>)
    requires
        all_fit(s),
    ensures
        gives_shaped(assign_of(s)),
    decreases s.len(), 12nat,
{
    lemma_compare_shaped(s);
    lemma_levels_consume(s);
    match compare_of(s) {
        Ok((left, after)) => {
            assert(no_longer(after, s) == after);
            lemma_tail_fits(after, s);
            if after.len() > 0 && is_assign_op(after[0].text) && left.kind
                == TokenType::Identifier {
                let d = after.drop_first();
                assert(fits(after[0]));
                lemma_tail_of_self(after);
                lemma_tail_fits(d, after);
                lemma_assign_shaped(d);
                match assign_of(d) {
                    Ok((right, _)) => {
                        lemma_infix_shaped(after[0], left, right);
                    },
                    Err(_) => {},
                }
            }
        },
        Err(_) => {},
    }
}

/// Every tree that the grammar builds from tokens that fit is well shaped.
pub proof fn lemma_tokens_parse_shaped(s: Seq<TokenView>)
    requires
        all_fit(s),
    ensures
        gives_shaped(parse_of(s)),
        gives_shaped(assign_of(s)),
        gives_shaped(compare_of(s)),
        gives_shaped(add_of(s)),
        gives_shaped(multi_of(s)),
        gives_shaped(unary_of(s)),
        gives_shaped(primary_of(s)),
{
    lemma_assign_shaped(s);
    lemma_compare_shaped(s);
    lemma_add_shaped(s);
    lemma_multi_shaped(s);
    lemma_unary_shaped(s);
    lemma_primary_shaped(s);
}

/// Every tree parsed from a text is well shaped: its nodes are leaves, calls
/// and operators only, leaves have no operands, and an assignment to
/// anything but an identifier is never built.
pub proof fn lemma_parse_shaped(input: Seq<char>)
    ensures
        gives_shaped(parse_of(lex(input))),
{
    lemma_lex_fits(input);
    lemma_tokens_parse_shaped(lex(input));
}

} // verus!
