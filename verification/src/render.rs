//! The tree written out as an S-expression.
//!
//! The text is for reading, not for parsing again: parentheses that only
//! group leave no node in the tree, and the parentheses written here are
//! no grouping of the input language, so the text of a tree is in general
//! not an input that gives the same tree back.

use vstd::prelude::*;
use vstd::string::StringExecFns;
use crate::ast::{lemma_views_of_push, views_of, Node, NodeView, TokenType};
use crate::grammar::is_leaf_kind;

verus! {

/// The text of a node: its own text and a space, then its operands one
/// after the other; around that, `( ` and `) ` unless the node is an
/// identifier, a number or a string literal.
pub open spec fn rendered(node: NodeView) -> Seq<char>
    decreases node,
{
    let inner = node.text + seq![' '] + rendered_all(node.children);
    if is_leaf_kind(node.kind) {
        inner
    } else {
        seq!['(', ' '] + inner + seq![')', ' ']
    }
}

/// The texts of `nodes`, one after the other.
pub open spec fn rendered_all(nodes: Seq<NodeView>) -> Seq<char>
    decreases nodes,
{
    if nodes.len() == 0 {
        Seq::empty()
    } else {
        rendered_all(nodes.drop_last()) + rendered(nodes.last())
    }
}

/// The text of a sequence with one more node is the text of the sequence
/// followed by the text of that node.
pub proof fn lemma_rendered_all_push(nodes: Seq<NodeView>, node: NodeView)
    ensures
        rendered_all(nodes.push(node)) == rendered_all(nodes) + rendered(node),
{
    reveal_with_fuel(rendered_all, 2);
    assert(nodes.push(node).drop_last() =~= nodes);
}

impl Node {
    /// Whether the node is written without parentheses.
    pub fn is_leaf(&self) -> (yes: bool)
        ensures
            yes == is_leaf_kind(self@.kind),
    {
        self.typing == TokenType::Identifier || self.typing == TokenType::Numerical || self.typing
            == TokenType::StringVar
    }

    /// The tree as an S-expression.
    pub fn render(&self) -> (out: String)
        ensures
            out@ == rendered(self@),
    {
        let mut out = String::new();
        self.render_into(&mut out);
        assert(out@ =~= rendered(self@));
        out
    }

    /// Appends the S-expression of the tree to `out`.
    pub fn render_into(&self, out: &mut String)
        ensures
            final(out)@ == old(out)@ + rendered(self@),
        decreases self,
    {
        proof {
            reveal_strlit("( ");
            reveal_strlit(" ");
            reveal_strlit(") ");
        }
        let leaf = self.is_leaf();
        if !leaf {
            out.append("( ");
        }
        out.append(self.value.as_str());
        out.append(" ");
        let ghost head = out@;
        let mut i: usize = 0;
        assert(views_of(self.branch@.take(0)) =~= Seq::<NodeView>::empty());
        while i < self.branch.len()
            invariant
                i <= self.branch.len(),
                out@ == head + rendered_all(views_of(self.branch@.take(i as int))),
            decreases self.branch.len() - i,
        {
            proof {
                lemma_views_of_push(self.branch@.take(i as int), self.branch@[i as int]);
                assert(self.branch@.take(i as int).push(self.branch@[i as int])
                    =~= self.branch@.take(i + 1));
                lemma_rendered_all_push(
                    views_of(self.branch@.take(i as int)),
                    self.branch@[i as int]@,
                );
            }
            self.branch[i].render_into(out);
            i = i + 1;
        }
        assert(self.branch@.take(i as int) =~= self.branch@);
        if !leaf {
            out.append(") ");
        }
        proof {
            let inner = self@.text + seq![' '] + rendered_all(self@.children);
            if leaf {
                assert(head =~= old(out)@ + self@.text + seq![' ']);
                assert(out@ =~= old(out)@ + inner);
            } else {
                assert(head =~= old(out)@ + seq!['(', ' '] + self@.text + seq![' ']);
                assert(out@ =~= old(out)@ + (seq!['(', ' '] + inner + seq![')', ' ']));
            }
        }
    }
}

} // verus!
