//! The tree that a parse produces.

use vstd::prelude::*;

verus! {

/// A node of the output tree. The text of a leaf is a slice of the input
/// that was parsed.
#[derive(Debug, PartialEq)]
pub enum Node<'a> {
    /// A free-form word.
    LiteralStr(&'a str),
    /// An unsigned integer.
    LiteralUnsigned(u64),
    /// A signed integer.
    LiteralSigned(i64),
    /// A decimal numeral, held as the text that was matched: an optional
    /// sign, digits, a point, digits.
    LiteralFloat(&'a str),
    /// A keyword or symbol of the grammar.
    Token(&'a str),
    /// The children of a sequence that matched two rules or more.
    Expr(Vec<Node<'a>>),
}

/// The mathematical value of a `Node`.
pub enum NodeView {
    LiteralStr(Seq<char>),
    LiteralUnsigned(u64),
    LiteralSigned(i64),
    LiteralFloat(Seq<char>),
    Token(Seq<char>),
    Expr(Seq<NodeView>),
}

/// The value of `node`: its leaves by their text or number, its children
/// in order.
pub open spec fn node_view(node: Node<'_>) -> NodeView
    decreases node,
{
    match node {
        Node::LiteralStr(text) => NodeView::LiteralStr(text@),
        Node::LiteralUnsigned(value) => NodeView::LiteralUnsigned(value),
        Node::LiteralSigned(value) => NodeView::LiteralSigned(value),
        Node::LiteralFloat(text) => NodeView::LiteralFloat(text@),
        Node::Token(text) => NodeView::Token(text@),
        Node::Expr(children) => NodeView::Expr(
            Seq::new(
                children.len() as nat,
                |i: int|
                    if 0 <= i < children.len() {
                        node_view(children[i])
                    } else {
                        NodeView::Expr(Seq::empty())
                    },
            ),
        ),
    }
}

impl<'a> View for Node<'a> {
    type V = NodeView;

    open spec fn view(&self) -> NodeView {
        node_view(*self)
    }
}

/// The value of what a matcher or a rule hands back: the node by its value,
/// the offset as a number.
pub open spec fn match_view(found: Option<(Node<'_>, usize)>) -> Option<(NodeView, nat)> {
    match found {
        Some((node, end)) => Some((node@, end as nat)),
        None => None,
    }
}

/// The values of a vector of nodes, in order.
pub open spec fn views(nodes: Seq<Node<'_>>) -> Seq<NodeView> {
    Seq::new(nodes.len(), |i: int| nodes[i]@)
}

/// The value of a composite node is made of the values of its children.
pub proof fn lemma_expr_view(children: Vec<Node<'_>>)
    ensures
        Node::Expr(children)@ == NodeView::Expr(views(children@)),
{
    let direct = Node::Expr(children)@->Expr_0;
    assert(direct.len() == children@.len());
    assert forall|i: int| 0 <= i < direct.len() implies direct[i] == views(children@)[i] by {
        assert(direct[i] == children[i]@);
    }
    assert(direct =~= views(children@));
}

/// Copies a tree; the leaves of the copy go on pointing into the input.
pub fn copy_node<'a>(node: &Node<'a>) -> (copy: Node<'a>)
    ensures
        copy@ == node@,
    decreases node,
{
    match node {
        Node::LiteralStr(text) => Node::LiteralStr(*text),
        Node::LiteralUnsigned(value) => Node::LiteralUnsigned(*value),
        Node::LiteralSigned(value) => Node::LiteralSigned(*value),
        Node::LiteralFloat(text) => Node::LiteralFloat(*text),
        Node::Token(text) => Node::Token(*text),
        Node::Expr(children) => {
            let mut copies: Vec<Node<'a>> = Vec::new();
            let mut i: usize = 0;
            while i < children.len()
                invariant
                    *node == Node::Expr(*children),
                    i <= children.len(),
                    copies.len() == i,
                    forall|k: int| 0 <= k < i ==> copies[k]@ == children[k]@,
                decreases children.len() - i,
            {
                proof {
                    assert(decreases_to!(*node => node->Expr_0));
                }
                let child = copy_node(&children[i]);
                copies.push(child);
                i += 1;
            }
            proof {
                lemma_expr_view(copies);
                lemma_expr_view(*children);
                assert(views(copies@) =~= views(children@));
            }
            Node::Expr(copies)
        },
    }
}

impl<'a> Clone for Node<'a> {
    fn clone(&self) -> (copy: Self)
        ensures
            copy@ == self@,
    {
        copy_node(self)
    }
}

} // verus!
