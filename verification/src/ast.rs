//! The tree produced by parsing: a `Tagged` form with a label, prefix entries
//! and instruction lines, where each entry is either an opaque text fragment
//! (`Node::Leaf`) or a nested parsed form (`Node::Form`).

use vstd::prelude::*;

verus! {

/// One entry of a form's prefix or instruction list: an unparsed textual
/// fragment, or a fully parsed nested form (produced by the unfolding pass).
#[derive(Debug, PartialEq)]
pub enum Node {
    Leaf(String),
    Form(Tagged),
}

/// A parsed tagged expression: the leading label token, the ordered prefix
/// entries (arguments and nested sub-forms), and the ordered instruction lines.
#[derive(Debug, PartialEq)]
pub struct Tagged {
    pub label: String,
    pub prefix: Vec<Node>,
    pub instructions: Vec<Node>,
}

/// The mathematical model of a `Node`: text as a sequence of characters.
pub enum NodeV {
    Leaf(Seq<char>),
    Form(TaggedV),
}

/// The mathematical model of a `Tagged` form.
pub struct TaggedV {
    pub label: Seq<char>,
    pub prefix: Seq<NodeV>,
    pub instructions: Seq<NodeV>,
}

/// The failure kinds of parsing and unfolding.
#[derive(Debug, PartialEq, Eq, Structural, Clone, Copy)]
pub enum ParseError {
    /// The input does not start with an opening parenthesis.
    MissingOpenParen,
    /// The form's body contains no label token.
    MissingLabel,
    /// A nested parenthesized group is never closed.
    UnbalancedInput,
    /// During unfolding, a prefix entry recognized as an inlined function
    /// call failed to re-parse as a well-formed tagged form.
    ReparseFailure,
}

pub open spec fn node_view(n: Node) -> NodeV
    decreases n,
{
    match n {
        Node::Leaf(s) => NodeV::Leaf(s@),
        Node::Form(t) => NodeV::Form(tagged_view(t)),
    }
}

pub open spec fn nodes_view(v: Seq<Node>) -> Seq<NodeV>
    decreases v,
{
    if v.len() == 0 {
        Seq::empty()
    } else {
        seq![node_view(v[0])] + nodes_view(v.drop_first())
    }
}

pub open spec fn tagged_view(t: Tagged) -> TaggedV
    decreases t,
{
    TaggedV {
        label: t.label@,
        prefix: nodes_view(t.prefix@),
        instructions: nodes_view(t.instructions@),
    }
}

impl View for Node {
    type V = NodeV;

    open spec fn view(&self) -> NodeV {
        node_view(*self)
    }
}

impl View for Tagged {
    type V = TaggedV;

    open spec fn view(&self) -> TaggedV {
        tagged_view(*self)
    }
}

impl ParseError {
    /// A human-readable description of the failure.
    pub fn message(&self) -> (r: &'static str)
        ensures
            *self == ParseError::MissingOpenParen ==> r@ == "Expected opening parenthesis"@,
            *self == ParseError::MissingLabel ==> r@ == "Missing label"@,
            *self == ParseError::UnbalancedInput ==> r@ == "Unbalanced parentheses"@,
            *self == ParseError::ReparseFailure ==> r@ == "Failed to re-parse an inlined function"@,
    {
        match self {
            ParseError::MissingOpenParen => "Expected opening parenthesis",
            ParseError::MissingLabel => "Missing label",
            ParseError::UnbalancedInput => "Unbalanced parentheses",
            ParseError::ReparseFailure => "Failed to re-parse an inlined function",
        }
    }
}

/// The view of a parsing or rewriting result, for stating exec contracts.
pub open spec fn result_view(r: Result<Tagged, ParseError>) -> Result<TaggedV, ParseError> {
    match r {
        Ok(t) => Ok(tagged_view(t)),
        Err(e) => Err(e),
    }
}

/// The cost a prefix entry contributes to the unfolding pass: the length of
/// an unparsed leaf; a parsed form costs nothing, as it is never re-parsed.
pub open spec fn node_weight(n: NodeV) -> nat {
    match n {
        NodeV::Leaf(t) => t.len(),
        NodeV::Form(_) => 0,
    }
}

/// The total cost of a list of prefix entries.
pub open spec fn prefix_weight(xs: Seq<NodeV>) -> nat
    decreases xs.len(),
{
    if xs.len() == 0 {
        0
    } else {
        node_weight(xs[0]) + prefix_weight(xs.drop_first())
    }
}

/// Each entry's cost is bounded by the total.
pub proof fn lemma_prefix_weight_elt(xs: Seq<NodeV>, i: int)
    requires
        0 <= i < xs.len(),
    ensures
        node_weight(xs[i]) <= prefix_weight(xs),
    decreases xs.len(),
{
    if i > 0 {
        lemma_prefix_weight_elt(xs.drop_first(), i - 1);
    }
}

/// Dropping the first entry costs exactly that entry less.
pub proof fn lemma_prefix_weight_drop_first(xs: Seq<NodeV>)
    requires
        xs.len() > 0,
    ensures
        prefix_weight(xs.drop_first()) <= prefix_weight(xs),
{
}

/// `nodes_view` maps each element in place: it keeps the length and views
/// every element at its position.
pub proof fn lemma_nodes_view_elts(v: Seq<Node>)
    ensures
        nodes_view(v).len() == v.len(),
        forall|i: int| 0 <= i < v.len() ==> nodes_view(v)[i] == node_view(v[i]),
    decreases v.len(),
{
    if v.len() > 0 {
        lemma_nodes_view_elts(v.drop_first());
    }
}

/// Appending one node to a vector appends its view to the sequence view.
pub proof fn lemma_nodes_view_push(v: Seq<Node>, n: Node)
    ensures
        nodes_view(v.push(n)) == nodes_view(v).push(node_view(n)),
    decreases v.len(),
{
    lemma_nodes_view_elts(v);
    lemma_nodes_view_elts(v.push(n));
    assert(nodes_view(v.push(n)) =~= nodes_view(v).push(node_view(n)));
}

} // verus!
