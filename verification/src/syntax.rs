//! The syntax rules: which node tree a sequence of tokens stands for.
//!
//! Every rule reads the tokens from an index on and says what it built and
//! how many tokens it used.
use crate::lex::{SpecToken, SpecTokenType};
use vstd::prelude::*;

verus! {

/// What an element is, as plain values.
pub struct SpecElement {
    pub name: Seq<char>,
    pub attrs: Seq<(Seq<char>, Seq<char>)>,
    pub children: Seq<SpecNode>,
}

/// What a node is, as plain values.
pub enum SpecNode {
    Empty,
    Element(SpecElement),
    Text(Seq<char>),
    Comment,
}

/// The element called `name`, without attributes and children.
pub open spec fn bare(name: Seq<char>) -> SpecElement {
    SpecElement { name, attrs: Seq::empty(), children: Seq::empty() }
}

/// `e` with one more attribute.
pub open spec fn with_attr(e: SpecElement, name: Seq<char>, value: Seq<char>) -> SpecElement {
    SpecElement { name: e.name, attrs: e.attrs.push((name, value)), children: e.children }
}

/// `e` with more children.
pub open spec fn with_children(e: SpecElement, nodes: Seq<SpecNode>) -> SpecElement {
    SpecElement { name: e.name, attrs: e.attrs, children: e.children + nodes }
}

/// The number of tokens from index `i` to the end.
pub open spec fn remaining(tokens: Seq<SpecToken>, i: int) -> nat {
    if 0 <= i < tokens.len() {
        (tokens.len() - i) as nat
    } else {
        0
    }
}

/// An element and the number of tokens used for it.
pub struct ParsedElement {
    pub element: SpecElement,
    pub used: nat,
}

/// A node and the number of tokens used for it.
pub struct ParsedNode {
    pub node: SpecNode,
    pub used: nat,
}

/// The nodes of a block and the number of tokens used for them.
pub struct ParsedBlock {
    pub nodes: Seq<SpecNode>,
    pub used: nat,
}

/// Whether what stands at index `j`, behind a line feed, ends the element
/// before it: another line feed, an element name, or the end of the tokens.
pub open spec fn ends_element(tokens: Seq<SpecToken>, j: int) -> bool {
    !(0 <= j < tokens.len()) || tokens[j].ty is NewLine || tokens[j].ty is Tag
}

/// The element `e`, extended by the tokens from index `i` on.
///
/// `Id`, `Class` and `Attr` add an attribute, and `Text` a text child. A line
/// feed is passed over unless it ends the element. `Indent` adds the block
/// behind it as children, and `Colon` the one node behind it. Any other token
/// ends the element and is left where it is.
pub open spec fn element_from(tokens: Seq<SpecToken>, i: int, e: SpecElement) -> ParsedElement
    decreases remaining(tokens, i), 0nat,
{
    if !(0 <= i < tokens.len()) {
        ParsedElement { element: e, used: 0 }
    } else {
        match tokens[i].ty {
            SpecTokenType::Id(value) => {
                let rest = element_from(tokens, i + 1, with_attr(e, "id"@, value));
                ParsedElement { element: rest.element, used: 1 + rest.used }
            },
            SpecTokenType::Class(value) => {
                let rest = element_from(tokens, i + 1, with_attr(e, "class"@, value));
                ParsedElement { element: rest.element, used: 1 + rest.used }
            },
            SpecTokenType::Attr(name, value) => {
                let rest = element_from(tokens, i + 1, with_attr(e, name, value));
                ParsedElement { element: rest.element, used: 1 + rest.used }
            },
            SpecTokenType::Text(body) => {
                let rest = element_from(
                    tokens,
                    i + 1,
                    with_children(e, seq![SpecNode::Text(body)]),
                );
                ParsedElement { element: rest.element, used: 1 + rest.used }
            },
            SpecTokenType::NewLine => {
                if ends_element(tokens, i + 1) {
                    ParsedElement { element: e, used: 1 }
                } else {
                    let rest = element_from(tokens, i + 1, e);
                    ParsedElement { element: rest.element, used: 1 + rest.used }
                }
            },
            SpecTokenType::Indent => {
                let block = block_at(tokens, i + 1);
                let rest = element_from(
                    tokens,
                    i + 1 + block.used,
                    with_children(e, block.nodes),
                );
                ParsedElement { element: rest.element, used: 1 + block.used + rest.used }
            },
            SpecTokenType::Colon => {
                let child = node_at(tokens, i + 1);
                let rest = element_from(
                    tokens,
                    i + 1 + child.used,
                    with_children(e, seq![child.node]),
                );
                ParsedElement { element: rest.element, used: 1 + child.used + rest.used }
            },
            _ => ParsedElement { element: e, used: 0 },
        }
    }
}

/// The node that the token at index `i` starts, and the number of tokens
/// used behind that token.
///
/// `Text` is a text node. `Tag` starts an element of that name; `Id` and
/// `Class` start a `div` that has the id or the class as its first
/// attribute. Any other token is used up and gives the empty node.
pub open spec fn node_behind(tokens: Seq<SpecToken>, i: int) -> ParsedNode
    decreases remaining(tokens, i), 1nat,
{
    if !(0 <= i < tokens.len()) {
        ParsedNode { node: SpecNode::Empty, used: 0 }
    } else {
        match tokens[i].ty {
            SpecTokenType::Text(body) => ParsedNode { node: SpecNode::Text(body), used: 0 },
            SpecTokenType::Tag(name) => {
                let e = element_from(tokens, i + 1, bare(name));
                ParsedNode { node: SpecNode::Element(e.element), used: e.used }
            },
            SpecTokenType::Id(value) => {
                let e = element_from(tokens, i + 1, with_attr(bare("div"@), "id"@, value));
                ParsedNode { node: SpecNode::Element(e.element), used: e.used }
            },
            SpecTokenType::Class(value) => {
                let e = element_from(tokens, i + 1, with_attr(bare("div"@), "class"@, value));
                ParsedNode { node: SpecNode::Element(e.element), used: e.used }
            },
            _ => ParsedNode { node: SpecNode::Empty, used: 0 },
        }
    }
}

/// The one node that starts at index `i`. At the end of the tokens it is the
/// empty node, and no token is used.
pub open spec fn node_at(tokens: Seq<SpecToken>, i: int) -> ParsedNode
    decreases remaining(tokens, i), 2nat,
{
    if !(0 <= i < tokens.len()) {
        ParsedNode { node: SpecNode::Empty, used: 0 }
    } else {
        let started = node_behind(tokens, i);
        ParsedNode { node: started.node, used: 1 + started.used }
    }
}

/// The nodes of the block that starts at index `i`.
///
/// `Outdent` is used up and ends the block; `NewLine` and `Slash` are passed
/// over; any other token starts a node of the block.
pub open spec fn block_at(tokens: Seq<SpecToken>, i: int) -> ParsedBlock
    decreases remaining(tokens, i), 2nat,
{
    if !(0 <= i < tokens.len()) {
        ParsedBlock { nodes: Seq::empty(), used: 0 }
    } else {
        match tokens[i].ty {
            SpecTokenType::Outdent => ParsedBlock { nodes: Seq::empty(), used: 1 },
            SpecTokenType::NewLine | SpecTokenType::Slash => {
                let rest = block_at(tokens, i + 1);
                ParsedBlock { nodes: rest.nodes, used: 1 + rest.used }
            },
            _ => {
                let first = node_behind(tokens, i);
                let rest = block_at(tokens, i + 1 + first.used);
                ParsedBlock {
                    nodes: seq![first.node] + rest.nodes,
                    used: 1 + first.used + rest.used,
                }
            },
        }
    }
}

/// The node tree of `tokens`: the block that starts at the first token.
pub open spec fn parse_tokens(tokens: Seq<SpecToken>) -> Seq<SpecNode> {
    block_at(tokens, 0).nodes
}

} // verus!
