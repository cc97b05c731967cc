//! The output rules: the HTML text that a node tree is written as.
use crate::syntax::{SpecElement, SpecNode};
use vstd::prelude::*;

verus! {

/// The indentation of a line at `depth`: two spaces for each level.
pub open spec fn indentation(depth: nat) -> Seq<char>
    decreases depth,
{
    if depth == 0 {
        Seq::empty()
    } else {
        indentation((depth - 1) as nat) + "  "@
    }
}

/// Whether `name` is a void element: one without children and closing tag.
pub open spec fn is_void(name: Seq<char>) -> bool {
    ||| name == "area"@
    ||| name == "base"@
    ||| name == "br"@
    ||| name == "col"@
    ||| name == "embed"@
    ||| name == "hr"@
    ||| name == "img"@
    ||| name == "input"@
    ||| name == "link"@
    ||| name == "meta"@
    ||| name == "param"@
    ||| name == "source"@
    ||| name == "track"@
    ||| name == "wbr"@
}

/// One attribute: a space, the name, and the value in double quotes. Neither
/// is escaped.
pub open spec fn attr_text(attr: (Seq<char>, Seq<char>)) -> Seq<char> {
    " "@ + attr.0 + "=\""@ + attr.1 + "\""@
}

/// The attributes in their order.
pub open spec fn attrs_text(attrs: Seq<(Seq<char>, Seq<char>)>) -> Seq<char>
    decreases attrs.len(),
{
    if attrs.len() == 0 {
        Seq::empty()
    } else {
        attrs_text(attrs.drop_last()) + attr_text(attrs.last())
    }
}

/// The opening tag of `e` at `depth`, with the line break that follows it
/// where the element has attributes or children.
pub open spec fn open_tag(e: SpecElement, depth: nat) -> Seq<char> {
    indentation(depth) + "<"@ + e.name + attrs_text(e.attrs) + ">"@ + if e.children.len() > 0
        || e.attrs.len() > 0 {
        "\n"@
    } else {
        Seq::empty()
    }
}

/// The closing tag of `e` at `depth`, on a line of its own.
pub open spec fn close_tag(e: SpecElement, depth: nat) -> Seq<char> {
    indentation(depth) + "</"@ + e.name + ">\n"@
}

/// The element `e` at `depth`.
///
/// A void element is its opening tag and a line break. Any other element is
/// its opening tag, its children one level deeper, and its closing tag.
pub open spec fn element_text(e: SpecElement, depth: nat) -> Seq<char>
    decreases e, 0nat,
{
    if is_void(e.name) {
        open_tag(e, depth) + "\n"@
    } else {
        open_tag(e, depth) + children_text(e.children, depth + 1) + close_tag(e, depth)
    }
}

/// The children of an element, each at `depth`: an element as itself, text
/// on a line of its own, nothing for any other node.
pub open spec fn children_text(nodes: Seq<SpecNode>, depth: nat) -> Seq<char>
    decreases nodes, 1nat,
{
    if nodes.len() == 0 {
        Seq::empty()
    } else {
        children_text(nodes.drop_last(), depth) + match nodes.last() {
            SpecNode::Element(e) => element_text(e, depth),
            SpecNode::Text(body) => indentation(depth) + body + "\n"@,
            _ => Seq::empty(),
        }
    }
}

/// The document made of `nodes`: elements at depth 0, text as it is, nothing
/// for any other node.
pub open spec fn document_text(nodes: Seq<SpecNode>) -> Seq<char>
    decreases nodes.len(),
{
    if nodes.len() == 0 {
        Seq::empty()
    } else {
        document_text(nodes.drop_last()) + match nodes.last() {
            SpecNode::Element(e) => element_text(e, 0),
            SpecNode::Text(body) => body,
            _ => Seq::empty(),
        }
    }
}

} // verus!
