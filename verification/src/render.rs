//! Writing a node tree out as HTML text.
use crate::html::{document_text, element_text};
use crate::parse::{nodes_model, Node};
use crate::syntax::SpecNode;
use vstd::prelude::*;
use vstd::string::StringExecFns;

verus! {

/// The document made of `nodes` as HTML text: each element with its subtree,
/// starting at depth 0; top-level text as it is; nothing for any other node.
pub fn render(nodes: Vec<Node>) -> (html: String)
    ensures
        html@ == document_text(nodes_model(nodes@)),
{
    let ghost all = nodes_model(nodes@);
    let mut output = String::new();
    let mut k: usize = 0;
    while k < nodes.len()
        invariant
            k <= nodes.len(),
            all == nodes_model(nodes@),
            output@ == document_text(all.take(k as int)),
        decreases nodes.len() - k,
    {
        let ghost shown = all.take(k as int);
        let ghost before = output@;
        match &nodes[k] {
            Node::Element(e) => {
                let inner = e.render(0);
                output.append(inner.as_str());
            },
            Node::Text(body) => {
                output.append(body.as_str());
            },
            _ => {},
        }
        k += 1;
        proof {
            let next = all.take(k as int);
            let piece = match next.last() {
                SpecNode::Element(e) => element_text(e, 0),
                SpecNode::Text(body) => body,
                _ => Seq::empty(),
            };
            assert(next.drop_last() =~= shown);
            assert(next.last() == nodes@[k - 1].model());
            assert(output@ =~= before + piece);
        }
    }
    assert(all.take(k as int) =~= all);
    output
}

} // verus!
