//! The node tree and the parser that builds it from tokens.
use crate::html::{
    attr_text, attrs_text, children_text, element_text, indentation, is_void, open_tag,
};
use crate::lex::{tokens_model, SpecToken, Token, TokenType};
use crate::syntax::{
    bare, block_at, element_from, node_at, node_behind, with_attr, with_children, SpecElement,
    SpecNode,
};
use vstd::prelude::*;
use vstd::string::StringExecFns;

verus! {

/// A node of the tree.
#[derive(Debug, PartialEq)]
pub enum Node {
    /// What is left of tokens that start no node. It is not rendered.
    Empty,
    /// An element with its subtree.
    Element(Box<HTMLElement>),
    /// Literal text.
    Text(String),
    /// A comment. The parser builds none, and it is not rendered.
    Comment,
}

/// An element: its name, its attributes in the order in which they were
/// added, and its children in their order.
#[derive(Debug, PartialEq)]
pub struct HTMLElement {
    name: String,
    attrs: Vec<(String, String)>,
    children: Vec<Node>,
}

/// The attribute list as pairs of character sequences.
pub open spec fn attrs_model(attrs: Seq<(String, String)>) -> Seq<(Seq<char>, Seq<char>)> {
    Seq::new(attrs.len(), |i: int| (attrs[i].0@, attrs[i].1@))
}

impl Node {
    /// The node as plain values.
    pub open spec fn model(self) -> SpecNode
        decreases self,
    {
        match self {
            Node::Empty => SpecNode::Empty,
            Node::Element(e) => SpecNode::Element(e.model()),
            Node::Text(body) => SpecNode::Text(body@),
            Node::Comment => SpecNode::Comment,
        }
    }
}

/// The models of a sequence of nodes, in order.
pub open spec fn nodes_model(nodes: Seq<Node>) -> Seq<SpecNode>
    decreases nodes,
{
    Seq::new(
        nodes.len(),
        |i: int|
            if 0 <= i < nodes.len() {
                nodes[i].model()
            } else {
                SpecNode::Empty
            },
    )
}

impl HTMLElement {
    /// The element as plain values.
    pub closed spec fn model(self) -> SpecElement
        decreases self,
    {
        SpecElement {
            name: self.name@,
            attrs: attrs_model(self.attrs@),
            children: nodes_model(self.children@),
        }
    }
}

impl View for Node {
    type V = SpecNode;

    open spec fn view(&self) -> SpecNode {
        self.model()
    }
}

impl View for HTMLElement {
    type V = SpecElement;

    open spec fn view(&self) -> SpecElement {
        self.model()
    }
}

impl HTMLElement {
    /// The element called `name`, without attributes and children.
    pub fn new(name: String) -> (element: HTMLElement)
        ensures
            element@ == bare(name@),
    {
        let element = HTMLElement { name, attrs: Vec::new(), children: Vec::new() };
        assert(attrs_model(element.attrs@) =~= Seq::empty());
        assert(nodes_model(element.children@) =~= Seq::empty());
        element
    }

    /// Adds an attribute behind those that the element has.
    pub fn push_attr(&mut self, name: String, value: String)
        ensures
            final(self)@ == with_attr(old(self)@, name@, value@),
    {
        self.attrs.push((name, value));
        assert(attrs_model(self.attrs@) =~= attrs_model(old(self).attrs@).push((name@, value@)));
    }

    /// Adds a child behind those that the element has.
    pub fn push_child(&mut self, child: Node)
        ensures
            final(self)@ == with_children(old(self)@, seq![child@]),
    {
        self.children.push(child);
        assert(nodes_model(self.children@) =~= nodes_model(old(self).children@) + seq![child@]);
    }

    /// Adds children behind those that the element has, in their order.
    pub fn push_children(&mut self, nodes: Vec<Node>)
        ensures
            final(self)@ == with_children(old(self)@, nodes_model(nodes@)),
    {
        let ghost added = nodes@;
        let mut nodes = nodes;
        self.children.append(&mut nodes);
        assert(nodes_model(self.children@) =~= nodes_model(old(self).children@) + nodes_model(
            added,
        ));
    }

    /// The name of the element.
    pub fn name(&self) -> (name: &String)
        ensures
            name@ == self@.name,
    {
        &self.name
    }

    /// The attributes as pairs of name and value, in their order.
    pub fn attrs(&self) -> (attrs: &Vec<(String, String)>)
        ensures
            attrs_model(attrs@) == self@.attrs,
    {
        &self.attrs
    }

    /// The children in their order.
    pub fn children(&self) -> (children: &Vec<Node>)
        ensures
            nodes_model(children@) == self@.children,
    {
        &self.children
    }
}

/// Whether `name` is the word `word`.
fn is_word(name: &String, word: &str) -> (same: bool)
    ensures
        same == (name@ == word@),
{
    *name == String::from_str(word)
}

/// Whether `name` is a void element.
pub fn void_element(name: &String) -> (void: bool)
    ensures
        void == is_void(name@),
{
    is_word(name, "area") || is_word(name, "base") || is_word(name, "br")
        || is_word(name, "col") || is_word(name, "embed") || is_word(name, "hr")
        || is_word(name, "img") || is_word(name, "input") || is_word(name, "link")
        || is_word(name, "meta") || is_word(name, "param") || is_word(name, "source")
        || is_word(name, "track") || is_word(name, "wbr")
}

/// The indentation of a line at `depth`.
pub fn indent_text(depth: usize) -> (text: String)
    ensures
        text@ == indentation(depth as nat),
{
    let mut text = String::new();
    let mut level: usize = 0;
    while level < depth
        invariant
            level <= depth,
            text@ == indentation(level as nat),
        decreases depth - level,
    {
        text.append("  ");
        level += 1;
    }
    text
}

impl HTMLElement {
    /// The element as HTML text, indented `indent` levels deep.
    pub fn render(&self, indent: usize) -> (html: String)
        ensures
            html@ == element_text(self@, indent as nat),
    {
        let prefix = indent_text(indent);
        self.render_within(&prefix, Ghost(indent as nat))
    }

    /// The attributes of the element as they stand in the opening tag.
    fn render_attrs(&self) -> (text: String)
        ensures
            text@ == attrs_text(self@.attrs),
    {
        let mut text = String::new();
        let mut k: usize = 0;
        while k < self.attrs.len()
            invariant
                k <= self.attrs.len(),
                text@ == attrs_text(attrs_model(self.attrs@).take(k as int)),
            decreases self.attrs.len() - k,
        {
            let ghost shown = attrs_model(self.attrs@).take(k as int);
            let pair = &self.attrs[k];
            text.push(' ');
            text.append(pair.0.as_str());
            text.append("=\"");
            text.append(pair.1.as_str());
            text.push('"');
            k += 1;
            proof {
                reveal_strlit(" ");
                reveal_strlit("\"");
                let next = attrs_model(self.attrs@).take(k as int);
                assert(next.drop_last() =~= shown);
                assert(next.last() == (pair.0@, pair.1@));
                assert(text@ =~= attrs_text(shown) + attr_text(next.last()));
            }
        }
        assert(attrs_model(self.attrs@).take(k as int) =~= attrs_model(self.attrs@));
        text
    }

    /// The element as HTML text behind `prefix`, the indentation of `depth`.
    fn render_within(&self, prefix: &String, Ghost(depth): Ghost<nat>) -> (html: String)
        requires
            prefix@ == indentation(depth),
        ensures
            html@ == element_text(self@, depth),
        decreases self,
    {
        let mut html = String::new();
        html.append(prefix.as_str());
        html.push('<');
        html.append(self.name.as_str());
        let attrs = self.render_attrs();
        html.append(attrs.as_str());
        html.push('>');
        if self.children.len() > 0 || self.attrs.len() > 0 {
            html.push('\n');
        }
        proof {
            reveal_strlit("<");
            reveal_strlit(">");
            reveal_strlit("\n");
            assert(html@ =~= open_tag(self@, depth));
        }
        if void_element(&self.name) {
            html.push('\n');
            assert(html@ =~= element_text(self@, depth));
        } else {
            let mut deeper = String::new();
            deeper.append(prefix.as_str());
            deeper.append("  ");
            assert(deeper@ =~= indentation(depth + 1));
            let ghost kids = nodes_model(self.children@);
            let mut k: usize = 0;
            while k < self.children.len()
                invariant
                    k <= self.children.len(),
                    kids == nodes_model(self.children@),
                    deeper@ == indentation(depth + 1),
                    html@ == open_tag(self@, depth) + children_text(kids.take(k as int), depth + 1),
                decreases self.children.len() - k,
            {
                let ghost shown = kids.take(k as int);
                let ghost before = html@;
                match &self.children[k] {
                    Node::Element(e) => {
                        let inner = e.render_within(&deeper, Ghost(depth + 1));
                        html.append(inner.as_str());
                    },
                    Node::Text(body) => {
                        html.append(deeper.as_str());
                        html.append(body.as_str());
                        html.push('\n');
                    },
                    _ => {},
                }
                k += 1;
                proof {
                    reveal_strlit("\n");
                    let next = kids.take(k as int);
                    let piece = match next.last() {
                        SpecNode::Element(e) => element_text(e, depth + 1),
                        SpecNode::Text(body) => indentation(depth + 1) + body + "\n"@,
                        _ => Seq::empty(),
                    };
                    assert(next.drop_last() =~= shown);
                    assert(next.last() == self.children@[k - 1].model());
                    assert(html@ =~= before + piece);
                    assert(children_text(next, depth + 1) == children_text(shown, depth + 1)
                        + piece);
                    assert(html@ =~= open_tag(self@, depth) + children_text(next, depth + 1));
                }
            }
            assert(kids.take(k as int) =~= kids);
            html.append(prefix.as_str());
            html.append("</");
            html.append(self.name.as_str());
            html.append(">\n");
            assert(html@ =~= element_text(self@, depth));
        }
        html
    }
}

pub struct Parser {
    tokens: Vec<Token>,
    index: usize,
}

impl Parser {
    /// The tokens that the parser reads.
    pub closed spec fn input(&self) -> Seq<SpecToken> {
        tokens_model(self.tokens@)
    }

    /// The index of the next token to read.
    pub closed spec fn position(&self) -> int {
        self.index as int
    }

    /// The number of tokens that are left to read.
    pub closed spec fn unread(&self) -> nat {
        if self.index <= self.tokens.len() {
            (self.tokens.len() - self.index) as nat
        } else {
            0
        }
    }

    /// The position lies within the tokens, or at their end.
    pub closed spec fn wf(&self) -> bool {
        self.index <= self.tokens.len()
    }

    /// `self` is `before`, with `n` more tokens read.
    pub open spec fn advanced(&self, before: &Parser, n: int) -> bool {
        &&& self.wf()
        &&& self.input() == before.input()
        &&& self.position() == before.position() + n
    }

    pub fn new(tokens: Vec<Token>) -> (parser: Parser)
        ensures
            parser.wf(),
            parser.input() == tokens_model(tokens@),
            parser.position() == 0,
    {
        Parser { tokens, index: 0 }
    }

    /// A copy of the next token, if there is one.
    fn peek(&self) -> (token: Option<Token>)
        requires
            self.wf(),
        ensures
            match token {
                Some(t) => self.position() < self.input().len() && t@ == self.input()[self.position()],
                None => self.position() >= self.input().len(),
            },
    {
        if self.tokens.len() > self.index {
            let token = self.tokens[self.index].clone();
            Some(token)
        } else {
            None
        }
    }

    /// Reads the next token, if there is one.
    fn next(&mut self) -> (token: Option<Token>)
        requires
            old(self).wf(),
        ensures
            match token {
                Some(t) => old(self).position() < old(self).input().len() && t@ == old(
                    self,
                ).input()[old(self).position()] && final(self).advanced(old(self), 1),
                None => old(self).position() >= old(self).input().len() && final(self).advanced(
                    old(self),
                    0,
                ),
            },
    {
        if self.tokens.len() > self.index {
            let token = self.tokens[self.index].clone();
            self.index += 1;
            Some(token)
        } else {
            None
        }
    }
    /// Builds the element called `name` from the tokens that follow.
    fn create_element(&mut self, name: String) -> (element: HTMLElement)
        requires
            old(self).wf(),
        ensures
            ({
                let built = element_from(old(self).input(), old(self).position(), bare(name@));
                &&& element@ == built.element
                &&& final(self).advanced(old(self), built.used as int)
            }),
        decreases old(self).unread(), 1nat,
    {
        let element = HTMLElement::new(name);
        self.extend_element(element)
    }

    /// Extends `element` by the tokens that follow: attributes, text, and
    /// the children of an indented block or behind a colon.
    fn extend_element(&mut self, element: HTMLElement) -> (done: HTMLElement)
        requires
            old(self).wf(),
        ensures
            ({
                let built = element_from(old(self).input(), old(self).position(), element@);
                &&& done@ == built.element
                &&& final(self).advanced(old(self), built.used as int)
            }),
        decreases old(self).unread(), 0nat,
    {
        let ghost tokens = self.input();
        let ghost start = self.index as int;
        let ghost built = element_from(tokens, start, element@);
        let mut element = element;
        let mut running = true;
        while running
            invariant
                self.advanced(old(self), self.index - start),
                start == old(self).index,
                tokens == self.input(),
                start <= self.index,
                running ==> built.element == element_from(
                    tokens,
                    self.index as int,
                    element@,
                ).element,
                running ==> built.used == (self.index - start) + element_from(
                    tokens,
                    self.index as int,
                    element@,
                ).used,
                !running ==> built.element == element@,
                !running ==> built.used == self.index - start,
            decreases self.tokens.len() - self.index + (if running { 1int } else { 0int }),
        {
            match self.peek() {
                Some(t) => {
                    match t.get_type() {
                        TokenType::Id(value) => {
                            self.next();
                            element.push_attr(String::from_str("id"), value.clone());
                        },
                        TokenType::Class(value) => {
                            self.next();
                            element.push_attr(String::from_str("class"), value.clone());
                        },
                        TokenType::Attr(name, value) => {
                            self.next();
                            element.push_attr(name.clone(), value.clone());
                        },
                        TokenType::Text(body) => {
                            self.next();
                            element.push_child(Node::Text(body.clone()));
                        },
                        TokenType::NewLine => {
                            self.next();
                            match self.peek() {
                                Some(u) => {
                                    match u.get_type() {
                                        TokenType::NewLine | TokenType::Tag(_) => {
                                            running = false;
                                        },
                                        _ => {},
                                    }
                                },
                                None => {
                                    running = false;
                                },
                            }
                        },
                        TokenType::Indent => {
                            self.next();
                            let nodes = self.parse();
                            element.push_children(nodes);
                        },
                        TokenType::Colon => {
                            self.next();
                            let node = self.parse_one();
                            element.push_child(node);
                        },
                        _ => {
                            running = false;
                        },
                    }
                },
                None => {
                    running = false;
                },
            }
        }
        element
    }

    /// Builds the one node that starts at the next token, which is used up
    /// whatever it is. At the end of the tokens the node is empty.
    pub fn parse_one(&mut self) -> (node: Node)
        requires
            old(self).wf(),
        ensures
            ({
                let parsed = node_at(old(self).input(), old(self).position());
                &&& node@ == parsed.node
                &&& final(self).advanced(old(self), parsed.used as int)
            }),
        decreases old(self).unread(), 2nat,
    {
        match self.next() {
            Some(t) => {
                match t.get_type() {
                    TokenType::Text(body) => Node::Text(body.clone()),
                    TokenType::Tag(name) => {
                        let element = self.create_element(name.clone());
                        Node::Element(Box::new(element))
                    },
                    TokenType::Id(id) => {
                        let mut element = HTMLElement::new(String::from_str("div"));
                        element.push_attr(String::from_str("id"), id.clone());
                        let element = self.extend_element(element);
                        Node::Element(Box::new(element))
                    },
                    TokenType::Class(name) => {
                        let mut element = HTMLElement::new(String::from_str("div"));
                        element.push_attr(String::from_str("class"), name.clone());
                        let element = self.extend_element(element);
                        Node::Element(Box::new(element))
                    },
                    _ => Node::Empty,
                }
            },
            None => Node::Empty,
        }
    }

    /// Builds the nodes of one block: up to the `Outdent` that ends it, which
    /// is used up, or to the end of the tokens.
    pub fn parse(&mut self) -> (nodes: Vec<Node>)
        requires
            old(self).wf(),
        ensures
            ({
                let parsed = block_at(old(self).input(), old(self).position());
                &&& nodes_model(nodes@) == parsed.nodes
                &&& final(self).advanced(old(self), parsed.used as int)
            }),
        decreases old(self).unread(), 3nat,
    {
        let ghost tokens = self.input();
        let ghost start = self.index as int;
        let ghost parsed = block_at(tokens, start);
        let mut nodes: Vec<Node> = Vec::new();
        let mut running = true;
        assert(nodes_model(nodes@) =~= Seq::empty());
        while running
            invariant
                self.advanced(old(self), self.index - start),
                start == old(self).index,
                tokens == self.input(),
                start <= self.index,
                running ==> parsed.nodes == nodes_model(nodes@) + block_at(
                    tokens,
                    self.index as int,
                ).nodes,
                running ==> parsed.used == (self.index - start) + block_at(
                    tokens,
                    self.index as int,
                ).used,
                !running ==> parsed.nodes == nodes_model(nodes@),
                !running ==> parsed.used == self.index - start,
            decreases self.tokens.len() - self.index + (if running { 1int } else { 0int }),
        {
            let ghost shown = nodes_model(nodes@);
            proof {
                assert(shown + Seq::<SpecNode>::empty() =~= shown);
            }
            match self.peek() {
                Some(t) => {
                    match t.get_type() {
                        TokenType::Outdent => {
                            self.next();
                            running = false;
                        },
                        TokenType::NewLine | TokenType::Slash => {
                            self.next();
                        },
                        _ => {
                            let ghost i = self.index as int;
                            let node = self.parse_one();
                            nodes.push(node);
                            proof {
                                let first = node_behind(tokens, i);
                                let rest = block_at(tokens, i + 1 + first.used);
                                assert(nodes_model(nodes@) =~= shown.push(node@));
                                assert(shown + (seq![first.node] + rest.nodes) =~= shown.push(
                                    node@,
                                ) + rest.nodes);
                            }
                        },
                    }
                },
                None => {
                    running = false;
                },
            }
        }
        nodes
    }
}

} // verus!
