use pugc::lex::{Lexer, Token, TokenType};
use pugc::parse::{HTMLElement, Node, Parser};

fn parse(src: &str) -> Vec<Node> {
    let mut lexer = Lexer::new(src.to_string());
    lexer.tokenize();
    Parser::new(lexer.get_tokens()).parse()
}

fn element(name: &str, attrs: &[(&str, &str)], children: Vec<Node>) -> Node {
    let mut e = HTMLElement::new(name.to_string());
    for (n, v) in attrs {
        e.push_attr(n.to_string(), v.to_string());
    }
    for c in children {
        e.push_child(c);
    }
    Node::Element(Box::new(e))
}

fn text(body: &str) -> Node {
    Node::Text(body.to_string())
}

fn token(ty: TokenType) -> Token {
    Token::new(ty, 0, 0)
}

#[test]
fn colon_chain_nests() {
    let nodes = parse("a: b: c");
    assert_eq!(nodes.len(), 1);
    let a = match &nodes[0] {
        Node::Element(e) => e,
        other => panic!("not an element: {:?}", other),
    };
    assert_eq!(a.name(), "a");
    assert_eq!(a.children().len(), 1);
    let b = match &a.children()[0] {
        Node::Element(e) => e,
        other => panic!("not an element: {:?}", other),
    };
    assert_eq!(b.name(), "b");
    assert_eq!(b.children().len(), 1);
    let c = match &b.children()[0] {
        Node::Element(e) => e,
        other => panic!("not an element: {:?}", other),
    };
    assert_eq!(c.name(), "c");
    assert_eq!(c.children().len(), 0);
}

#[test]
fn no_tokens_no_nodes() {
    assert_eq!(parse(""), vec![]);
    assert_eq!(Parser::new(vec![]).parse_one(), Node::Empty);
}

#[test]
fn tag_with_modifiers_in_token_order() {
    assert_eq!(
        parse("a.x#y(href=\"u\" class=\"z\")"),
        vec![element(
            "a",
            &[("class", "x"), ("id", "y"), ("href", "u"), ("class", "z")],
            vec![]
        )]
    );
}

#[test]
fn id_starts_a_div_with_the_id_first() {
    assert_eq!(
        parse("#foo.bar"),
        vec![element("div", &[("id", "foo"), ("class", "bar")], vec![])]
    );
    assert_eq!(parse("#foo.bar"), parse("div#foo.bar"));
}

#[test]
fn class_starts_a_div_with_the_class_first() {
    assert_eq!(
        parse(".bar#foo(x=1)"),
        vec![element("div", &[("class", "bar"), ("id", "foo"), ("x", "1")], vec![])]
    );
}

#[test]
fn inline_text_is_a_child() {
    assert_eq!(parse("p hello"), vec![element("p", &[], vec![text("hello")])]);
}

#[test]
fn top_level_text_is_a_node() {
    assert_eq!(parse("| hello"), vec![text("hello")]);
}

#[test]
fn indented_block_gives_children() {
    assert_eq!(
        parse("ul\n  li a\n  li b\np"),
        vec![
            element(
                "ul",
                &[],
                vec![
                    element("li", &[], vec![text("a")]),
                    element("li", &[], vec![text("b")]),
                ]
            ),
            element("p", &[], vec![]),
        ]
    );
}

#[test]
fn several_levels_close_at_once() {
    assert_eq!(
        parse("a\n  b\n    c\nd\n"),
        vec![
            element("a", &[], vec![element("b", &[], vec![element("c", &[], vec![])])]),
            element("d", &[], vec![]),
        ]
    );
}

#[test]
fn line_feed_before_a_modifier_goes_on() {
    assert_eq!(
        parse("a\n.x"),
        vec![element("a", &[("class", "x")], vec![])]
    );
    assert_eq!(parse("a\n| t"), vec![element("a", &[], vec![text("t")])]);
}

#[test]
fn blank_line_ends_the_element() {
    assert_eq!(
        parse("a\n\n.x"),
        vec![element("a", &[], vec![]), element("div", &[("class", "x")], vec![])]
    );
}

#[test]
fn slash_ends_the_modifiers() {
    assert_eq!(
        parse("a/.x"),
        vec![element("a", &[], vec![]), element("div", &[("class", "x")], vec![])]
    );
}

#[test]
fn colon_child_is_one_node() {
    assert_eq!(
        parse("a: b\nc"),
        vec![
            element("a", &[], vec![element("b", &[], vec![])]),
            element("c", &[], vec![]),
        ]
    );
    assert_eq!(parse("a: | t"), vec![element("a", &[], vec![text("t")])]);
}

#[test]
fn colon_at_the_end_gives_an_empty_child() {
    assert_eq!(parse("a:"), vec![element("a", &[], vec![Node::Empty])]);
}

#[test]
fn unexpected_token_gives_an_empty_node() {
    assert_eq!(parse(":"), vec![Node::Empty]);
    assert_eq!(parse("(a=1)"), vec![Node::Empty]);
    assert_eq!(
        parse("doctype html\nhtml"),
        vec![Node::Empty, element("html", &[], vec![])]
    );
    let mut parser = Parser::new(vec![token(TokenType::Colon), token(TokenType::Indent)]);
    assert_eq!(parser.parse_one(), Node::Empty);
    assert_eq!(parser.parse_one(), Node::Empty);
    assert_eq!(parser.parse_one(), Node::Empty);
}

#[test]
fn parse_one_uses_up_one_construct() {
    let mut parser = Parser::new(vec![
        token(TokenType::Tag("a".to_string())),
        token(TokenType::Class("x".to_string())),
        token(TokenType::Tag("b".to_string())),
        token(TokenType::Text("t".to_string())),
    ]);
    assert_eq!(parser.parse_one(), element("a", &[("class", "x")], vec![]));
    assert_eq!(parser.parse_one(), element("b", &[], vec![text("t")]));
    assert_eq!(parser.parse_one(), Node::Empty);
}

#[test]
fn outdent_ends_the_block_and_is_used_up() {
    let mut parser = Parser::new(vec![
        token(TokenType::Tag("a".to_string())),
        token(TokenType::Outdent),
        token(TokenType::Tag("b".to_string())),
    ]);
    assert_eq!(parser.parse(), vec![element("a", &[], vec![])]);
    assert_eq!(parser.parse(), vec![element("b", &[], vec![])]);
    assert_eq!(parser.parse(), vec![]);
}

#[test]
fn element_keeps_what_was_pushed() {
    let mut e = HTMLElement::new("a".to_string());
    assert_eq!(e.name(), "a");
    assert!(e.attrs().is_empty());
    assert!(e.children().is_empty());
    e.push_attr("x".to_string(), "1".to_string());
    e.push_attr("x".to_string(), "2".to_string());
    e.push_child(Node::Comment);
    e.push_children(vec![text("t"), Node::Empty]);
    assert_eq!(
        e.attrs(),
        &vec![("x".to_string(), "1".to_string()), ("x".to_string(), "2".to_string())]
    );
    assert_eq!(e.children(), &vec![Node::Comment, text("t"), Node::Empty]);
}
