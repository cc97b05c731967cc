use pugc::lex::{LexError, Lexer, Token, TokenType};
use pugc::lexical::LexErrorKind;

fn lex(src: &str) -> Vec<Token> {
    let mut lexer = Lexer::new(src.to_string());
    lexer.tokenize();
    lexer.get_tokens()
}

fn lex_error(src: &str) -> Option<LexError> {
    let mut lexer = Lexer::new(src.to_string());
    lexer.tokenize();
    lexer.error()
}

fn tag(name: &str, start: usize, end: usize) -> Token {
    Token::new(TokenType::Tag(name.to_string()), start, end)
}

fn text(body: &str, start: usize, end: usize) -> Token {
    Token::new(TokenType::Text(body.to_string()), start, end)
}

fn attr(name: &str, value: &str, start: usize, end: usize) -> Token {
    Token::new(TokenType::Attr(name.to_string(), value.to_string()), start, end)
}

fn count(tokens: &[Token], ty: &TokenType) -> usize {
    tokens.iter().filter(|t| t.get_type() == ty).count()
}

#[test]
fn empty_source_has_no_tokens() {
    assert_eq!(lex(""), vec![]);
    assert_eq!(lex_error(""), None);
}

#[test]
fn fresh_lexer_has_no_tokens() {
    let lexer = Lexer::new("html".to_string());
    assert_eq!(lexer.get_tokens(), vec![]);
    assert_eq!(lexer.error(), None);
}

#[test]
fn tokenize_twice_gives_the_same_tokens() {
    let mut lexer = Lexer::new("div: span\n  p text\n".to_string());
    lexer.tokenize();
    let first = lexer.get_tokens();
    lexer.tokenize();
    assert_eq!(lexer.get_tokens(), first);
    assert_eq!(first.len(), 9);
}

#[test]
fn two_classes_short() {
    assert_eq!(
        lex(".a.b"),
        vec![
            Token::new(TokenType::Class("a".to_string()), 0, 2),
            Token::new(TokenType::Class("b".to_string()), 2, 4),
        ]
    );
}

#[test]
fn two_attributes_short() {
    assert_eq!(
        lex(r#"(aa=AA bb="B B")"#),
        vec![attr("aa", "AA", 1, 6), attr("bb", "B B", 7, 15)]
    );
}

#[test]
fn tag_takes_letters_digits_hyphen_underscore() {
    assert_eq!(lex("my-tag_1"), vec![tag("my-tag_1", 0, 8)]);
    assert_eq!(lex("h1"), vec![tag("h1", 0, 2)]);
}

#[test]
fn doctype_takes_the_rest_of_the_line_as_name() {
    assert_eq!(
        lex("doctype xml"),
        vec![Token::new(TokenType::Doctype("xml".to_string()), 0, 11)]
    );
    assert_eq!(
        lex("doctype html\nhtml"),
        vec![
            Token::new(TokenType::Doctype("html".to_string()), 0, 12),
            tag("html", 13, 17),
        ]
    );
}

#[test]
fn doctype_needs_a_name() {
    assert_eq!(lex("doctype "), vec![tag("doctype", 0, 7)]);
    assert_eq!(lex("doctype"), vec![tag("doctype", 0, 7)]);
    assert_eq!(lex("doctype \nhtml").len(), 3);
}

#[test]
fn doctype_only_on_the_first_line() {
    assert_eq!(
        lex("html\ndoctype html"),
        vec![
            tag("html", 0, 4),
            Token::new(TokenType::NewLine, 4, 5),
            tag("doctype", 5, 12),
            text("html", 12, 17),
        ]
    );
}

#[test]
fn text_after_a_tag() {
    assert_eq!(lex("p hello world"), vec![tag("p", 0, 1), text("hello world", 1, 13)]);
}

#[test]
fn text_markers() {
    assert_eq!(lex("| hello"), vec![text("hello", 0, 7)]);
    assert_eq!(lex("|hello"), vec![text("hello", 0, 6)]);
    assert_eq!(lex(" hello"), vec![text("hello", 0, 6)]);
    assert_eq!(lex("|  hello"), vec![text(" hello", 0, 8)]);
}

#[test]
fn text_without_body_gives_no_token() {
    assert_eq!(lex("p "), vec![tag("p", 0, 1)]);
    assert_eq!(lex("|"), vec![]);
    assert_eq!(lex("| "), vec![]);
    assert_eq!(lex_error("|"), None);
}

#[test]
fn text_stops_at_the_line_feed() {
    assert_eq!(
        lex("p a\nq"),
        vec![
            tag("p", 0, 1),
            text("a", 1, 3),
            Token::new(TokenType::NewLine, 3, 4),
            tag("q", 4, 5),
        ]
    );
}

#[test]
fn spans_are_byte_offsets() {
    assert_eq!(
        lex("p é\nq"),
        vec![
            tag("p", 0, 1),
            text("é", 1, 4),
            Token::new(TokenType::NewLine, 4, 5),
            tag("q", 5, 6),
        ]
    );
    assert_eq!(lex("p ページ"), vec![tag("p", 0, 1), text("ページ", 1, 11)]);
    assert_eq!(lex("p 😀!"), vec![tag("p", 0, 1), text("😀!", 1, 7)]);
}

#[test]
fn selector_without_name_gives_no_token() {
    assert_eq!(lex("#"), vec![]);
    assert_eq!(lex(".#a"), vec![Token::new(TokenType::Id("a".to_string()), 1, 3)]);
}

#[test]
fn slash_is_one_character() {
    assert_eq!(lex("br/"), vec![tag("br", 0, 2), Token::new(TokenType::Slash, 2, 3)]);
}

#[test]
fn colon_takes_the_spaces_after_it() {
    assert_eq!(
        lex("a:   b"),
        vec![tag("a", 0, 1), Token::new(TokenType::Colon, 1, 2), tag("b", 5, 6)]
    );
}

#[test]
fn indent_and_outdent() {
    assert_eq!(
        lex("a\n  b\nc"),
        vec![
            tag("a", 0, 1),
            Token::new(TokenType::NewLine, 1, 2),
            Token::new(TokenType::Indent, 2, 4),
            tag("b", 4, 5),
            Token::new(TokenType::NewLine, 5, 6),
            Token::new(TokenType::Outdent, 6, 6),
            tag("c", 6, 7),
        ]
    );
}

#[test]
fn equal_indentation_gives_no_token() {
    assert_eq!(
        lex("a\nb"),
        vec![tag("a", 0, 1), Token::new(TokenType::NewLine, 1, 2), tag("b", 2, 3)]
    );
}

#[test]
fn one_outdent_for_each_level_left() {
    let tokens = lex("a\n  b\n    c\nd");
    assert_eq!(
        tokens,
        vec![
            tag("a", 0, 1),
            Token::new(TokenType::NewLine, 1, 2),
            Token::new(TokenType::Indent, 2, 4),
            tag("b", 4, 5),
            Token::new(TokenType::NewLine, 5, 6),
            Token::new(TokenType::Indent, 6, 10),
            tag("c", 10, 11),
            Token::new(TokenType::NewLine, 11, 12),
            Token::new(TokenType::Outdent, 12, 12),
            Token::new(TokenType::Outdent, 12, 12),
            tag("d", 12, 13),
        ]
    );
}

#[test]
fn outdent_to_a_level_that_was_never_open() {
    let tokens = lex("a\n    b\n  c\n  d");
    let types: Vec<&TokenType> = tokens.iter().map(|t| t.get_type()).collect();
    assert_eq!(
        types,
        vec![
            &TokenType::Tag("a".to_string()),
            &TokenType::NewLine,
            &TokenType::Indent,
            &TokenType::Tag("b".to_string()),
            &TokenType::NewLine,
            &TokenType::Outdent,
            &TokenType::Tag("c".to_string()),
            &TokenType::NewLine,
            &TokenType::Indent,
            &TokenType::Tag("d".to_string()),
        ]
    );
    assert_eq!(tokens[5], Token::new(TokenType::Outdent, 8, 10));
}

#[test]
fn blank_line_leaves_and_reopens_the_level() {
    let tokens = lex("a\n  b\n\n  c");
    let types: Vec<&TokenType> = tokens.iter().map(|t| t.get_type()).collect();
    assert_eq!(
        types,
        vec![
            &TokenType::Tag("a".to_string()),
            &TokenType::NewLine,
            &TokenType::Indent,
            &TokenType::Tag("b".to_string()),
            &TokenType::NewLine,
            &TokenType::Outdent,
            &TokenType::NewLine,
            &TokenType::Indent,
            &TokenType::Tag("c".to_string()),
        ]
    );
}

#[test]
fn indents_and_outdents_balance_when_the_text_ends_at_level_zero() {
    let src = "html\n  head\n    title t\n  body\n    .a\n      #b\n        p x\n";
    let tokens = lex(src);
    assert_eq!(count(&tokens, &TokenType::Indent), 5);
    assert_eq!(count(&tokens, &TokenType::Outdent), 5);
}

#[test]
fn indents_exceed_outdents_by_the_open_levels() {
    let tokens = lex("a\n  b\n    c");
    assert_eq!(count(&tokens, &TokenType::Indent), 2);
    assert_eq!(count(&tokens, &TokenType::Outdent), 0);
    let tokens = lex("a\n  b\n    c\n  d");
    assert_eq!(count(&tokens, &TokenType::Indent), 2);
    assert_eq!(count(&tokens, &TokenType::Outdent), 1);
}

#[test]
fn attribute_without_value() {
    assert_eq!(lex("(checked)"), vec![attr("checked", "", 1, 8)]);
    assert_eq!(lex("(a b)"), vec![attr("a", "", 1, 3), attr("b", "", 3, 4)]);
}

#[test]
fn attribute_with_empty_value() {
    assert_eq!(lex("(a=)"), vec![attr("a", "", 1, 3)]);
    assert_eq!(lex("(a= b)"), vec![attr("a", "", 1, 4), attr("b", "", 4, 5)]);
    assert_eq!(lex("(a=\"\")"), vec![attr("a", "", 1, 5)]);
}

#[test]
fn attribute_quotes() {
    assert_eq!(lex("(a='x y')"), vec![attr("a", "x y", 1, 8)]);
    assert_eq!(lex("(a=\"it's\")"), vec![attr("a", "it's", 1, 9)]);
    assert_eq!(lex("(a=\"x\\\" b)"), vec![attr("a", "x\\", 1, 7), attr("b", "", 8, 9)]);
}

#[test]
fn attribute_list_over_lines() {
    assert_eq!(
        lex("a(x=1\n  y=2)"),
        vec![tag("a", 0, 1), attr("x", "1", 2, 5), attr("y", "2", 8, 11)]
    );
}

#[test]
fn attribute_list_ends_at_another_character() {
    let mut lexer = Lexer::new("(a,b)".to_string());
    lexer.tokenize();
    assert_eq!(lexer.get_tokens(), vec![attr("a", "", 1, 2)]);
    assert_eq!(
        lexer.error(),
        Some(LexError { kind: LexErrorKind::UnexpectedChar, offset: 2 })
    );
    assert_eq!(
        lex("(a#b"),
        vec![attr("a", "", 1, 2), Token::new(TokenType::Id("b".to_string()), 2, 4)]
    );
}

#[test]
fn unclosed_attribute_list_stops_the_lexer() {
    let mut lexer = Lexer::new("a(x=1".to_string());
    lexer.tokenize();
    assert_eq!(lexer.get_tokens(), vec![tag("a", 0, 1), attr("x", "1", 2, 5)]);
    assert_eq!(
        lexer.error(),
        Some(LexError { kind: LexErrorKind::UnclosedAttributes, offset: 5 })
    );
    assert_eq!(
        lex_error("("),
        Some(LexError { kind: LexErrorKind::UnclosedAttributes, offset: 1 })
    );
    assert_eq!(
        lex_error("(a="),
        Some(LexError { kind: LexErrorKind::UnclosedAttributes, offset: 3 })
    );
}

#[test]
fn unclosed_quote_stops_the_lexer() {
    let mut lexer = Lexer::new("a(x=1 y=\"z) b".to_string());
    lexer.tokenize();
    assert_eq!(lexer.get_tokens(), vec![tag("a", 0, 1), attr("x", "1", 2, 5)]);
    assert_eq!(
        lexer.error(),
        Some(LexError { kind: LexErrorKind::UnclosedQuote, offset: 8 })
    );
}

#[test]
fn unexpected_character_stops_the_lexer() {
    let mut lexer = Lexer::new("div\tp".to_string());
    lexer.tokenize();
    assert_eq!(lexer.get_tokens(), vec![tag("div", 0, 3)]);
    assert_eq!(
        lexer.error(),
        Some(LexError { kind: LexErrorKind::UnexpectedChar, offset: 3 })
    );
    assert_eq!(
        lex_error("\tdiv"),
        Some(LexError { kind: LexErrorKind::UnexpectedChar, offset: 0 })
    );
    assert_eq!(
        lex_error("a\n\tb"),
        Some(LexError { kind: LexErrorKind::UnexpectedChar, offset: 2 })
    );
    assert_eq!(
        lex_error("é"),
        Some(LexError { kind: LexErrorKind::UnexpectedChar, offset: 0 })
    );
    assert_eq!(lex_error("1"), Some(LexError { kind: LexErrorKind::UnexpectedChar, offset: 0 }));
}

#[test]
fn complete_text_has_no_error() {
    assert_eq!(lex_error("a(x=1)\n  b text\n"), None);
}

#[test]
fn token_source_is_the_spanned_text() {
    let mut lexer = Lexer::new("div(id=\"x\") é\n  p".to_string());
    lexer.tokenize();
    let tokens = lexer.get_tokens();
    let sources: Vec<String> = tokens.iter().map(|t| lexer.token_source(t)).collect();
    assert_eq!(sources, vec!["div", "id=\"x\"", " é", "<LF>", "  ", "p"]);
}

#[test]
fn token_source_shows_tabs_and_line_feeds() {
    let lexer = Lexer::new("a\tb\nc".to_string());
    assert_eq!(lexer.token_source(&Token::new(TokenType::Slash, 0, 5)), "a<Tab>b<LF>c");
    assert_eq!(lexer.token_source(&Token::new(TokenType::Slash, 1, 2)), "<Tab>");
    assert_eq!(lexer.token_source(&Token::new(TokenType::Slash, 2, 2)), "");
}

#[test]
fn token_keeps_what_it_was_made_of() {
    let token = Token::new(TokenType::Id("x".to_string()), 3, 5);
    assert_eq!(*token.get_type(), TokenType::Id("x".to_string()));
    assert_eq!(token.start(), 3);
    assert_eq!(token.end(), 5);
    assert_eq!(token.clone(), token);
}

#[test]
fn no_prefix_holds_more_outdents_than_indents() {
    for src in [
        "a\n  b\n    c\nd\n  e\n",
        "a\n    b\n  c\n d\n\n   e\n",
        "\n\n  a\n\n b\n",
        "doctype html\n  a\nb\n      c(x=1)\n   d",
    ] {
        let tokens = lex(src);
        let mut depth: i64 = 0;
        for token in &tokens {
            match token.get_type() {
                TokenType::Indent => depth += 1,
                TokenType::Outdent => depth -= 1,
                _ => {}
            }
            assert!(depth >= 0);
        }
    }
}

#[test]
fn every_span_is_a_part_of_the_text() {
    let src = "doctype html\nh(a=\"ü\" b)\n  | ページ\n  #x.y: z/\n";
    let mut lexer = Lexer::new(src.to_string());
    lexer.tokenize();
    assert_eq!(lexer.error(), None);
    for token in lexer.get_tokens() {
        assert!(token.start() <= token.end());
        assert!(src.is_char_boundary(token.start()));
        assert!(src.is_char_boundary(token.end()));
        let shown = lexer.token_source(&token);
        let part = &src[token.start()..token.end()];
        assert_eq!(shown, part.replace('\n', "<LF>"));
    }
}
