//! A compiler from an indentation-based markup language to HTML text.
//!
//! The pipeline has three stages: [`lex`] turns the source text into tokens,
//! [`parse`] builds a tree of nodes from the tokens, and [`render`] writes the
//! tree out as HTML.
pub mod html;
pub mod laws;
pub mod lex;
pub mod lexical;
pub mod parse;
pub mod render;
pub mod syntax;
pub mod text;

use crate::html::document_text;
use crate::lex::{stopped_as, LexError, Lexer};
use crate::lexical::lex;
use crate::parse::Parser;
use crate::syntax::parse_tokens;
use vstd::prelude::*;

verus! {

/// Compiles a source text to HTML: the text is lexed, the tokens are parsed,
/// and the node tree is rendered.
///
/// Where the lexer stops before the end of the text, the tokens up to there
/// are compiled, and the second result says why and where it stopped.
pub fn compile(src: String) -> (out: (String, Option<LexError>))
    ensures
        out.0@ == document_text(parse_tokens(lex(src@).tokens)),
        stopped_as(out.1, lex(src@), src@),
{
    let mut lexer = Lexer::new(src);
    lexer.tokenize();
    let error = lexer.error();
    let tokens = lexer.get_tokens();
    let mut parser = Parser::new(tokens);
    let nodes = parser.parse();
    (render::render(nodes), error)
}

} // verus!
