//! The lexical rules: which tokens a source text consists of.
//!
//! Positions are indices into the sequence of the text's characters; the span
//! of a token is given in bytes of its UTF-8 form, through [`offset`].
use crate::lex::{SpecToken, SpecTokenType};
use crate::text::{is_blank, is_letter, offset, run_len, CharClass};
use vstd::prelude::*;

verus! {

/// Why the lexer stopped before the end of the text.
#[derive(Clone, Copy, PartialEq, Eq, Debug, Structural)]
pub enum LexErrorKind {
    /// The text ended inside a parenthesised attribute list.
    UnclosedAttributes,
    /// A quoted attribute value has no closing quote.
    UnclosedQuote,
    /// A character that no token starts with.
    UnexpectedChar,
}

/// The token of kind `ty` read from the characters `from..to` of `src`.
pub open spec fn spanning(src: Seq<char>, ty: SpecTokenType, from: int, to: int) -> SpecToken {
    SpecToken { ty, start: offset(src, from), end: offset(src, to) }
}

/// The number of characters from index `i` to the end of `src`.
pub open spec fn left(src: Seq<char>, i: int) -> nat {
    if 0 <= i < src.len() {
        (src.len() - i) as nat
    } else {
        0
    }
}

/// What was read in one place: the tokens, the number of characters taken,
/// and the reason to stop, if there is one.
pub struct Scan {
    pub tokens: Seq<SpecToken>,
    pub len: nat,
    pub stop: Option<LexErrorKind>,
}

/// An element name at index `i`: a letter and the name characters after it.
pub open spec fn tag_at(src: Seq<char>, i: int) -> Scan {
    let n = 1 + run_len(src, i + 1, CharClass::Name);
    Scan {
        tokens: seq![spanning(src, SpecTokenType::Tag(src.subrange(i, i + n)), i, i + n)],
        len: n,
        stop: None,
    }
}

/// A line of text at index `i`. The marker is the first character, or `| `;
/// the body runs to the end of the line. An empty body gives no token.
pub open spec fn text_at(src: Seq<char>, i: int) -> Scan {
    let marker: nat = if src[i] == '|' && i + 1 < src.len() && src[i + 1] == ' ' {
        2
    } else {
        1
    };
    let n = run_len(src, i + marker, CharClass::Except('\n'));
    let body = src.subrange(i + marker, i + marker + n);
    Scan {
        tokens: if n > 0 {
            seq![spanning(src, SpecTokenType::Text(body), i, i + marker + n)]
        } else {
            seq![]
        },
        len: marker + n,
        stop: None,
    }
}

/// `#name` or `.name` at index `i`. Without a name there is no token.
pub open spec fn selector_at(src: Seq<char>, i: int) -> Scan {
    let n = run_len(src, i + 1, CharClass::Name);
    let name = src.subrange(i + 1, i + 1 + n);
    let ty = if src[i] == '#' {
        SpecTokenType::Id(name)
    } else {
        SpecTokenType::Class(name)
    };
    Scan {
        tokens: if n > 0 {
            seq![spanning(src, ty, i, i + 1 + n)]
        } else {
            seq![]
        },
        len: 1 + n,
        stop: None,
    }
}

/// `/` at index `i`.
pub open spec fn slash_at(src: Seq<char>, i: int) -> Scan {
    Scan { tokens: seq![spanning(src, SpecTokenType::Slash, i, i + 1)], len: 1, stop: None }
}

/// `:` at index `i`, with the spaces after it.
pub open spec fn colon_at(src: Seq<char>, i: int) -> Scan {
    Scan {
        tokens: seq![spanning(src, SpecTokenType::Colon, i, i + 1)],
        len: 1 + run_len(src, i + 1, CharClass::Only(' ')),
        stop: None,
    }
}

/// The value of an attribute, the number of characters that it takes behind
/// the name, and whether it opens a quote that is not closed.
pub struct ValueScan {
    pub value: Seq<char>,
    pub len: nat,
    pub unclosed: bool,
}

/// What stands behind an attribute's name, which ends at index `p`.
///
/// Whitespace is taken and leaves the value empty. `=` is followed by
/// whitespace, which is taken and leaves the value empty; by a value in
/// single or double quotes, which ends at the next such quote; or by a value
/// that runs up to whitespace or `)`. Anything else leaves the value empty,
/// and nothing is taken.
pub open spec fn value_at(src: Seq<char>, p: int) -> ValueScan {
    let none = Seq::<char>::empty();
    if 0 <= p < src.len() && is_blank(src[p]) {
        ValueScan { value: none, len: run_len(src, p, CharClass::Blank), unclosed: false }
    } else if 0 <= p < src.len() && src[p] == '=' {
        let q = p + 1;
        if q < src.len() && is_blank(src[q]) {
            ValueScan { value: none, len: 1 + run_len(src, q, CharClass::Blank), unclosed: false }
        } else if q < src.len() && (src[q] == '"' || src[q] == '\'') {
            let n = run_len(src, q + 1, CharClass::Except(src[q]));
            if q + 1 + n < src.len() {
                ValueScan { value: src.subrange(q + 1, q + 1 + n), len: n + 3, unclosed: false }
            } else {
                ValueScan { value: none, len: 1, unclosed: true }
            }
        } else {
            let n = run_len(src, q, CharClass::Value);
            ValueScan { value: src.subrange(q, q + n), len: 1 + n, unclosed: false }
        }
    } else {
        ValueScan { value: none, len: 0, unclosed: false }
    }
}

/// The rest of an attribute list, from index `j` behind the `(`.
///
/// Whitespace is skipped; a letter starts an attribute; `)` closes the list;
/// any other character ends the list and is left where it is. The end of the
/// text and an unclosed quote stop the lexer.
pub open spec fn attrs_from(src: Seq<char>, j: int) -> Scan
    decreases left(src, j),
{
    if !(0 <= j < src.len()) {
        Scan { tokens: seq![], len: 0, stop: Some(LexErrorKind::UnclosedAttributes) }
    } else if src[j] == ')' {
        Scan { tokens: seq![], len: 1, stop: None }
    } else if is_blank(src[j]) {
        let w = 1 + run_len(src, j + 1, CharClass::Blank);
        let rest = attrs_from(src, j + w);
        Scan { tokens: rest.tokens, len: w + rest.len, stop: rest.stop }
    } else if is_letter(src[j]) {
        let n = 1 + run_len(src, j + 1, CharClass::Name);
        let v = value_at(src, j + n);
        if v.unclosed {
            Scan { tokens: seq![], len: n + v.len, stop: Some(LexErrorKind::UnclosedQuote) }
        } else {
            let ty = SpecTokenType::Attr(src.subrange(j, j + n), v.value);
            let rest = attrs_from(src, j + n + v.len);
            Scan {
                tokens: seq![spanning(src, ty, j, j + n + v.len)] + rest.tokens,
                len: n + v.len + rest.len,
                stop: rest.stop,
            }
        }
    } else {
        Scan { tokens: seq![], len: 0, stop: None }
    }
}

/// `(` at index `i`, and the attribute list behind it.
pub open spec fn attrs_at(src: Seq<char>, i: int) -> Scan {
    let list = attrs_from(src, i + 1);
    Scan { tokens: list.tokens, len: 1 + list.len, stop: list.stop }
}

/// How many levels a line of indentation `level` leaves: the entries at the
/// top of `levels` that are greater than `level`.
pub open spec fn levels_left(levels: Seq<nat>, level: nat) -> nat
    decreases levels.len(),
{
    if levels.len() > 0 && levels.last() > level {
        1 + levels_left(levels.drop_last(), level)
    } else {
        0
    }
}

/// The deepest open indentation level: the last of `levels`, or 0.
pub open spec fn top_level(levels: Seq<nat>) -> nat {
    if levels.len() > 0 {
        levels.last()
    } else {
        0
    }
}

/// The indentation levels after a line feed at index `i`.
///
/// A deeper line opens a level; a shallower one leaves every level that is
/// deeper than itself.
pub open spec fn levels_after(src: Seq<char>, i: int, levels: Seq<nat>) -> Seq<nat> {
    let level = run_len(src, i + 1, CharClass::Only(' '));
    if level > top_level(levels) {
        levels.push(level)
    } else {
        levels.take(levels.len() - levels_left(levels, level))
    }
}

/// A line feed at index `i`, with the spaces that indent the next line. After
/// the `NewLine` comes one `Indent`, or one `Outdent` for each level left;
/// their span is that of the spaces.
pub open spec fn newline_at(src: Seq<char>, i: int, levels: Seq<nat>) -> Scan {
    let level = run_len(src, i + 1, CharClass::Only(' '));
    let newline = spanning(src, SpecTokenType::NewLine, i, i + 1);
    let indent = spanning(src, SpecTokenType::Indent, i + 1, i + 1 + level);
    let outdent = spanning(src, SpecTokenType::Outdent, i + 1, i + 1 + level);
    Scan {
        tokens: if level > top_level(levels) {
            seq![newline, indent]
        } else {
            seq![newline] + Seq::new(levels_left(levels, level), |k: int| outdent)
        },
        len: 1 + level,
        stop: None,
    }
}

/// What is read at index `i`, by the character that stands there.
pub open spec fn scan_at(src: Seq<char>, i: int, levels: Seq<nat>) -> Scan {
    let c = src[i];
    if is_letter(c) {
        tag_at(src, i)
    } else if c == '\n' {
        newline_at(src, i, levels)
    } else if c == ' ' || c == '|' {
        text_at(src, i)
    } else if c == '#' || c == '.' {
        selector_at(src, i)
    } else if c == '(' {
        attrs_at(src, i)
    } else if c == '/' {
        slash_at(src, i)
    } else if c == ':' {
        colon_at(src, i)
    } else {
        Scan { tokens: seq![], len: 0, stop: Some(LexErrorKind::UnexpectedChar) }
    }
}

/// The indentation levels after what is read at index `i`.
pub open spec fn levels_at(src: Seq<char>, i: int, levels: Seq<nat>) -> Seq<nat> {
    if src[i] == '\n' {
        levels_after(src, i, levels)
    } else {
        levels
    }
}

/// The outcome of lexing: the tokens, the indentation levels that are open at
/// the end, the index at which the lexer ended, and why it stopped there if
/// that is not the end of the text.
pub struct Lexed {
    pub tokens: Seq<SpecToken>,
    pub levels: Seq<nat>,
    pub cursor: int,
    pub stop: Option<LexErrorKind>,
}

/// Lexing from index `i` on, with the indentation `levels` open.
pub open spec fn lex_from(src: Seq<char>, i: int, levels: Seq<nat>) -> Lexed
    decreases left(src, i),
{
    if !(0 <= i < src.len()) {
        Lexed { tokens: seq![], levels, cursor: i, stop: None }
    } else {
        let scan = scan_at(src, i, levels);
        if scan.stop is Some {
            Lexed { tokens: scan.tokens, levels, cursor: i + scan.len, stop: scan.stop }
        } else {
            let rest = lex_from(src, i + scan.len, levels_at(src, i, levels));
            Lexed {
                tokens: scan.tokens + rest.tokens,
                levels: rest.levels,
                cursor: rest.cursor,
                stop: rest.stop,
            }
        }
    }
}

/// The characters that a doctype line starts with.
pub open spec fn doctype_word() -> Seq<char> {
    seq!['d', 'o', 'c', 't', 'y', 'p', 'e', ' ']
}

/// The length of the first line of `src`, without its line feed.
pub open spec fn first_line_len(src: Seq<char>) -> nat {
    run_len(src, 0, CharClass::Except('\n'))
}

/// Whether the first line of `src` is `doctype `, followed by a name.
pub open spec fn has_doctype(src: Seq<char>) -> bool {
    first_line_len(src) > 8 && src.subrange(0, 8) == doctype_word()
}

/// The tokens of `src`.
///
/// A doctype line is taken whole, with its line feed; from there on the text
/// is read place by place, starting at indentation 0.
pub open spec fn lex(src: Seq<char>) -> Lexed {
    if has_doctype(src) {
        let n = first_line_len(src);
        let next = if n < src.len() {
            n + 1
        } else {
            n
        };
        let rest = lex_from(src, next as int, seq![0nat]);
        Lexed {
            tokens: seq![spanning(src, SpecTokenType::Doctype(src.subrange(8, n as int)), 0, n as int)]
                + rest.tokens,
            levels: rest.levels,
            cursor: rest.cursor,
            stop: rest.stop,
        }
    } else {
        lex_from(src, 0, seq![0nat])
    }
}

} // verus!
